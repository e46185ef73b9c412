//! Core data model: log entries, persistent metadata, and cluster
//! configuration snapshots.
use vstd::prelude::*;

verus! {

/// Unique 64-bit identifier of a server, assigned once and then immutable.
pub type ServerId = u64;

/// 64-bit value chosen once at cluster bootstrap; all members agree on it.
pub type ClusterId = u64;

/// Monotonically increasing logical clock bounding leadership epochs.
pub type Term = u64;

/// Position in the replicated log; the first entry has index 1.
pub type LogIndex = u64;

/// A single-entry cluster membership change.
#[derive(Clone, Copy, PartialEq, Eq, Structural, Debug)]
pub enum ConfigChange {
    AddMember(ServerId),
    RemoveMember(ServerId),
}

/// Payload of a log entry: a no-op, an opaque state-machine command, or a
/// membership change.
#[derive(Debug, PartialEq)]
pub enum LogEntryData {
    Noop,
    Command(Vec<u8>),
    Config(ConfigChange),
}

/// Mathematical model of a log entry payload.
pub enum LogEntryDataV {
    Noop,
    Command(Seq<u8>),
    Config(ConfigChange),
}

impl View for LogEntryData {
    type V = LogEntryDataV;

    open spec fn view(&self) -> LogEntryDataV {
        match self {
            LogEntryData::Noop => LogEntryDataV::Noop,
            LogEntryData::Command(bytes) => LogEntryDataV::Command(bytes@),
            LogEntryData::Config(c) => LogEntryDataV::Config(*c),
        }
    }
}

impl Clone for LogEntryData {
    /// A clone carries the same payload.
    fn clone(&self) -> (r: LogEntryData)
        ensures
            r@ == self@,
    {
        match self {
            LogEntryData::Noop => LogEntryData::Noop,
            LogEntryData::Command(bytes) => {
                let copy = bytes.clone();
                proof {
                    assert(copy@ =~= bytes@);
                }
                LogEntryData::Command(copy)
            },
            LogEntryData::Config(c) => LogEntryData::Config(*c),
        }
    }
}

/// One entry of the replicated log.
#[derive(Debug, PartialEq)]
pub struct LogEntry {
    pub term: Term,
    pub index: LogIndex,
    pub data: LogEntryData,
}

impl Clone for LogEntry {
    /// A clone carries the same term, index and payload.
    fn clone(&self) -> (r: LogEntry)
        ensures
            r@ == self@,
    {
        LogEntry { term: self.term, index: self.index, data: self.data.clone() }
    }
}

/// Mathematical model of a log entry.
pub struct LogEntryV {
    pub term: Term,
    pub index: LogIndex,
    pub data: LogEntryDataV,
}

impl View for LogEntry {
    type V = LogEntryV;

    open spec fn view(&self) -> LogEntryV {
        LogEntryV { term: self.term, index: self.index, data: self.data@ }
    }
}

/// Raft-persistent per-node state. `current_term` and `voted_for` must be
/// durable before a vote is granted or cast.
#[derive(Clone, Copy, Debug)]
pub struct Metadata {
    pub current_term: Term,
    pub voted_for: Option<ServerId>,
    pub commit_index: LogIndex,
}

impl Metadata {
    /// Empty persistent state of a brand-new node.
    pub fn empty() -> (r: Metadata)
        ensures
            r.current_term == 0,
            r.voted_for is None,
            r.commit_index == 0,
    {
        Metadata { current_term: 0, voted_for: None, commit_index: 0 }
    }
}

/// Durable identity record of a node: written last among the durable files,
/// so its presence marks a fully initialized data directory.
#[derive(Clone, Copy, Debug)]
pub struct ServerMetadata {
    pub id: ServerId,
    pub cluster_id: ClusterId,
    pub meta: Metadata,
}

} // verus!
