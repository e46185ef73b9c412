//! Node startup: deciding between recovery, bootstrap and join, building
//! the initial durable state, and the write order of the durable files.
//!
//! The process performs the actual file and network I/O; this module makes
//! every decision and fixes the order. On first-time setup the metadata
//! file is written last: its presence on disk is the commit marker for a
//! complete, trustworthy data directory.
use vstd::prelude::*;

use crate::log::Log;
use crate::types::{
    ClusterId, ConfigChange, LogEntry, LogEntryData, LogEntryV, LogEntryDataV, LogIndex, Metadata,
    ServerId, ServerMetadata,
};

verus! {

/// What a starting node must do, decided from what is on disk and on the
/// command line.
#[derive(Clone, Copy, PartialEq, Eq, Structural, Debug)]
pub enum StartupPlan {
    /// A metadata file exists: reload the durable state and rejoin as an
    /// existing member. A bootstrap flag is ignored.
    Recover,
    /// Fresh directory, bootstrap requested: become node 1 of a brand-new
    /// cluster.
    Bootstrap,
    /// Fresh directory: obtain an id and a cluster id from an existing
    /// cluster before writing anything durable.
    Join,
}

/// A fatal condition found while sequencing startup.
#[derive(Clone, Copy, PartialEq, Eq, Structural, Debug)]
pub enum StartupError {
    /// The state machine carries applied data but the metadata file is
    /// missing: the directory cannot be trusted and startup must abort.
    UntrustedStateMachine,
}

/// Decides the startup plan. A present metadata file always means
/// recovery, whatever the flags say. Without one, state-machine data with
/// `last_applied > 0` is untrustworthy and fatal; otherwise the bootstrap
/// flag picks between founding a cluster and joining one.
pub fn plan_startup(meta_exists: bool, bootstrap: bool, last_applied: LogIndex) -> (r: Result<
    StartupPlan,
    StartupError,
>)
    ensures
        meta_exists ==> r == Ok::<StartupPlan, StartupError>(StartupPlan::Recover),
        !meta_exists && last_applied > 0 ==> r == Err::<StartupPlan, StartupError>(
            StartupError::UntrustedStateMachine,
        ),
        !meta_exists && last_applied == 0 && bootstrap ==> r == Ok::<StartupPlan, StartupError>(
            StartupPlan::Bootstrap,
        ),
        !meta_exists && last_applied == 0 && !bootstrap ==> r == Ok::<StartupPlan, StartupError>(
            StartupPlan::Join,
        ),
{
    if meta_exists {
        Ok(StartupPlan::Recover)
    } else if last_applied > 0 {
        Err(StartupError::UntrustedStateMachine)
    } else if bootstrap {
        Ok(StartupPlan::Bootstrap)
    } else {
        Ok(StartupPlan::Join)
    }
}

/// The durable identity and log of the first node of a new cluster:
/// id 1, and a log holding the one membership change that makes node 1 a
/// member, at term 1, index 1.
pub fn bootstrap_state(cluster_id: ClusterId) -> (r: (ServerMetadata, Log))
    ensures
        r.0.id == 1,
        r.0.cluster_id == cluster_id,
        r.0.meta.current_term == 0,
        r.0.meta.voted_for is None,
        r.0.meta.commit_index == 0,
        r.1@ == seq![
            LogEntryV { term: 1, index: 1, data: LogEntryDataV::Config(ConfigChange::AddMember(1)) },
        ],
        r.1.wf(),
{
    let meta = ServerMetadata { id: 1, cluster_id, meta: Metadata::empty() };
    let mut log = Log::empty();
    log.append(
        LogEntry { term: 1, index: 1, data: LogEntryData::Config(ConfigChange::AddMember(1)) },
    );
    proof {
        assert(log@ =~= seq![
            LogEntryV { term: 1, index: 1, data: LogEntryDataV::Config(ConfigChange::AddMember(1)) },
        ]);
    }
    (meta, log)
}

/// Relies on `rand::random`: a 64-bit value drawn from the thread's
/// generator. Nothing is promised of the value.
#[verifier::external_body]
fn fresh_cluster_id() -> ClusterId {
    rand::random::<u64>()
}

/// The durable identity of the first node of a new cluster, under a
/// freshly drawn cluster id. Every node of the cluster must agree on that
/// id; later joiners learn it through discovery.
pub fn bootstrap_node() -> (r: (ServerMetadata, Log))
    ensures
        r.0.id == 1,
        r.0.meta.current_term == 0,
        r.0.meta.voted_for is None,
        r.0.meta.commit_index == 0,
        r.1@ == seq![
            LogEntryV { term: 1, index: 1, data: LogEntryDataV::Config(ConfigChange::AddMember(1)) },
        ],
        r.1.wf(),
{
    let cluster_id = fresh_cluster_id();
    bootstrap_state(cluster_id)
}

/// The durable identity of a node that joined an existing cluster: the
/// log index returned by the no-op proposal is the assigned id, and the
/// cluster id was learned through discovery. The joiner starts with an
/// empty log; the leader fills it through replication.
pub fn joined_state(assigned_id: ServerId, cluster_id: ClusterId) -> (r: ServerMetadata)
    requires
        assigned_id >= 1,
    ensures
        r.id == assigned_id,
        r.cluster_id == cluster_id,
        r.meta.current_term == 0,
        r.meta.voted_for is None,
        r.meta.commit_index == 0,
{
    ServerMetadata { id: assigned_id, cluster_id, meta: Metadata::empty() }
}

/// Tracks the first-time write of the durable files. The process pairs
/// each real file operation with the matching step here, and the
/// contracts only admit the safe order: first the purge of any leftover
/// partial files from an earlier interrupted setup, then the log, the
/// configuration snapshot and the routes snapshot in any order, and the
/// metadata file last, once all of them are on disk. Its presence is
/// therefore the commit marker for a complete, freshly written set.
pub struct InitWriter {
    pub purged: bool,
    pub log_written: bool,
    pub config_written: bool,
    pub routes_written: bool,
    pub meta_written: bool,
}

impl InitWriter {
    /// Durability ordering: the metadata file exists only over a complete
    /// set of the other durable files, all written after the purge.
    pub open spec fn inv(&self) -> bool {
        &&& self.meta_written ==> self.log_written && self.config_written && self.routes_written
        &&& (self.log_written || self.config_written || self.routes_written || self.meta_written)
            ==> self.purged
    }

    /// A fresh directory: nothing purged, nothing written yet.
    pub fn new() -> (r: InitWriter)
        ensures
            !r.purged,
            !r.log_written,
            !r.config_written,
            !r.routes_written,
            !r.meta_written,
            r.inv(),
    {
        InitWriter {
            purged: false,
            log_written: false,
            config_written: false,
            routes_written: false,
            meta_written: false,
        }
    }

    /// Leftover partial files from an earlier interrupted setup have
    /// been deleted. Only a directory without a metadata file is ever
    /// purged — a complete set is recovered, never deleted — and the
    /// purge comes before any new file is created, so stale state never
    /// leaks into the new instance.
    pub fn purge(&mut self)
        requires
            old(self).inv(),
            !old(self).log_written,
            !old(self).config_written,
            !old(self).routes_written,
            !old(self).meta_written,
        ensures
            final(self).inv(),
            final(self).purged,
            !final(self).log_written,
            !final(self).config_written,
            !final(self).routes_written,
            !final(self).meta_written,
    {
        self.purged = true;
    }

    /// The log file has been written and flushed.
    pub fn write_log(&mut self)
        requires
            old(self).inv(),
            old(self).purged,
            !old(self).meta_written,
        ensures
            final(self).inv(),
            final(self).purged,
            final(self).log_written,
            final(self).config_written == old(self).config_written,
            final(self).routes_written == old(self).routes_written,
            !final(self).meta_written,
    {
        self.log_written = true;
    }

    /// The configuration snapshot has been written.
    pub fn write_config(&mut self)
        requires
            old(self).inv(),
            old(self).purged,
            !old(self).meta_written,
        ensures
            final(self).inv(),
            final(self).purged,
            final(self).config_written,
            final(self).log_written == old(self).log_written,
            final(self).routes_written == old(self).routes_written,
            !final(self).meta_written,
    {
        self.config_written = true;
    }

    /// The routes snapshot has been written.
    pub fn write_routes(&mut self)
        requires
            old(self).inv(),
            old(self).purged,
            !old(self).meta_written,
        ensures
            final(self).inv(),
            final(self).purged,
            final(self).routes_written,
            final(self).log_written == old(self).log_written,
            final(self).config_written == old(self).config_written,
            !final(self).meta_written,
    {
        self.routes_written = true;
    }

    /// The metadata file is written last: only admitted once every other
    /// durable file is on disk, which makes its presence the commit
    /// marker.
    pub fn write_meta(&mut self)
        requires
            old(self).inv(),
            old(self).log_written,
            old(self).config_written,
            old(self).routes_written,
        ensures
            final(self).inv(),
            final(self).meta_written,
            final(self).purged,
            final(self).log_written,
            final(self).config_written,
            final(self).routes_written,
    {
        self.meta_written = true;
    }

    /// Whether the directory holds a complete, trustworthy set of durable
    /// files: exactly the presence of the metadata file.
    pub fn fully_initialized(&self) -> (r: bool)
        ensures
            r == self.meta_written,
    {
        self.meta_written
    }
}

/// Durability ordering: a metadata file's existence implies the log, the
/// configuration snapshot and the routes snapshot are also present, and
/// all of them were written after leftover partial files were purged.
/// Every write path preserves `inv`, so this holds of any reachable
/// tracker state.
pub proof fn lemma_meta_is_commit_marker(w: InitWriter)
    requires
        w.inv(),
        w.meta_written,
    ensures
        w.log_written,
        w.config_written,
        w.routes_written,
        w.purged,
{
}

} // verus!
