use raft::log::Log;
use raft::types::{LogEntry, LogEntryData};

fn entry(term: u64, index: u64) -> LogEntry {
    LogEntry { term, index, data: LogEntryData::Noop }
}

#[test]
fn empty_log() {
    let log = Log::empty();
    assert_eq!(log.last_index(), 0);
    assert_eq!(log.last_term(), 0);
    assert!(log.entry_at(0).is_none());
    assert!(log.entry_at(1).is_none());
    assert!(log.term_at(1).is_none());
}

#[test]
fn append_and_lookup() {
    let mut log = Log::empty();
    log.append(entry(1, 1));
    log.append(entry(1, 2));
    log.append(entry(3, 3));
    assert_eq!(log.last_index(), 3);
    assert_eq!(log.last_term(), 3);
    assert_eq!(log.term_at(1), Some(1));
    assert_eq!(log.term_at(2), Some(1));
    assert_eq!(log.term_at(3), Some(3));
    assert!(log.term_at(4).is_none());
    let e = log.entry_at(2).unwrap();
    assert_eq!(e.index, 2);
}

#[test]
fn truncate_after_drops_suffix_only() {
    let mut log = Log::empty();
    log.append(entry(1, 1));
    log.append(entry(2, 2));
    log.append(entry(2, 3));
    log.truncate_after(1);
    assert_eq!(log.last_index(), 1);
    assert_eq!(log.term_at(1), Some(1));
    assert!(log.entry_at(2).is_none());
    // Truncating at or past the end changes nothing.
    log.truncate_after(9);
    assert_eq!(log.last_index(), 1);
    // Indices may be reused after a truncation.
    log.append(entry(5, 2));
    assert_eq!(log.term_at(2), Some(5));
}

#[test]
fn command_payload_round_trip() {
    let mut log = Log::empty();
    log.append(LogEntry { term: 1, index: 1, data: LogEntryData::Command(vec![7, 8, 9]) });
    let e = log.entry_at(1).unwrap();
    assert_eq!(e.data, LogEntryData::Command(vec![7, 8, 9]));
    let copy = e.clone();
    assert_eq!(copy.data, LogEntryData::Command(vec![7, 8, 9]));
}
