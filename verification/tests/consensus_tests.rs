use raft::consensus::{
    AppendEntriesRequest, AppendEntriesResponse, ConfigurationSnapshot, Consensus, RaftError, Role,
    VoteRequest, VoteResponse,
};
use raft::log::Log;
use raft::types::{ConfigChange, LogEntry, LogEntryData, Metadata, ServerId};

fn entry(term: u64, index: u64) -> LogEntry {
    LogEntry { term, index, data: LogEntryData::Noop }
}

fn follower(id: ServerId, term: u64, log: Log, members: Vec<ServerId>) -> Consensus {
    let meta = Metadata { current_term: term, voted_for: None, commit_index: 0 };
    let config = ConfigurationSnapshot { members, learners: Vec::new(), last_applied: 0 };
    Consensus::new(id, 7, meta, log, config)
}

fn log_of(terms: &[u64]) -> Log {
    let mut log = Log::empty();
    let mut index: u64 = 1;
    for &t in terms {
        log.append(entry(t, index));
        index += 1;
    }
    log
}

#[test]
fn request_vote_stale_term_rejected_and_state_unchanged() {
    let mut node = follower(2, 5, Log::empty(), vec![1, 2]);
    let req = VoteRequest { term: 3, candidate_id: 1, last_log_index: 10, last_log_term: 3 };
    let resp = node.handle_request_vote(&req);
    assert!(!resp.granted);
    assert_eq!(resp.term, 5);
    assert_eq!(node.meta.current_term, 5);
    assert_eq!(node.meta.voted_for, None);
}

#[test]
fn request_vote_granted_to_up_to_date_candidate() {
    let mut node = follower(2, 1, log_of(&[1, 1]), vec![1, 2]);
    let req = VoteRequest { term: 2, candidate_id: 1, last_log_index: 2, last_log_term: 1 };
    let resp = node.handle_request_vote(&req);
    assert!(resp.granted);
    assert_eq!(resp.term, 2);
    assert_eq!(node.meta.current_term, 2);
    assert_eq!(node.meta.voted_for, Some(1));
}

#[test]
fn request_vote_refused_when_log_behind() {
    // Candidate's last entry has an older term than the voter's log.
    let mut node = follower(2, 2, log_of(&[1, 2]), vec![1, 2]);
    let req = VoteRequest { term: 3, candidate_id: 1, last_log_index: 5, last_log_term: 1 };
    let resp = node.handle_request_vote(&req);
    assert!(!resp.granted);
    assert_eq!(node.meta.current_term, 3);
}

#[test]
fn one_vote_per_term() {
    let mut node = follower(3, 0, Log::empty(), vec![1, 2, 3]);
    let first = node.handle_request_vote(&VoteRequest {
        term: 1,
        candidate_id: 1,
        last_log_index: 0,
        last_log_term: 0,
    });
    assert!(first.granted);
    let second = node.handle_request_vote(&VoteRequest {
        term: 1,
        candidate_id: 2,
        last_log_index: 0,
        last_log_term: 0,
    });
    assert!(!second.granted);
    assert_eq!(node.meta.voted_for, Some(1));
    // The same candidate may ask again and keeps its vote.
    let again = node.handle_request_vote(&VoteRequest {
        term: 1,
        candidate_id: 1,
        last_log_index: 0,
        last_log_term: 0,
    });
    assert!(again.granted);
}

#[test]
fn vote_reject_reasons() {
    let mut node = follower(3, 4, Log::empty(), vec![1, 2, 3]);
    let stale = VoteRequest { term: 3, candidate_id: 1, last_log_index: 0, last_log_term: 0 };
    assert_eq!(node.vote_reject_reason(&stale), Some(RaftError::StaleTerm));
    let good = VoteRequest { term: 4, candidate_id: 1, last_log_index: 0, last_log_term: 0 };
    assert_eq!(node.vote_reject_reason(&good), None);
    let granted = node.handle_request_vote(&good);
    assert!(granted.granted);
    let conflict = VoteRequest { term: 4, candidate_id: 2, last_log_index: 0, last_log_term: 0 };
    assert_eq!(node.vote_reject_reason(&conflict), Some(RaftError::ConflictingVote));
}

#[test]
fn append_entries_beyond_log_end_rejected() {
    let mut node = follower(2, 1, Log::empty(), vec![1, 2]);
    let req = AppendEntriesRequest {
        term: 1,
        leader_id: 1,
        prev_log_index: 5,
        prev_log_term: 1,
        entries: vec![entry(1, 6)],
        leader_commit: 5,
    };
    let resp = node.handle_append_entries(&req);
    assert!(!resp.success);
    assert_eq!(node.log.last_index(), 0);
    assert_eq!(node.meta.commit_index, 0);
}

#[test]
fn append_entries_stale_term_rejected() {
    let mut node = follower(2, 5, log_of(&[1, 2]), vec![1, 2]);
    let req = AppendEntriesRequest {
        term: 4,
        leader_id: 1,
        prev_log_index: 0,
        prev_log_term: 0,
        entries: vec![],
        leader_commit: 2,
    };
    let resp = node.handle_append_entries(&req);
    assert!(!resp.success);
    assert_eq!(resp.term, 5);
    assert_eq!(node.meta.current_term, 5);
    assert_eq!(node.log.last_index(), 2);
}

#[test]
fn append_entries_appends_and_commits() {
    let mut node = follower(2, 0, Log::empty(), vec![1, 2]);
    let req = AppendEntriesRequest {
        term: 1,
        leader_id: 1,
        prev_log_index: 0,
        prev_log_term: 0,
        entries: vec![entry(1, 1), entry(1, 2)],
        leader_commit: 1,
    };
    let resp = node.handle_append_entries(&req);
    assert!(resp.success);
    assert_eq!(node.log.last_index(), 2);
    assert_eq!(node.meta.commit_index, 1);
    assert_eq!(node.role, Role::Follower);
    assert_eq!(node.leader_hint, Some(1));
    let e = node.log.entry_at(2).unwrap();
    assert_eq!(e.term, 1);
    assert_eq!(e.index, 2);
}

#[test]
fn append_entries_truncates_conflicting_suffix() {
    // Follower holds [t1, t1, t2]; the leader replaces everything after
    // the first entry with a t3 entry.
    let mut node = follower(2, 2, log_of(&[1, 1, 2]), vec![1, 2]);
    let req = AppendEntriesRequest {
        term: 3,
        leader_id: 1,
        prev_log_index: 1,
        prev_log_term: 1,
        entries: vec![LogEntry { term: 3, index: 2, data: LogEntryData::Command(vec![9]) }],
        leader_commit: 0,
    };
    let resp = node.handle_append_entries(&req);
    assert!(resp.success);
    assert_eq!(node.log.last_index(), 2);
    assert_eq!(node.log.entry_at(1).unwrap().term, 1);
    let e = node.log.entry_at(2).unwrap();
    assert_eq!(e.term, 3);
    assert_eq!(e.data, LogEntryData::Command(vec![9]));
}

#[test]
fn commit_consistency_check_spots_conflicts_below_commit() {
    // Follower committed [t1, t1]; entries agreeing on the committed
    // prefix pass, a conflicting term below the commit index does not.
    let mut node = follower(2, 1, log_of(&[1, 1]), vec![1, 2]);
    node.meta.commit_index = 2;
    let agreeing = AppendEntriesRequest {
        term: 1,
        leader_id: 1,
        prev_log_index: 0,
        prev_log_term: 0,
        entries: vec![entry(1, 1), entry(1, 2), entry(1, 3)],
        leader_commit: 2,
    };
    assert!(node.append_consistent_with_commit(&agreeing));
    let conflicting = AppendEntriesRequest {
        term: 2,
        leader_id: 3,
        prev_log_index: 1,
        prev_log_term: 1,
        entries: vec![entry(2, 2)],
        leader_commit: 1,
    };
    assert!(!node.append_consistent_with_commit(&conflicting));
    // Beyond the committed prefix the same conflict is fine.
    node.meta.commit_index = 1;
    assert!(node.append_consistent_with_commit(&conflicting));
}

#[test]
fn append_entries_already_present_is_idempotent() {
    let mut node = follower(2, 1, log_of(&[1, 1, 1]), vec![1, 2]);
    let req = AppendEntriesRequest {
        term: 1,
        leader_id: 1,
        prev_log_index: 1,
        prev_log_term: 1,
        entries: vec![entry(1, 2)],
        leader_commit: 0,
    };
    let resp = node.handle_append_entries(&req);
    assert!(resp.success);
    // Nothing truncated: the third entry survives.
    assert_eq!(node.log.last_index(), 3);
}

#[test]
fn append_entries_commit_capped_by_last_new_entry() {
    let mut node = follower(2, 0, Log::empty(), vec![1, 2]);
    let req = AppendEntriesRequest {
        term: 1,
        leader_id: 1,
        prev_log_index: 0,
        prev_log_term: 0,
        entries: vec![entry(1, 1)],
        leader_commit: 100,
    };
    let resp = node.handle_append_entries(&req);
    assert!(resp.success);
    assert_eq!(node.meta.commit_index, 1);
}

#[test]
fn propose_on_non_leader_redirects() {
    let mut node = follower(2, 1, Log::empty(), vec![1, 2]);
    node.leader_hint = Some(1);
    let r = node.propose(LogEntryData::Noop);
    assert_eq!(r, Err(RaftError::NotLeader(Some(1))));
    assert_eq!(node.log.last_index(), 0);
}

#[test]
fn election_single_node_cluster() {
    let mut node = follower(1, 0, Log::empty(), vec![1]);
    let req = node.start_election();
    assert_eq!(req.term, 1);
    assert_eq!(req.candidate_id, 1);
    assert_eq!(node.role, Role::Candidate);
    assert_eq!(node.meta.voted_for, Some(1));
    // Its own recorded vote is already a strict majority of {1}.
    let became = node.record_vote(1, &VoteResponse { term: 1, granted: true });
    assert!(became);
    assert_eq!(node.role, Role::Leader);
}

#[test]
fn votes_from_non_members_never_elect() {
    let mut node = follower(1, 0, Log::empty(), vec![1, 2, 3]);
    node.start_election();
    let became = node.record_vote(9, &VoteResponse { term: 1, granted: true });
    assert!(!became);
    // A member's vote completes the majority: {1, 2} out of {1, 2, 3}.
    let became = node.record_vote(2, &VoteResponse { term: 1, granted: true });
    assert!(became);
}

#[test]
fn duplicate_votes_counted_once() {
    let mut node = follower(1, 0, Log::empty(), vec![1, 2, 3, 4, 5]);
    node.start_election();
    assert!(!node.record_vote(2, &VoteResponse { term: 1, granted: true }));
    assert!(!node.record_vote(2, &VoteResponse { term: 1, granted: true }));
    assert!(node.record_vote(3, &VoteResponse { term: 1, granted: true }));
}

#[test]
fn newer_term_in_vote_response_demotes() {
    let mut node = follower(1, 0, Log::empty(), vec![1, 2, 3]);
    node.start_election();
    let became = node.record_vote(2, &VoteResponse { term: 8, granted: false });
    assert!(!became);
    assert_eq!(node.role, Role::Follower);
    assert_eq!(node.meta.current_term, 8);
}

#[test]
fn leader_appends_at_next_index_and_commits_by_majority() {
    let mut node = follower(1, 0, Log::empty(), vec![1, 2, 3]);
    node.start_election();
    node.record_vote(2, &VoteResponse { term: 1, granted: true });
    assert_eq!(node.role, Role::Leader);
    let r1 = node.propose(LogEntryData::Noop).unwrap();
    assert_eq!(r1.index, 1);
    assert_eq!(r1.term, 1);
    let r2 = node.propose(LogEntryData::Command(vec![1, 2])).unwrap();
    assert_eq!(r2.index, 2);
    // No majority yet: only the leader holds the entries.
    assert!(!node.advance_commit_index());
    // Peer 2 acknowledges both entries.
    let ok = node.record_append_response(
        2,
        &AppendEntriesResponse { term: 1, success: true },
        0,
        2,
    );
    assert!(ok.is_ok());
    assert!(node.advance_commit_index());
    assert_eq!(node.meta.commit_index, 2);
}

#[test]
fn proposal_reported_committed_only_after_majority() {
    let mut node = follower(1, 0, Log::empty(), vec![1, 2, 3]);
    node.start_election();
    node.record_vote(2, &VoteResponse { term: 1, granted: true });
    let r = node.propose(LogEntryData::Noop).unwrap();
    assert!(!node.proposal_committed(r.index, r.term));
    node.record_append_response(2, &AppendEntriesResponse { term: 1, success: true }, 0, 1)
        .unwrap();
    node.advance_commit_index();
    assert!(node.proposal_committed(r.index, r.term));
    // A different term at that position would mean the proposal was lost.
    assert!(!node.proposal_committed(r.index, 9));
}

#[test]
fn append_response_log_mismatch_backs_off() {
    let mut node = follower(1, 0, Log::empty(), vec![1, 2]);
    node.start_election();
    node.record_vote(2, &VoteResponse { term: 1, granted: true });
    node.propose(LogEntryData::Noop).unwrap();
    let r = node.record_append_response(2, &AppendEntriesResponse { term: 1, success: false }, 0, 1);
    assert_eq!(r, Err(RaftError::LogMismatch));
}

#[test]
fn append_response_newer_term_steps_down() {
    let mut node = follower(1, 0, Log::empty(), vec![1, 2]);
    node.start_election();
    node.record_vote(2, &VoteResponse { term: 1, granted: true });
    let r = node.record_append_response(2, &AppendEntriesResponse { term: 5, success: false }, 0, 0);
    assert_eq!(r, Err(RaftError::StaleTerm));
    assert_eq!(node.role, Role::Follower);
    assert_eq!(node.meta.current_term, 5);
}

#[test]
fn leader_builds_replication_requests() {
    let mut leader = follower(1, 0, log_of(&[1]), vec![1, 2]);
    leader.start_election();
    leader.record_vote(2, &VoteResponse { term: 1, granted: true });
    assert_eq!(leader.role, Role::Leader);
    leader.propose(LogEntryData::Noop).unwrap();
    // Peer 2's send position starts at the log's end before the proposal:
    // the request carries exactly the proposed entry.
    let req = leader.build_append_request(2).unwrap();
    assert_eq!(req.term, 1);
    assert_eq!(req.leader_id, 1);
    assert_eq!(req.prev_log_index, 1);
    assert_eq!(req.prev_log_term, 1);
    assert_eq!(req.entries.len(), 1);
    assert_eq!(req.entries[0].index, 2);
    // An untracked peer gets no request.
    assert!(leader.build_append_request(9).is_none());
    // An up-to-date peer gets the empty heartbeat.
    leader
        .record_append_response(2, &AppendEntriesResponse { term: 1, success: true }, 1, 1)
        .unwrap();
    let hb = leader.build_append_request(2).unwrap();
    assert_eq!(hb.entries.len(), 0);
    assert_eq!(hb.prev_log_index, 2);
}

#[test]
fn applying_config_entries_changes_membership() {
    let mut node = follower(1, 0, Log::empty(), vec![1]);
    node.start_election();
    node.record_vote(1, &VoteResponse { term: 1, granted: true });
    node.propose(LogEntryData::Config(ConfigChange::AddMember(2))).unwrap();
    node.propose(LogEntryData::Config(ConfigChange::RemoveMember(1))).unwrap();
    assert!(node.advance_commit_index());
    assert_eq!(node.meta.commit_index, 2);
    let e1 = node.next_to_apply().unwrap().clone();
    node.mark_applied(&e1);
    assert_eq!(node.config.members, vec![1, 2]);
    let e2 = node.next_to_apply().unwrap().clone();
    node.mark_applied(&e2);
    assert_eq!(node.config.members, vec![2]);
    assert!(node.next_to_apply().is_none());
    assert_eq!(node.config.last_applied, 2);
}

#[test]
fn apply_is_in_order_and_exactly_once() {
    let mut node = follower(2, 0, Log::empty(), vec![1, 2]);
    let req = AppendEntriesRequest {
        term: 1,
        leader_id: 1,
        prev_log_index: 0,
        prev_log_term: 0,
        entries: vec![entry(1, 1), entry(1, 2)],
        leader_commit: 2,
    };
    node.handle_append_entries(&req);
    let first = node.next_to_apply().unwrap().clone();
    assert_eq!(first.index, 1);
    node.mark_applied(&first);
    let second = node.next_to_apply().unwrap().clone();
    assert_eq!(second.index, 2);
    node.mark_applied(&second);
    assert!(node.next_to_apply().is_none());
}
