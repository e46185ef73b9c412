use raft::consensus::{ConfigurationSnapshot, Consensus, Role, VoteResponse};
use raft::startup::{
    bootstrap_node, bootstrap_state, joined_state, plan_startup, InitWriter, StartupError,
    StartupPlan,
};
use raft::types::{ConfigChange, LogEntryData};

#[test]
fn plan_recovers_when_metadata_exists() {
    assert_eq!(plan_startup(true, false, 0), Ok(StartupPlan::Recover));
    // The bootstrap flag is ignored on a restart.
    assert_eq!(plan_startup(true, true, 3), Ok(StartupPlan::Recover));
}

#[test]
fn plan_rejects_orphaned_state_machine_data() {
    assert_eq!(plan_startup(false, false, 1), Err(StartupError::UntrustedStateMachine));
    assert_eq!(plan_startup(false, true, 7), Err(StartupError::UntrustedStateMachine));
}

#[test]
fn plan_bootstrap_or_join_on_fresh_directory() {
    assert_eq!(plan_startup(false, true, 0), Ok(StartupPlan::Bootstrap));
    assert_eq!(plan_startup(false, false, 0), Ok(StartupPlan::Join));
}

#[test]
fn bootstrap_creates_node_one_with_seed_entry() {
    let (meta, log) = bootstrap_state(42);
    assert_eq!(meta.id, 1);
    assert_eq!(meta.cluster_id, 42);
    assert_eq!(meta.meta.current_term, 0);
    assert_eq!(meta.meta.voted_for, None);
    assert_eq!(meta.meta.commit_index, 0);
    assert_eq!(log.last_index(), 1);
    let e = log.entry_at(1).unwrap();
    assert_eq!(e.term, 1);
    assert_eq!(e.index, 1);
    assert_eq!(e.data, LogEntryData::Config(ConfigChange::AddMember(1)));
}

#[test]
fn bootstrap_node_draws_a_cluster_id() {
    let (meta, log) = bootstrap_node();
    assert_eq!(meta.id, 1);
    assert_eq!(log.last_index(), 1);
}

#[test]
fn bootstrap_node_reaches_commit_one() {
    // The founded cluster's one member elects itself and commits the seed
    // membership entry.
    let (meta, log) = bootstrap_state(42);
    let config =
        ConfigurationSnapshot { members: vec![1], learners: Vec::new(), last_applied: 0 };
    let mut node = Consensus::new(meta.id, meta.cluster_id, meta.meta, log, config);
    node.start_election();
    let became = node.record_vote(1, &VoteResponse { term: 1, granted: true });
    assert!(became);
    assert_eq!(node.role, Role::Leader);
    assert!(node.advance_commit_index());
    assert_eq!(node.meta.commit_index, 1);
}

#[test]
fn second_node_joins_and_membership_grows() {
    // Bootstrap node 1 and make it leader of {1}.
    let (meta, log) = bootstrap_state(42);
    let config =
        ConfigurationSnapshot { members: vec![1], learners: Vec::new(), last_applied: 0 };
    let mut leader = Consensus::new(meta.id, meta.cluster_id, meta.meta, log, config);
    leader.start_election();
    leader.record_vote(1, &VoteResponse { term: 1, granted: true });
    leader.advance_commit_index();

    // The joiner's no-op proposal is appended at index 2: its assigned id.
    let assigned = leader.propose(LogEntryData::Noop).unwrap();
    assert_eq!(assigned.index, 2);
    let joiner_meta = joined_state(assigned.index, 42);
    assert_eq!(joiner_meta.id, 2);
    assert_eq!(joiner_meta.cluster_id, 42);

    // The joiner asks for membership; once the entry commits and is
    // applied, the membership grows to {1, 2}.
    let add = leader.propose(LogEntryData::Config(ConfigChange::AddMember(2))).unwrap();
    assert_eq!(add.index, 3);
    assert!(leader.advance_commit_index());
    assert_eq!(leader.meta.commit_index, 3);
    for _ in 0..3 {
        let e = leader.next_to_apply().unwrap().clone();
        leader.mark_applied(&e);
    }
    assert_eq!(leader.config.members, vec![1, 2]);
}

#[test]
fn concurrent_joiners_get_distinct_ids() {
    let (meta, log) = bootstrap_state(42);
    let config =
        ConfigurationSnapshot { members: vec![1], learners: Vec::new(), last_applied: 0 };
    let mut leader = Consensus::new(meta.id, meta.cluster_id, meta.meta, log, config);
    leader.start_election();
    leader.record_vote(1, &VoteResponse { term: 1, granted: true });
    // Two join proposals racing at one leader are serialized by its log.
    let a = leader.propose(LogEntryData::Noop).unwrap();
    let b = leader.propose(LogEntryData::Noop).unwrap();
    assert_ne!(a.index, b.index);
}

#[test]
fn empty_log_means_membership_pending() {
    let joiner_meta = joined_state(2, 42);
    let config = ConfigurationSnapshot::empty();
    let joiner =
        Consensus::new(joiner_meta.id, joiner_meta.cluster_id, joiner_meta.meta, raft::log::Log::empty(), config);
    assert!(joiner.membership_pending());
    let (meta, log) = bootstrap_state(42);
    let config = ConfigurationSnapshot { members: vec![1], learners: Vec::new(), last_applied: 0 };
    let founder = Consensus::new(meta.id, meta.cluster_id, meta.meta, log, config);
    assert!(!founder.membership_pending());
}

#[test]
fn metadata_file_is_written_last() {
    let mut w = InitWriter::new();
    assert!(!w.purged);
    assert!(!w.fully_initialized());
    // Leftover partial files are purged before any new file is created.
    w.purge();
    assert!(w.purged);
    w.write_log();
    w.write_config();
    w.write_routes();
    assert!(!w.fully_initialized());
    w.write_meta();
    assert!(w.fully_initialized());
    assert!(w.log_written && w.config_written && w.routes_written && w.purged);
}
