//! The protocol's safety arguments, stated and proved over the same
//! models the handlers' contracts use: quorum overlap and election
//! safety, preservation of the log matching property by replication,
//! stability of the committed prefix, append-only leader logs, and
//! distinctness of the ids the join protocol assigns.
use vstd::prelude::*;

use vstd::set_lib::lemma_len_subset;

use crate::consensus::{count_in, match_count, merged_log, seq_unique, ProposeResponse};
use crate::types::{LogEntryV, ServerId};

verus! {

/// Disjoint finite sets: the union's size is the sum of the sizes.
proof fn lemma_disjoint_union_len(a: Set<ServerId>, b: Set<ServerId>)
    requires
        a.finite(),
        b.finite(),
        a.disjoint(b),
    ensures
        a.union(b).len() == a.len() + b.len(),
    decreases a.len(),
{
    if a.is_empty() {
        assert(a.union(b) =~= b);
    } else {
        let x = a.choose();
        assert(a.contains(x));
        assert(a.remove(x).union(b) =~= a.union(b).remove(x));
        lemma_disjoint_union_len(a.remove(x), b);
    }
}

/// Two strict majorities of one finite membership always share a member.
pub proof fn lemma_quorum_overlap(members: Set<ServerId>, a: Set<ServerId>, b: Set<ServerId>) -> (w:
    ServerId)
    requires
        members.finite(),
        a.subset_of(members),
        b.subset_of(members),
        2 * a.len() > members.len(),
        2 * b.len() > members.len(),
    ensures
        a.contains(w),
        b.contains(w),
{
    lemma_len_subset(a, members);
    lemma_len_subset(b, members);
    assert(!a.disjoint(b)) by {
        if a.disjoint(b) {
            lemma_disjoint_union_len(a, b);
            assert(a.union(b).subset_of(members));
            lemma_len_subset(a.union(b), members);
        }
    }
    let w = choose|w: ServerId| a.contains(w) && b.contains(w);
    w
}

/// Election safety: within one term every voter casts at most one vote,
/// recorded in `vote_of`. If two candidates each hold votes from a strict
/// majority of the same membership, the two quorums share a voter, and
/// that voter's single vote forces the candidates to be the same node: at
/// most one node is granted leadership per term.
pub proof fn lemma_election_safety(
    members: Set<ServerId>,
    vote_of: Map<ServerId, ServerId>,
    voters_a: Set<ServerId>,
    cand_a: ServerId,
    voters_b: Set<ServerId>,
    cand_b: ServerId,
)
    requires
        members.finite(),
        voters_a.subset_of(members),
        voters_b.subset_of(members),
        2 * voters_a.len() > members.len(),
        2 * voters_b.len() > members.len(),
        forall|v: ServerId| voters_a.contains(v) ==> vote_of.dom().contains(v) && vote_of[v]
            == cand_a,
        forall|v: ServerId| voters_b.contains(v) ==> vote_of.dom().contains(v) && vote_of[v]
            == cand_b,
    ensures
        cand_a == cand_b,
{
    let w = lemma_quorum_overlap(members, voters_a, voters_b);
    assert(vote_of[w] == cand_a);
    assert(vote_of[w] == cand_b);
}

/// For a duplicate-free vote list, the count of member votes equals the
/// cardinality of the votes-within-membership set.
proof fn lemma_count_in_is_intersection(votes: Seq<ServerId>, members: Seq<ServerId>)
    requires
        seq_unique(votes),
    ensures
        votes.to_set().intersect(members.to_set()).len() == count_in(votes, members),
        votes.to_set().intersect(members.to_set()).finite(),
    decreases votes.len(),
{
    if votes.len() == 0 {
        assert(votes.to_set() =~= Set::<ServerId>::empty());
        assert(votes.to_set().intersect(members.to_set()) =~= Set::<ServerId>::empty());
    } else {
        let rest = votes.drop_last();
        let x = votes.last();
        assert(seq_unique(rest)) by {
            assert(forall|i: int, j: int|
                0 <= i < j < rest.len() ==> rest[i] == votes[i] && rest[j] == votes[j]);
        }
        lemma_count_in_is_intersection(rest, members);
        assert(rest.push(x) =~= votes);
        rest.lemma_push_to_set_commute(x);
        assert(votes.to_set() =~= rest.to_set().insert(x));
        assert(!rest.to_set().contains(x)) by {
            if rest.contains(x) {
                let i = choose|i: int| 0 <= i < rest.len() && rest[i] == x;
                assert(votes[i] == votes[votes.len() - 1]);
            }
        }
        let ia = rest.to_set().intersect(members.to_set());
        if members.contains(x) {
            assert(members.to_set().contains(x));
            assert(votes.to_set().intersect(members.to_set()) =~= ia.insert(x));
            assert(!ia.contains(x));
        } else {
            assert(!members.to_set().contains(x));
            assert(votes.to_set().intersect(members.to_set()) =~= ia);
        }
    }
}

/// The vote count a winning candidate holds, over duplicate-free vote and
/// membership lists, is a strict set-majority: the form
/// `lemma_election_safety` consumes.
pub proof fn lemma_votes_form_quorum(votes: Seq<ServerId>, members: Seq<ServerId>)
    requires
        seq_unique(votes),
        seq_unique(members),
        2 * count_in(votes, members) > members.len(),
    ensures
        votes.to_set().intersect(members.to_set()).subset_of(members.to_set()),
        2 * votes.to_set().intersect(members.to_set()).len() > members.to_set().len(),
        members.to_set().finite(),
{
    lemma_count_in_is_intersection(votes, members);
    assert(members.no_duplicates()) by {
        assert(forall|i: int, j: int|
            0 <= i < members.len() && 0 <= j < members.len() && i != j ==> members[i]
                != members[j]);
    }
    members.unique_seq_to_set();
}

/// The log matching property over a pair of logs: wherever the two hold
/// the same term at the same position, they are identical up to and
/// including that position.
pub open spec fn logs_match(a: Seq<LogEntryV>, b: Seq<LogEntryV>) -> bool {
    forall|i: int|
        0 <= i < a.len() && i < b.len() && (#[trigger] a[i]).term == (#[trigger] b[i]).term
            ==> a.subrange(0, i + 1) == b.subrange(0, i + 1)
}

/// The matched prefix counted by `match_count` really matches, term by
/// term, and stays within both sequences.
proof fn lemma_match_count_bounds(log: Seq<LogEntryV>, prev: int, entries: Seq<LogEntryV>)
    requires
        0 <= prev,
    ensures
        0 <= match_count(log, prev, entries) <= entries.len(),
        forall|j: int|
            0 <= j < match_count(log, prev, entries) ==> prev + j < log.len() && log[prev + j].term
                == (#[trigger] entries[j]).term,
    decreases entries.len(),
{
    if entries.len() == 0 {
    } else if 0 <= prev < log.len() && log[prev].term == entries[0].term {
        let rest = entries.drop_first();
        lemma_match_count_bounds(log, prev + 1, rest);
        assert forall|j: int|
            0 <= j < match_count(log, prev, entries) implies prev + j < log.len() && log[prev
            + j].term == (#[trigger] entries[j]).term by {
            if j > 0 {
                assert(rest[j - 1] == entries[j]);
                assert(prev + 1 + (j - 1) < log.len() && log[prev + 1 + (j - 1)].term == rest[j
                    - 1].term);
            }
        }
    }
}

/// A prefix of a log matches it everywhere.
proof fn lemma_prefix_logs_match(a: Seq<LogEntryV>, b: Seq<LogEntryV>)
    requires
        a.len() <= b.len(),
        a == b.subrange(0, a.len() as int),
    ensures
        logs_match(a, b),
{
    assert forall|i: int|
        0 <= i < a.len() && i < b.len() && (#[trigger] a[i]).term == (#[trigger] b[i]).term implies a.subrange(
        0,
        i + 1,
    ) == b.subrange(0, i + 1) by {
        assert forall|x: int| 0 <= x < i + 1 implies #[trigger] a[x] == b[x] by {
            assert(a[x] == b.subrange(0, a.len() as int)[x]);
        }
        assert(a.subrange(0, i + 1) =~= b.subrange(0, i + 1));
    }
}

/// Log matching is preserved by one accepted replication step. The
/// follower's log and the leader's log satisfy the property, the carried
/// entries are cut from the leader's log right after `prev`, and the
/// follower passed the consistency check at `prev`. Then the follower's
/// merged log still matches the leader's log, and the two agree on every
/// position the request covered.
pub proof fn lemma_log_matching_preserved(
    follower: Seq<LogEntryV>,
    leader: Seq<LogEntryV>,
    prev: int,
    entries: Seq<LogEntryV>,
)
    requires
        logs_match(follower, leader),
        0 <= prev <= leader.len(),
        prev <= follower.len(),
        prev + entries.len() <= leader.len(),
        entries == leader.subrange(prev, prev + entries.len()),
        prev == 0 || follower[prev - 1].term == leader[prev - 1].term,
    ensures
        logs_match(merged_log(follower, prev, entries), leader),
        merged_log(follower, prev, entries).subrange(0, prev + entries.len()) == leader.subrange(
            0,
            prev + entries.len(),
        ),
{
    let n = entries.len() as int;
    let k = match_count(follower, prev, entries);
    lemma_match_count_bounds(follower, prev, entries);
    assert forall|j: int| 0 <= j < n implies (#[trigger] entries[j]) == leader[prev + j] by {
        assert(entries[j] == leader.subrange(prev, prev + n)[j]);
    }
    assert(follower.subrange(0, prev + k) == leader.subrange(0, prev + k)) by {
        if prev + k == 0 {
            assert(follower.subrange(0, 0) =~= leader.subrange(0, 0));
        } else {
            let i = prev + k - 1;
            if k > 0 {
                assert(follower[i].term == entries[k - 1].term);
                assert(entries[k - 1] == leader[i]);
            }
            assert(follower[i].term == leader[i].term);
            assert(follower.subrange(0, i + 1) == leader.subrange(0, i + 1));
        }
    }
    if k == n {
        assert(merged_log(follower, prev, entries) == follower);
        assert(prev + n <= follower.len());
        assert(follower.subrange(0, prev + n) == leader.subrange(0, prev + n));
    } else {
        let merged = merged_log(follower, prev, entries);
        assert(merged == follower.subrange(0, prev + k) + entries.skip(k));
        assert(merged =~= leader.subrange(0, prev + n)) by {
            assert forall|x: int| 0 <= x < prev + n implies merged[x] == leader.subrange(
                0,
                prev + n,
            )[x] by {
                if x < prev + k {
                    assert(merged[x] == leader.subrange(0, prev + k)[x]);
                } else {
                    assert(merged[x] == entries.skip(k)[x - prev - k]);
                    assert(entries.skip(k)[x - prev - k] == entries[x - prev]);
                }
            }
            assert(merged.len() == prev + n);
        }
        lemma_prefix_logs_match(merged, leader);
        assert(merged.subrange(0, prev + n) =~= merged);
    }
}

/// An accepted replication step never touches the log below the commit
/// index: the merged log agrees with the old log on the whole committed
/// prefix, provided the carried entries do not conflict inside it — which
/// a conforming leader's entries never do, committed entries being
/// identical on every node that holds them.
pub proof fn lemma_committed_prefix_preserved(
    log: Seq<LogEntryV>,
    prev: int,
    entries: Seq<LogEntryV>,
    commit: int,
)
    requires
        0 <= commit <= log.len(),
        0 <= prev <= log.len(),
        match_count(log, prev, entries) < entries.len() ==> prev + match_count(log, prev, entries)
            >= commit,
    ensures
        merged_log(log, prev, entries).subrange(0, commit) == log.subrange(0, commit),
{
    let k = match_count(log, prev, entries);
    lemma_match_count_bounds(log, prev, entries);
    if k == entries.len() {
    } else {
        let merged = merged_log(log, prev, entries);
        assert(prev + k <= log.len()) by {
            if k > 0 {
                assert(prev + (k - 1) < log.len() && log[prev + (k - 1)].term == entries[k
                    - 1].term);
            }
        }
        assert(merged == log.subrange(0, prev + k) + entries.skip(k));
        assert(merged.subrange(0, commit) =~= log.subrange(0, commit)) by {
            assert forall|x: int| 0 <= x < commit implies merged.subrange(0, commit)[x]
                == log.subrange(0, commit)[x] by {
                assert(merged[x] == log.subrange(0, prev + k)[x]);
            }
        }
    }
}

/// A leader only ever appends: a proposal leaves the previous log intact
/// as a prefix and adds exactly one entry at the end. Only followers
/// truncate, on conflict with their leader.
pub proof fn lemma_leader_append_only(log: Seq<LogEntryV>, e: LogEntryV)
    ensures
        log.push(e).subrange(0, log.len() as int) == log,
        log.push(e).len() == log.len() + 1,
        log.push(e)[log.len() as int] == e,
{
    assert(log.push(e).subrange(0, log.len() as int) =~= log);
}

/// Ids assigned through the join protocol are distinct: each joiner's id
/// is the log position its no-op proposal was appended at, every proposal
/// is appended at the end of the leader's log, and the log only grows
/// between two proposals — so a later proposal always reports a strictly
/// higher position. Concurrently joining nodes are serialized by the one
/// leader's log and never receive the same id.
pub proof fn lemma_distinct_join_ids(
    log_at_first: Seq<LogEntryV>,
    log_at_second: Seq<LogEntryV>,
    r1: ProposeResponse,
    r2: ProposeResponse,
)
    requires
        r1.index == log_at_first.len() + 1,
        log_at_second.len() >= log_at_first.len() + 1,
        r2.index == log_at_second.len() + 1,
    ensures
        r2.index > r1.index,
        r1.index != r2.index,
{
}

} // verus!
