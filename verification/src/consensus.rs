//! The Raft consensus state machine: term tracking, leader election, log
//! replication, commit advancement and membership-change application.
//!
//! Every operation is a pure transition on [`Consensus`]: it takes the
//! current state plus one incoming event (an RPC request, an RPC response,
//! a timeout) and produces the next state plus the outgoing message. The
//! surrounding process owns the transport and the durable files; it must
//! persist `meta` before a response that granted a vote or acknowledged an
//! append leaves the node.
use vstd::prelude::*;

use crate::log::{spec_last_term, spec_term_at, Log};
use crate::types::{
    ClusterId, ConfigChange, LogEntry, LogEntryData, LogEntryDataV, LogEntryV, LogIndex, Metadata,
    ServerId, Term,
};

verus! {

/// The three Raft roles. A restarted node always begins as a follower.
#[derive(Clone, Copy, PartialEq, Eq, Structural, Debug)]
pub enum Role {
    Follower,
    Candidate,
    Leader,
}

/// Errors of the consensus layer. The protocol-level ones (`StaleTerm`,
/// `LogMismatch`, `NotLeader`) are recoverable: callers retry or redirect.
#[derive(Clone, Copy, PartialEq, Eq, Structural, Debug)]
pub enum RaftError {
    /// The counterpart ran at a newer term; this node stepped down.
    StaleTerm,
    /// The follower's log does not contain the leader's previous entry;
    /// the leader retries at a lower index.
    LogMismatch,
    /// A proposal reached a non-leader; the hint names the likely leader.
    NotLeader(Option<ServerId>),
    /// Granting would give a second vote in one term; always rejected.
    ConflictingVote,
}

/// Arguments of the RequestVote RPC.
#[derive(Clone, Copy, PartialEq, Eq, Structural, Debug)]
pub struct VoteRequest {
    pub term: Term,
    pub candidate_id: ServerId,
    pub last_log_index: LogIndex,
    pub last_log_term: Term,
}

/// Result of the RequestVote RPC.
#[derive(Clone, Copy, PartialEq, Eq, Structural, Debug)]
pub struct VoteResponse {
    pub term: Term,
    pub granted: bool,
}

/// Arguments of the AppendEntries RPC.
#[derive(Clone, Debug)]
pub struct AppendEntriesRequest {
    pub term: Term,
    pub leader_id: ServerId,
    pub prev_log_index: LogIndex,
    pub prev_log_term: Term,
    pub entries: Vec<LogEntry>,
    pub leader_commit: LogIndex,
}

/// Result of the AppendEntries RPC.
#[derive(Clone, Copy, PartialEq, Eq, Structural, Debug)]
pub struct AppendEntriesResponse {
    pub term: Term,
    pub success: bool,
}

/// Position a proposal was appended at. The index doubles as the assigned
/// server id during the join protocol.
#[derive(Clone, Copy, PartialEq, Eq, Structural, Debug)]
pub struct ProposeResponse {
    pub index: LogIndex,
    pub term: Term,
}

/// Last known committed cluster membership, as persisted in the `config`
/// durable file.
#[derive(Clone, Debug)]
pub struct ConfigurationSnapshot {
    pub members: Vec<ServerId>,
    pub learners: Vec<ServerId>,
    pub last_applied: LogIndex,
}

impl ConfigurationSnapshot {
    /// The empty configuration of a brand-new node.
    pub fn empty() -> (r: ConfigurationSnapshot)
        ensures
            r.members@ == Seq::<ServerId>::empty(),
            r.learners@ == Seq::<ServerId>::empty(),
            r.last_applied == 0,
    {
        let r = ConfigurationSnapshot { members: Vec::new(), learners: Vec::new(), last_applied: 0 };
        proof {
            assert(r.members@ =~= Seq::<ServerId>::empty());
            assert(r.learners@ =~= Seq::<ServerId>::empty());
        }
        r
    }
}

/// Replication progress the leader tracks for one peer.
#[derive(Clone, Copy, PartialEq, Eq, Structural, Debug)]
pub struct PeerProgress {
    pub id: ServerId,
    /// Highest log index known to be replicated on the peer.
    pub match_index: LogIndex,
    /// Next log index to send to the peer.
    pub next_index: LogIndex,
}

/// No two elements are equal.
pub open spec fn seq_unique(s: Seq<ServerId>) -> bool {
    forall|i: int, j: int| 0 <= i < j < s.len() ==> s[i] != s[j]
}

/// No two progress records concern the same peer.
pub open spec fn progress_unique(s: Seq<PeerProgress>) -> bool {
    forall|i: int, j: int| 0 <= i < j < s.len() ==> s[i].id != s[j].id
}

/// How many of the ids in `votes` are members. Strict-majority tests are
/// made against this count so that a stray vote from a non-member can
/// never help a candidate.
pub open spec fn count_in(votes: Seq<ServerId>, members: Seq<ServerId>) -> int
    decreases votes.len(),
{
    if votes.len() == 0 {
        0
    } else {
        count_in(votes.drop_last(), members) + if members.contains(votes.last()) {
            1int
        } else {
            0int
        }
    }
}

/// The candidate's log is at least as up to date as `log`: compared first
/// by last-entry term, then by length.
pub open spec fn candidate_up_to_date(
    log: Seq<LogEntryV>,
    last_log_term: Term,
    last_log_index: LogIndex,
) -> bool {
    ||| last_log_term > spec_last_term(log)
    ||| (last_log_term == spec_last_term(log) && last_log_index >= log.len())
}

/// Exactly when a node with the given persistent state grants a vote:
/// the candidate's term is current or newer, no different vote was already
/// cast in the candidate's term, and the candidate's log is at least as up
/// to date.
pub open spec fn grants_vote(
    current_term: Term,
    voted_for: Option<ServerId>,
    log: Seq<LogEntryV>,
    req: VoteRequest,
) -> bool {
    &&& req.term >= current_term
    &&& (req.term > current_term || voted_for is None || voted_for == Some(req.candidate_id))
    &&& candidate_up_to_date(log, req.last_log_term, req.last_log_index)
}

/// The models of the entries a request carries.
pub open spec fn view_entries(entries: Seq<LogEntry>) -> Seq<LogEntryV> {
    entries.map_values(|e: LogEntry| e@)
}

/// How many leading `entries` are already present in `log` with the same
/// term at their positions right after `prev` (a zero-based offset).
pub open spec fn match_count(log: Seq<LogEntryV>, prev: int, entries: Seq<LogEntryV>) -> int
    decreases entries.len(),
{
    if entries.len() == 0 {
        0
    } else if 0 <= prev < log.len() && log[prev].term == entries[0].term {
        1 + match_count(log, prev + 1, entries.drop_first())
    } else {
        0
    }
}

/// The AppendEntries consistency check: the follower's log reaches the
/// leader's previous position and agrees on its term (position 0 stands
/// for the empty prefix and always matches).
pub open spec fn prev_matches(log: Seq<LogEntryV>, prev_index: LogIndex, prev_term: Term) -> bool {
    ||| prev_index == 0
    ||| (1 <= prev_index <= log.len() && spec_term_at(log, prev_index) == prev_term)
}

/// Entries carried by an AppendEntries request sit at the positions right
/// after `prev`: entry `j` has log index `prev + 1 + j`.
pub open spec fn entries_well_indexed(entries: Seq<LogEntryV>, prev: int) -> bool {
    forall|j: int| 0 <= j < entries.len() ==> (#[trigger] entries[j]).index == prev + 1 + j
}

/// The follower's log after a successful AppendEntries: if every carried
/// entry was already in place, nothing changes; otherwise the first
/// conflicting position and everything after it is replaced by the
/// leader's entries.
pub open spec fn merged_log(log: Seq<LogEntryV>, prev: int, entries: Seq<LogEntryV>) -> Seq<
    LogEntryV,
> {
    let k = match_count(log, prev, entries);
    if k == entries.len() {
        log
    } else {
        log.subrange(0, prev + k) + entries.skip(k)
    }
}

/// `match_count` is the length of the longest matching prefix: it equals
/// any `k` whose first `k` entries match and whose entry `k`, if any, does
/// not.
proof fn lemma_match_count_from_prefix(
    log: Seq<LogEntryV>,
    prev: int,
    entries: Seq<LogEntryV>,
    k: int,
)
    requires
        0 <= prev,
        0 <= k <= entries.len(),
        forall|j: int|
            0 <= j < k ==> prev + j < log.len() && log[prev + j].term == (#[trigger] entries[j]).term,
        k < entries.len() ==> !(prev + k < log.len() && log[prev + k].term == entries[k].term),
    ensures
        match_count(log, prev, entries) == k,
    decreases entries.len(),
{
    if entries.len() == 0 {
    } else if k == 0 {
    } else {
        assert(entries[0].term == log[prev].term);
        let rest = entries.drop_first();
        assert forall|j: int| 0 <= j < k - 1 implies prev + 1 + j < log.len() && log[prev + 1
            + j].term == (#[trigger] rest[j]).term by {
            assert(rest[j] == entries[j + 1]);
        }
        if k - 1 < rest.len() {
            assert(rest[k - 1] == entries[k]);
        }
        lemma_match_count_from_prefix(log, prev + 1, rest, k - 1);
    }
}

/// Freshly initialized leader bookkeeping: one record for every member but
/// the leader itself, nothing known replicated, sending from the log's end.
pub open spec fn leader_progress_init(
    progress: Seq<PeerProgress>,
    members: Seq<ServerId>,
    id: ServerId,
    log_len: int,
) -> bool {
    &&& forall|j: int|
        0 <= j < progress.len() ==> {
            &&& (#[trigger] progress[j]).match_index == 0
            &&& progress[j].next_index == log_len + 1
            &&& members.contains(progress[j].id)
            &&& progress[j].id != id
        }
    &&& forall|k: int|
        0 <= k < members.len() && (#[trigger] members[k]) != id ==> exists|j: int|
            0 <= j < progress.len() && progress[j].id == members[k]
}

/// Both states hold the same values everywhere but the active membership.
pub open spec fn unchanged_but_members(a: Consensus, b: Consensus) -> bool {
    &&& a.id == b.id
    &&& a.cluster_id == b.cluster_id
    &&& a.meta == b.meta
    &&& a.role == b.role
    &&& a.log@ == b.log@
    &&& a.config.learners@ == b.config.learners@
    &&& a.config.last_applied == b.config.last_applied
    &&& a.votes_received@ == b.votes_received@
    &&& a.progress@ == b.progress@
    &&& a.leader_hint == b.leader_hint
}

/// Removing position `i` from a duplicate-free sequence removes exactly
/// the value standing there, and keeps the rest duplicate-free.
proof fn lemma_remove_unique(s: Seq<ServerId>, i: int, x: ServerId)
    requires
        seq_unique(s),
        0 <= i < s.len(),
    ensures
        s.remove(i).contains(x) == (s.contains(x) && x != s[i]),
        seq_unique(s.remove(i)),
{
    let r = s.remove(i);
    s.remove_ensures(i);
    if s.contains(x) && x != s[i] {
        let w = choose|w: int| 0 <= w < s.len() && s[w] == x;
        if w < i {
            assert(r[w] == x);
        } else {
            assert(r[w - 1] == x);
        }
        assert(r.contains(x));
    }
    if r.contains(x) {
        let w = choose|w: int| 0 <= w < r.len() && r[w] == x;
        if w < i {
            assert(s[w] == x);
            assert(s[w] != s[i]);
        } else {
            assert(s[w + 1] == x);
            assert(s[w + 1] != s[i]);
        }
        assert(s.contains(x) && x != s[i]);
    }
    assert forall|a: int, b: int| 0 <= a < b < r.len() implies r[a] != r[b] by {
        let sa = if a < i {
            a
        } else {
            a + 1
        };
        let sb = if b < i {
            b
        } else {
            b + 1
        };
        assert(r[a] == s[sa]);
        assert(r[b] == s[sb]);
        assert(s[sa] != s[sb]);
    }
}

/// Some progress record says `m` has acknowledged replication up to `n`.
pub open spec fn replicated_on(progress: Seq<PeerProgress>, m: ServerId, n: LogIndex) -> bool {
    exists|i: int| 0 <= i < progress.len() && progress[i].id == m && progress[i].match_index >= n
}

/// Both states hold the same values everywhere.
pub open spec fn state_eq(a: Consensus, b: Consensus) -> bool {
    &&& a.id == b.id
    &&& a.cluster_id == b.cluster_id
    &&& a.meta == b.meta
    &&& a.role == b.role
    &&& a.log@ == b.log@
    &&& a.config.members@ == b.config.members@
    &&& a.config.learners@ == b.config.learners@
    &&& a.config.last_applied == b.config.last_applied
    &&& a.votes_received@ == b.votes_received@
    &&& a.progress@ == b.progress@
    &&& a.leader_hint == b.leader_hint
}

/// Position of the progress record for `peer`, if any.
fn find_progress(v: &Vec<PeerProgress>, peer: ServerId) -> (r: Option<usize>)
    ensures
        match r {
            Some(i) => i < v@.len() && v@[i as int].id == peer,
            None => forall|j: int| 0 <= j < v@.len() ==> (#[trigger] v@[j]).id != peer,
        },
{
    let mut i: usize = 0;
    while i < v.len()
        invariant
            0 <= i <= v@.len(),
            forall|k: int| 0 <= k < i ==> (#[trigger] v@[k]).id != peer,
        decreases v@.len() - i,
    {
        if v[i].id == peer {
            return Some(i);
        }
        i += 1;
    }
    None
}

/// Whether `cnt` out of `total` is a strict majority.
fn is_majority(cnt: usize, total: usize) -> (r: bool)
    ensures
        r == (2 * (cnt as int) > total as int),
{
    cnt > total / 2
}

/// Position of the first occurrence of `x` in `v`, if any.
fn vec_find(v: &Vec<ServerId>, x: ServerId) -> (r: Option<usize>)
    ensures
        match r {
            Some(i) => i < v@.len() && v@[i as int] == x,
            None => forall|j: int| 0 <= j < v@.len() ==> v@[j] != x,
        },
{
    let mut i: usize = 0;
    while i < v.len()
        invariant
            0 <= i <= v@.len(),
            forall|k: int| 0 <= k < i ==> v@[k] != x,
        decreases v@.len() - i,
    {
        if v[i] == x {
            return Some(i);
        }
        i += 1;
    }
    None
}

/// Whether `v` holds `x`.
fn vec_contains(v: &Vec<ServerId>, x: ServerId) -> (r: bool)
    ensures
        r == v@.contains(x),
{
    let mut i: usize = 0;
    while i < v.len()
        invariant
            0 <= i <= v@.len(),
            forall|k: int| 0 <= k < i ==> v@[k] != x,
        decreases v@.len() - i,
    {
        if v[i] == x {
            return true;
        }
        i += 1;
    }
    false
}

/// Counts how many ids in `votes` are members.
fn count_votes(votes: &Vec<ServerId>, members: &Vec<ServerId>) -> (r: usize)
    ensures
        r == count_in(votes@, members@),
        r <= votes@.len(),
{
    let mut c: usize = 0;
    let mut i: usize = 0;
    while i < votes.len()
        invariant
            0 <= i <= votes@.len(),
            c == count_in(votes@.take(i as int), members@),
            c <= i,
        decreases votes@.len() - i,
    {
        let ghost pre = votes@.take(i as int);
        if vec_contains(members, votes[i]) {
            c += 1;
        }
        i += 1;
        proof {
            assert(votes@.take(i as int).drop_last() =~= pre);
            assert(votes@.take(i as int).last() == votes@[i - 1]);
        }
    }
    proof {
        assert(votes@.take(votes@.len() as int) =~= votes@);
    }
    c
}

/// The Raft consensus state of one node.
pub struct Consensus {
    /// This node's id, immutable after assignment.
    pub id: ServerId,
    /// The cluster this node belongs to, immutable once set.
    pub cluster_id: ClusterId,
    /// Raft-persistent state; must be flushed before votes or acks leave.
    pub meta: Metadata,
    pub role: Role,
    pub log: Log,
    pub config: ConfigurationSnapshot,
    /// Ids that granted this node a vote in `meta.current_term`.
    pub votes_received: Vec<ServerId>,
    /// Leader-only replication progress, one record per other member.
    pub progress: Vec<PeerProgress>,
    /// Last id observed acting as a leader; returned as a redirect hint.
    pub leader_hint: Option<ServerId>,
}

impl Consensus {
    pub open spec fn wf(&self) -> bool {
        &&& self.log.wf()
        &&& self.log@.len() < u64::MAX
        &&& self.meta.commit_index <= self.log@.len()
        &&& self.config.last_applied <= self.meta.commit_index
        &&& seq_unique(self.config.members@)
        &&& seq_unique(self.votes_received@)
        &&& progress_unique(self.progress@)
        &&& forall|i: int|
            0 <= i < self.progress@.len() ==> (#[trigger] self.progress@[i]).match_index < u64::MAX
    }

    /// Builds the consensus state a node runs with after startup, from the
    /// loaded (or freshly created) durable state. A restarted node always
    /// begins as a follower.
    pub fn new(
        id: ServerId,
        cluster_id: ClusterId,
        meta: Metadata,
        log: Log,
        config: ConfigurationSnapshot,
    ) -> (r: Consensus)
        requires
            log.wf(),
            log@.len() < u64::MAX,
            meta.commit_index <= log@.len(),
            config.last_applied <= meta.commit_index,
            seq_unique(config.members@),
        ensures
            r.wf(),
            r.id == id,
            r.cluster_id == cluster_id,
            r.meta == meta,
            r.role == Role::Follower,
            r.log@ == log@,
            r.config == config,
            r.leader_hint is None,
    {
        Consensus {
            id,
            cluster_id,
            meta,
            role: Role::Follower,
            log,
            config,
            votes_received: Vec::new(),
            progress: Vec::new(),
            leader_hint: None,
        }
    }

    /// Handles a RequestVote RPC. Grants the vote exactly under
    /// [`grants_vote`]; never touches the log; a request carrying a stale
    /// term changes nothing. The caller must persist `meta` before the
    /// response leaves the node, so that a granted vote survives a crash.
    pub fn handle_request_vote(&mut self, req: &VoteRequest) -> (resp: VoteResponse)
        requires
            old(self).wf(),
        ensures
            final(self).wf(),
            resp.granted == grants_vote(
                old(self).meta.current_term,
                old(self).meta.voted_for,
                old(self).log@,
                *req,
            ),
            resp.term == final(self).meta.current_term,
            final(self).log@ == old(self).log@,
            final(self).config == old(self).config,
            final(self).id == old(self).id,
            final(self).cluster_id == old(self).cluster_id,
            final(self).meta.commit_index == old(self).meta.commit_index,
            final(self).meta.current_term == if req.term > old(self).meta.current_term {
                req.term
            } else {
                old(self).meta.current_term
            },
            resp.granted ==> final(self).meta.voted_for == Some(req.candidate_id),
            // One vote per term: an existing vote in the current term is
            // never overridden.
            final(self).meta.current_term == old(self).meta.current_term
                && old(self).meta.voted_for is Some ==> final(self).meta.voted_for == old(self).meta.voted_for,
            // Seeing a newer term demotes the node to follower.
            req.term > old(self).meta.current_term ==> final(self).role == Role::Follower,
            req.term <= old(self).meta.current_term ==> final(self).role == old(self).role
                && final(self).meta.voted_for == if resp.granted {
                Some(req.candidate_id)
            } else {
                old(self).meta.voted_for
            },
            // A stale-term request is refused and changes nothing.
            req.term < old(self).meta.current_term ==> !resp.granted && final(self).meta == old(self).meta,
    {
        let granted = req.term >= self.meta.current_term && (req.term > self.meta.current_term
            || match self.meta.voted_for {
            None => true,
            Some(v) => v == req.candidate_id,
        }) && {
            let lt = self.log.last_term();
            let li = self.log.last_index();
            req.last_log_term > lt || (req.last_log_term == lt && req.last_log_index >= li)
        };
        if req.term > self.meta.current_term {
            self.meta.current_term = req.term;
            self.meta.voted_for = None;
            self.role = Role::Follower;
        }
        if granted {
            self.meta.voted_for = Some(req.candidate_id);
        }
        VoteResponse { term: self.meta.current_term, granted }
    }

    /// Whether the log holds an entry at `index` with the given term.
    fn term_matches_at(&self, index: LogIndex, term: Term) -> (r: bool)
        ensures
            r == (1 <= index <= self.log@.len() && spec_term_at(self.log@, index) == term),
    {
        match self.log.term_at(index) {
            Some(t) => t == term,
            None => false,
        }
    }

    /// Whether an AppendEntries request is consistent with this node's
    /// committed prefix: where its entries overlap entries at or below
    /// the commit index, the terms agree, so accepting it cannot alter a
    /// committed entry. A conforming leader's requests always pass —
    /// committed entries are identical on every node that holds them —
    /// and [`Self::handle_append_entries`] asks for exactly this, so the
    /// process can refuse a request from a non-conforming peer before
    /// handling it.
    pub fn append_consistent_with_commit(&self, req: &AppendEntriesRequest) -> (r: bool)
        requires
            self.wf(),
            req.prev_log_index + req.entries@.len() < u64::MAX,
        ensures
            r == ({
                let ev = view_entries(req.entries@);
                let prev = req.prev_log_index as int;
                match_count(self.log@, prev, ev) < ev.len() ==> prev + match_count(
                    self.log@,
                    prev,
                    ev,
                ) >= self.meta.commit_index
            }),
    {
        let ghost ev = view_entries(req.entries@);
        let ghost prev = req.prev_log_index as int;
        let n = req.entries.len();
        let mut k: usize = 0;
        while k < n && self.term_matches_at(
            req.prev_log_index + (k as u64) + 1,
            req.entries[k].term,
        )
            invariant
                0 <= k <= n,
                n == req.entries@.len(),
                ev == view_entries(req.entries@),
                prev == req.prev_log_index as int,
                prev + n < u64::MAX,
                forall|j: int|
                    0 <= j < k ==> prev + j < self.log@.len() && self.log@[prev + j].term == (
                    #[trigger] ev[j]).term,
            decreases n - k,
        {
            proof {
                assert(ev[k as int].term == req.entries@[k as int]@.term);
            }
            k += 1;
        }
        proof {
            assert(k < n ==> !(prev + k < self.log@.len() && self.log@[prev + k].term
                == ev[k as int].term)) by {
                if k < n {
                    assert(ev[k as int].term == req.entries@[k as int]@.term);
                }
            }
            lemma_match_count_from_prefix(self.log@, prev, ev, k as int);
        }
        k == n || req.prev_log_index + (k as u64) >= self.meta.commit_index
    }

    /// Handles an AppendEntries RPC. A stale term is refused outright; a
    /// valid term makes this node a follower of the sender. The request
    /// succeeds exactly when the log passes the consistency check at the
    /// leader's previous position; entries already in place are kept, and
    /// from the first conflict on the log is truncated and replaced by the
    /// leader's entries. On success the commit index advances to the last
    /// carried position or the leader's commit index, whichever is lower.
    /// A failed request leaves the log and the commit index untouched.
    ///
    /// The caller must persist `meta` and flush appended entries before
    /// acknowledging, and must reset its election timer on any request
    /// whose term was current.
    pub fn handle_append_entries(&mut self, req: &AppendEntriesRequest) -> (resp:
        AppendEntriesResponse)
        requires
            old(self).wf(),
            entries_well_indexed(view_entries(req.entries@), req.prev_log_index as int),
            req.prev_log_index + req.entries@.len() < u64::MAX,
            // In a conforming cluster a leader's entries never conflict
            // with an already-committed entry: committed entries are
            // identical on every node that holds them.
            ({
                let ev = view_entries(req.entries@);
                let prev = req.prev_log_index as int;
                req.term >= old(self).meta.current_term && prev_matches(
                    old(self).log@,
                    req.prev_log_index,
                    req.prev_log_term,
                ) && match_count(old(self).log@, prev, ev) < ev.len() ==> prev + match_count(
                    old(self).log@,
                    prev,
                    ev,
                ) >= old(self).meta.commit_index
            }),
        ensures
            final(self).wf(),
            resp.term == final(self).meta.current_term,
            final(self).meta.current_term == if req.term > old(self).meta.current_term {
                req.term
            } else {
                old(self).meta.current_term
            },
            resp.success == (req.term >= old(self).meta.current_term && prev_matches(
                old(self).log@,
                req.prev_log_index,
                req.prev_log_term,
            )),
            // A stale-term request changes nothing at all.
            req.term < old(self).meta.current_term ==> state_eq(*old(self), *final(self)),
            // A refused request leaves the log and the commit untouched.
            !resp.success ==> final(self).log@ == old(self).log@ && final(self).meta.commit_index
                == old(self).meta.commit_index,
            // A current-term request comes from the leader of that term.
            req.term >= old(self).meta.current_term ==> final(self).role == Role::Follower
                && final(self).leader_hint == Some(req.leader_id),
            resp.success ==> final(self).log@ == merged_log(
                old(self).log@,
                req.prev_log_index as int,
                view_entries(req.entries@),
            ),
            resp.success ==> final(self).meta.commit_index == ({
                let last = req.prev_log_index + req.entries@.len();
                let target = if req.leader_commit < last {
                    req.leader_commit as int
                } else {
                    last
                };
                if target > old(self).meta.commit_index {
                    target
                } else {
                    old(self).meta.commit_index as int
                }
            }),
            final(self).meta.voted_for == if req.term > old(self).meta.current_term {
                None
            } else {
                old(self).meta.voted_for
            },
            final(self).config == old(self).config,
            final(self).id == old(self).id,
            final(self).cluster_id == old(self).cluster_id,
            final(self).meta.commit_index >= old(self).meta.commit_index,
    {
        if req.term < self.meta.current_term {
            return AppendEntriesResponse { term: self.meta.current_term, success: false };
        }
        if req.term > self.meta.current_term {
            self.meta.current_term = req.term;
            self.meta.voted_for = None;
        }
        self.role = Role::Follower;
        self.leader_hint = Some(req.leader_id);
        let prev_ok = req.prev_log_index == 0 || self.term_matches_at(
            req.prev_log_index,
            req.prev_log_term,
        );
        if !prev_ok {
            return AppendEntriesResponse { term: self.meta.current_term, success: false };
        }
        let ghost ev = view_entries(req.entries@);
        let ghost prev = req.prev_log_index as int;
        let ghost pre_log = self.log@;
        let n = req.entries.len();
        let mut k: usize = 0;
        while k < n && self.term_matches_at(
            req.prev_log_index + (k as u64) + 1,
            req.entries[k].term,
        )
            invariant
                0 <= k <= n,
                n == req.entries@.len(),
                self.log@ == pre_log,
                self.log.wf(),
                ev == view_entries(req.entries@),
                prev == req.prev_log_index as int,
                prev + n < u64::MAX,
                forall|j: int|
                    0 <= j < k ==> prev + j < pre_log.len() && pre_log[prev + j].term == (
                    #[trigger] ev[j]).term,
            decreases n - k,
        {
            proof {
                assert(ev[k as int].term == req.entries@[k as int]@.term);
            }
            k += 1;
        }
        proof {
            assert(k < n ==> !(prev + k < pre_log.len() && pre_log[prev + k].term
                == ev[k as int].term)) by {
                if k < n {
                    assert(ev[k as int].term == req.entries@[k as int]@.term);
                    assert(spec_term_at(pre_log, (req.prev_log_index + (k as u64) + 1) as LogIndex)
                        == if prev + k < pre_log.len() {
                        pre_log[prev + k].term
                    } else {
                        spec_term_at(pre_log, (prev + k + 1) as LogIndex)
                    });
                }
            }
            lemma_match_count_from_prefix(pre_log, prev, ev, k as int);
        }
        if k < n {
            // First conflict at offset k: drop the conflicting suffix and
            // append the leader's entries from there on.
            proof {
                if k > 0 {
                    assert(prev + (k as int - 1) < pre_log.len() && pre_log[prev + (k as int)
                        - 1].term == ev[k as int - 1].term);
                }
                assert(prev <= pre_log.len());
                assert(prev + (k as int) <= pre_log.len());
            }
            self.log.truncate_after(req.prev_log_index + k as u64);
            proof {
                assert(self.log@ =~= pre_log.subrange(0, prev + (k as int)));
                assert(ev.subrange(k as int, k as int) =~= Seq::<LogEntryV>::empty());
                assert(self.log@ =~= pre_log.subrange(0, prev + (k as int)) + ev.subrange(
                    k as int,
                    k as int,
                ));
            }
            let mut j = k;
            while j < n
                invariant
                    k <= j <= n,
                    n == req.entries@.len(),
                    ev == view_entries(req.entries@),
                    prev == req.prev_log_index as int,
                    0 <= prev,
                    prev + (k as int) <= pre_log.len(),
                    prev + n < u64::MAX,
                    entries_well_indexed(ev, prev),
                    self.log.wf(),
                    self.log@ == pre_log.subrange(0, prev + (k as int)) + ev.subrange(k as int, j as int),
                    self.meta.current_term == if req.term > old(self).meta.current_term {
                        req.term
                    } else {
                        old(self).meta.current_term
                    },
                    self.meta.voted_for == if req.term > old(self).meta.current_term {
                        None
                    } else {
                        old(self).meta.voted_for
                    },
                    self.meta.commit_index == old(self).meta.commit_index,
                    self.role == Role::Follower,
                    self.leader_hint == Some(req.leader_id),
                    self.config == old(self).config,
                    self.id == old(self).id,
                    self.cluster_id == old(self).cluster_id,
                    self.votes_received@ == old(self).votes_received@,
                    self.progress@ == old(self).progress@,
                decreases n - j,
            {
                let ghost mid_log = self.log@;
                proof {
                    assert(ev[j as int] == req.entries@[j as int]@);
                    assert(self.log@.len() == prev + (j as int));
                    assert(ev[j as int].index == prev + 1 + j);
                }
                self.log.append(req.entries[j].clone());
                j += 1;
                proof {
                    assert(ev.subrange(k as int, j as int) =~= ev.subrange(k as int, j - 1).push(
                        ev[j - 1],
                    ));
                    assert(self.log@ =~= pre_log.subrange(0, prev + (k as int)) + ev.subrange(
                        k as int,
                        j as int,
                    ));
                }
            }
            proof {
                assert(ev.subrange(k as int, n as int) =~= ev.skip(k as int));
                assert(self.log@ =~= merged_log(pre_log, prev, ev));
            }
        } else {
            proof {
                assert(self.log@ == merged_log(pre_log, prev, ev));
            }
        }
        proof {
            assert(prev <= pre_log.len());
            if k == n && n > 0 {
                assert(prev + (n as int) - 1 < pre_log.len() && pre_log[prev + (n as int) - 1].term
                    == ev[n as int - 1].term);
            }
        }
        let last_new = req.prev_log_index + n as u64;
        let target = if req.leader_commit < last_new {
            req.leader_commit
        } else {
            last_new
        };
        if target > self.meta.commit_index {
            self.meta.commit_index = target;
        }
        AppendEntriesResponse { term: self.meta.current_term, success: true }
    }

    /// An election timeout elapsed without word from a leader: become a
    /// candidate for the next term, vote for this node itself, and build
    /// the vote request to broadcast.
    pub fn start_election(&mut self) -> (req: VoteRequest)
        requires
            old(self).wf(),
            old(self).meta.current_term < u64::MAX,
        ensures
            final(self).wf(),
            final(self).meta.current_term == old(self).meta.current_term + 1,
            final(self).meta.voted_for == Some(old(self).id),
            final(self).meta.commit_index == old(self).meta.commit_index,
            final(self).role == Role::Candidate,
            final(self).log@ == old(self).log@,
            final(self).config == old(self).config,
            final(self).id == old(self).id,
            final(self).cluster_id == old(self).cluster_id,
            final(self).votes_received@ == seq![old(self).id],
            req == (VoteRequest {
                term: final(self).meta.current_term,
                candidate_id: old(self).id,
                last_log_index: old(self).log@.len() as LogIndex,
                last_log_term: spec_last_term(old(self).log@),
            }),
    {
        self.meta.current_term = self.meta.current_term + 1;
        self.meta.voted_for = Some(self.id);
        self.role = Role::Candidate;
        let mut votes: Vec<ServerId> = Vec::new();
        votes.push(self.id);
        proof {
            assert(votes@ =~= seq![self.id]);
        }
        self.votes_received = votes;
        VoteRequest {
            term: self.meta.current_term,
            candidate_id: self.id,
            last_log_index: self.log.last_index(),
            last_log_term: self.log.last_term(),
        }
    }

    /// Records a vote response. The vote is counted only if this node is
    /// still a candidate at the response's term, and each voter is counted
    /// once. The node becomes leader exactly when the member ids among its
    /// recorded votes form a strict majority of the membership.
    pub fn record_vote(&mut self, from: ServerId, resp: &VoteResponse) -> (became_leader: bool)
        requires
            old(self).wf(),
        ensures
            final(self).wf(),
            final(self).log@ == old(self).log@,
            final(self).config == old(self).config,
            final(self).id == old(self).id,
            final(self).cluster_id == old(self).cluster_id,
            final(self).meta.commit_index == old(self).meta.commit_index,
            // A response from a newer term demotes the node at once.
            resp.term > old(self).meta.current_term ==> !became_leader && final(self).role
                == Role::Follower && final(self).meta.current_term == resp.term,
            resp.term <= old(self).meta.current_term ==> final(self).meta == old(self).meta,
            // Leadership is granted only to a candidate holding votes from
            // a strict majority of the current membership.
            became_leader ==> old(self).role == Role::Candidate && final(self).role == Role::Leader
                && 2 * count_in(final(self).votes_received@, final(self).config.members@) > final(self).config.members@.len(),
            !became_leader && resp.term <= old(self).meta.current_term ==> final(self).role == old(self).role,
            // A granted vote at the current term, received while still a
            // candidate, is recorded — each voter once — and leadership
            // follows exactly when the member votes now form a strict
            // majority.
            resp.term == old(self).meta.current_term && resp.granted && old(self).role
                == Role::Candidate ==> {
                &&& final(self).votes_received@ == if old(self).votes_received@.contains(from) {
                    old(self).votes_received@
                } else {
                    old(self).votes_received@.push(from)
                }
                &&& became_leader == (2 * count_in(
                    final(self).votes_received@,
                    old(self).config.members@,
                ) > old(self).config.members@.len())
            },
            // Any other response leaves the recorded votes alone.
            !(resp.term == old(self).meta.current_term && resp.granted && old(self).role
                == Role::Candidate) ==> final(self).votes_received@ == old(self).votes_received@
                && !became_leader,
            // A freshly elected leader tracks every other member, knowing
            // nothing replicated yet and sending from the log's end.
            became_leader ==> leader_progress_init(
                final(self).progress@,
                old(self).config.members@,
                old(self).id,
                old(self).log@.len() as int,
            ),
            !became_leader ==> final(self).progress@ == old(self).progress@,
    {
        if resp.term > self.meta.current_term {
            self.meta.current_term = resp.term;
            self.meta.voted_for = None;
            self.role = Role::Follower;
            return false;
        }
        let is_candidate = match self.role {
            Role::Candidate => true,
            _ => false,
        };
        if !is_candidate || !resp.granted || resp.term < self.meta.current_term {
            return false;
        }
        if !vec_contains(&self.votes_received, from) {
            self.votes_received.push(from);
            proof {
                assert(forall|i: int, j: int|
                    0 <= i < j < self.votes_received@.len() ==> self.votes_received@[i]
                        != self.votes_received@[j]);
            }
        }
        let cnt = count_votes(&self.votes_received, &self.config.members);
        if is_majority(cnt, self.config.members.len()) {
            self.role = Role::Leader;
            let next = self.log.last_index() + 1;
            let mut progress: Vec<PeerProgress> = Vec::new();
            let mut i: usize = 0;
            while i < self.config.members.len()
                invariant
                    0 <= i <= self.config.members@.len(),
                    seq_unique(self.config.members@),
                    progress_unique(progress@),
                    forall|j: int|
                        0 <= j < progress@.len() ==> {
                            &&& (#[trigger] progress@[j]).match_index == 0
                            &&& progress@[j].next_index == next
                            &&& self.config.members@.take(i as int).contains(progress@[j].id)
                            &&& progress@[j].id != self.id
                        },
                    forall|k: int|
                        0 <= k < i && (#[trigger] self.config.members@[k]) != self.id ==> exists|
                            j: int,
                        | 0 <= j < progress@.len() && progress@[j].id == self.config.members@[k],
                decreases self.config.members@.len() - i,
            {
                let ghost pre_take = self.config.members@.take(i as int);
                let ghost pre_progress = progress@;
                let m = self.config.members[i];
                if m != self.id {
                    proof {
                        assert forall|j: int| 0 <= j < progress@.len() implies (#[trigger] progress@[j]).id
                            != m by {
                            let k = choose|k: int|
                                0 <= k < pre_take.len() && pre_take[k] == progress@[j].id;
                            assert(self.config.members@[k] == progress@[j].id);
                            assert(self.config.members@[k] != self.config.members@[i as int]);
                        }
                    }
                    progress.push(PeerProgress { id: m, match_index: 0, next_index: next });
                }
                i += 1;
                proof {
                    broadcast use vstd::seq_lib::lemma_seq_contains_after_push;

                    assert(self.config.members@.take(i as int) =~= pre_take.push(
                        self.config.members@[i - 1],
                    ));
                    if self.config.members@[i - 1] != self.id {
                        assert(progress@[progress@.len() - 1].id == self.config.members@[i - 1]);
                    }
                    assert forall|j: int|
                        0 <= j < progress@.len() implies self.config.members@.take(
                        i as int,
                    ).contains((#[trigger] progress@[j]).id) by {
                        if j < pre_progress.len() {
                            assert(pre_take.contains(pre_progress[j].id));
                        }
                    }
                    assert forall|k: int|
                        0 <= k < i && (#[trigger] self.config.members@[k]) != self.id implies exists|
                        j: int,
                    | 0 <= j < progress@.len() && progress@[j].id == self.config.members@[k] by {
                        if k < i - 1 {
                            let j = choose|j: int|
                                0 <= j < pre_progress.len() && pre_progress[j].id
                                    == self.config.members@[k];
                            assert(progress@[j].id == self.config.members@[k]);
                        } else {
                            assert(progress@[progress@.len() - 1].id == self.config.members@[k]);
                        }
                    }
                }
            }
            proof {
                assert(self.config.members@.take(self.config.members@.len() as int)
                    =~= self.config.members@);
            }
            self.progress = progress;
            proof {
                assert(leader_progress_init(
                    self.progress@,
                    self.config.members@,
                    self.id,
                    self.log@.len() as int,
                ));
            }
            return true;
        }
        false
    }

    /// Appends a proposal to the leader's log at the next free index with
    /// the leader's term, and reports that position. On a non-leader the
    /// state is untouched and the caller is redirected. The returned index
    /// is what the join protocol hands out as the new node's id.
    pub fn propose(&mut self, data: LogEntryData) -> (r: Result<ProposeResponse, RaftError>)
        requires
            old(self).wf(),
            old(self).log@.len() + 1 < u64::MAX,
        ensures
            final(self).wf(),
            r is Ok <==> old(self).role == Role::Leader,
            // A leader only ever appends at the end of its own log.
            old(self).role == Role::Leader ==> r == Ok::<ProposeResponse, RaftError>(ProposeResponse {
                index: (old(self).log@.len() + 1) as LogIndex,
                term: old(self).meta.current_term,
            }) && final(self).log@ == old(self).log@.push(
                LogEntryV {
                    term: old(self).meta.current_term,
                    index: (old(self).log@.len() + 1) as LogIndex,
                    data: data@,
                },
            ) && final(self).meta == old(self).meta && final(self).role == old(self).role && final(self).config == old(self).config && final(self).id == old(self).id && final(self).cluster_id == old(self).cluster_id,
            old(self).role != Role::Leader ==> r == Err::<ProposeResponse, RaftError>(
                RaftError::NotLeader(old(self).leader_hint),
            ) && state_eq(*old(self), *final(self)),
    {
        let is_leader = match self.role {
            Role::Leader => true,
            _ => false,
        };
        if !is_leader {
            return Err(RaftError::NotLeader(self.leader_hint));
        }
        let index = self.log.last_index() + 1;
        let term = self.meta.current_term;
        self.log.append(LogEntry { term, index, data });
        Ok(ProposeResponse { index, term })
    }

    /// Member `m` is known to hold every log entry up to position `n`:
    /// the leader itself holds its whole log, any other member must have
    /// acknowledged replication that far.
    pub open spec fn spec_acked(&self, m: ServerId, n: LogIndex) -> bool {
        if m == self.id {
            n <= self.log@.len()
        } else {
            replicated_on(self.progress@, m, n)
        }
    }

    /// How many members are known to hold every entry up to `n`.
    pub open spec fn spec_ack_count(&self, members: Seq<ServerId>, n: LogIndex) -> int
        decreases members.len(),
    {
        if members.len() == 0 {
            0
        } else {
            self.spec_ack_count(members.drop_last(), n) + if self.spec_acked(members.last(), n) {
                1int
            } else {
                0int
            }
        }
    }

    /// Position `n` is safe to commit: the entry carries the leader's own
    /// term and a strict majority of the membership holds it. Counting
    /// only current-term entries is Raft's guard against committing a
    /// stale-term entry by replica count alone.
    pub open spec fn commit_ok(&self, n: LogIndex) -> bool {
        &&& 1 <= n <= self.log@.len()
        &&& spec_term_at(self.log@, n) == self.meta.current_term
        &&& 2 * self.spec_ack_count(self.config.members@, n) > self.config.members@.len()
    }

    /// Whether member `m` is known to hold every entry up to `n`.
    fn peer_acked(&self, m: ServerId, n: LogIndex) -> (r: bool)
        ensures
            r == self.spec_acked(m, n),
    {
        if m == self.id {
            let r = n <= self.log.last_index();
            proof {
                assert(r == self.spec_acked(m, n));
            }
            return r;
        }
        let mut i: usize = 0;
        while i < self.progress.len()
            invariant
                m != self.id,
                0 <= i <= self.progress@.len(),
                forall|j: int|
                    0 <= j < i ==> !((#[trigger] self.progress@[j]).id == m
                        && self.progress@[j].match_index >= n),
            decreases self.progress@.len() - i,
        {
            let p = self.progress[i];
            if p.id == m && p.match_index >= n {
                proof {
                    assert(self.progress@[i as int].id == m && self.progress@[i as int].match_index
                        >= n);
                }
                return true;
            }
            i += 1;
        }
        proof {
            assert(!replicated_on(self.progress@, m, n)) by {
                if replicated_on(self.progress@, m, n) {
                    let w = choose|w: int|
                        0 <= w < self.progress@.len() && self.progress@[w].id == m
                            && self.progress@[w].match_index >= n;
                    assert(!(self.progress@[w].id == m && self.progress@[w].match_index >= n));
                }
            }
        }
        false
    }

    /// Counts the members known to hold every entry up to `n`.
    fn ack_count(&self, n: LogIndex) -> (c: usize)
        ensures
            c == self.spec_ack_count(self.config.members@, n),
            c <= self.config.members@.len(),
    {
        let mut c: usize = 0;
        let mut i: usize = 0;
        while i < self.config.members.len()
            invariant
                0 <= i <= self.config.members@.len(),
                c == self.spec_ack_count(self.config.members@.take(i as int), n),
                c <= i,
            decreases self.config.members@.len() - i,
        {
            let ghost pre = self.config.members@.take(i as int);
            if self.peer_acked(self.config.members[i], n) {
                c += 1;
            }
            i += 1;
            proof {
                assert(self.config.members@.take(i as int).drop_last() =~= pre);
                assert(self.config.members@.take(i as int).last() == self.config.members@[i - 1]);
            }
        }
        proof {
            assert(self.config.members@.take(self.config.members@.len() as int)
                =~= self.config.members@);
        }
        c
    }

    /// Handles a peer's reply to replicated entries. A newer term in the
    /// reply demotes this node at once. On success the peer's progress
    /// record advances to cover the `count_sent` entries that followed
    /// `prev_sent`; on a log mismatch the send position backs off by one
    /// so the next attempt probes one entry earlier.
    pub fn record_append_response(
        &mut self,
        peer: ServerId,
        resp: &AppendEntriesResponse,
        prev_sent: LogIndex,
        count_sent: u64,
    ) -> (r: Result<(), RaftError>)
        requires
            old(self).wf(),
            prev_sent + count_sent < u64::MAX,
        ensures
            final(self).wf(),
            final(self).log@ == old(self).log@,
            final(self).config == old(self).config,
            final(self).meta.commit_index == old(self).meta.commit_index,
            final(self).id == old(self).id,
            final(self).cluster_id == old(self).cluster_id,
            final(self).votes_received@ == old(self).votes_received@,
            // A newer term in a reply demotes this node.
            resp.term > old(self).meta.current_term ==> r == Err::<(), RaftError>(
                RaftError::StaleTerm,
            ) && final(self).role == Role::Follower && final(self).meta.current_term == resp.term
                && final(self).meta.voted_for is None && final(self).progress@ == old(
                self,
            ).progress@,
            resp.term <= old(self).meta.current_term ==> final(self).meta == old(self).meta
                && final(self).role == old(self).role,
            // A reply that is stale, or arrives when no longer leader, is
            // dropped.
            resp.term <= old(self).meta.current_term && (old(self).role != Role::Leader
                || resp.term < old(self).meta.current_term) ==> r is Ok && final(self).progress@
                == old(self).progress@,
            // A current-term success advances the peer's progress record.
            old(self).role == Role::Leader && resp.term == old(self).meta.current_term
                && resp.success ==> r is Ok && ({
                let new_match = if prev_sent + count_sent > old(self).progress_match(peer) {
                    (prev_sent + count_sent) as int
                } else {
                    old(self).progress_match(peer) as int
                };
                forall|i: int|
                    0 <= i < old(self).progress@.len() && (#[trigger] old(self).progress@[i]).id
                        == peer ==> final(self).progress@ == old(self).progress@.update(
                        i,
                        PeerProgress {
                            id: peer,
                            match_index: new_match as LogIndex,
                            next_index: (new_match + 1) as LogIndex,
                        },
                    )
            }),
            // A current-term refusal backs the send position off by one.
            old(self).role == Role::Leader && resp.term == old(self).meta.current_term
                && !resp.success ==> r == Err::<(), RaftError>(RaftError::LogMismatch) && forall|
                i: int,
            |
                0 <= i < old(self).progress@.len() && (#[trigger] old(self).progress@[i]).id
                    == peer ==> final(self).progress@ == old(self).progress@.update(
                    i,
                    PeerProgress {
                        id: peer,
                        match_index: old(self).progress@[i].match_index,
                        next_index: if old(self).progress@[i].next_index > 1 {
                            (old(self).progress@[i].next_index - 1) as LogIndex
                        } else {
                            1
                        },
                    },
                ),
            // An unknown peer changes nothing.
            resp.term <= old(self).meta.current_term && !(exists|i: int|
                0 <= i < old(self).progress@.len() && (#[trigger] old(self).progress@[i]).id
                    == peer) ==> final(self).progress@ == old(self).progress@,
    {
        if resp.term > self.meta.current_term {
            self.meta.current_term = resp.term;
            self.meta.voted_for = None;
            self.role = Role::Follower;
            return Err(RaftError::StaleTerm);
        }
        let is_leader = match self.role {
            Role::Leader => true,
            _ => false,
        };
        if !is_leader || resp.term < self.meta.current_term {
            return Ok(());
        }
        let found = find_progress(&self.progress, peer);
        let i = match found {
            Some(i) => i,
            None => {
                // No record for this peer: it is not tracked, drop the
                // reply.
                if resp.success {
                    return Ok(());
                } else {
                    return Err(RaftError::LogMismatch);
                }
            },
        };
        let p = self.progress[i];
        let ghost pre_progress = self.progress@;
        proof {
            assert forall|i2: int|
                0 <= i2 < pre_progress.len() && (#[trigger] pre_progress[i2]).id
                    == peer implies i2 == i as int by {
                if i2 < i as int {
                    assert(pre_progress[i2].id != pre_progress[i as int].id);
                } else if i2 > i as int {
                    assert(pre_progress[i as int].id != pre_progress[i2].id);
                }
            }
            assert(self.progress_match(peer) == p.match_index);
        }
        if resp.success {
            let acked = prev_sent + count_sent;
            let new_match = if acked > p.match_index {
                acked
            } else {
                p.match_index
            };
            self.progress[i] = PeerProgress {
                id: peer,
                match_index: new_match,
                next_index: new_match + 1,
            };
            proof {
                assert(self.progress@ =~= pre_progress.update(i as int, self.progress@[i as int]));
            }
            Ok(())
        } else {
            let new_next = if p.next_index > 1 {
                p.next_index - 1
            } else {
                1
            };
            self.progress[i] = PeerProgress {
                id: peer,
                match_index: p.match_index,
                next_index: new_next,
            };
            proof {
                assert(self.progress@ =~= pre_progress.update(i as int, self.progress@[i as int]));
            }
            Err(RaftError::LogMismatch)
        }
    }

    /// Builds the replication request for `peer`: every entry from the
    /// peer's next send position to the end of the leader's log (none
    /// when the peer is up to date — the empty request is the heartbeat),
    /// with the consistency-check position just before them. `None` when
    /// the peer is not tracked or its recorded send position lies beyond
    /// the log's end.
    pub fn build_append_request(&self, peer: ServerId) -> (r: Option<AppendEntriesRequest>)
        requires
            self.wf(),
            self.role == Role::Leader,
        ensures
            match r {
                Some(req) => {
                    &&& replicated_on(self.progress@, peer, 0)
                    &&& req.term == self.meta.current_term
                    &&& req.leader_id == self.id
                    &&& req.leader_commit == self.meta.commit_index
                    &&& req.prev_log_index <= self.log@.len()
                    &&& req.prev_log_term == spec_term_at(self.log@, req.prev_log_index)
                    &&& view_entries(req.entries@) == self.log@.subrange(
                        req.prev_log_index as int,
                        self.log@.len() as int,
                    )
                    &&& entries_well_indexed(
                        view_entries(req.entries@),
                        req.prev_log_index as int,
                    )
                    &&& prev_matches(self.log@, req.prev_log_index, req.prev_log_term)
                },
                None => true,
            },
            // A tracked peer whose send position lies within the log is
            // always served: a leader cannot decline to replicate.
            (exists|i: int|
                0 <= i < self.progress@.len() && (#[trigger] self.progress@[i]).id == peer && 1
                    <= self.progress@[i].next_index <= self.log@.len() + 1) ==> r is Some,
    {
        let i = match find_progress(&self.progress, peer) {
            Some(i) => i,
            None => {
                proof {
                    assert(!(exists|w: int|
                        0 <= w < self.progress@.len() && (#[trigger] self.progress@[w]).id == peer
                            && 1 <= self.progress@[w].next_index <= self.log@.len() + 1)) by {
                        if exists|w: int|
                            0 <= w < self.progress@.len() && (#[trigger] self.progress@[w]).id
                                == peer && 1 <= self.progress@[w].next_index <= self.log@.len()
                                + 1 {
                            let w = choose|w: int|
                                0 <= w < self.progress@.len() && (#[trigger] self.progress@[w]).id
                                    == peer && 1 <= self.progress@[w].next_index <= self.log@.len()
                                    + 1;
                            assert(self.progress@[w].id != peer);
                        }
                    }
                }
                return None;
            },
        };
        let next = self.progress[i].next_index;
        if next < 1 || next > self.log.last_index() + 1 {
            proof {
                assert forall|w: int|
                    0 <= w < self.progress@.len() && (#[trigger] self.progress@[w]).id
                        == peer implies w == i as int by {
                    if w < i as int {
                        assert(self.progress@[w].id != self.progress@[i as int].id);
                    } else if w > i as int {
                        assert(self.progress@[i as int].id != self.progress@[w].id);
                    }
                }
            }
            return None;
        }
        let prev = next - 1;
        let prev_term = match self.log.term_at(prev) {
            Some(t) => t,
            None => 0,
        };
        let mut entries: Vec<LogEntry> = Vec::new();
        let mut j = next;
        while j <= self.log.last_index()
            invariant
                self.wf(),
                1 <= next <= j,
                prev == next - 1,
                j <= self.log@.len() + 1,
                view_entries(entries@) == self.log@.subrange(prev as int, j - 1),
            decreases self.log@.len() + 1 - j,
        {
            let ghost pre = entries@;
            match self.log.entry_at(j) {
                Some(e) => {
                    entries.push(e.clone());
                },
                None => {
                    proof {
                        assert(false);
                    }
                },
            }
            j += 1;
            proof {
                assert(view_entries(entries@) =~= view_entries(pre).push(
                    entries@[entries@.len() - 1]@,
                ));
                assert(self.log@.subrange(prev as int, j - 1) =~= self.log@.subrange(
                    prev as int,
                    j - 2,
                ).push(self.log@[j - 2]));
            }
        }
        proof {
            assert(self.progress@[i as int].id == peer && self.progress@[i as int].match_index
                >= 0);
            assert(view_entries(entries@) == self.log@.subrange(
                prev as int,
                self.log@.len() as int,
            ));
            assert(entries_well_indexed(view_entries(entries@), prev as int)) by {
                assert forall|x: int|
                    0 <= x < view_entries(entries@).len() implies (#[trigger] view_entries(
                    entries@,
                )[x]).index == prev + 1 + x by {
                    assert(view_entries(entries@)[x] == self.log@[prev + x]);
                }
            }
        }
        Some(
            AppendEntriesRequest {
                term: self.meta.current_term,
                leader_id: self.id,
                prev_log_index: prev,
                prev_log_term: prev_term,
                entries,
                leader_commit: self.meta.commit_index,
            },
        )
    }

    /// Highest index some progress record reports replicated on `peer`,
    /// or 0 when the peer is not tracked.
    pub open spec fn progress_match(&self, peer: ServerId) -> LogIndex {
        if exists|i: int| 0 <= i < self.progress@.len() && self.progress@[i].id == peer {
            self.progress@[choose|i: int|
                0 <= i < self.progress@.len() && self.progress@[i].id == peer].match_index
        } else {
            0
        }
    }

    /// Advances the leader's commit index to the highest position that is
    /// safe to commit, if any is beyond the current one: replicated on a
    /// strict majority and carrying the leader's own term.
    pub fn advance_commit_index(&mut self) -> (advanced: bool)
        requires
            old(self).wf(),
            old(self).role == Role::Leader,
        ensures
            final(self).wf(),
            final(self).log@ == old(self).log@,
            final(self).config == old(self).config,
            final(self).role == old(self).role,
            final(self).meta.current_term == old(self).meta.current_term,
            final(self).meta.voted_for == old(self).meta.voted_for,
            final(self).id == old(self).id,
            final(self).cluster_id == old(self).cluster_id,
            final(self).votes_received@ == old(self).votes_received@,
            final(self).progress@ == old(self).progress@,
            final(self).leader_hint == old(self).leader_hint,
            final(self).meta.commit_index >= old(self).meta.commit_index,
            advanced == (final(self).meta.commit_index > old(self).meta.commit_index),
            advanced ==> old(self).commit_ok(final(self).meta.commit_index),
            // Nothing beyond the new commit index is safe to commit.
            forall|m: LogIndex|
                final(self).meta.commit_index < m <= old(self).log@.len() ==> !old(
                    self,
                ).commit_ok(m),
    {
        let last = self.log.last_index();
        let mut best = self.meta.commit_index;
        let mut n = self.meta.commit_index + 1;
        while n <= last
            invariant
                self.wf(),
                self.role == Role::Leader,
                last == self.log@.len(),
                self.meta.commit_index < n <= last + 1,
                self.meta.commit_index <= best < n,
                best > self.meta.commit_index ==> self.commit_ok(best),
                forall|m: LogIndex| best < m < n ==> !self.commit_ok(m),
            decreases last + 1 - n,
        {
            let term_ok = self.term_matches_at(n, self.meta.current_term);
            if term_ok {
                let cnt = self.ack_count(n);
                if is_majority(cnt, self.config.members.len()) {
                    best = n;
                }
            }
            n += 1;
        }
        if best > self.meta.commit_index {
            self.meta.commit_index = best;
            true
        } else {
            false
        }
    }

    /// The next committed entry that has not yet been applied to the
    /// state machine: the one right after `last_applied`, while that lies
    /// within the commit index.
    pub fn next_to_apply(&self) -> (r: Option<&LogEntry>)
        requires
            self.wf(),
        ensures
            match r {
                Some(e) => self.config.last_applied < self.meta.commit_index && e@
                    == self.log@[self.config.last_applied as int],
                None => self.config.last_applied == self.meta.commit_index,
            },
    {
        if self.config.last_applied < self.meta.commit_index {
            match self.log.entry_at(self.config.last_applied + 1) {
                Some(e) => Some(e),
                None => None,
            }
        } else {
            None
        }
    }

    /// Records that the entry right after `last_applied` has been applied
    /// to the state machine. Application is in strict index order, each
    /// position exactly once: `last_applied` only ever moves up by one. A
    /// committed membership change takes effect on the active membership
    /// here, at application time.
    pub fn mark_applied(&mut self, e: &LogEntry)
        requires
            old(self).wf(),
            old(self).config.last_applied < old(self).meta.commit_index,
            e@ == old(self).log@[old(self).config.last_applied as int],
        ensures
            final(self).wf(),
            final(self).config.last_applied == old(self).config.last_applied + 1,
            final(self).log@ == old(self).log@,
            final(self).meta == old(self).meta,
            final(self).role == old(self).role,
            final(self).id == old(self).id,
            final(self).cluster_id == old(self).cluster_id,
            final(self).config.learners@ == old(self).config.learners@,
            // Exactly a committed membership change mutates the active
            // membership.
            match e@.data {
                LogEntryDataV::Config(c) => match c {
                    ConfigChange::AddMember(m) => forall|x: ServerId|
                        final(self).config.members@.contains(x) == (old(
                            self,
                        ).config.members@.contains(x) || x == m),
                    ConfigChange::RemoveMember(m) => forall|x: ServerId|
                        final(self).config.members@.contains(x) == (old(
                            self,
                        ).config.members@.contains(x) && x != m),
                },
                _ => final(self).config.members@ == old(self).config.members@,
            },
    {
        match &e.data {
            LogEntryData::Config(c) => {
                match c {
                    ConfigChange::AddMember(m) => self.add_member(*m),
                    ConfigChange::RemoveMember(m) => self.remove_member(*m),
                }
            },
            _ => {},
        }
        self.config.last_applied = self.config.last_applied + 1;
    }

    /// Inserts `m` into the active membership if it is not yet a member.
    fn add_member(&mut self, m: ServerId)
        requires
            old(self).wf(),
        ensures
            final(self).wf(),
            forall|x: ServerId|
                final(self).config.members@.contains(x) == (old(self).config.members@.contains(x)
                    || x == m),
            unchanged_but_members(*old(self), *final(self)),
    {
        if !vec_contains(&self.config.members, m) {
            let ghost pre = self.config.members@;
            self.config.members.push(m);
            proof {
                broadcast use vstd::seq_lib::lemma_seq_contains_after_push;

                assert(forall|i: int, j: int|
                    0 <= i < j < self.config.members@.len() ==> self.config.members@[i]
                        != self.config.members@[j]);
            }
        }
    }

    /// Removes `m` from the active membership if it is a member.
    fn remove_member(&mut self, m: ServerId)
        requires
            old(self).wf(),
        ensures
            final(self).wf(),
            forall|x: ServerId|
                final(self).config.members@.contains(x) == (old(self).config.members@.contains(x)
                    && x != m),
            unchanged_but_members(*old(self), *final(self)),
    {
        let ghost pre = self.config.members@;
        match vec_find(&self.config.members, m) {
            Some(i) => {
                self.config.members.remove(i);
                proof {
                    assert forall|x: ServerId|
                        self.config.members@.contains(x) == (pre.contains(x) && x != m) by {
                        lemma_remove_unique(pre, i as int, x);
                    }
                    assert(seq_unique(self.config.members@)) by {
                        lemma_remove_unique(pre, i as int, m);
                    }
                }
            },
            None => {
                proof {
                    assert forall|x: ServerId|
                        self.config.members@.contains(x) == (pre.contains(x) && x != m) by {
                        if pre.contains(x) && x == m {
                            let w = choose|w: int| 0 <= w < pre.len() && pre[w] == x;
                            assert(pre[w] != m);
                        }
                    }
                }
            },
        }
    }

    /// Whether this node still has to ask the cluster for membership: a
    /// node whose log is empty at startup is not yet a recognized member
    /// and proposes an `AddMember` for itself; one with any entries was
    /// already accepted by a leader.
    pub fn membership_pending(&self) -> (r: bool)
        ensures
            r == (self.log@.len() == 0),
    {
        self.log.last_index() == 0
    }

    /// Whether the proposal appended at `index` with `term` is committed:
    /// the commit index has reached it and the entry there still carries
    /// the proposal's term — otherwise a later leader overwrote it and
    /// the proposal is lost. A proposer that asked to wait is woken once
    /// this holds.
    pub fn proposal_committed(&self, index: LogIndex, term: Term) -> (r: bool)
        requires
            self.wf(),
        ensures
            r == (1 <= index <= self.meta.commit_index && spec_term_at(self.log@, index) == term),
    {
        index >= 1 && index <= self.meta.commit_index && (match self.log.term_at(index) {
            Some(t) => t == term,
            None => false,
        })
    }

    /// Why a vote request would be refused, if it would be: a stale term,
    /// or a conflicting vote already cast in the same term.
    pub fn vote_reject_reason(&self, req: &VoteRequest) -> (r: Option<RaftError>)
        requires
            self.wf(),
        ensures
            r is None <==> grants_vote(
                self.meta.current_term,
                self.meta.voted_for,
                self.log@,
                *req,
            ),
            r == Some(RaftError::StaleTerm) <==> req.term < self.meta.current_term,
            r == Some(RaftError::ConflictingVote) <==> req.term == self.meta.current_term
                && !(self.meta.voted_for is None || self.meta.voted_for == Some(req.candidate_id)),
            r == Some(RaftError::LogMismatch) <==> req.term >= self.meta.current_term && (req.term
                > self.meta.current_term || self.meta.voted_for is None || self.meta.voted_for
                == Some(req.candidate_id)) && !candidate_up_to_date(
                self.log@,
                req.last_log_term,
                req.last_log_index,
            ),
    {
        if req.term < self.meta.current_term {
            Some(RaftError::StaleTerm)
        } else if req.term == self.meta.current_term && !(match self.meta.voted_for {
            None => true,
            Some(v) => v == req.candidate_id,
        }) {
            Some(RaftError::ConflictingVote)
        } else {
            let lt = self.log.last_term();
            let li = self.log.last_index();
            if req.last_log_term > lt || (req.last_log_term == lt && req.last_log_index >= li) {
                None
            } else {
                Some(RaftError::LogMismatch)
            }
        }
    }
}

} // verus!
