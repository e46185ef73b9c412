//! The network agent: the process-wide routing table from server id to
//! address, the node's own identity, and the cluster id. The RPC client,
//! the RPC server and discovery all share one agent; the process guards
//! it with a lock and keeps critical sections short.
//!
//! Identity and cluster id are set at most once and are immutable after:
//! a later attempt with a different cluster id is rejected rather than
//! silently merged. Routes are merged from gossip announcements, the
//! newest descriptor for an id winning.
use vstd::prelude::*;

use crate::types::{ClusterId, ServerId};

verus! {

/// A peer's advertised identity: its id and the address it serves on.
#[derive(Debug)]
pub struct ServerDescriptor {
    pub id: ServerId,
    pub addr: String,
}

impl Clone for ServerDescriptor {
    /// A clone names the same server at the same address.
    fn clone(&self) -> (r: ServerDescriptor)
        ensures
            r.id == self.id,
            r.addr@ == self.addr@,
    {
        ServerDescriptor { id: self.id, addr: self.addr.clone() }
    }
}

/// A serializable snapshot of routes, exchanged during gossip and stored
/// in the `routes` durable file.
#[derive(Debug)]
pub struct Announcement {
    pub routes: Vec<ServerDescriptor>,
}

/// No two descriptors name the same server.
pub open spec fn routes_unique(s: Seq<ServerDescriptor>) -> bool {
    forall|i: int, j: int| 0 <= i < j < s.len() ==> s[i].id != s[j].id
}

/// Some descriptor names server `id`.
pub open spec fn has_route(s: Seq<ServerDescriptor>, id: ServerId) -> bool {
    exists|i: int| 0 <= i < s.len() && s[i].id == id
}

/// Some descriptor routes server `id` to exactly `addr`.
pub open spec fn routes_to(s: Seq<ServerDescriptor>, id: ServerId, addr: Seq<char>) -> bool {
    exists|i: int| 0 <= i < s.len() && s[i].id == id && s[i].addr@ == addr
}

/// The agent's state. Created empty at process start; identity and
/// cluster id are filled in exactly once during startup or the first
/// successful join.
pub struct NetworkAgent {
    pub identity: Option<ServerDescriptor>,
    pub cluster_id: Option<ClusterId>,
    pub routes: Vec<ServerDescriptor>,
}

impl NetworkAgent {
    pub open spec fn wf(&self) -> bool {
        routes_unique(self.routes@)
    }

    /// An empty agent: no identity, no cluster, no routes.
    pub fn new() -> (r: NetworkAgent)
        ensures
            r.identity is None,
            r.cluster_id is None,
            r.routes@ == Seq::<ServerDescriptor>::empty(),
            r.wf(),
    {
        let r = NetworkAgent { identity: None, cluster_id: None, routes: Vec::new() };
        proof {
            assert(r.routes@ =~= Seq::<ServerDescriptor>::empty());
        }
        r
    }

    /// Sets the node's own identity, once: a second attempt is refused
    /// and changes nothing.
    pub fn set_identity(&mut self, d: ServerDescriptor) -> (accepted: bool)
        requires
            old(self).wf(),
        ensures
            final(self).wf(),
            final(self).routes@ == old(self).routes@,
            final(self).cluster_id == old(self).cluster_id,
            old(self).identity is None ==> accepted && final(self).identity == Some(d),
            old(self).identity is Some ==> !accepted && final(self).identity == old(
                self,
            ).identity,
    {
        match self.identity {
            None => {
                self.identity = Some(d);
                true
            },
            Some(_) => false,
        }
    }

    /// Sets the cluster id, once. Repeating the same id is accepted and
    /// changes nothing; a different id is a cluster mismatch and is
    /// rejected rather than silently merged.
    pub fn set_cluster_id(&mut self, c: ClusterId) -> (accepted: bool)
        requires
            old(self).wf(),
        ensures
            final(self).wf(),
            final(self).routes@ == old(self).routes@,
            final(self).identity == old(self).identity,
            old(self).cluster_id is None ==> accepted && final(self).cluster_id == Some(c),
            old(self).cluster_id is Some ==> final(self).cluster_id == old(self).cluster_id
                && accepted == (old(self).cluster_id == Some(c)),
    {
        match self.cluster_id {
            None => {
                self.cluster_id = Some(c);
                true
            },
            Some(existing) => existing == c,
        }
    }

    /// Learns a peer's address: the newest descriptor for an id replaces
    /// an older one, an unknown id is added.
    pub fn add_route(&mut self, d: ServerDescriptor)
        requires
            old(self).wf(),
        ensures
            final(self).wf(),
            final(self).identity == old(self).identity,
            final(self).cluster_id == old(self).cluster_id,
            (exists|i: int|
                0 <= i < old(self).routes@.len() && old(self).routes@[i].id == d.id
                    && final(self).routes@ == old(self).routes@.update(i, d)) || ((forall|i: int|
                0 <= i < old(self).routes@.len() ==> (#[trigger] old(self).routes@[i]).id != d.id)
                && final(self).routes@ == old(self).routes@.push(d)),
            has_route(final(self).routes@, d.id),
    {
        let ghost pre = self.routes@;
        let mut i: usize = 0;
        while i < self.routes.len()
            invariant
                0 <= i <= self.routes@.len(),
                self.routes@ == pre,
                routes_unique(pre),
                self.identity == old(self).identity,
                self.cluster_id == old(self).cluster_id,
                pre == old(self).routes@,
                forall|k: int| 0 <= k < i ==> (#[trigger] pre[k]).id != d.id,
            decreases self.routes@.len() - i,
        {
            if self.routes[i].id == d.id {
                let ghost dv = d;
                self.routes[i] = d;
                proof {
                    assert(self.routes@ =~= pre.update(i as int, dv));
                    assert(self.routes@[i as int].id == dv.id);
                    assert(routes_unique(self.routes@)) by {
                        assert(forall|k: int|
                            0 <= k < self.routes@.len() ==> (#[trigger] self.routes@[k]).id
                                == pre[k].id);
                    }
                }
                return ;
            }
            i += 1;
        }
        let ghost dv = d;
        self.routes.push(d);
        proof {
            assert(self.routes@[self.routes@.len() - 1].id == dv.id);
            assert(routes_unique(self.routes@)) by {
                assert(forall|a: int, b: int|
                    0 <= a < b < self.routes@.len() - 1 ==> self.routes@[a].id
                        != self.routes@[b].id);
            }
        }
    }

    /// Merges an announcement: afterwards every announced server has a
    /// route. Identity and cluster id are untouched.
    pub fn apply(&mut self, ann: &Announcement)
        requires
            old(self).wf(),
        ensures
            final(self).wf(),
            final(self).identity == old(self).identity,
            final(self).cluster_id == old(self).cluster_id,
            forall|j: int|
                0 <= j < ann.routes@.len() ==> has_route(
                    final(self).routes@,
                    (#[trigger] ann.routes@[j]).id,
                ),
            // Each announced server is routed to its announced address:
            // for an id named more than once, the last descriptor wins.
            forall|j: int|
                0 <= j < ann.routes@.len() && (forall|k: int|
                    j < k < ann.routes@.len() ==> (#[trigger] ann.routes@[k]).id
                        != ann.routes@[j].id) ==> routes_to(
                    final(self).routes@,
                    (#[trigger] ann.routes@[j]).id,
                    ann.routes@[j].addr@,
                ),
    {
        let mut j: usize = 0;
        while j < ann.routes.len()
            invariant
                0 <= j <= ann.routes@.len(),
                self.wf(),
                self.identity == old(self).identity,
                self.cluster_id == old(self).cluster_id,
                forall|k: int|
                    0 <= k < j ==> has_route(self.routes@, (#[trigger] ann.routes@[k]).id),
                forall|m: int|
                    0 <= m < j && (forall|k: int|
                        m < k < j ==> (#[trigger] ann.routes@[k]).id != ann.routes@[m].id)
                        ==> routes_to(
                        self.routes@,
                        (#[trigger] ann.routes@[m]).id,
                        ann.routes@[m].addr@,
                    ),
            decreases ann.routes@.len() - j,
        {
            let ghost pre = self.routes@;
            let d = ann.routes[j].clone();
            let ghost dv = d;
            self.add_route(d);
            j += 1;
            proof {
                let post = self.routes@;
                assert forall|k: int|
                    0 <= k < j - 1 implies has_route(post, (#[trigger] ann.routes@[k]).id) by {
                    let w = choose|w: int| 0 <= w < pre.len() && pre[w].id == ann.routes@[k].id;
                    assert(0 <= w < post.len() && post[w].id == pre[w].id);
                }
                assert forall|m: int|
                    0 <= m < j && (forall|k: int|
                        m < k < j ==> (#[trigger] ann.routes@[k]).id != ann.routes@[m].id)
                        implies routes_to(
                    post,
                    (#[trigger] ann.routes@[m]).id,
                    ann.routes@[m].addr@,
                ) by {
                    if m == j - 1 {
                        if exists|i: int|
                            0 <= i < pre.len() && pre[i].id == dv.id && post == pre.update(i, dv) {
                            let i = choose|i: int|
                                0 <= i < pre.len() && pre[i].id == dv.id && post == pre.update(
                                    i,
                                    dv,
                                );
                            assert(post[i].id == dv.id && post[i].addr@ == dv.addr@);
                        } else {
                            assert(post == pre.push(dv));
                            assert(post[post.len() - 1] == dv);
                        }
                    } else {
                        // The id merged this round differs from m's id,
                        // else m were not the last occurrence.
                        assert(ann.routes@[j - 1].id != ann.routes@[m].id);
                        assert(routes_to(pre, ann.routes@[m].id, ann.routes@[m].addr@));
                        let w = choose|w: int|
                            0 <= w < pre.len() && pre[w].id == ann.routes@[m].id && pre[w].addr@
                                == ann.routes@[m].addr@;
                        if exists|i: int|
                            0 <= i < pre.len() && pre[i].id == dv.id && post == pre.update(i, dv) {
                            let i = choose|i: int|
                                0 <= i < pre.len() && pre[i].id == dv.id && post == pre.update(
                                    i,
                                    dv,
                                );
                            assert(w != i);
                            assert(post[w] == pre[w]);
                        } else {
                            assert(post[w] == pre[w]);
                        }
                    }
                }
            }
        }
    }

    /// The descriptor routed for `id`, if any: the one entry of the
    /// table naming that server.
    pub fn lookup(&self, id: ServerId) -> (r: Option<&ServerDescriptor>)
        requires
            self.wf(),
        ensures
            match r {
                Some(d) => d.id == id && has_route(self.routes@, id) && routes_to(
                    self.routes@,
                    id,
                    d.addr@,
                ),
                None => !has_route(self.routes@, id),
            },
    {
        let mut i: usize = 0;
        while i < self.routes.len()
            invariant
                0 <= i <= self.routes@.len(),
                forall|k: int| 0 <= k < i ==> (#[trigger] self.routes@[k]).id != id,
            decreases self.routes@.len() - i,
        {
            if self.routes[i].id == id {
                proof {
                    assert(self.routes@[i as int].id == id);
                }
                return Some(&self.routes[i]);
            }
            i += 1;
        }
        proof {
            assert(!has_route(self.routes@, id)) by {
                if has_route(self.routes@, id) {
                    let w = choose|w: int|
                        0 <= w < self.routes@.len() && self.routes@[w].id == id;
                    assert(self.routes@[w].id != id);
                }
            }
        }
        None
    }

    /// Some known peer, used to seed the join protocol; `None` only on an
    /// empty table.
    pub fn first_route(&self) -> (r: Option<&ServerDescriptor>)
        ensures
            match r {
                Some(d) => self.routes@.len() > 0 && d == self.routes@[0],
                None => self.routes@.len() == 0,
            },
    {
        if self.routes.len() > 0 {
            Some(&self.routes[0])
        } else {
            None
        }
    }

    /// The snapshot exchanged during gossip and persisted to the routes
    /// file: the same servers at the same addresses.
    pub fn snapshot(&self) -> (r: Announcement)
        ensures
            r.routes@.len() == self.routes@.len(),
            forall|i: int|
                0 <= i < self.routes@.len() ==> (#[trigger] r.routes@[i]).id
                    == self.routes@[i].id && r.routes@[i].addr@ == self.routes@[i].addr@,
    {
        let mut routes: Vec<ServerDescriptor> = Vec::new();
        let mut i: usize = 0;
        while i < self.routes.len()
            invariant
                0 <= i <= self.routes@.len(),
                routes@.len() == i,
                forall|k: int|
                    0 <= k < i ==> (#[trigger] routes@[k]).id == self.routes@[k].id
                        && routes@[k].addr@ == self.routes@[k].addr@,
            decreases self.routes@.len() - i,
        {
            routes.push(self.routes[i].clone());
            i += 1;
        }
        Announcement { routes }
    }
}

} // verus!
