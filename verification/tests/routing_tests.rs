use raft::routing::{Announcement, NetworkAgent, ServerDescriptor};

fn desc(id: u64, addr: &str) -> ServerDescriptor {
    ServerDescriptor { id, addr: addr.to_string() }
}

#[test]
fn identity_is_set_exactly_once() {
    let mut agent = NetworkAgent::new();
    assert!(agent.identity.is_none());
    assert!(agent.set_identity(desc(3, "127.0.0.1:4003")));
    assert!(!agent.set_identity(desc(4, "127.0.0.1:4004")));
    assert_eq!(agent.identity.as_ref().unwrap().id, 3);
}

#[test]
fn cluster_id_mismatch_is_rejected() {
    let mut agent = NetworkAgent::new();
    assert!(agent.set_cluster_id(42));
    assert!(agent.set_cluster_id(42));
    assert!(!agent.set_cluster_id(43));
    assert_eq!(agent.cluster_id, Some(42));
}

#[test]
fn newest_route_wins() {
    let mut agent = NetworkAgent::new();
    agent.add_route(desc(1, "127.0.0.1:4001"));
    agent.add_route(desc(2, "127.0.0.1:4002"));
    agent.add_route(desc(1, "10.0.0.1:4001"));
    assert_eq!(agent.routes.len(), 2);
    let d = agent.lookup(1).unwrap();
    assert_eq!(d.addr, "10.0.0.1:4001");
    assert!(agent.lookup(9).is_none());
}

#[test]
fn announcements_merge_into_the_table() {
    let mut agent = NetworkAgent::new();
    agent.add_route(desc(1, "127.0.0.1:4001"));
    let ann = Announcement { routes: vec![desc(2, "127.0.0.1:4002"), desc(3, "127.0.0.1:4003")] };
    agent.apply(&ann);
    assert_eq!(agent.routes.len(), 3);
    assert_eq!(agent.lookup(2).unwrap().addr, "127.0.0.1:4002");
    assert_eq!(agent.lookup(3).unwrap().addr, "127.0.0.1:4003");
}

#[test]
fn announcement_last_descriptor_for_an_id_wins() {
    let mut agent = NetworkAgent::new();
    let ann = Announcement {
        routes: vec![desc(1, "127.0.0.1:4001"), desc(1, "10.0.0.9:4001")],
    };
    agent.apply(&ann);
    assert_eq!(agent.routes.len(), 1);
    assert_eq!(agent.lookup(1).unwrap().addr, "10.0.0.9:4001");
}

#[test]
fn snapshot_carries_every_route() {
    let mut agent = NetworkAgent::new();
    agent.add_route(desc(1, "127.0.0.1:4001"));
    agent.add_route(desc(2, "127.0.0.1:4002"));
    let snap = agent.snapshot();
    assert_eq!(snap.routes.len(), 2);
    assert_eq!(snap.routes[0].id, 1);
    assert_eq!(snap.routes[1].addr, "127.0.0.1:4002");
    // A restarted process rebuilds the same table from the snapshot.
    let mut fresh = NetworkAgent::new();
    fresh.apply(&snap);
    assert_eq!(fresh.lookup(1).unwrap().addr, "127.0.0.1:4001");
}

#[test]
fn first_route_seeds_the_join() {
    let agent = NetworkAgent::new();
    assert!(agent.first_route().is_none());
    let mut agent = NetworkAgent::new();
    agent.add_route(desc(5, "127.0.0.1:4005"));
    assert_eq!(agent.first_route().unwrap().id, 5);
}
