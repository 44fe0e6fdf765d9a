use nekop2p::Endpoint;
use nekop2p::IndexerServer;

fn ep(host: u128, port: u16) -> Endpoint {
    Endpoint { host, port }
}

fn fresh() -> IndexerServer {
    IndexerServer::new(Vec::new(), 10)
}

fn sorted(mut v: Vec<Endpoint>) -> Vec<Endpoint> {
    v.sort_by_key(|e| (e.host, e.port));
    v
}

#[test]
fn register_two_peers_search_returns_both() {
    // Register endpoint A and endpoint B for "x.bin"; after both set a
    // download port, the search result is {A, B} (order-independent),
    // each rewritten to its download port.
    let mut s = fresh();
    let a = ep(1, 4000);
    let b = ep(2, 4001);
    s.register(a, "x.bin".to_string());
    s.register(b, "x.bin".to_string());
    s.set_port(a, 6001);
    s.set_port(b, 6002);
    let r = s.search(&"x.bin".to_string());
    assert_eq!(r.len(), 2);
    assert!(r.contains(&ep(1, 6001)));
    assert!(r.contains(&ep(2, 6002)));
}

#[test]
fn search_excludes_peer_without_port() {
    let mut s = fresh();
    let a = ep(1, 4000);
    s.register(a, "x.bin".to_string());
    // No set_port yet: the peer is registered but not downloadable.
    assert!(s.search(&"x.bin".to_string()).is_empty());
    s.set_port(a, 6001);
    let r = s.search(&"x.bin".to_string());
    assert_eq!(r, vec![ep(1, 6001)]);
}

#[test]
fn register_is_idempotent() {
    let mut once = fresh();
    let mut twice = fresh();
    let a = ep(7, 4000);
    once.set_port(a, 9000);
    twice.set_port(a, 9000);
    once.register(a, "f".to_string());
    twice.register(a, "f".to_string());
    twice.register(a, "f".to_string());
    assert_eq!(
        sorted(once.search(&"f".to_string())),
        sorted(twice.search(&"f".to_string()))
    );
    assert_eq!(twice.search(&"f".to_string()).len(), 1);
}

#[test]
fn register_then_deregister_restores_search() {
    let mut s = fresh();
    let a = ep(1, 4000);
    let b = ep(2, 4001);
    s.set_port(a, 6001);
    s.set_port(b, 6002);
    s.register(b, "f".to_string());
    let before = sorted(s.search(&"f".to_string()));
    s.register(a, "f".to_string());
    s.deregister(a, "f".to_string());
    assert_eq!(sorted(s.search(&"f".to_string())), before);
}

#[test]
fn deregister_absent_is_noop() {
    let mut s = fresh();
    s.deregister(ep(1, 4000), "nothing".to_string());
    assert!(s.search(&"nothing".to_string()).is_empty());
}

#[test]
fn set_port_overwrites() {
    let mut s = fresh();
    let a = ep(1, 4000);
    s.register(a, "f".to_string());
    s.set_port(a, 6001);
    s.set_port(a, 7001);
    assert_eq!(s.search(&"f".to_string()), vec![ep(1, 7001)]);
}

#[test]
fn disconnect_removes_peer_from_every_filename() {
    let mut s = fresh();
    let a = ep(1, 4000);
    let b = ep(2, 4001);
    s.set_port(a, 6001);
    s.set_port(b, 6002);
    s.register(a, "f1".to_string());
    s.register(a, "f2".to_string());
    s.register(b, "f1".to_string());
    s.disconnect_peer(a);
    let r1 = s.search(&"f1".to_string());
    assert_eq!(r1, vec![ep(2, 6002)]);
    assert!(s.search(&"f2".to_string()).is_empty());
}

#[test]
fn dump_lists_every_registration() {
    let mut s = fresh();
    let a = ep(1, 4000);
    let b = ep(2, 4001);
    s.register(a, "f1".to_string());
    s.register(b, "f1".to_string());
    s.register(b, "f2".to_string());
    let d = s.dump();
    let f1 = d.iter().find(|e| e.0 == "f1").expect("f1 listed");
    let f2 = d.iter().find(|e| e.0 == "f2").expect("f2 listed");
    assert_eq!(sorted(f1.1.clone()), vec![a, b]);
    assert_eq!(f2.1, vec![b]);
}

#[test]
fn disconnect_drops_download_port() {
    let mut s = fresh();
    let a = ep(1, 4000);
    s.set_port(a, 6001);
    s.register(a, "f".to_string());
    s.disconnect_peer(a);
    // Registering again without a new set_port: no port on record, so
    // the peer stays out of the results.
    s.register(a, "f".to_string());
    assert!(s.search(&"f".to_string()).is_empty());
}
