use nekop2p::Endpoint;
use nekop2p::IndexerServer;
use nekop2p::InvalidateOutcome;

fn ep(host: u128, port: u16) -> Endpoint {
    Endpoint { host, port }
}

/// An index with the origin peer (host 1) and one other peer (host 2)
/// registered for "z.bin", both with download ports, plus one neighbor.
fn populated() -> (IndexerServer, Endpoint, Endpoint, Endpoint) {
    let neighbor = ep(9, 5000);
    let mut s = IndexerServer::new(vec![neighbor], 10);
    let a = ep(1, 4000);
    let b = ep(2, 4001);
    s.register(a, "z.bin".to_string());
    s.register(b, "z.bin".to_string());
    s.set_port(a, 6001);
    s.set_port(b, 6002);
    // The origin is peer A as a downloadable address.
    (s, ep(1, 6001), ep(2, 6002), neighbor)
}

#[test]
fn invalidation_never_relays_to_origin() {
    let (mut s, origin, b_rewritten, neighbor) = populated();
    match s.invalidate(5, origin, &"z.bin".to_string(), 100) {
        InvalidateOutcome::Relayed { leaves, neighbors } => {
            assert_eq!(leaves, vec![b_rewritten]);
            assert!(!leaves.contains(&origin));
            assert_eq!(neighbors, vec![neighbor]);
        }
        InvalidateOutcome::Duplicate => panic!("fresh message reported as duplicate"),
    }
}

#[test]
fn invalidation_scrubs_index_to_origin() {
    let (mut s, origin, _b, _n) = populated();
    s.invalidate(5, origin, &"z.bin".to_string(), 100);
    // Only the registrant matching the origin survives.
    assert_eq!(s.search(&"z.bin".to_string()), vec![origin]);
}

#[test]
fn invalidation_leaves_other_filenames_alone() {
    let (mut s, origin, _b, _n) = populated();
    s.register(ep(2, 4001), "other".to_string());
    s.invalidate(5, origin, &"z.bin".to_string(), 100);
    assert_eq!(s.search(&"other".to_string()), vec![ep(2, 6002)]);
}

#[test]
fn repeated_invalidation_is_duplicate_and_changes_nothing() {
    let (mut s, origin, _b, _n) = populated();
    let first = s.invalidate(5, origin, &"z.bin".to_string(), 100);
    assert!(matches!(first, InvalidateOutcome::Relayed { .. }));
    // The second delivery within the window is dropped outright.
    let second = s.invalidate(5, origin, &"z.bin".to_string(), 105);
    assert!(matches!(second, InvalidateOutcome::Duplicate));
    assert_eq!(s.search(&"z.bin".to_string()), vec![origin]);
}

#[test]
fn query_and_invalidation_share_duplicate_suppression() {
    let (mut s, origin, _b, _n) = populated();
    let q = s.query(5, &"z.bin".to_string(), 1, 100);
    assert!(matches!(q, nekop2p::QueryOutcome::Resolved { .. }));
    let inv = s.invalidate(5, origin, &"z.bin".to_string(), 101);
    assert!(matches!(inv, InvalidateOutcome::Duplicate));
}

#[test]
fn invalidation_of_unknown_filename_relays_to_nobody() {
    let neighbor = ep(9, 5000);
    let mut s = IndexerServer::new(vec![neighbor], 10);
    match s.invalidate(5, ep(1, 6001), &"ghost".to_string(), 100) {
        InvalidateOutcome::Relayed { leaves, neighbors } => {
            assert!(leaves.is_empty());
            assert_eq!(neighbors, vec![neighbor]);
        }
        InvalidateOutcome::Duplicate => panic!("fresh message reported as duplicate"),
    }
}

#[test]
fn invalidation_drops_portless_registrants() {
    // A registrant that never set a download port cannot match the
    // origin's rewritten address, so the scrub forgets it too.
    let mut s = IndexerServer::new(Vec::new(), 10);
    let a = ep(1, 4000);
    let c = ep(3, 4002);
    s.register(a, "z.bin".to_string());
    s.register(c, "z.bin".to_string());
    s.set_port(a, 6001);
    s.invalidate(5, ep(1, 6001), &"z.bin".to_string(), 100);
    s.set_port(c, 6003);
    // Had C survived the scrub, it would now resolve; it does not.
    assert_eq!(s.search(&"z.bin".to_string()), vec![ep(1, 6001)]);
}
