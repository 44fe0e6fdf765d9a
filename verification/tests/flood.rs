use nekop2p::Endpoint;
use nekop2p::IndexerServer;
use nekop2p::QueryOutcome;
use nekop2p::server::append_results;

fn ep(host: u128, port: u16) -> Endpoint {
    Endpoint { host, port }
}

#[test]
fn query_with_zero_ttl_never_forwards() {
    let mut s = IndexerServer::new(vec![ep(9, 5000)], 10);
    match s.query(1, &"f".to_string(), 0, 100) {
        QueryOutcome::Resolved { local, forward } => {
            assert!(local.is_empty());
            assert!(forward.is_none());
        }
        QueryOutcome::Duplicate => panic!("fresh message reported as duplicate"),
    }
}

#[test]
fn query_forwards_to_neighbors_with_decremented_ttl() {
    let n1 = ep(9, 5000);
    let n2 = ep(10, 5000);
    let mut s = IndexerServer::new(vec![n1, n2], 10);
    match s.query(1, &"f".to_string(), 3, 100) {
        QueryOutcome::Resolved { forward, .. } => {
            let fw = forward.expect("a positive ttl must forward");
            assert_eq!(fw.ttl, 2);
            assert_eq!(fw.targets, vec![n1, n2]);
        }
        QueryOutcome::Duplicate => panic!("fresh message reported as duplicate"),
    }
}

#[test]
fn query_returns_local_resolution() {
    let mut s = IndexerServer::new(Vec::new(), 10);
    let a = ep(1, 4000);
    s.register(a, "f".to_string());
    s.set_port(a, 6001);
    match s.query(1, &"f".to_string(), 0, 100) {
        QueryOutcome::Resolved { local, .. } => {
            assert_eq!(local, vec![ep(1, 6001)]);
        }
        QueryOutcome::Duplicate => panic!("fresh message reported as duplicate"),
    }
}

#[test]
fn repeated_query_within_window_is_duplicate() {
    let mut s = IndexerServer::new(vec![ep(9, 5000)], 10);
    let first = s.query(42, &"f".to_string(), 5, 100);
    assert!(matches!(first, QueryOutcome::Resolved { .. }));
    // Delivered again 9 seconds later, still within the 10-second window.
    let second = s.query(42, &"f".to_string(), 5, 109);
    assert!(matches!(second, QueryOutcome::Duplicate));
}

#[test]
fn query_after_expiry_is_fresh_again() {
    let mut s = IndexerServer::new(Vec::new(), 10);
    let first = s.query(42, &"f".to_string(), 0, 100);
    assert!(matches!(first, QueryOutcome::Resolved { .. }));
    // The record expires at 110; at exactly 110 the id counts as new.
    let second = s.query(42, &"f".to_string(), 0, 110);
    assert!(matches!(second, QueryOutcome::Resolved { .. }));
}

#[test]
fn mutual_neighbors_relay_at_most_once_each_direction() {
    // Two nodes with a bidirectional neighbor link both receive the same
    // query simultaneously.  Each decides to relay once; the relayed
    // copies arrive as duplicates, so no further relays happen.
    let xa = ep(1, 5000);
    let ya = ep(2, 5000);
    let mut x = IndexerServer::new(vec![ya], 10);
    let mut y = IndexerServer::new(vec![xa], 10);
    let id = 7;

    let at_x = x.query(id, &"y.bin".to_string(), 1, 100);
    let at_y = y.query(id, &"y.bin".to_string(), 1, 100);
    let fw_x = match at_x {
        QueryOutcome::Resolved { forward, .. } => forward.expect("ttl 1 forwards"),
        QueryOutcome::Duplicate => panic!("fresh message reported as duplicate"),
    };
    let fw_y = match at_y {
        QueryOutcome::Resolved { forward, .. } => forward.expect("ttl 1 forwards"),
        QueryOutcome::Duplicate => panic!("fresh message reported as duplicate"),
    };
    assert_eq!(fw_x.targets, vec![ya]);
    assert_eq!(fw_y.targets, vec![xa]);

    // The relayed copies (one per direction) reach the other node and
    // terminate there: no further forwarding is requested.
    let relayed_to_y = y.query(id, &"y.bin".to_string(), fw_x.ttl, 100);
    let relayed_to_x = x.query(id, &"y.bin".to_string(), fw_y.ttl, 100);
    assert!(matches!(relayed_to_y, QueryOutcome::Duplicate));
    assert!(matches!(relayed_to_x, QueryOutcome::Duplicate));
}

#[test]
fn dedup_window_saturates_at_the_top_of_the_clock() {
    // Recording near the top of the clock's range cannot overflow: the
    // expiry saturates, so the id stays suppressed to the very end.
    let mut s = IndexerServer::new(Vec::new(), 10);
    let first = s.query(42, &"f".to_string(), 0, u64::MAX - 5);
    assert!(matches!(first, QueryOutcome::Resolved { .. }));
    let second = s.query(42, &"f".to_string(), 0, u64::MAX - 1);
    assert!(matches!(second, QueryOutcome::Duplicate));
}

#[test]
fn query_with_maximal_ttl_forwards_one_less() {
    let n = ep(9, 5000);
    let mut s = IndexerServer::new(vec![n], 10);
    match s.query(1, &"f".to_string(), 255, 100) {
        QueryOutcome::Resolved { forward, .. } => {
            assert_eq!(forward.expect("a positive ttl must forward").ttl, 254);
        }
        QueryOutcome::Duplicate => panic!("fresh message reported as duplicate"),
    }
}

#[test]
fn aggregation_appends_neighbor_responses() {
    let mut acc = vec![ep(1, 6001)];
    append_results(&mut acc, &vec![ep(2, 6002), ep(1, 6001)]);
    append_results(&mut acc, &Vec::new());
    append_results(&mut acc, &vec![ep(3, 6003)]);
    assert_eq!(
        acc,
        vec![ep(1, 6001), ep(2, 6002), ep(1, 6001), ep(3, 6003)]
    );
}
