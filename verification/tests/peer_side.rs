use nekop2p::Endpoint;
use nekop2p::InvalidateDecision;
use nekop2p::Metadata;
use nekop2p::PeerServer;
use nekop2p::TTLEntry;
use nekop2p::peer::download_response;
use nekop2p::ttl::unix_time;

fn ep(host: u128, port: u16) -> Endpoint {
    Endpoint { host, port }
}

#[test]
fn invalidation_with_matching_origin_discards() {
    // Peer P holds metadata {origin: O, version: 3}; an invalidation
    // claimed by O deletes the file and its metadata.
    let p = PeerServer::new(ep(5, 4000));
    let o = ep(1, 6001);
    let stored = Some(Metadata { origin_server: o, version: 3, ttr: 30 });
    assert_eq!(p.invalidate(o, &stored), InvalidateDecision::Discard);
}

#[test]
fn invalidation_with_mismatched_origin_is_ignored() {
    // Peer Q holds metadata {origin: O2, version: 1}; an invalidation
    // claimed by O3 with O3 != O2 leaves the file in place.
    let q = PeerServer::new(ep(5, 4000));
    let o2 = ep(1, 6001);
    let o3 = ep(2, 6002);
    let stored = Some(Metadata { origin_server: o2, version: 1, ttr: 30 });
    assert_eq!(q.invalidate(o3, &stored), InvalidateDecision::Mismatch);
}

#[test]
fn invalidation_without_record_is_noop() {
    let p = PeerServer::new(ep(5, 4000));
    assert_eq!(p.invalidate(ep(1, 6001), &None), InvalidateDecision::NoRecord);
}

#[test]
fn download_needs_both_content_and_metadata() {
    let m = Metadata { origin_server: ep(1, 6001), version: 0, ttr: 255 };
    let r = download_response(Some(vec![1, 2, 3]), Some(m));
    let (bytes, meta) = r.expect("both parts present");
    assert_eq!(bytes, vec![1, 2, 3]);
    assert_eq!(meta, m);
    assert!(download_response(None, Some(m)).is_none());
    assert!(download_response(Some(vec![1]), None).is_none());
    assert!(download_response(None, None).is_none());
}

#[test]
fn timed_unwrap_gates_on_the_clock() {
    let entry = TTLEntry { val: ep(1, 6001), ttl: 100 };
    assert!(entry.timed_unwrap(99).is_none());
    assert!(entry.timed_unwrap(100).is_none());
    assert_eq!(entry.timed_unwrap(101), Some(&ep(1, 6001)));
}

#[test]
fn unix_time_reads_the_clock() {
    let t = unix_time();
    assert!(t > 0);
}
