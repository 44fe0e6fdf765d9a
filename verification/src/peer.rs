//! The peer content server's cache-coherence decisions.
//!
//! A peer keeps, beside each locally held file, a small metadata record
//! naming the file's origin server, its version and a time-to-refresh
//! hint.  The decisions below are pure: the surrounding process reads and
//! deletes files and records, and hands the decision logic plain values.

use vstd::prelude::*;

use crate::endpoint::Endpoint;

verus! {

/// The sidecar record kept beside each locally held file.
#[derive(Clone, Copy, PartialEq, Eq, Structural, Debug)]
pub struct Metadata {
    /// The endpoint that authored and owns the authoritative copy (not
    /// necessarily the one the file was downloaded from).
    pub origin_server: Endpoint,
    /// Version number of the file; increases with each update.
    pub version: u8,
    /// Time-to-refresh hint: how long a cached copy may be trusted before
    /// re-validating with the origin.
    pub ttr: u8,
}

/// What a peer decides on an inbound invalidation for one of its files.
#[derive(Clone, Copy, PartialEq, Eq, Structural, Debug)]
pub enum InvalidateDecision {
    /// No metadata record exists: the peer holds no tracked copy of the
    /// file, and nothing happens.
    NoRecord,
    /// The claimed origin matches the stored one: the copy is
    /// authoritatively stale; the content and its metadata are to be
    /// deleted together.
    Discard,
    /// The claimed origin does not match the stored one: the sender does
    /// not legitimately control this file, and the message is ignored.
    Mismatch,
}

/// The decision owed on an invalidation of a file whose stored metadata
/// is `stored`, claimed by `origin_server`.
pub open spec fn invalidate_decision(
    stored: Option<Metadata>,
    origin_server: Endpoint,
) -> InvalidateDecision {
    match stored {
        Option::None => InvalidateDecision::NoRecord,
        Option::Some(m) => if m.origin_server == origin_server {
            InvalidateDecision::Discard
        } else {
            InvalidateDecision::Mismatch
        },
    }
}

/// A peer's content server, serving one remote peer's connection.
pub struct PeerServer {
    /// The remote peer's address, as the transport reports it.
    pub addr: Endpoint,
}

impl PeerServer {
    /// A content server for the connection of the peer at `addr`.
    pub fn new(addr: Endpoint) -> (s: PeerServer)
        ensures
            s.addr == addr,
    {
        PeerServer { addr }
    }

    /// Decide an inbound invalidation: with no stored record it is a
    /// no-op; with a matching origin the copy is discarded; with a
    /// mismatched origin the message is rejected as suspect.
    pub fn invalidate(&self, origin_server: Endpoint, stored: &Option<Metadata>) -> (d:
        InvalidateDecision)
        ensures
            d == invalidate_decision(*stored, origin_server),
    {
        match stored {
            Option::None => InvalidateDecision::NoRecord,
            Option::Some(m) => {
                if m.origin_server == origin_server {
                    InvalidateDecision::Discard
                } else {
                    InvalidateDecision::Mismatch
                }
            },
        }
    }
}

/// The response a peer owes a download request: the file's bytes together
/// with their metadata when both are on hand, and "not found" otherwise —
/// a missing file, a missing record or any local read failure maps to an
/// absent result, never a propagated error.
pub fn download_response(contents: Option<Vec<u8>>, metadata: Option<Metadata>) -> (r: Option<
    (Vec<u8>, Metadata),
>)
    ensures
        (r is Some) == (contents is Some && metadata is Some),
        (r matches Some(pair) ==> contents == Some(pair.0) && metadata == Some(pair.1)),
{
    match (contents, metadata) {
        (Option::Some(c), Option::Some(m)) => Option::Some((c, m)),
        _ => Option::None,
    }
}

} // verus!
