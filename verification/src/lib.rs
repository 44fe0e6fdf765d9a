//! Core logic of a peer-to-peer file-sharing overlay.
//!
//! Leaf peers register filenames with an index node; lookups are answered
//! either from the local registration index or by a TTL-bounded flooding
//! search across a graph of neighboring index nodes.  A per-peer
//! invalidation protocol keeps cached copies coherent with their origin
//! server.  This crate holds the node's decision logic: the registration
//! index, the duplicate-suppression table, the flooding transitions and the
//! peer-side cache-coherence checks.  Transport, file I/O and configuration
//! live outside the library and feed it plain values.

pub mod dedup;
pub mod endpoint;
pub mod peer;
pub mod server;
pub mod ttl;

pub use dedup::DedupTable;
pub use endpoint::Endpoint;
pub use peer::{InvalidateDecision, Metadata, PeerServer};
pub use server::{IndexerServer, InvalidateOutcome, QueryForward, QueryOutcome};
pub use ttl::TTLEntry;
