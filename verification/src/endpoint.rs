//! Network endpoints as the index logic sees them.

use vstd::prelude::*;

verus! {

/// A network address identifying a reachable service instance: a host
/// (an IP address packed into an integer by the surrounding transport
/// layer) together with a port.
///
/// An endpoint registered in the index carries the RPC connection's source
/// port; before it is handed to a querier its port is rewritten to the
/// peer's advertised download port.
#[derive(Clone, Copy, PartialEq, Eq, Structural, Debug)]
pub struct Endpoint {
    /// Host identifier.
    pub host: u128,
    /// Port number.
    pub port: u16,
}

impl Endpoint {
    /// The same host with the port replaced.
    pub open spec fn spec_with_port(self, p: u16) -> Endpoint {
        Endpoint { host: self.host, port: p }
    }

    /// Replace the port, keeping the host.
    pub fn with_port(self, p: u16) -> (r: Endpoint)
        ensures
            r == self.spec_with_port(p),
    {
        Endpoint { host: self.host, port: p }
    }
}

} // verus!
