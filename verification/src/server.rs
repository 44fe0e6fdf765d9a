//! The index node: registration index, download-port map, and the
//! flooding transitions for search queries and invalidations.
//!
//! The node's shared state is kept here as plain data with full functional
//! contracts.  The surrounding process owns the transport: it hands each
//! operation the caller's endpoint (taken from the connection), the
//! message identifiers and the current time, performs the outbound calls
//! that `query` and `invalidate` decide on, and serializes access so that
//! each call below is one atomic step, which is all the protocol requires
//! of the shared structures.

use vstd::prelude::*;

use crate::dedup::DedupTable;
use crate::dedup::expiry_deadline;
use crate::endpoint::Endpoint;

verus! {

/// One filename together with the endpoints currently advertising it.
struct FileEntry {
    filename: String,
    peers: Vec<Endpoint>,
}

/// One peer's advertised download port.
struct PortEntry {
    peer: Endpoint,
    port: u16,
}

/// Whether some entry of `s` records port `p` for endpoint `e`.
spec fn port_entry_is(s: Seq<PortEntry>, e: Endpoint, p: u16) -> bool {
    exists|i: int| 0 <= i < s.len() && s[i].peer == e && s[i].port == p
}

/// An index node: the registration index (filename to advertising
/// endpoints), the download-port map, the static neighbor list and the
/// duplicate-suppression table for flood messages.
pub struct IndexerServer {
    index: Vec<FileEntry>,
    ports: Vec<PortEntry>,
    neighbors: Vec<Endpoint>,
    backtrace: DedupTable,
    backtrace_lifetime: u64,
}

impl IndexerServer {
    /// Filenames are unique in the index, endpoints are unique within a
    /// file's entry, peers are unique in the port map, and the
    /// duplicate-suppression table is well-formed.
    pub closed spec fn wf(self) -> bool {
        &&& (forall|i: int, j: int|
            0 <= i < self.index@.len() && 0 <= j < self.index@.len() && i != j
                ==> self.index@[i].filename@ != self.index@[j].filename@)
        &&& (forall|i: int, a: int, b: int|
            0 <= i < self.index@.len() && 0 <= a < self.index@[i].peers@.len() && 0 <= b
                < self.index@[i].peers@.len() && a != b ==> self.index@[i].peers@[a]
                != self.index@[i].peers@[b])
        &&& (forall|i: int, j: int|
            0 <= i < self.ports@.len() && 0 <= j < self.ports@.len() && i != j
                ==> self.ports@[i].peer != self.ports@[j].peer)
        &&& self.backtrace.wf()
    }

    /// Whether endpoint `e` currently advertises filename `f`.  An absent
    /// filename is the same as one advertised by nobody.
    pub closed spec fn registered(self, f: Seq<char>, e: Endpoint) -> bool {
        exists|i: int|
            0 <= i < self.index@.len() && self.index@[i].filename@ == f && self.index@[i].peers@.contains(
                e,
            )
    }

    /// Whether `p` is the download port on record for endpoint `e`.
    pub closed spec fn port_is(self, e: Endpoint, p: u16) -> bool {
        port_entry_is(self.ports@, e, p)
    }

    /// Whether some download port is on record for endpoint `e`.
    pub open spec fn has_port(self, e: Endpoint) -> bool {
        exists|p: u16| self.port_is(e, p)
    }

    /// Whether `x` belongs to the result of resolving `f` against this
    /// node alone: `x` is a registered endpoint for `f` with its port
    /// rewritten to its advertised download port.  An endpoint without a
    /// recorded download port contributes nothing.
    pub open spec fn in_search(self, f: Seq<char>, x: Endpoint) -> bool {
        exists|e: Endpoint, p: u16|
            self.registered(f, e) && self.port_is(e, p) && x == e.spec_with_port(p)
    }

    /// The statically configured neighbor index nodes.
    pub closed spec fn neighbor_list(self) -> Seq<Endpoint> {
        self.neighbors@
    }

    /// Whether the flood message `msg_id` counts as already seen at time
    /// `now`.
    pub closed spec fn seen(self, msg_id: u128, now: u64) -> bool {
        self.backtrace.seen(msg_id, now)
    }

    /// How long (in seconds) a recorded message identifier suppresses
    /// duplicates.
    pub closed spec fn dedup_lifetime(self) -> u64 {
        self.backtrace_lifetime
    }
}

/// The registration index of `post` answers exactly as the one of `pre`.
pub open spec fn same_index(pre: IndexerServer, post: IndexerServer) -> bool {
    forall|g: Seq<char>, x: Endpoint| post.registered(g, x) == pre.registered(g, x)
}

/// The download-port map of `post` answers exactly as the one of `pre`.
pub open spec fn same_ports(pre: IndexerServer, post: IndexerServer) -> bool {
    forall|e: Endpoint, p: u16| post.port_is(e, p) == pre.port_is(e, p)
}

/// The duplicate-suppression table of `post` answers exactly as the one
/// of `pre`.
pub open spec fn same_dedup(pre: IndexerServer, post: IndexerServer) -> bool {
    forall|j: u128, at: u64| post.seen(j, at) == pre.seen(j, at)
}

/// The read-only node configuration is unchanged.
pub open spec fn same_config(pre: IndexerServer, post: IndexerServer) -> bool {
    post.neighbor_list() == pre.neighbor_list() && post.dedup_lifetime() == pre.dedup_lifetime()
}

/// How `register(caller, f)` changes a node: `caller` now advertises `f`,
/// every other (filename, endpoint) answer is unchanged, and so are the
/// port map, the duplicate-suppression table and the configuration.
pub open spec fn register_rel(
    pre: IndexerServer,
    post: IndexerServer,
    caller: Endpoint,
    f: Seq<char>,
) -> bool {
    &&& (forall|g: Seq<char>, x: Endpoint|
        post.registered(g, x) == (pre.registered(g, x) || (g == f && x == caller)))
    &&& same_ports(pre, post)
    &&& same_dedup(pre, post)
    &&& same_config(pre, post)
}

/// How `deregister(caller, f)` changes a node: `caller` no longer
/// advertises `f`; everything else is unchanged.
pub open spec fn deregister_rel(
    pre: IndexerServer,
    post: IndexerServer,
    caller: Endpoint,
    f: Seq<char>,
) -> bool {
    &&& (forall|g: Seq<char>, x: Endpoint|
        post.registered(g, x) == (pre.registered(g, x) && !(g == f && x == caller)))
    &&& same_ports(pre, post)
    &&& same_dedup(pre, post)
    &&& same_config(pre, post)
}

/// How `set_port(caller, port)` changes a node: `caller`'s download port
/// is now exactly `port`; everything else is unchanged.
pub open spec fn set_port_rel(
    pre: IndexerServer,
    post: IndexerServer,
    caller: Endpoint,
    port: u16,
) -> bool {
    &&& (forall|e: Endpoint, p: u16|
        post.port_is(e, p) == if e == caller {
            p == port
        } else {
            pre.port_is(e, p)
        })
    &&& same_index(pre, post)
    &&& same_dedup(pre, post)
    &&& same_config(pre, post)
}

/// How `disconnect_peer(caller)` changes a node: `caller` advertises
/// nothing and has no download port on record; everything else is
/// unchanged.
pub open spec fn disconnect_rel(pre: IndexerServer, post: IndexerServer, caller: Endpoint) -> bool {
    &&& (forall|g: Seq<char>, x: Endpoint|
        post.registered(g, x) == (pre.registered(g, x) && x != caller))
    &&& (forall|e: Endpoint, p: u16|
        post.port_is(e, p) == (pre.port_is(e, p) && e != caller))
    &&& same_dedup(pre, post)
    &&& same_config(pre, post)
}

impl IndexerServer {
    /// A fresh node: empty index, empty port map, nothing seen, with the
    /// given neighbor list and duplicate-suppression lifetime (seconds).
    pub fn new(neighbors: Vec<Endpoint>, backtrace_lifetime: u64) -> (s: IndexerServer)
        ensures
            s.wf(),
            forall|g: Seq<char>, x: Endpoint| !s.registered(g, x),
            forall|e: Endpoint, p: u16| !s.port_is(e, p),
            forall|j: u128, at: u64| !s.seen(j, at),
            s.neighbor_list() == neighbors@,
            s.dedup_lifetime() == backtrace_lifetime,
    {
        IndexerServer {
            index: Vec::new(),
            ports: Vec::new(),
            neighbors,
            backtrace: DedupTable::new(),
            backtrace_lifetime,
        }
    }

    /// The index position of the entry for `filename`, if any.
    fn find_file(&self, filename: &String) -> (r: Option<usize>)
        ensures
            match r {
                Some(i) => i < self.index@.len() && self.index@[i as int].filename@ == filename@,
                None => forall|k: int|
                    0 <= k < self.index@.len() ==> self.index@[k].filename@ != filename@,
            },
    {
        let n = self.index.len();
        let mut i: usize = 0;
        while i < n
            invariant
                i <= n,
                n == self.index@.len(),
                forall|k: int| 0 <= k < i ==> self.index@[k].filename@ != filename@,
            decreases n - i,
        {
            if self.index[i].filename == *filename {
                return Some(i);
            }
            i = i + 1;
        }
        None
    }

    /// The port-map position of the entry for `peer`, if any.
    fn find_port(&self, peer: Endpoint) -> (r: Option<usize>)
        ensures
            match r {
                Some(i) => i < self.ports@.len() && self.ports@[i as int].peer == peer,
                None => forall|k: int| 0 <= k < self.ports@.len() ==> self.ports@[k].peer != peer,
            },
    {
        let n = self.ports.len();
        let mut i: usize = 0;
        while i < n
            invariant
                i <= n,
                n == self.ports@.len(),
                forall|k: int| 0 <= k < i ==> self.ports@[k].peer != peer,
            decreases n - i,
        {
            if self.ports[i].peer == peer {
                return Some(i);
            }
            i = i + 1;
        }
        None
    }

    /// Record (or overwrite) the download port other peers should use to
    /// reach `caller`.
    pub fn set_port(&mut self, caller: Endpoint, dl_port: u16)
        requires
            old(self).wf(),
        ensures
            final(self).wf(),
            set_port_rel(*old(self), *final(self), caller, dl_port),
    {
        match self.find_port(caller) {
            Some(i) => {
                self.ports[i].port = dl_port;
                proof {
                    let pre = old(self).ports@;
                    let post = self.ports@;
                    assert(forall|k: int| 0 <= k < pre.len() && k != i ==> post[k] == pre[k]);
                    assert forall|e: Endpoint, p: u16|
                        self.port_is(e, p) == if e == caller {
                            p == dl_port
                        } else {
                            old(self).port_is(e, p)
                        } by {
                        if e == caller {
                            if self.port_is(e, p) {
                                let k = choose|k: int|
                                    0 <= k < post.len() && post[k].peer == e && post[k].port == p;
                                assert(k == i);
                            }
                            if p == dl_port {
                                assert(post[i as int].peer == e && post[i as int].port == p);
                            }
                        } else {
                            if self.port_is(e, p) {
                                let k = choose|k: int|
                                    0 <= k < post.len() && post[k].peer == e && post[k].port == p;
                                assert(pre[k].peer == e && pre[k].port == p);
                            }
                            if old(self).port_is(e, p) {
                                let k = choose|k: int|
                                    0 <= k < pre.len() && pre[k].peer == e && pre[k].port == p;
                                assert(k != i);
                                assert(post[k].peer == e && post[k].port == p);
                            }
                        }
                    }
                }
            },
            None => {
                self.ports.push(PortEntry { peer: caller, port: dl_port });
                proof {
                    let pre = old(self).ports@;
                    let post = self.ports@;
                    let n = pre.len() as int;
                    assert(forall|k: int| 0 <= k < n ==> post[k] == pre[k]);
                    assert forall|e: Endpoint, p: u16|
                        self.port_is(e, p) == if e == caller {
                            p == dl_port
                        } else {
                            old(self).port_is(e, p)
                        } by {
                        if e == caller {
                            if self.port_is(e, p) {
                                let k = choose|k: int|
                                    0 <= k < post.len() && post[k].peer == e && post[k].port == p;
                                assert(k == n);
                            }
                            if p == dl_port {
                                assert(post[n].peer == e && post[n].port == p);
                            }
                        } else {
                            if self.port_is(e, p) {
                                let k = choose|k: int|
                                    0 <= k < post.len() && post[k].peer == e && post[k].port == p;
                                assert(k != n);
                                assert(pre[k].peer == e && pre[k].port == p);
                            }
                            if old(self).port_is(e, p) {
                                let k = choose|k: int|
                                    0 <= k < pre.len() && pre[k].peer == e && pre[k].port == p;
                                assert(post[k].peer == e && post[k].port == p);
                            }
                        }
                    }
                }
            },
        }
        proof {
            lemma_untouched_index(*old(self), *self);
            lemma_untouched_dedup(*old(self), *self);
        }
    }

    /// Insert `caller` into the set of endpoints advertising `filename`,
    /// creating the entry if absent.  Registering an already-registered
    /// pair changes nothing; the operation always succeeds.
    pub fn register(&mut self, caller: Endpoint, filename: String)
        requires
            old(self).wf(),
        ensures
            final(self).wf(),
            register_rel(*old(self), *final(self), caller, filename@),
    {
        let ghost f = filename@;
        match self.find_file(&filename) {
            Some(i) => {
                let ghost pre = old(self).index@;
                if !contains_endpoint(&self.index[i].peers, caller) {
                    self.index[i].peers.push(caller);
                    proof {
                        let post = self.index@;
                        assert(forall|k: int| 0 <= k < pre.len() && k != i ==> post[k] == pre[k]);
                        assert(post[i as int].filename@ == pre[i as int].filename@);
                        assert forall|g: Seq<char>, x: Endpoint|
                            self.registered(g, x) == (old(self).registered(g, x) || (g == f && x
                                == caller)) by {
                            lemma_registered_entry_grew(*old(self), *self, i as int, caller, g, x);
                        }
                        assert(self.wf()) by {
                            assert(!pre[i as int].peers@.contains(caller));
                            assert(forall|a: int|
                                0 <= a < pre[i as int].peers@.len() ==> pre[i as int].peers@[a]
                                    != caller);
                        }
                    }
                } else {
                    proof {
                        assert forall|g: Seq<char>, x: Endpoint|
                            self.registered(g, x) == (old(self).registered(g, x) || (g == f && x
                                == caller)) by {
                            if g == f && x == caller {
                                assert(self.index@[i as int].filename@ == g
                                    && self.index@[i as int].peers@.contains(x));
                            }
                        }
                    }
                }
            },
            None => {
                let ghost pre = old(self).index@;
                let mut peers: Vec<Endpoint> = Vec::new();
                peers.push(caller);
                self.index.push(FileEntry { filename, peers });
                proof {
                    let post = self.index@;
                    let n = pre.len() as int;
                    assert(forall|k: int| 0 <= k < n ==> post[k] == pre[k]);
                    assert(post[n].filename@ == f);
                    assert(post[n].peers@ == seq![caller]);
                    assert forall|g: Seq<char>, x: Endpoint|
                        self.registered(g, x) == (old(self).registered(g, x) || (g == f && x
                            == caller)) by {
                        if self.registered(g, x) {
                            let k = choose|k: int|
                                0 <= k < post.len() && post[k].filename@ == g
                                    && post[k].peers@.contains(x);
                            if k == n {
                                assert(post[k].peers@[0] == caller);
                                assert(x == caller && g == f);
                            } else {
                                assert(old(self).registered(g, x)) by {
                                    assert(pre[k].filename@ == g && pre[k].peers@.contains(x));
                                }
                            }
                        }
                        if old(self).registered(g, x) {
                            let k = choose|k: int|
                                0 <= k < pre.len() && pre[k].filename@ == g
                                    && pre[k].peers@.contains(x);
                            assert(post[k].filename@ == g && post[k].peers@.contains(x));
                        }
                        if g == f && x == caller {
                            assert(post[n].peers@.contains(x)) by {
                                assert(post[n].peers@[0] == x);
                            }
                        }
                    }
                    assert(self.wf()) by {
                        assert(forall|k: int| 0 <= k < n ==> post[k].filename@ != f);
                    }
                }
            },
        }
        proof {
            lemma_untouched_ports(*old(self), *self);
            lemma_untouched_dedup(*old(self), *self);
        }
    }
}

impl IndexerServer {
    /// Remove `caller` from the set of endpoints advertising `filename`.
    /// Removing an absent pair is a no-op, never an error.
    pub fn deregister(&mut self, caller: Endpoint, filename: String)
        requires
            old(self).wf(),
        ensures
            final(self).wf(),
            deregister_rel(*old(self), *final(self), caller, filename@),
    {
        let ghost f = filename@;
        match self.find_file(&filename) {
            Some(i) => {
                let ghost pre = old(self).index@;
                match find_endpoint(&self.index[i].peers, caller) {
                    Some(a) => {
                        self.index[i].peers.swap_remove(a);
                        proof {
                            let post = self.index@;
                            lemma_swap_removed(
                                pre[i as int].peers@,
                                post[i as int].peers@,
                                a as int,
                                caller,
                            );
                            assert forall|g: Seq<char>, x: Endpoint|
                                self.registered(g, x) == (old(self).registered(g, x) && !(g == f
                                    && x == caller)) by {
                                lemma_registered_entry_removed(
                                    *old(self),
                                    *self,
                                    i as int,
                                    caller,
                                    g,
                                    x,
                                );
                            }
                        }
                    },
                    None => {
                        proof {
                            assert(!old(self).registered(f, caller)) by {
                                if old(self).registered(f, caller) {
                                    let k = choose|k: int|
                                        0 <= k < pre.len() && pre[k].filename@ == f
                                            && pre[k].peers@.contains(caller);
                                    assert(k == i);
                                    let a = choose|a: int|
                                        0 <= a < pre[k].peers@.len() && pre[k].peers@[a] == caller;
                                    assert(false);
                                }
                            }
                            assert forall|g: Seq<char>, x: Endpoint|
                                self.registered(g, x) == (old(self).registered(g, x) && !(g == f
                                    && x == caller)) by {}
                        }
                    },
                }
            },
            None => {
                proof {
                    assert(!old(self).registered(f, caller)) by {
                        if old(self).registered(f, caller) {
                            let k = choose|k: int|
                                0 <= k < old(self).index@.len() && old(self).index@[k].filename@
                                    == f && old(self).index@[k].peers@.contains(caller);
                            assert(false);
                        }
                    }
                    assert forall|g: Seq<char>, x: Endpoint|
                        self.registered(g, x) == (old(self).registered(g, x) && !(g == f && x
                            == caller)) by {}
                }
            },
        }
        proof {
            lemma_untouched_ports(*old(self), *self);
            lemma_untouched_dedup(*old(self), *self);
        }
    }

    /// Remove every trace of `caller`: its endpoint leaves every
    /// filename's set and its download-port record is dropped.  Used when
    /// a peer's connection terminates, so the node stops advertising an
    /// unreachable peer.
    pub fn disconnect_peer(&mut self, caller: Endpoint)
        requires
            old(self).wf(),
        ensures
            final(self).wf(),
            disconnect_rel(*old(self), *final(self), caller),
    {
        let ghost pre = old(self).index@;
        let n = self.index.len();
        let mut i: usize = 0;
        while i < n
            invariant
                old(self).wf(),
                i <= n,
                n == self.index@.len(),
                pre == old(self).index@,
                self.index@.len() == pre.len(),
                self.ports@ == old(self).ports@,
                self.backtrace == old(self).backtrace,
                self.neighbors@ == old(self).neighbors@,
                self.backtrace_lifetime == old(self).backtrace_lifetime,
                forall|k: int| i <= k < n ==> self.index@[k] == pre[k],
                forall|k: int| 0 <= k < i ==> self.index@[k].filename@ == pre[k].filename@,
                forall|k: int, x: Endpoint|
                    0 <= k < i ==> #[trigger] self.index@[k].peers@.contains(x) == (
                    pre[k].peers@.contains(x) && x != caller),
                forall|k: int, a: int, b: int|
                    0 <= k < i && 0 <= a < self.index@[k].peers@.len() && 0 <= b
                        < self.index@[k].peers@.len() && a != b ==> self.index@[k].peers@[a]
                        != self.index@[k].peers@[b],
            decreases n - i,
        {
            match find_endpoint(&self.index[i].peers, caller) {
                Some(a) => {
                    self.index[i].peers.swap_remove(a);
                    proof {
                        lemma_swap_removed(
                            pre[i as int].peers@,
                            self.index@[i as int].peers@,
                            a as int,
                            caller,
                        );
                    }
                },
                None => {
                    proof {
                        let pe = pre[i as int].peers@;
                        assert forall|x: Endpoint|
                            self.index@[i as int].peers@.contains(x) == (pe.contains(x) && x
                                != caller) by {
                            if pe.contains(x) && x == caller {
                                let b = choose|b: int| 0 <= b < pe.len() && pe[b] == x;
                                assert(false);
                            }
                        }
                    }
                },
            }
            proof {
                assert forall|k: int, x: Endpoint|
                    0 <= k < i + 1 implies #[trigger] self.index@[k].peers@.contains(x) == (
                pre[k].peers@.contains(x) && x != caller) by {
                    if k == i {
                        assert(self.index@[i as int].peers@.contains(x) == (pre[
                            i as int].peers@.contains(x) && x != caller));
                    }
                }
            }
            i = i + 1;
        }
        proof {
            assert forall|k: int, l: int|
                0 <= k < self.index@.len() && 0 <= l < self.index@.len() && k
                    != l implies self.index@[k].filename@ != self.index@[l].filename@ by {
                assert(self.index@[k].filename@ == pre[k].filename@);
                assert(self.index@[l].filename@ == pre[l].filename@);
            }
        }
        // Drop the saved download port.
        let ghost preports = self.ports@;
        match self.find_port(caller) {
            Some(a) => {
                self.ports.swap_remove(a);
                proof {
                    lemma_port_swap_removed(preports, self.ports@, a as int, caller);
                }
            },
            None => {
                proof {
                    assert forall|e: Endpoint, p: u16|
                        self.port_is(e, p) == (old(self).port_is(e, p) && e != caller) by {
                        if old(self).port_is(e, p) && e == caller {
                            let k = choose|k: int|
                                0 <= k < preports.len() && preports[k].peer == e && preports[k].port
                                    == p;
                            assert(false);
                        }
                    }
                }
            },
        }
        proof {
            assert forall|g: Seq<char>, x: Endpoint|
                self.registered(g, x) == (old(self).registered(g, x) && x != caller) by {
                if self.registered(g, x) {
                    let k = choose|k: int|
                        0 <= k < self.index@.len() && self.index@[k].filename@ == g
                            && self.index@[k].peers@.contains(x);
                    assert(pre[k].filename@ == g && pre[k].peers@.contains(x) && x != caller);
                }
                if old(self).registered(g, x) && x != caller {
                    let k = choose|k: int|
                        0 <= k < pre.len() && pre[k].filename@ == g && pre[k].peers@.contains(x);
                    assert(self.index@[k].filename@ == g && self.index@[k].peers@.contains(x));
                }
            }
            lemma_untouched_dedup(*old(self), *self);
        }
    }

    /// The download port on record for `e`, if any.  With a well-formed
    /// port map the answer is unique.
    fn lookup_port(&self, e: Endpoint) -> (r: Option<u16>)
        requires
            self.wf(),
        ensures
            match r {
                Some(p) => self.port_is(e, p) && forall|q: u16| self.port_is(e, q) ==> q == p,
                None => forall|p: u16| !self.port_is(e, p),
            },
    {
        match self.find_port(e) {
            Some(i) => {
                let p = self.ports[i].port;
                proof {
                    assert(self.port_is(e, p));
                    assert forall|q: u16| self.port_is(e, q) implies q == p by {
                        let k = choose|k: int|
                            0 <= k < self.ports@.len() && self.ports@[k].peer == e
                                && self.ports@[k].port == q;
                        assert(k == i);
                    }
                }
                Some(p)
            },
            None => {
                proof {
                    assert forall|p: u16| !self.port_is(e, p) by {
                        if self.port_is(e, p) {
                            let k = choose|k: int|
                                0 <= k < self.ports@.len() && self.ports@[k].peer == e
                                    && self.ports@[k].port == p;
                            assert(false);
                        }
                    }
                }
                None
            },
        }
    }

    /// Resolve `filename` against this node alone: the endpoints
    /// advertising it, each with its port rewritten to the peer's
    /// advertised download port.  A registered peer that never recorded a
    /// download port is silently excluded — it is not yet downloadable.
    pub fn search(&self, filename: &String) -> (r: Vec<Endpoint>)
        requires
            self.wf(),
        ensures
            forall|x: Endpoint| r@.contains(x) == self.in_search(filename@, x),
    {
        let ghost f = filename@;
        let mut r: Vec<Endpoint> = Vec::new();
        match self.find_file(filename) {
            Some(i) => {
                let m = self.index[i].peers.len();
                let ghost peers = self.index@[i as int].peers@;
                let mut j: usize = 0;
                while j < m
                    invariant
                        self.wf(),
                        i < self.index@.len(),
                        self.index@[i as int].filename@ == f,
                        peers == self.index@[i as int].peers@,
                        j <= m,
                        m == peers.len(),
                        forall|x: Endpoint|
                            r@.contains(x) == exists|a: int, p: u16|
                                0 <= a < j && #[trigger] self.port_is(peers[a], p) && x == peers[a].spec_with_port(p),
                    decreases m - j,
                {
                    let e = self.index[i].peers[j];
                    match self.lookup_port(e) {
                        Some(p) => {
                            let ghost prev = r@;
                            let y = e.with_port(p);
                            r.push(y);
                            proof {
                                assert(r@ == prev.push(y));
                                assert forall|x: Endpoint|
                                    r@.contains(x) == exists|a: int, q: u16|
                                        0 <= a < j + 1 && #[trigger] self.port_is(peers[a], q) && x
                                            == peers[a].spec_with_port(q) by {
                                    if r@.contains(x) {
                                        let c = choose|c: int| 0 <= c < r@.len() && r@[c] == x;
                                        if c < prev.len() {
                                            assert(prev[c] == x);
                                            assert(prev.contains(x));
                                            let (a, q) = choose|a: int, q: u16|
                                                0 <= a < j && #[trigger] self.port_is(peers[a], q) && x == peers[a].spec_with_port(q);
                                            assert(0 <= a < j + 1 && self.port_is(peers[a], q) && x
                                                == peers[a].spec_with_port(q));
                                        } else {
                                            assert(x == y);
                                            assert(peers[j as int] == e);
                                            assert(self.port_is(peers[j as int], p) && x == peers[
                                                j as int].spec_with_port(p));
                                        }
                                    }
                                    if exists|a: int, q: u16|
                                        0 <= a < j + 1 && #[trigger] self.port_is(peers[a], q) && x
                                            == peers[a].spec_with_port(q) {
                                        let (a, q) = choose|a: int, q: u16|
                                            0 <= a < j + 1 && #[trigger] self.port_is(peers[a], q)
                                                && x == peers[a].spec_with_port(q);
                                        if a < j {
                                            assert(prev.contains(x));
                                            let c = choose|c: int|
                                                0 <= c < prev.len() && prev[c] == x;
                                            assert(r@[c] == x);
                                        } else {
                                            assert(q == p);
                                            assert(r@.last() == x);
                                        }
                                    }
                                }
                            }
                        },
                        None => {
                            proof {
                                assert forall|x: Endpoint|
                                    r@.contains(x) == exists|a: int, q: u16|
                                        0 <= a < j + 1 && #[trigger] self.port_is(peers[a], q) && x
                                            == peers[a].spec_with_port(q) by {
                                    if exists|a: int, q: u16|
                                        0 <= a < j + 1 && #[trigger] self.port_is(peers[a], q) && x
                                            == peers[a].spec_with_port(q) {
                                        let (a, q) = choose|a: int, q: u16|
                                            0 <= a < j + 1 && #[trigger] self.port_is(peers[a], q)
                                                && x == peers[a].spec_with_port(q);
                                        assert(a != j);
                                    }
                                }
                            }
                        },
                    }
                    j = j + 1;
                }
                proof {
                    assert forall|x: Endpoint| r@.contains(x) == self.in_search(f, x) by {
                        if r@.contains(x) {
                            let (a, p) = choose|a: int, p: u16|
                                0 <= a < j && #[trigger] self.port_is(peers[a], p) && x == peers[a].spec_with_port(p);
                            assert(self.registered(f, peers[a])) by {
                                assert(self.index@[i as int].filename@ == f
                                    && self.index@[i as int].peers@.contains(peers[a]));
                            }
                        }
                        if self.in_search(f, x) {
                            let (e2, p) = choose|e2: Endpoint, p: u16|
                                self.registered(f, e2) && self.port_is(e2, p) && x
                                    == e2.spec_with_port(p);
                            let k = choose|k: int|
                                0 <= k < self.index@.len() && self.index@[k].filename@ == f
                                    && self.index@[k].peers@.contains(e2);
                            assert(k == i);
                            let a = choose|a: int| 0 <= a < peers.len() && peers[a] == e2;
                            assert(0 <= a < j && self.port_is(peers[a], p) && x
                                == peers[a].spec_with_port(p));
                        }
                    }
                }
            },
            None => {
                proof {
                    assert forall|x: Endpoint| r@.contains(x) == self.in_search(f, x) by {
                        if self.in_search(f, x) {
                            let (e2, p) = choose|e2: Endpoint, p: u16|
                                self.registered(f, e2) && self.port_is(e2, p) && x
                                    == e2.spec_with_port(p);
                            let k = choose|k: int|
                                0 <= k < self.index@.len() && self.index@[k].filename@ == f
                                    && self.index@[k].peers@.contains(e2);
                            assert(false);
                        }
                    }
                }
            },
        }
        r
    }
}

impl IndexerServer {
    /// A diagnostic dump of the registration index: each filename
    /// together with the endpoints currently advertising it, for logging.
    /// Reading it has no semantic effect.
    pub fn dump(&self) -> (r: Vec<(String, Vec<Endpoint>)>)
        requires
            self.wf(),
        ensures
            forall|i: int, x: Endpoint|
                0 <= i < r@.len() ==> (#[trigger] r@[i].1@.contains(x)) == self.registered(
                    r@[i].0@,
                    x,
                ),
            forall|g: Seq<char>, x: Endpoint|
                self.registered(g, x) ==> exists|i: int|
                    0 <= i < r@.len() && #[trigger] r@[i].0@ == g,
    {
        let mut r: Vec<(String, Vec<Endpoint>)> = Vec::new();
        let n = self.index.len();
        let mut i: usize = 0;
        while i < n
            invariant
                i <= n,
                n == self.index@.len(),
                r@.len() == i,
                forall|k: int|
                    0 <= k < i ==> (#[trigger] r@[k]).0@ == self.index@[k].filename@ && r@[k].1@
                        == self.index@[k].peers@,
            decreases n - i,
        {
            let name = self.index[i].filename.clone();
            let peers = clone_endpoints(&self.index[i].peers);
            r.push((name, peers));
            i = i + 1;
        }
        proof {
            assert forall|i2: int, x: Endpoint|
                0 <= i2 < r@.len() implies (#[trigger] r@[i2].1@.contains(x)) == self.registered(
                r@[i2].0@,
                x,
            ) by {
                if r@[i2].1@.contains(x) {
                    assert(self.index@[i2].peers@.contains(x));
                    assert(self.registered(r@[i2].0@, x));
                }
                if self.registered(r@[i2].0@, x) {
                    let k = choose|k: int|
                        0 <= k < self.index@.len() && self.index@[k].filename@ == r@[i2].0@
                            && self.index@[k].peers@.contains(x);
                    assert(k == i2);
                }
            }
            assert forall|g: Seq<char>, x: Endpoint| self.registered(g, x) implies exists|i2: int|
                0 <= i2 < r@.len() && #[trigger] r@[i2].0@ == g by {
                let k = choose|k: int|
                    0 <= k < self.index@.len() && self.index@[k].filename@ == g
                        && self.index@[k].peers@.contains(x);
                assert(r@[k].0@ == g);
            }
        }
        r
    }
}

/// The position of `e` in `v`, if any.
fn find_endpoint(v: &Vec<Endpoint>, e: Endpoint) -> (r: Option<usize>)
    ensures
        match r {
            Some(a) => a < v@.len() && v@[a as int] == e,
            None => forall|k: int| 0 <= k < v@.len() ==> v@[k] != e,
        },
{
    let n = v.len();
    let mut i: usize = 0;
    while i < n
        invariant
            i <= n,
            n == v@.len(),
            forall|k: int| 0 <= k < i ==> v@[k] != e,
        decreases n - i,
    {
        if v[i] == e {
            return Some(i);
        }
        i = i + 1;
    }
    None
}

/// Removing position `a` of a duplicate-free sequence by a swap with the
/// last element removes exactly that element.
proof fn lemma_swap_removed(s: Seq<Endpoint>, s2: Seq<Endpoint>, a: int, e: Endpoint)
    requires
        forall|x: int, y: int| 0 <= x < s.len() && 0 <= y < s.len() && x != y ==> s[x] != s[y],
        0 <= a < s.len(),
        s[a] == e,
        s2 == s.update(a, s.last()).drop_last(),
    ensures
        forall|x: Endpoint| s2.contains(x) == (s.contains(x) && x != e),
        forall|x: int, y: int| 0 <= x < s2.len() && 0 <= y < s2.len() && x != y ==> s2[x] != s2[y],
{
    let n = s.len() as int;
    assert(s2.len() == n - 1);
    assert(forall|k: int| 0 <= k < n - 1 && k != a ==> s2[k] == s[k]);
    if a < n - 1 {
        assert(s2[a] == s[n - 1]);
    }
    assert forall|x: Endpoint| s2.contains(x) == (s.contains(x) && x != e) by {
        if s2.contains(x) {
            let k = choose|k: int| 0 <= k < s2.len() && s2[k] == x;
            let pk: int = if k == a { n - 1 } else { k };
            assert(s[pk] == x);
            assert(pk != a);
            assert(x != e);
            assert(s.contains(x));
        }
        if s.contains(x) && x != e {
            let k = choose|k: int| 0 <= k < s.len() && s[k] == x;
            assert(k != a);
            let mk: int = if k == n - 1 { a } else { k };
            assert(k == n - 1 ==> a < n - 1);
            assert(s2[mk] == x);
            assert(s2.contains(x));
        }
    }
    assert forall|x: int, y: int|
        0 <= x < s2.len() && 0 <= y < s2.len() && x != y implies s2[x] != s2[y] by {
        let px: int = if x == a { n - 1 } else { x };
        let py: int = if y == a { n - 1 } else { y };
        assert(s2[x] == s[px] && s2[y] == s[py]);
    }
}

/// The port-map variant of `lemma_swap_removed`: removing the entry of
/// `e` removes exactly `e`'s port answers.
proof fn lemma_port_swap_removed(s: Seq<PortEntry>, s2: Seq<PortEntry>, a: int, e: Endpoint)
    requires
        forall|x: int, y: int|
            0 <= x < s.len() && 0 <= y < s.len() && x != y ==> s[x].peer != s[y].peer,
        0 <= a < s.len(),
        s[a].peer == e,
        s2 == s.update(a, s.last()).drop_last(),
    ensures
        forall|x: Endpoint, p: u16|
            #[trigger] port_entry_is(s2, x, p) == (port_entry_is(s, x, p) && x != e),
        forall|x: int, y: int|
            0 <= x < s2.len() && 0 <= y < s2.len() && x != y ==> s2[x].peer != s2[y].peer,
{
    let n = s.len() as int;
    assert(s2.len() == n - 1);
    assert(forall|k: int| 0 <= k < n - 1 && k != a ==> s2[k] == s[k]);
    if a < n - 1 {
        assert(s2[a] == s[n - 1]);
    }
    assert forall|x: Endpoint, p: u16|
        #[trigger] port_entry_is(s2, x, p) == (port_entry_is(s, x, p) && x != e) by {
        if port_entry_is(s2, x, p) {
            let k = choose|k: int| 0 <= k < s2.len() && s2[k].peer == x && s2[k].port == p;
            let pk: int = if k == a { n - 1 } else { k };
            assert(s[pk].peer == x && s[pk].port == p);
            assert(pk != a);
            assert(x != e);
        }
        if port_entry_is(s, x, p) && x != e {
            let k = choose|k: int| 0 <= k < s.len() && s[k].peer == x && s[k].port == p;
            assert(k != a);
            let mk: int = if k == n - 1 { a } else { k };
            assert(k == n - 1 ==> a < n - 1);
            assert(s2[mk].peer == x && s2[mk].port == p);
        }
    }
    assert forall|x: int, y: int|
        0 <= x < s2.len() && 0 <= y < s2.len() && x != y implies s2[x].peer != s2[y].peer by {
        let px: int = if x == a { n - 1 } else { x };
        let py: int = if y == a { n - 1 } else { y };
        assert(s2[x] == s[px] && s2[y] == s[py]);
    }
}

/// When only the entry at position `i` has lost `caller` (same filename,
/// all other entries untouched), the registered pairs are the old ones
/// minus (that filename, `caller`); needs unique filenames.
proof fn lemma_registered_entry_removed(
    pre: IndexerServer,
    post: IndexerServer,
    i: int,
    caller: Endpoint,
    g: Seq<char>,
    x: Endpoint,
)
    requires
        post.index@.len() == pre.index@.len(),
        0 <= i < pre.index@.len(),
        forall|k: int| 0 <= k < pre.index@.len() && k != i ==> post.index@[k] == pre.index@[k],
        post.index@[i].filename@ == pre.index@[i].filename@,
        forall|y: Endpoint|
            post.index@[i].peers@.contains(y) == (pre.index@[i].peers@.contains(y) && y != caller),
        forall|k: int, l: int|
            0 <= k < pre.index@.len() && 0 <= l < pre.index@.len() && k != l
                ==> pre.index@[k].filename@ != pre.index@[l].filename@,
    ensures
        post.registered(g, x) == (pre.registered(g, x) && !(g == pre.index@[i].filename@ && x
            == caller)),
{
    let f = pre.index@[i].filename@;
    if post.registered(g, x) {
        let k = choose|k: int|
            0 <= k < post.index@.len() && post.index@[k].filename@ == g
                && post.index@[k].peers@.contains(x);
        if k == i {
            assert(pre.index@[i].peers@.contains(x) && x != caller);
            assert(pre.registered(g, x));
        } else {
            assert(pre.index@[k].filename@ == g && pre.index@[k].peers@.contains(x));
            assert(pre.registered(g, x));
            if g == f && x == caller {
                assert(pre.index@[k].filename@ == pre.index@[i].filename@);
                assert(false);
            }
        }
    }
    if pre.registered(g, x) && !(g == f && x == caller) {
        let k = choose|k: int|
            0 <= k < pre.index@.len() && pre.index@[k].filename@ == g
                && pre.index@[k].peers@.contains(x);
        if k == i {
            if x != caller {
                assert(post.index@[i].peers@.contains(x));
            } else {
                assert(g == f);
                assert(false);
            }
        } else {
            assert(post.index@[k].filename@ == g && post.index@[k].peers@.contains(x));
        }
        assert(post.registered(g, x));
    }
}

/// What a node decides on an inbound flooding query.
pub enum QueryOutcome {
    /// The message identifier was already seen: the query terminates here
    /// with an empty result and nothing is forwarded.  This is what breaks
    /// cycles and re-delivery storms.
    Duplicate,
    /// A fresh message: `local` is this node's own resolution, and
    /// `forward` says whether (and with what hop budget) the query is to
    /// be forwarded to the neighbors.  The response owed to the caller is
    /// `local` plus whatever the forwarded copies return.
    Resolved { local: Vec<Endpoint>, forward: Option<QueryForward> },
}

/// The forwarding decision of a fresh query: send a copy to every target,
/// with the reduced hop budget.
pub struct QueryForward {
    /// The neighbor index nodes to forward to.
    pub targets: Vec<Endpoint>,
    /// The remaining hop budget of the forwarded copy.
    pub ttl: u8,
}

/// What a node decides on an inbound invalidation.
pub enum InvalidateOutcome {
    /// The message identifier was already seen: nothing is relayed and the
    /// index is untouched.
    Duplicate,
    /// A fresh message: relay the invalidation to every endpoint in
    /// `leaves` (each best-effort) and to every neighbor index node in
    /// `neighbors`; the local index entry has already been scrubbed.
    Relayed { leaves: Vec<Endpoint>, neighbors: Vec<Endpoint> },
}

/// How recording a fresh message changes what counts as seen: `msg_id` is
/// now seen until its expiry runs out, everything else answers as before.
pub open spec fn recorded_rel(
    pre: IndexerServer,
    post: IndexerServer,
    msg_id: u128,
    now: u64,
) -> bool {
    forall|j: u128, at: u64|
        post.seen(j, at) == if j == msg_id {
            at < expiry_deadline(now, pre.dedup_lifetime())
        } else {
            pre.seen(j, at)
        }
}

/// How an invalidation for `f` from `origin` scrubs the index: only the
/// registrants of `f` whose rewritten endpoint equals `origin` survive;
/// every other filename answers as before.  The invalidation is taken as
/// proof that all other copies are stale, so the index forgets them
/// eagerly instead of waiting for an explicit deregister.
pub open spec fn scrub_rel(
    pre: IndexerServer,
    post: IndexerServer,
    origin: Endpoint,
    f: Seq<char>,
) -> bool {
    forall|g: Seq<char>, x: Endpoint|
        post.registered(g, x) == (pre.registered(g, x) && (g != f || (pre.port_is(x, origin.port)
            && x.host == origin.host)))
}

impl IndexerServer {
    /// Handle an inbound flooding query for `filename` at time `now`.
    ///
    /// A duplicate message terminates at once with nothing changed.  A
    /// fresh message is recorded before anything is forwarded, resolved
    /// against the local index, and forwarded to every neighbor with the
    /// hop budget reduced by one — except when `ttl` is zero, which
    /// forbids any forwarding.  The caller performs the forwards (each
    /// over its own connection, failures skipped) and appends whatever
    /// they return to `local`.
    pub fn query(&mut self, msg_id: u128, filename: &String, ttl: u8, now: u64) -> (o: QueryOutcome)
        requires
            old(self).wf(),
        ensures
            final(self).wf(),
            (o is Duplicate) == old(self).seen(msg_id, now),
            o is Duplicate ==> *final(self) == *old(self),
            (o matches QueryOutcome::Resolved { local, forward } ==> {
                &&& (forall|x: Endpoint|
                    local@.contains(x) == old(self).in_search(filename@, x))
                &&& (forward is Some) == (ttl > 0)
                &&& (forward matches Some(fw) ==> fw.targets@ == old(self).neighbor_list()
                    && fw.ttl as int == ttl as int - 1)
                &&& same_index(*old(self), *final(self))
                &&& same_ports(*old(self), *final(self))
                &&& same_config(*old(self), *final(self))
                &&& recorded_rel(*old(self), *final(self), msg_id, now)
            }),
    {
        let lifetime = self.backtrace_lifetime;
        let dup = self.backtrace.seen_or_record(msg_id, now, lifetime);
        if dup {
            proof {
                assert(*self == *old(self));
            }
            return QueryOutcome::Duplicate;
        }
        proof {
            lemma_untouched_index(*old(self), *self);
            lemma_untouched_ports(*old(self), *self);
            lemma_same_search(*old(self), *self);
        }
        let local = self.search(filename);
        let forward = if ttl > 0 {
            Some(QueryForward { targets: clone_endpoints(&self.neighbors), ttl: ttl - 1 })
        } else {
            None
        };
        QueryOutcome::Resolved { local, forward }
    }

    /// Handle an inbound invalidation: `origin_server` declares every
    /// other copy of `filename` stale.
    ///
    /// A duplicate message terminates at once with nothing changed.  A
    /// fresh message is recorded, then: every endpoint currently resolving
    /// for `filename` — except the origin itself — is owed a relayed
    /// invalidation (`leaves`); the local entry for `filename` is scrubbed
    /// down to the registrants matching the origin; and the invalidation
    /// is owed to every neighbor index node (`neighbors`), with no hop
    /// budget — only duplicate suppression bounds the flood.  The caller
    /// performs the relays, each best-effort.
    pub fn invalidate(
        &mut self,
        msg_id: u128,
        origin_server: Endpoint,
        filename: &String,
        now: u64,
    ) -> (o: InvalidateOutcome)
        requires
            old(self).wf(),
        ensures
            final(self).wf(),
            (o is Duplicate) == old(self).seen(msg_id, now),
            o is Duplicate ==> *final(self) == *old(self),
            (o matches InvalidateOutcome::Relayed { leaves, neighbors } ==> {
                &&& (forall|x: Endpoint|
                    leaves@.contains(x) == (old(self).in_search(filename@, x) && x
                        != origin_server))
                &&& neighbors@ == old(self).neighbor_list()
                &&& scrub_rel(*old(self), *final(self), origin_server, filename@)
                &&& same_ports(*old(self), *final(self))
                &&& same_config(*old(self), *final(self))
                &&& recorded_rel(*old(self), *final(self), msg_id, now)
            }),
    {
        let ghost f = filename@;
        let lifetime = self.backtrace_lifetime;
        let dup = self.backtrace.seen_or_record(msg_id, now, lifetime);
        if dup {
            proof {
                assert(*self == *old(self));
            }
            return InvalidateOutcome::Duplicate;
        }
        proof {
            lemma_untouched_index(*old(self), *self);
            lemma_untouched_ports(*old(self), *self);
            lemma_same_search(*old(self), *self);
        }
        let all = self.search(filename);
        let leaves = exclude_endpoint(&all, origin_server);
        // Scrub: keep only the registrants of `filename` whose rewritten
        // endpoint equals the origin.
        let ghost pre2 = *self;
        match self.find_file(filename) {
            Some(i) => {
                let m = self.index[i].peers.len();
                let ghost peers = self.index@[i as int].peers@;
                let mut kept: Vec<Endpoint> = Vec::new();
                let mut j: usize = 0;
                while j < m
                    invariant
                        *self == pre2,
                        self.wf(),
                        i < self.index@.len(),
                        peers == self.index@[i as int].peers@,
                        j <= m,
                        m == peers.len(),
                        forall|x: Endpoint|
                            #[trigger] kept@.contains(x) == ((exists|a: int|
                                0 <= a < j && #[trigger] peers[a] == x) && self.port_is(
                                x,
                                origin_server.port,
                            ) && x.host == origin_server.host),
                        forall|a: int, b: int|
                            0 <= a < kept@.len() && 0 <= b < kept@.len() && a != b ==> kept@[a]
                                != kept@[b],
                    decreases m - j,
                {
                    let e = self.index[i].peers[j];
                    let keep = match self.lookup_port(e) {
                        Some(p) => e.host == origin_server.host && p == origin_server.port,
                        None => false,
                    };
                    if keep {
                        let ghost prevk = kept@;
                        kept.push(e);
                        proof {
                            assert(kept@ == prevk.push(e));
                            assert(!prevk.contains(e)) by {
                                if prevk.contains(e) {
                                    let a = choose|a: int|
                                        0 <= a < j && #[trigger] peers[a] == e;
                                    assert(peers[j as int] == e);
                                    assert(false);
                                }
                            }
                            assert forall|x: Endpoint|
                                #[trigger] kept@.contains(x) == ((exists|a: int|
                                    0 <= a < j + 1 && #[trigger] peers[a] == x) && self.port_is(
                                    x,
                                    origin_server.port,
                                ) && x.host == origin_server.host) by {
                                if kept@.contains(x) {
                                    let c = choose|c: int| 0 <= c < kept@.len() && kept@[c] == x;
                                    if c < prevk.len() {
                                        assert(prevk.contains(x));
                                        let a = choose|a: int| 0 <= a < j && #[trigger] peers[a] == x;
                                        assert(0 <= a < j + 1 && peers[a] == x);
                                    } else {
                                        assert(x == e);
                                        assert(peers[j as int] == x);
                                    }
                                }
                                if (exists|a: int| 0 <= a < j + 1 && #[trigger] peers[a] == x)
                                    && self.port_is(x, origin_server.port) && x.host
                                    == origin_server.host {
                                    let a = choose|a: int| 0 <= a < j + 1 && #[trigger] peers[a] == x;
                                    if a < j {
                                        assert(prevk.contains(x));
                                        let c = choose|c: int|
                                            0 <= c < prevk.len() && prevk[c] == x;
                                        assert(kept@[c] == x);
                                    } else {
                                        assert(x == e);
                                        assert(kept@.last() == x);
                                    }
                                }
                            }
                        }
                    } else {
                        proof {
                            assert forall|x: Endpoint|
                                #[trigger] kept@.contains(x) == ((exists|a: int|
                                    0 <= a < j + 1 && #[trigger] peers[a] == x) && self.port_is(
                                    x,
                                    origin_server.port,
                                ) && x.host == origin_server.host) by {
                                if (exists|a: int| 0 <= a < j + 1 && #[trigger] peers[a] == x)
                                    && self.port_is(x, origin_server.port) && x.host
                                    == origin_server.host {
                                    let a = choose|a: int| 0 <= a < j + 1 && #[trigger] peers[a] == x;
                                    assert(a != j);
                                }
                            }
                        }
                    }
                    j = j + 1;
                }
                self.index[i].peers = kept;
                proof {
                    assert forall|y: Endpoint|
                        self.index@[i as int].peers@.contains(y) == (pre2.index@[
                        i as int].peers@.contains(y) && pre2.port_is(y, origin_server.port)
                            && y.host == origin_server.host) by {
                        if pre2.index@[i as int].peers@.contains(y) {
                            let a = choose|a: int| 0 <= a < peers.len() && peers[a] == y;
                            assert(0 <= a < j && peers[a] == y);
                        }
                    }
                    assert forall|g: Seq<char>, x: Endpoint|
                        self.registered(g, x) == (pre2.registered(g, x) && (g != f || (
                        pre2.port_is(x, origin_server.port) && x.host == origin_server.host))) by {
                        lemma_registered_entry_scrubbed(
                            pre2,
                            *self,
                            i as int,
                            origin_server,
                            g,
                            x,
                        );
                    }
                    lemma_untouched_ports(pre2, *self);
                    lemma_untouched_dedup(pre2, *self);
                }
            },
            None => {
                proof {
                    assert forall|g: Seq<char>, x: Endpoint|
                        self.registered(g, x) == (pre2.registered(g, x) && (g != f || (
                        pre2.port_is(x, origin_server.port) && x.host == origin_server.host))) by {
                        if g == f && pre2.registered(g, x) {
                            let k = choose|k: int|
                                0 <= k < pre2.index@.len() && pre2.index@[k].filename@ == g
                                    && pre2.index@[k].peers@.contains(x);
                            assert(false);
                        }
                    }
                }
            },
        }
        let neighbors = clone_endpoints(&self.neighbors);
        InvalidateOutcome::Relayed { leaves, neighbors }
    }
}

/// Merge one completed fan-out response into the aggregate result: the
/// response's endpoints are appended in order.  Aggregation is a plain
/// union of lists; duplicates contributed along different paths are kept,
/// as the protocol specifies.
pub fn append_results(acc: &mut Vec<Endpoint>, more: &Vec<Endpoint>)
    ensures
        final(acc)@ == old(acc)@ + more@,
{
    let n = more.len();
    let mut i: usize = 0;
    while i < n
        invariant
            i <= n,
            n == more@.len(),
            acc@ == old(acc)@ + more@.take(i as int),
        decreases n - i,
    {
        acc.push(more[i]);
        proof {
            assert(acc@ =~= old(acc)@ + more@.take(i as int + 1));
        }
        i = i + 1;
    }
    proof {
        assert(acc@ =~= old(acc)@ + more@);
    }
}

/// A copy of the endpoint list.
fn clone_endpoints(v: &Vec<Endpoint>) -> (r: Vec<Endpoint>)
    ensures
        r@ == v@,
{
    let n = v.len();
    let mut r: Vec<Endpoint> = Vec::new();
    let mut i: usize = 0;
    while i < n
        invariant
            i <= n,
            n == v@.len(),
            r@ == v@.take(i as int),
        decreases n - i,
    {
        r.push(v[i]);
        proof {
            assert(r@ =~= v@.take(i as int + 1));
        }
        i = i + 1;
    }
    proof {
        assert(r@ =~= v@);
    }
    r
}

/// The endpoints of `v` other than `e`, in order.
fn exclude_endpoint(v: &Vec<Endpoint>, e: Endpoint) -> (out: Vec<Endpoint>)
    ensures
        forall|x: Endpoint| out@.contains(x) == (v@.contains(x) && x != e),
{
    let n = v.len();
    let mut out: Vec<Endpoint> = Vec::new();
    let mut i: usize = 0;
    while i < n
        invariant
            i <= n,
            n == v@.len(),
            forall|x: Endpoint|
                #[trigger] out@.contains(x) == ((exists|c: int| 0 <= c < i && #[trigger] v@[c] == x)
                    && x != e),
        decreases n - i,
    {
        if v[i] != e {
            let ghost prev = out@;
            out.push(v[i]);
            proof {
                assert(out@ == prev.push(v@[i as int]));
                assert forall|x: Endpoint|
                    #[trigger] out@.contains(x) == ((exists|c: int|
                        0 <= c < i + 1 && #[trigger] v@[c] == x) && x != e) by {
                    if out@.contains(x) {
                        let c = choose|c: int| 0 <= c < out@.len() && out@[c] == x;
                        if c < prev.len() {
                            assert(prev.contains(x));
                            let d = choose|d: int| 0 <= d < i && #[trigger] v@[d] == x;
                            assert(0 <= d < i + 1 && v@[d] == x);
                        } else {
                            assert(x == v@[i as int]);
                        }
                    }
                    if (exists|c: int| 0 <= c < i + 1 && #[trigger] v@[c] == x) && x != e {
                        let c = choose|c: int| 0 <= c < i + 1 && #[trigger] v@[c] == x;
                        if c < i {
                            assert(prev.contains(x));
                            let d = choose|d: int| 0 <= d < prev.len() && prev[d] == x;
                            assert(out@[d] == x);
                        } else {
                            assert(out@.last() == x);
                        }
                    }
                }
            }
        } else {
            proof {
                assert forall|x: Endpoint|
                    #[trigger] out@.contains(x) == ((exists|c: int|
                        0 <= c < i + 1 && #[trigger] v@[c] == x) && x != e) by {
                    if (exists|c: int| 0 <= c < i + 1 && #[trigger] v@[c] == x) && x != e {
                        let c = choose|c: int| 0 <= c < i + 1 && #[trigger] v@[c] == x;
                        assert(c != i);
                    }
                }
            }
        }
        i = i + 1;
    }
    proof {
        assert forall|x: Endpoint| out@.contains(x) == (v@.contains(x) && x != e) by {
            if v@.contains(x) && x != e {
                let c = choose|c: int| 0 <= c < v@.len() && v@[c] == x;
                assert(0 <= c < i && v@[c] == x);
            }
        }
    }
    out
}

/// When only the entry at position `i` has been filtered down to the
/// registrants whose recorded port and host match `origin` (same
/// filename, all other entries untouched), the registered pairs for that
/// filename are exactly the surviving ones; needs unique filenames.
proof fn lemma_registered_entry_scrubbed(
    pre: IndexerServer,
    post: IndexerServer,
    i: int,
    origin: Endpoint,
    g: Seq<char>,
    x: Endpoint,
)
    requires
        post.index@.len() == pre.index@.len(),
        0 <= i < pre.index@.len(),
        forall|k: int| 0 <= k < pre.index@.len() && k != i ==> post.index@[k] == pre.index@[k],
        post.index@[i].filename@ == pre.index@[i].filename@,
        forall|y: Endpoint|
            #![trigger post.index@[i].peers@.contains(y)]
            #![trigger pre.index@[i].peers@.contains(y)]
            post.index@[i].peers@.contains(y) == (pre.index@[i].peers@.contains(y) && pre.port_is(
                y,
                origin.port,
            ) && y.host == origin.host),
        forall|k: int, l: int|
            0 <= k < pre.index@.len() && 0 <= l < pre.index@.len() && k != l
                ==> pre.index@[k].filename@ != pre.index@[l].filename@,
        post.ports@ == pre.ports@,
    ensures
        post.registered(g, x) == (pre.registered(g, x) && (g != pre.index@[i].filename@ || (
        pre.port_is(x, origin.port) && x.host == origin.host))),
{
    let f = pre.index@[i].filename@;
    if post.registered(g, x) {
        let k = choose|k: int|
            0 <= k < post.index@.len() && post.index@[k].filename@ == g
                && post.index@[k].peers@.contains(x);
        if k == i {
            assert(post.index@[i].peers@.contains(x));
            assert(pre.index@[i].peers@.contains(x) && pre.port_is(x, origin.port) && x.host
                == origin.host);
            assert(pre.registered(g, x));
        } else {
            assert(pre.index@[k].filename@ == g && pre.index@[k].peers@.contains(x));
            assert(pre.registered(g, x));
            if g == f {
                assert(false);
            }
        }
    }
    if pre.registered(g, x) && (g != f || (pre.port_is(x, origin.port) && x.host == origin.host)) {
        let k = choose|k: int|
            0 <= k < pre.index@.len() && pre.index@[k].filename@ == g
                && pre.index@[k].peers@.contains(x);
        if k == i {
            assert(g == f);
            assert(post.index@[i].peers@.contains(x));
        } else {
            if g == f {
                assert(false);
            }
            assert(post.index@[k].filename@ == g && post.index@[k].peers@.contains(x));
        }
        assert(post.registered(g, x));
    }
}

/// Resolution answers depend only on the index and the port map.
pub proof fn lemma_same_search(pre: IndexerServer, post: IndexerServer)
    requires
        same_index(pre, post),
        same_ports(pre, post),
    ensures
        forall|f: Seq<char>, x: Endpoint| post.in_search(f, x) == pre.in_search(f, x),
{
    assert forall|f: Seq<char>, x: Endpoint| post.in_search(f, x) == pre.in_search(f, x) by {
        if post.in_search(f, x) {
            let (e, p) = choose|e: Endpoint, p: u16|
                post.registered(f, e) && post.port_is(e, p) && x == e.spec_with_port(p);
            assert(pre.registered(f, e) && pre.port_is(e, p) && x == e.spec_with_port(p));
        }
        if pre.in_search(f, x) {
            let (e, p) = choose|e: Endpoint, p: u16|
                pre.registered(f, e) && pre.port_is(e, p) && x == e.spec_with_port(p);
            assert(post.registered(f, e) && post.port_is(e, p) && x == e.spec_with_port(p));
        }
    }
}

/// Idempotent registration: registering the same (filename, endpoint)
/// pair a second time changes nothing the node answers — in particular
/// every resolution result is the same as after registering it once.
pub proof fn lemma_register_idempotent(
    s0: IndexerServer,
    s1: IndexerServer,
    s2: IndexerServer,
    caller: Endpoint,
    f: Seq<char>,
)
    requires
        register_rel(s0, s1, caller, f),
        register_rel(s1, s2, caller, f),
    ensures
        same_index(s1, s2),
        same_ports(s1, s2),
        same_dedup(s1, s2),
        same_config(s1, s2),
        forall|g: Seq<char>, x: Endpoint| s2.in_search(g, x) == s1.in_search(g, x),
{
    assert forall|g: Seq<char>, x: Endpoint| s2.registered(g, x) == s1.registered(g, x) by {
        if g == f && x == caller {
            assert(s1.registered(g, x));
        }
    }
    lemma_same_search(s1, s2);
}

/// Symmetry of registration: a `register` followed by a `deregister` of
/// the same (filename, endpoint) pair — starting from a state where the
/// pair was not registered — returns every answer of the node's index and
/// port map, and every resolution result, to what it was before.
pub proof fn lemma_register_then_deregister(
    s0: IndexerServer,
    s1: IndexerServer,
    s2: IndexerServer,
    caller: Endpoint,
    f: Seq<char>,
)
    requires
        !s0.registered(f, caller),
        register_rel(s0, s1, caller, f),
        deregister_rel(s1, s2, caller, f),
    ensures
        same_index(s0, s2),
        same_ports(s0, s2),
        same_dedup(s0, s2),
        same_config(s0, s2),
        forall|g: Seq<char>, x: Endpoint| s2.in_search(g, x) == s0.in_search(g, x),
{
    assert forall|g: Seq<char>, x: Endpoint| s2.registered(g, x) == s0.registered(g, x) by {
        assert(s2.registered(g, x) == (s1.registered(g, x) && !(g == f && x == caller)));
        assert(s1.registered(g, x) == (s0.registered(g, x) || (g == f && x == caller)));
    }
    assert forall|e: Endpoint, p: u16| s2.port_is(e, p) == s0.port_is(e, p) by {
        assert(s2.port_is(e, p) == s1.port_is(e, p));
        assert(s1.port_is(e, p) == s0.port_is(e, p));
    }
    assert forall|j: u128, at: u64| s2.seen(j, at) == s0.seen(j, at) by {
        assert(s2.seen(j, at) == s1.seen(j, at));
        assert(s1.seen(j, at) == s0.seen(j, at));
    }
    lemma_same_search(s0, s2);
}

/// Disconnect completeness: after `disconnect_peer(caller)` the caller
/// advertises no filename and has no download port, so no resolution
/// result draws on it any more.  Moreover, if no other registrant of `f`
/// shared the caller's host, the caller's endpoint itself cannot appear
/// in a resolution of `f` — stated as the last implication, because a
/// distinct peer on the same host advertising the caller's port as its
/// download port would legitimately produce an equal address.
pub proof fn lemma_disconnect_completeness(
    s0: IndexerServer,
    s1: IndexerServer,
    caller: Endpoint,
    f: Seq<char>,
)
    requires
        disconnect_rel(s0, s1, caller),
    ensures
        forall|g: Seq<char>| !s1.registered(g, caller),
        !s1.has_port(caller),
        forall|x: Endpoint| s1.in_search(f, x) ==> s0.in_search(f, x),
        (forall|e: Endpoint| s0.registered(f, e) && e.host == caller.host ==> e == caller)
            ==> !s1.in_search(f, caller),
{
    assert forall|g: Seq<char>| !s1.registered(g, caller) by {
        assert(s1.registered(g, caller) == (s0.registered(g, caller) && caller != caller));
    }
    assert(!s1.has_port(caller)) by {
        if s1.has_port(caller) {
            let p = choose|p: u16| s1.port_is(caller, p);
            assert(s0.port_is(caller, p) && caller != caller);
        }
    }
    assert forall|x: Endpoint| s1.in_search(f, x) implies s0.in_search(f, x) by {
        let (e, p) = choose|e: Endpoint, p: u16|
            s1.registered(f, e) && s1.port_is(e, p) && x == e.spec_with_port(p);
        assert(s0.registered(f, e) && s0.port_is(e, p));
    }
    if forall|e: Endpoint| s0.registered(f, e) && e.host == caller.host ==> e == caller {
        if s1.in_search(f, caller) {
            let (e, p) = choose|e: Endpoint, p: u16|
                s1.registered(f, e) && s1.port_is(e, p) && caller == e.spec_with_port(p);
            assert(s0.registered(f, e) && e != caller);
            assert(e.host == caller.host);
            assert(false);
        }
    }
}

/// Duplicate suppression lasts the whole expiry window: once a fresh
/// message is recorded at time `now`, the node reports it as seen — and
/// `query` and `invalidate` therefore answer `Duplicate`, changing
/// nothing — at every time from `now` up to (but excluding) the expiry
/// the record was given.
pub proof fn lemma_duplicate_suppressed(
    pre: IndexerServer,
    post: IndexerServer,
    msg_id: u128,
    now: u64,
    at: u64,
)
    requires
        recorded_rel(pre, post, msg_id, now),
        now <= at,
        at < expiry_deadline(now, pre.dedup_lifetime()),
    ensures
        post.seen(msg_id, at),
{
}

/// Port rewriting: every endpoint in a resolution result originates from
/// a registered peer that recorded a download port, and carries that
/// peer's host and advertised download port.  A registered peer that
/// never called `set_port` contributes nothing to any result.
pub proof fn lemma_search_provenance(s: IndexerServer, f: Seq<char>, x: Endpoint)
    requires
        s.in_search(f, x),
    ensures
        exists|e: Endpoint|
            #![trigger s.registered(f, e)]
            s.registered(f, e) && s.has_port(e) && s.port_is(e, x.port) && x.host == e.host,
{
    let (e, p) = choose|e: Endpoint, p: u16|
        s.registered(f, e) && s.port_is(e, p) && x == e.spec_with_port(p);
    assert(x.port == p && x.host == e.host);
    assert(s.has_port(e));
    assert(s.registered(f, e) && s.has_port(e) && s.port_is(e, x.port) && x.host == e.host);
}

/// Whether `v` holds `e`.
fn contains_endpoint(v: &Vec<Endpoint>, e: Endpoint) -> (r: bool)
    ensures
        r == v@.contains(e),
{
    let n = v.len();
    let mut i: usize = 0;
    while i < n
        invariant
            i <= n,
            n == v@.len(),
            forall|k: int| 0 <= k < i ==> v@[k] != e,
        decreases n - i,
    {
        if v[i] == e {
            return true;
        }
        i = i + 1;
    }
    proof {
        if v@.contains(e) {
            let k = choose|k: int| 0 <= k < v@.len() && v@[k] == e;
            assert(false);
        }
    }
    false
}

/// When only the entry at position `i` has grown by `caller` (same
/// filename), the registered pairs are the old ones plus (that filename,
/// `caller`).
proof fn lemma_registered_entry_grew(
    pre: IndexerServer,
    post: IndexerServer,
    i: int,
    caller: Endpoint,
    g: Seq<char>,
    x: Endpoint,
)
    requires
        post.index@.len() == pre.index@.len(),
        0 <= i < pre.index@.len(),
        forall|k: int| 0 <= k < pre.index@.len() && k != i ==> post.index@[k] == pre.index@[k],
        post.index@[i].filename@ == pre.index@[i].filename@,
        post.index@[i].peers@ == pre.index@[i].peers@.push(caller),
    ensures
        post.registered(g, x) == (pre.registered(g, x) || (g == pre.index@[i].filename@ && x
            == caller)),
{
    let f = pre.index@[i].filename@;
    if post.registered(g, x) {
        let k = choose|k: int|
            0 <= k < post.index@.len() && post.index@[k].filename@ == g
                && post.index@[k].peers@.contains(x);
        if k == i {
            let a = choose|a: int|
                0 <= a < post.index@[i].peers@.len() && post.index@[i].peers@[a] == x;
            if a < pre.index@[i].peers@.len() {
                assert(pre.index@[i].peers@[a] == x);
                assert(pre.registered(g, x));
            } else {
                assert(x == caller && g == f);
            }
        } else {
            assert(pre.index@[k].filename@ == g && pre.index@[k].peers@.contains(x));
            assert(pre.registered(g, x));
        }
    }
    if pre.registered(g, x) {
        let k = choose|k: int|
            0 <= k < pre.index@.len() && pre.index@[k].filename@ == g
                && pre.index@[k].peers@.contains(x);
        if k == i {
            let a = choose|a: int|
                0 <= a < pre.index@[i].peers@.len() && pre.index@[i].peers@[a] == x;
            assert(post.index@[i].peers@[a] == x);
            assert(post.index@[i].peers@.contains(x));
        } else {
            assert(post.index@[k].filename@ == g && post.index@[k].peers@.contains(x));
        }
        assert(post.registered(g, x));
    }
    if g == f && x == caller {
        let a = pre.index@[i].peers@.len() as int;
        assert(post.index@[i].peers@[a] == caller);
        assert(post.index@[i].peers@.contains(x));
        assert(post.registered(g, x));
    }
}

/// Index answers depend only on the `index` field.
proof fn lemma_untouched_index(pre: IndexerServer, post: IndexerServer)
    requires
        post.index@ == pre.index@,
    ensures
        same_index(pre, post),
{
    assert forall|g: Seq<char>, x: Endpoint|
        post.registered(g, x) == pre.registered(g, x) by {
        if post.registered(g, x) {
            let k = choose|k: int|
                0 <= k < post.index@.len() && post.index@[k].filename@ == g
                    && post.index@[k].peers@.contains(x);
            assert(pre.index@[k].filename@ == g && pre.index@[k].peers@.contains(x));
        }
        if pre.registered(g, x) {
            let k = choose|k: int|
                0 <= k < pre.index@.len() && pre.index@[k].filename@ == g
                    && pre.index@[k].peers@.contains(x);
            assert(post.index@[k].filename@ == g && post.index@[k].peers@.contains(x));
        }
    }
}

/// Port answers depend only on the `ports` field.
proof fn lemma_untouched_ports(pre: IndexerServer, post: IndexerServer)
    requires
        post.ports@ == pre.ports@,
    ensures
        same_ports(pre, post),
{
}

/// Duplicate-suppression answers depend only on the `backtrace` field.
proof fn lemma_untouched_dedup(pre: IndexerServer, post: IndexerServer)
    requires
        post.backtrace == pre.backtrace,
    ensures
        same_dedup(pre, post),
{
}

} // verus!
