//! Duplicate-message suppression: the backtrace table.
//!
//! A flooding overlay may contain cycles, so the same message can reach a
//! node several times along different paths.  The only loop-prevention
//! mechanism of the protocol is this table: a set of recently seen message
//! identifiers, each with an expiry.  Checking and recording happen in one
//! operation, so that two copies of a message racing into the node cannot
//! both count as new.

use vstd::prelude::*;

verus! {

/// One recorded message identifier together with the moment its record
/// expires.
#[derive(Clone, Copy, PartialEq, Eq, Structural, Debug)]
pub struct MessageRecord {
    /// The 128-bit message identifier.
    pub msg_id: u128,
    /// The time (in seconds) at which the record expires; the identifier
    /// counts as seen at every time strictly before this.
    pub expires: u64,
}

/// The expiry that recording an identifier at time `now` for `lifetime`
/// seconds sets, saturating at the top of the clock's range.
pub open spec fn expiry_deadline(now: u64, lifetime: u64) -> u64 {
    if now + lifetime <= u64::MAX {
        (now + lifetime) as u64
    } else {
        u64::MAX
    }
}

/// An expiring set of message identifiers.  Expired records are logically
/// absent; they are kept in memory and overwritten lazily when their
/// identifier is recorded anew, which affects memory use only, never the
/// answers the table gives.
pub struct DedupTable {
    records: Vec<MessageRecord>,
}

impl DedupTable {
    /// Each identifier occurs in at most one record.
    pub closed spec fn wf(self) -> bool {
        forall|i: int, j: int|
            0 <= i < self.records@.len() && 0 <= j < self.records@.len() && i != j
                ==> self.records@[i].msg_id != self.records@[j].msg_id
    }

    /// Whether `msg_id` counts as already seen at time `now`: some record
    /// holds it and expires strictly after `now`.
    pub closed spec fn seen(self, msg_id: u128, now: u64) -> bool {
        exists|i: int|
            0 <= i < self.records@.len() && self.records@[i].msg_id == msg_id && now
                < self.records@[i].expires
    }

    /// An empty table: nothing has been seen.
    pub fn new() -> (t: DedupTable)
        ensures
            t.wf(),
            forall|j: u128, at: u64| !t.seen(j, at),
    {
        DedupTable { records: Vec::new() }
    }

    /// The index of the record holding `msg_id`, expired or not.
    fn find_record(&self, msg_id: u128) -> (r: Option<usize>)
        ensures
            match r {
                Some(i) => i < self.records@.len() && self.records@[i as int].msg_id == msg_id,
                None => forall|k: int|
                    0 <= k < self.records@.len() ==> self.records@[k].msg_id != msg_id,
            },
    {
        let n = self.records.len();
        let mut i: usize = 0;
        while i < n
            invariant
                i <= n,
                n == self.records@.len(),
                forall|k: int| 0 <= k < i ==> self.records@[k].msg_id != msg_id,
            decreases n - i,
        {
            if self.records[i].msg_id == msg_id {
                return Some(i);
            }
            i = i + 1;
        }
        None
    }

    /// Atomically check and record: if `msg_id` is absent or expired at
    /// `now`, record it with a fresh expiry of `lifetime` seconds from
    /// `now` and report `false` ("new"); otherwise report `true`
    /// ("duplicate") without touching the table, in particular without
    /// extending the existing record's expiry.
    pub fn seen_or_record(&mut self, msg_id: u128, now: u64, lifetime: u64) -> (dup: bool)
        requires
            old(self).wf(),
        ensures
            final(self).wf(),
            dup == old(self).seen(msg_id, now),
            dup ==> *final(self) == *old(self),
            !dup ==> forall|j: u128, at: u64|
                final(self).seen(j, at) == if j == msg_id {
                    at < expiry_deadline(now, lifetime)
                } else {
                    old(self).seen(j, at)
                },
    {
        let deadline: u64 = if lifetime <= u64::MAX - now {
            now + lifetime
        } else {
            u64::MAX
        };
        match self.find_record(msg_id) {
            Some(i) => {
                if now < self.records[i].expires {
                    proof {
                        assert(old(self).seen(msg_id, now)) by {
                            assert(old(self).records@[i as int].msg_id == msg_id);
                        }
                    }
                    true
                } else {
                    let ghost pre = old(self).records@;
                    self.records.swap_remove(i);
                    let ghost mid = self.records@;
                    self.records.push(MessageRecord { msg_id, expires: deadline });
                    proof {
                        self.lemma_replaced(pre, mid, i as int, msg_id, now, deadline, lifetime);
                    }
                    false
                }
            },
            None => {
                let ghost pre = old(self).records@;
                self.records.push(MessageRecord { msg_id, expires: deadline });
                proof {
                    assert(!old(self).seen(msg_id, now));
                    assert(self.wf()) by {
                        assert(forall|k: int|
                            0 <= k < pre.len() ==> self.records@[k] == pre[k]);
                    }
                    assert forall|j: u128, at: u64|
                        self.seen(j, at) == if j == msg_id {
                            at < expiry_deadline(now, lifetime)
                        } else {
                            old(self).seen(j, at)
                        } by {
                        self.lemma_pushed(pre, msg_id, deadline, j, at);
                    }
                }
                false
            },
        }
    }

    /// After appending a record for an identifier that no existing record
    /// holds, the table answers for that identifier by the new expiry and
    /// for every other identifier as before.
    proof fn lemma_pushed(
        self,
        pre: Seq<MessageRecord>,
        msg_id: u128,
        deadline: u64,
        j: u128,
        at: u64,
    )
        requires
            forall|k: int| 0 <= k < pre.len() ==> pre[k].msg_id != msg_id,
            self.records@ == pre.push(MessageRecord { msg_id, expires: deadline }),
        ensures
            j == msg_id ==> self.seen(j, at) == (at < deadline),
            j != msg_id ==> self.seen(j, at) == (exists|i: int|
                0 <= i < pre.len() && pre[i].msg_id == j && at < pre[i].expires),
    {
        let n = pre.len();
        assert(self.records@[n as int].msg_id == msg_id);
        assert(forall|k: int| 0 <= k < n ==> self.records@[k] == pre[k]);
        if j == msg_id {
            if at < deadline {
                assert(self.records@[n as int].msg_id == j && at < self.records@[n as int].expires);
            }
            if self.seen(j, at) {
                let i = choose|i: int|
                    0 <= i < self.records@.len() && self.records@[i].msg_id == j && at
                        < self.records@[i].expires;
                assert(i == n);
            }
        } else {
            if self.seen(j, at) {
                let i = choose|i: int|
                    0 <= i < self.records@.len() && self.records@[i].msg_id == j && at
                        < self.records@[i].expires;
                assert(i < n);
                assert(pre[i].msg_id == j && at < pre[i].expires);
            }
            if exists|i: int| 0 <= i < pre.len() && pre[i].msg_id == j && at < pre[i].expires {
                let i = choose|i: int| 0 <= i < pre.len() && pre[i].msg_id == j && at < pre[i].expires;
                assert(self.records@[i].msg_id == j && at < self.records@[i].expires);
            }
        }
    }

    /// After removing the single expired record of an identifier (by a
    /// swap with the last record) and appending a fresh record for it, the
    /// table is well-formed, answers for that identifier by the new expiry
    /// and for every other identifier as before.
    proof fn lemma_replaced(
        self,
        pre: Seq<MessageRecord>,
        mid: Seq<MessageRecord>,
        i: int,
        msg_id: u128,
        now: u64,
        deadline: u64,
        lifetime: u64,
    )
        requires
            forall|a: int, b: int|
                0 <= a < pre.len() && 0 <= b < pre.len() && a != b ==> pre[a].msg_id != pre[b].msg_id,
            0 <= i < pre.len(),
            pre[i].msg_id == msg_id,
            pre[i].expires <= now,
            deadline == expiry_deadline(now, lifetime),
            mid == pre.update(i, pre.last()).drop_last(),
            self.records@ == mid.push(MessageRecord { msg_id, expires: deadline }),
        ensures
            self.wf(),
            !(exists|k: int| 0 <= k < pre.len() && pre[k].msg_id == msg_id && now < pre[k].expires),
            forall|j: u128, at: u64|
                self.seen(j, at) == if j == msg_id {
                    at < expiry_deadline(now, lifetime)
                } else {
                    exists|k: int| 0 <= k < pre.len() && pre[k].msg_id == j && at < pre[k].expires
                },
    {
        let n = pre.len();
        // The records surviving the swap: every index of `mid` carries an
        // element of `pre` from an index other than `i`.
        assert(mid.len() == n - 1);
        assert(forall|k: int|
            0 <= k < n - 1 && k != i ==> mid[k] == pre[k]);
        if i < n - 1 {
            assert(mid[i] == pre[n - 1]);
        }
        // No record of `pre` other than the one at `i` holds `msg_id`.
        assert(forall|k: int| 0 <= k < n && k != i ==> pre[k].msg_id != msg_id);
        assert(forall|k: int| 0 <= k < n - 1 ==> mid[k].msg_id != msg_id);
        // Well-formedness: distinct records of `mid` come from distinct
        // records of `pre`, and the appended record's identifier occurs in
        // no other.
        assert forall|a: int, b: int|
            0 <= a < self.records@.len() && 0 <= b < self.records@.len() && a != b implies self
            .records@[a].msg_id != self.records@[b].msg_id by {
            if a < n - 1 && b < n - 1 {
                let pa: int = if a == i { n - 1 } else { a };
                let pb: int = if b == i { n - 1 } else { b };
                assert(self.records@[a] == pre[pa]);
                assert(self.records@[b] == pre[pb]);
            } else if a < n - 1 {
                assert(self.records@[b].msg_id == msg_id);
            } else if b < n - 1 {
                assert(self.records@[a].msg_id == msg_id);
            }
        }
        // The identifier was not live in `pre`.
        if exists|k: int| 0 <= k < n && pre[k].msg_id == msg_id && now < pre[k].expires {
            let k = choose|k: int| 0 <= k < n && pre[k].msg_id == msg_id && now < pre[k].expires;
            assert(k == i);
        }
        // Pointwise answers.
        assert forall|j: u128, at: u64|
            self.seen(j, at) == if j == msg_id {
                at < expiry_deadline(now, lifetime)
            } else {
                exists|k: int| 0 <= k < pre.len() && pre[k].msg_id == j && at < pre[k].expires
            } by {
            if j == msg_id {
                if at < deadline {
                    assert(self.records@[n - 1].msg_id == j && at < self.records@[n - 1].expires);
                }
                if self.seen(j, at) {
                    let k = choose|k: int|
                        0 <= k < self.records@.len() && self.records@[k].msg_id == j && at
                            < self.records@[k].expires;
                    assert(k == n - 1);
                }
            } else {
                if self.seen(j, at) {
                    let k = choose|k: int|
                        0 <= k < self.records@.len() && self.records@[k].msg_id == j && at
                            < self.records@[k].expires;
                    assert(k < n - 1);
                    let pk: int = if k == i { n - 1 } else { k };
                    assert(pre[pk].msg_id == j && at < pre[pk].expires);
                }
                if exists|k: int| 0 <= k < n && pre[k].msg_id == j && at < pre[k].expires {
                    let k = choose|k: int| 0 <= k < n && pre[k].msg_id == j && at < pre[k].expires;
                    assert(k != i);
                    let mk: int = if k == n - 1 { i } else { k };
                    assert(k == n - 1 ==> i < n - 1);
                    assert(self.records@[mk].msg_id == j && at < self.records@[mk].expires);
                }
            }
        }
    }

}

} // verus!
