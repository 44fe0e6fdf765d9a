//! Time-stamped values, used by the query back-propagation table of a
//! superpeer overlay.

use vstd::prelude::*;

verus! {

/// A value stamped with a time bound (seconds since the Unix epoch).
pub struct TTLEntry<T> {
    /// The stored value.
    pub val: T,
    /// The time bound attached to it.
    pub ttl: u64,
}

impl<T> TTLEntry<T> {
    /// The stored value, gated by the clock at `now`: handed out once
    /// `now` has passed the entry's time bound, withheld before that.
    pub fn timed_unwrap(&self, now: u64) -> (r: Option<&T>)
        ensures
            now > self.ttl ==> (r matches Some(v) && v == &self.val),
            now <= self.ttl ==> r is None,
    {
        if now > self.ttl {
            Option::Some(&self.val)
        } else {
            Option::None
        }
    }
}

/// Seconds of the system clock since the Unix epoch.
///
/// Relies on `std::time::SystemTime::now` and
/// `SystemTime::duration_since`: the result is whatever the clock reads
/// at the moment of the call, so nothing is promised of it.  A clock
/// before the epoch reads as zero.
#[verifier::external_body]
pub fn unix_time() -> u64 {
    match std::time::SystemTime::now().duration_since(std::time::UNIX_EPOCH) {
        Ok(d) => d.as_secs(),
        Err(_) => 0,
    }
}

} // verus!
