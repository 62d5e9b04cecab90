//! A measured span of time, held as plain integers.

use vstd::prelude::*;

verus! {

/// A span of time: `secs` whole seconds plus `nanos` nanoseconds.
///
/// This holds what a report reads of a measured duration: the whole seconds and
/// the nanoseconds past them.
#[derive(Clone, Copy, Debug, PartialEq, Eq)]
pub struct Elapsed {
    pub secs: u64,
    pub nanos: u32,
}

impl Elapsed {
    /// The whole span in nanoseconds.
    pub open spec fn total_nanos(self) -> nat {
        self.secs as nat * 1_000_000_000 + self.nanos as nat
    }

    /// The number of whole milliseconds in the span.
    pub open spec fn whole_millis(self) -> nat {
        self.total_nanos() / 1_000_000
    }

    /// The number of whole milliseconds in the span.
    pub fn as_millis(&self) -> (millis: u128)
        ensures
            millis == self.whole_millis(),
    {
        let s: u64 = self.secs;
        let n: u32 = self.nanos;
        assert((s as nat * 1_000_000_000 + n as nat) / 1_000_000 == s as nat * 1000 + (n as nat)
            / 1_000_000) by (nonlinear_arith);
        (self.secs as u128) * 1000 + (self.nanos / 1_000_000) as u128
    }
}

/// The whole milliseconds of a span are those that fit in it: that many
/// milliseconds are at most the span, and one more would exceed it.
pub proof fn lemma_whole_millis_fit(e: Elapsed)
    ensures
        e.whole_millis() * 1_000_000 <= e.secs as nat * 1_000_000_000 + e.nanos as nat,
        (e.secs as nat * 1_000_000_000 + e.nanos as nat) < (e.whole_millis() + 1) * 1_000_000,
{
    let t = e.secs as nat * 1_000_000_000 + e.nanos as nat;
    let m = e.whole_millis();
    assert(m == t / 1_000_000);
    assert(m * 1_000_000 <= t && t < (m + 1) * 1_000_000) by (nonlinear_arith)
        requires
            m == t / 1_000_000,
    ;
}

} // verus!
