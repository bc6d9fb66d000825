//! Exponential retry backoff.
//!
//! The dispatcher owns one `Backoff` value.  Every failed delivery doubles
//! the retry interval; every successful delivery resets it to the minimum
//! unit.  The interval has no ceiling; like the counter it is stored in, it
//! wraps if it is doubled past `u64::MAX`.

use vstd::prelude::*;

verus! {

/// The minimum retry interval, in time units.
pub const MIN_INTERVAL: u64 = 1;

/// The interval that results from one doubling of `interval`, wrapping at
/// the width of the counter.
pub open spec fn grown(interval: u64) -> u64 {
    ((interval * 2) % 0x1_0000_0000_0000_0000) as u64
}

/// The interval after `n` consecutive doublings of `interval`.
pub open spec fn grown_times(interval: u64, n: nat) -> u64
    decreases n,
{
    if n == 0 {
        interval
    } else {
        grown(grown_times(interval, (n - 1) as nat))
    }
}

/// The retry interval controller: doubles on failure, resets on success.
pub struct Backoff {
    interval: u64,
}

impl Backoff {
    /// The current retry interval, in time units.
    pub closed spec fn spec_interval(&self) -> u64 {
        self.interval
    }

    /// A fresh controller starts at the minimum unit.
    pub fn new() -> (r: Backoff)
        ensures
            r.spec_interval() == MIN_INTERVAL,
    {
        Backoff { interval: MIN_INTERVAL }
    }

    /// A successful delivery puts the interval back at the minimum unit,
    /// whatever it was before.
    pub fn reset(&mut self)
        ensures
            final(self).spec_interval() == MIN_INTERVAL,
    {
        self.interval = MIN_INTERVAL;
    }

    /// The current retry interval.
    pub fn get_backoff(&self) -> (r: u64)
        ensures
            r == self.spec_interval(),
    {
        self.interval
    }

    /// A failed delivery doubles the interval.
    pub fn backoff(&mut self)
        ensures
            final(self).spec_interval() == grown(old(self).spec_interval()),
    {
        self.interval = self.interval.wrapping_mul(2);
    }
}

/// Resetting is idempotent: any positive number of consecutive resets leaves
/// the interval at the minimum unit, no matter where it started.
pub proof fn lemma_reset_idempotent(start: u64, n: nat)
    requires
        n >= 1,
    ensures
        interval_after_resets(start, n) == MIN_INTERVAL,
    decreases n,
{
    if n > 1 {
        lemma_reset_idempotent(start, (n - 1) as nat);
    }
}

/// The interval after `n` consecutive resets of a controller that started
/// at `start`.
pub open spec fn interval_after_resets(start: u64, n: nat) -> u64
    decreases n,
{
    if n == 0 {
        start
    } else {
        let _prior = interval_after_resets(start, (n - 1) as nat);
        MIN_INTERVAL
    }
}

/// Growth is monotone doubling: `n` consecutive doublings from `u` yield
/// exactly `u * 2^n`, as long as that product still fits the counter.
pub proof fn lemma_monotonic_growth(u: u64, n: nat)
    requires
        u * vstd::arithmetic::power2::pow2(n) <= u64::MAX,
    ensures
        grown_times(u, n) == u * vstd::arithmetic::power2::pow2(n),
    decreases n,
{
    vstd::arithmetic::power2::lemma_pow2_pos(n);
    if n == 0 {
        assert(vstd::arithmetic::power2::pow2(0) == 1) by {
            vstd::arithmetic::power2::lemma2_to64();
        }
    } else {
        let m = (n - 1) as nat;
        vstd::arithmetic::power2::lemma_pow2_pos(m);
        assert(vstd::arithmetic::power2::pow2(n) == 2 * vstd::arithmetic::power2::pow2(m)) by {
            vstd::arithmetic::power2::lemma_pow2_unfold(n);
        }
        assert(u * vstd::arithmetic::power2::pow2(m) <= u64::MAX) by (nonlinear_arith)
            requires
                u * (2 * vstd::arithmetic::power2::pow2(m)) <= u64::MAX,
                vstd::arithmetic::power2::pow2(m) >= 1,
                u >= 0,
        ;
        lemma_monotonic_growth(u, m);
        assert(grown_times(u, n) == grown(grown_times(u, m)));
        assert((u * vstd::arithmetic::power2::pow2(m)) * 2 == u * vstd::arithmetic::power2::pow2(
            n,
        )) by (nonlinear_arith)
            requires
                vstd::arithmetic::power2::pow2(n) == 2 * vstd::arithmetic::power2::pow2(m),
        ;
    }
}

} // verus!
