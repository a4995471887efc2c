//! Linger-based byte-rate limiting.
//!
//! Sending `n` bytes at a rate of `r` bytes per second should take `n / r`
//! seconds. A throttle call compares that target with the time that has
//! passed since the previous operation and tells the caller how long to
//! pause to make up the difference. Time is counted in nanoseconds on a
//! monotonic clock that the caller reads; the limiter never sleeps itself.

use vstd::arithmetic::div_mod::lemma_fundamental_div_mod;
use vstd::arithmetic::mul::lemma_mul_is_distributive_add_other_way;
use vstd::prelude::*;

verus! {

pub const NANOS_PER_SECOND: u64 = 1_000_000_000;

/// Nanoseconds that `bytes` bytes should take at `bytes_per_second`,
/// rounded down.
pub open spec fn target_nanos(bytes_per_second: u64, bytes: u64) -> nat {
    ((bytes as nat * NANOS_PER_SECOND as nat) / bytes_per_second as nat) as nat
}

/// Nanoseconds from `earlier` to `now`; none when `earlier` is not in the
/// past.
pub open spec fn elapsed_nanos(now: nat, earlier: nat) -> nat {
    if now >= earlier {
        (now - earlier) as nat
    } else {
        0
    }
}

/// The pause that brings an operation on `bytes` bytes up to its target,
/// when `elapsed` nanoseconds have passed since the previous one.
pub open spec fn pause_nanos(bytes_per_second: u64, bytes: u64, elapsed: nat) -> nat {
    let target = target_nanos(bytes_per_second, bytes);
    if elapsed < target {
        (target - elapsed) as nat
    } else {
        0
    }
}

/// Computes the pause for one operation.
pub fn throttle_delay(bytes_per_second: u64, bytes: u64, elapsed: u128) -> (pause: u128)
    requires
        bytes_per_second > 0,
    ensures
        pause == pause_nanos(bytes_per_second, bytes, elapsed as nat),
        pause <= target_nanos(bytes_per_second, bytes) <= bytes * NANOS_PER_SECOND,
{
    assert(bytes as nat * NANOS_PER_SECOND as nat <= 0xFFFF_FFFF_FFFF_FFFF * 1_000_000_000)
        by (nonlinear_arith)
        requires
            bytes <= 0xFFFF_FFFF_FFFF_FFFF,
            NANOS_PER_SECOND == 1_000_000_000,
    ;
    let scaled: u128 = bytes as u128 * NANOS_PER_SECOND as u128;
    let target: u128 = scaled / bytes_per_second as u128;
    proof {
        lemma_fundamental_div_mod(scaled as int, bytes_per_second as int);
        assert(target <= scaled) by (nonlinear_arith)
            requires
                scaled == bytes_per_second * target + (scaled % (bytes_per_second as u128)),
                bytes_per_second >= 1,
                target >= 0,
                scaled % (bytes_per_second as u128) >= 0,
        ;
    }
    if elapsed < target {
        target - elapsed
    } else {
        0
    }
}

/// A limiter for one connection or session: the configured rate and the
/// time at which the previous operation is deemed to have ended.
pub struct RateLimiter {
    bytes_per_second: u64,
    last_operation: u128,
}

impl RateLimiter {
    /// The configured rate.
    pub closed spec fn rate(&self) -> u64 {
        self.bytes_per_second
    }

    /// When the previous operation ended, or is due to end.
    pub closed spec fn last_operation(&self) -> nat {
        self.last_operation as nat
    }

    #[verifier::type_invariant]
    spec fn bounded(self) -> bool {
        self.last_operation <= 0xFFFF_FFFF_FFFF_FFFF * 1_000_000_001
    }

    /// A limiter whose previous operation is deemed to have ended at `now`.
    pub fn new(bytes_per_second: u64, now: u64) -> (limiter: RateLimiter)
        ensures
            limiter.rate() == bytes_per_second,
            limiter.last_operation() == now,
    {
        RateLimiter { bytes_per_second, last_operation: now as u128 }
    }

    /// Accounts for an operation on `bytes` bytes that starts at `now` and
    /// returns the nanoseconds the caller must pause before going on. The
    /// operation is deemed to end when that pause does.
    pub fn throttle(&mut self, bytes: u64, now: u64) -> (pause: u128)
        requires
            old(self).rate() > 0,
        ensures
            final(self).rate() == old(self).rate(),
            pause == pause_nanos(
                old(self).rate(),
                bytes,
                elapsed_nanos(now as nat, old(self).last_operation()),
            ),
            final(self).last_operation() == now + pause,
    {
        proof {
            use_type_invariant(&*self);
        }
        let now: u128 = now as u128;
        let elapsed: u128 = if now >= self.last_operation {
            now - self.last_operation
        } else {
            0
        };
        let pause = throttle_delay(self.bytes_per_second, bytes, elapsed);
        assert(bytes * NANOS_PER_SECOND <= 0xFFFF_FFFF_FFFF_FFFF * 1_000_000_000)
            by (nonlinear_arith)
            requires
                bytes <= 0xFFFF_FFFF_FFFF_FFFF,
                NANOS_PER_SECOND == 1_000_000_000,
        ;
        self.last_operation = now + pause;
        pause
    }
}

/// Total pause of `calls` operations on `bytes` bytes each, the first
/// starting `elapsed` nanoseconds after the previous operation and every
/// later one starting the moment the pause before it ends.
pub open spec fn paced_total(bytes_per_second: u64, bytes: u64, elapsed: nat, calls: nat) -> nat
    decreases calls,
{
    if calls == 0 {
        0
    } else {
        pause_nanos(bytes_per_second, bytes, elapsed) + paced_total(
            bytes_per_second,
            bytes,
            0,
            (calls - 1) as nat,
        )
    }
}

/// Throttling is linear: a caller that pauses exactly as told spends, over
/// any number of equal operations, that number of targets, less whatever
/// time had already passed before the first one.
pub proof fn lemma_paced_total(bytes_per_second: u64, bytes: u64, elapsed: nat, calls: nat)
    requires
        calls > 0,
        elapsed <= target_nanos(bytes_per_second, bytes),
    ensures
        paced_total(bytes_per_second, bytes, elapsed, calls) == calls * target_nanos(
            bytes_per_second,
            bytes,
        ) - elapsed,
    decreases calls,
{
    let target = target_nanos(bytes_per_second, bytes);
    if calls == 1 {
        assert(paced_total(bytes_per_second, bytes, 0, 0) == 0);
        assert(1 * target == target);
    } else {
        lemma_paced_total(bytes_per_second, bytes, 0, (calls - 1) as nat);
        lemma_mul_is_distributive_add_other_way(target as int, calls - 1, 1);
        assert(1 * target == target);
    }
}

} // verus!
