//! A single token bucket: a bounded, steadily replenished allowance of
//! permitted actions.
//!
//! The fill is kept scaled: one token is `refill_ms` units of `level`,
//! so refilling by `capacity` units per elapsed millisecond restills
//! the whole bucket in exactly `refill_ms` milliseconds, and fractional
//! token growth needs no fractions.

use vstd::prelude::*;

verus! {

/// One token bucket. `capacity` tokens at most; empty to full in
/// `refill_ms` milliseconds; `level` is the current fill in scaled
/// units (one token = `refill_ms` units).
#[derive(Clone, Copy, PartialEq, Eq, Structural, Debug)]
pub struct RateBucket {
    pub capacity: u64,
    pub refill_ms: u64,
    pub level: u64,
    pub last_refill_ms: u64,
}

impl RateBucket {
    /// The bucket's structural invariant: a positive refill period, a
    /// scaled capacity the machine can represent, and a fill that
    /// never exceeds it.
    pub open spec fn wf(self) -> bool {
        &&& self.refill_ms >= 1
        &&& self.capacity * self.refill_ms <= u64::MAX
        &&& self.level <= self.capacity * self.refill_ms
    }

    /// Whole tokens currently held.
    pub open spec fn tokens(self) -> int {
        self.level as int / self.refill_ms as int
    }

    /// The fill after crediting the time elapsed since the last
    /// refill: `capacity` scaled units per millisecond, capped at the
    /// scaled capacity. A clock reading behind the last refill credits
    /// nothing.
    pub open spec fn refilled_level(self, now_ms: u64) -> int {
        let elapsed: int = if now_ms >= self.last_refill_ms {
            now_ms - self.last_refill_ms
        } else {
            0
        };
        let grown = self.level + elapsed * self.capacity;
        let full = self.capacity * self.refill_ms;
        if grown >= full {
            full
        } else {
            grown
        }
    }

    /// Whether a request at `now_ms` is admitted: the refilled bucket
    /// holds at least one whole token.
    pub open spec fn spec_admit(self, now_ms: u64) -> bool {
        self.refilled_level(now_ms) >= self.refill_ms
    }

    /// The bucket after one `try_acquire` at `now_ms`, paired with
    /// its answer: refill first, then take one token exactly when one
    /// is there.
    pub open spec fn spec_try_acquire(self, now_ms: u64) -> (Self, bool) {
        let lvl = self.refilled_level(now_ms);
        let last: u64 = if now_ms >= self.last_refill_ms {
            now_ms
        } else {
            self.last_refill_ms
        };
        if lvl >= self.refill_ms {
            (
                RateBucket {
                    level: (lvl - self.refill_ms) as u64,
                    last_refill_ms: last,
                    ..self
                },
                true,
            )
        } else {
            (RateBucket { level: lvl as u64, last_refill_ms: last, ..self }, false)
        }
    }

    /// A fresh bucket, initialized full, whose clock starts at
    /// `now_ms`. The bounds demanded are what the machine forces: the
    /// scaled capacity must be representable.
    pub fn new(capacity: u64, refill_ms: u64, now_ms: u64) -> (b: Self)
        requires
            refill_ms >= 1,
            capacity * refill_ms <= u64::MAX,
        ensures
            b.wf(),
            b.capacity == capacity,
            b.refill_ms == refill_ms,
            b.level == capacity * refill_ms,
            b.last_refill_ms == now_ms,
            b.tokens() == capacity,
    {
        let b = RateBucket { capacity, refill_ms, level: capacity * refill_ms, last_refill_ms: now_ms };
        proof {
            vstd::arithmetic::div_mod::lemma_div_by_multiple(capacity as int, refill_ms as int);
            assert(b.level as int == capacity as int * refill_ms as int);
        }
        b
    }

    /// Refill for the time elapsed, then admit exactly when a whole
    /// token is there, consuming it. The two steps are one `&mut`
    /// operation, so two concurrent requests for the same bucket can
    /// never both observe the same stale fill. The fill never leaves
    /// the range of zero to `capacity` tokens.
    pub fn try_acquire(&mut self, now_ms: u64) -> (admitted: bool)
        requires
            old(self).wf(),
        ensures
            final(self).wf(),
            (*final(self), admitted) == old(self).spec_try_acquire(now_ms),
            admitted == old(self).spec_admit(now_ms),
            final(self).capacity == old(self).capacity,
            final(self).refill_ms == old(self).refill_ms,
            final(self).tokens() <= final(self).capacity,
    {
        let full = self.capacity * self.refill_ms;
        let elapsed: u64 = if now_ms >= self.last_refill_ms {
            now_ms - self.last_refill_ms
        } else {
            0
        };
        let lvl: u64 = if elapsed >= self.refill_ms {
            proof {
                assert(self.level + elapsed * self.capacity >= full) by (nonlinear_arith)
                    requires
                        elapsed >= self.refill_ms,
                        full == self.capacity * self.refill_ms,
                ;
            }
            full
        } else {
            proof {
                assert(elapsed * self.capacity <= full) by (nonlinear_arith)
                    requires
                        elapsed < self.refill_ms,
                        full == self.capacity * self.refill_ms,
                ;
            }
            let gained = elapsed * self.capacity;
            if gained >= full - self.level {
                full
            } else {
                self.level + gained
            }
        };
        if now_ms >= self.last_refill_ms {
            self.last_refill_ms = now_ms;
        }
        proof {
            assert(lvl == old(self).refilled_level(now_ms));
        }
        let admitted: bool = lvl >= self.refill_ms;
        if admitted {
            self.level = lvl - self.refill_ms;
        } else {
            self.level = lvl;
        }
        proof {
            assert(self.tokens() <= self.capacity) by (nonlinear_arith)
                requires
                    self.refill_ms >= 1,
                    self.level <= self.capacity * self.refill_ms,
            ;
        }
        admitted
    }

    /// Whole tokens currently held, as the caller can observe them.
    pub fn available_tokens(&self) -> (r: u64)
        requires
            self.wf(),
        ensures
            r == self.tokens(),
    {
        self.level / self.refill_ms
    }
}

/// A well-formed bucket never holds more than `capacity` tokens, nor a
/// negative number of them — the bound every refill and every grant
/// preserves.
pub proof fn lemma_tokens_bounded(b: RateBucket)
    requires
        b.wf(),
    ensures
        0 <= b.tokens() <= b.capacity,
{
    assert(0 <= b.tokens() <= b.capacity) by (nonlinear_arith)
        requires
            b.refill_ms >= 1,
            b.level <= b.capacity * b.refill_ms,
            b.level >= 0,
    ;
}

} // verus!
