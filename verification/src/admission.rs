//! The admission controller: one token bucket per caller identity,
//! consulted before expensive work runs. `try_acquire` never fails —
//! it answers admit or reject, and the caller maps a rejection to
//! back-pressure.
//!
//! Keys are opaque 128-bit identities: wide enough for a user id or an
//! address, assigned by the caller. Independent keys live in
//! independent buckets; a decision for one key reads and writes that
//! key's bucket alone.

use vstd::prelude::*;

use crate::bucket::RateBucket;

verus! {

/// A keyed family of token buckets sharing one budget: `capacity`
/// tokens per key, a full refill every `refill_ms` milliseconds.
/// Buckets are created lazily, full, at a key's first request.
pub struct AdmissionController {
    pub capacity: u64,
    pub refill_ms: u64,
    pub buckets: Vec<(u128, RateBucket)>,
}

impl AdmissionController {
    /// Structural invariant: a representable budget, one bucket per
    /// key, every bucket well-formed and on this controller's budget.
    pub open spec fn wf(self) -> bool {
        &&& self.refill_ms >= 1
        &&& self.capacity * self.refill_ms <= u64::MAX
        &&& forall|i: int, j: int|
            0 <= i < j < self.buckets@.len() ==> (#[trigger] self.buckets@[i]).0
                != (#[trigger] self.buckets@[j]).0
        &&& forall|i: int|
            0 <= i < self.buckets@.len() ==> (#[trigger] self.buckets@[i]).1.wf()
                && self.buckets@[i].1.capacity == self.capacity && self.buckets@[i].1.refill_ms
                == self.refill_ms
    }

    /// A bucket for this key exists already.
    pub open spec fn has_bucket(self, key: u128) -> bool {
        exists|i: int| 0 <= i < self.buckets@.len() && (#[trigger] self.buckets@[i]).0 == key
    }

    /// Index of this key's bucket (meaningful when `has_bucket`).
    pub open spec fn bucket_index(self, key: u128) -> int {
        choose|i: int| 0 <= i < self.buckets@.len() && (#[trigger] self.buckets@[i]).0 == key
    }

    /// This key's bucket (meaningful when `has_bucket`).
    pub open spec fn bucket_of(self, key: u128) -> RateBucket {
        self.buckets@[self.bucket_index(key)].1
    }

    /// The bucket a request for `key` at `now_ms` is held against:
    /// the existing one, or a fresh full one when the key is new.
    pub open spec fn bucket_consulted(self, key: u128, now_ms: u64) -> RateBucket {
        if self.has_bucket(key) {
            self.bucket_of(key)
        } else {
            RateBucket {
                capacity: self.capacity,
                refill_ms: self.refill_ms,
                level: (self.capacity * self.refill_ms) as u64,
                last_refill_ms: now_ms,
            }
        }
    }

    /// A controller with no buckets yet. The bounds demanded are what
    /// the machine forces: the scaled budget must be representable.
    pub fn new(capacity: u64, refill_ms: u64) -> (c: Self)
        requires
            refill_ms >= 1,
            capacity * refill_ms <= u64::MAX,
        ensures
            c.wf(),
            c.capacity == capacity,
            c.refill_ms == refill_ms,
            c.buckets@.len() == 0,
            forall|key: u128| !(#[trigger] c.has_bucket(key)),
    {
        AdmissionController { capacity, refill_ms, buckets: Vec::new() }
    }

    /// Linear scan for a key's bucket.
    fn find_bucket(&self, key: u128) -> (r: Option<usize>)
        requires
            self.wf(),
        ensures
            match r {
                Some(i) => self.has_bucket(key) && i as int == self.bucket_index(key) && i
                    < self.buckets@.len() && self.buckets@[i as int].0 == key,
                None => !self.has_bucket(key),
            },
    {
        let n = self.buckets.len();
        let mut i: usize = 0;
        while i < n
            invariant
                self.wf(),
                n == self.buckets@.len(),
                i <= n,
                forall|k: int| 0 <= k < i ==> (#[trigger] self.buckets@[k]).0 != key,
            decreases n - i,
        {
            if self.buckets[i].0 == key {
                proof {
                    assert(self.has_bucket(key));
                    let k = self.bucket_index(key);
                    assert(self.buckets@[k].0 == key);
                }
                return Some(i);
            }
            i += 1;
        }
        None
    }

    /// Admit or reject one request from `key` at `now_ms`: locate or
    /// lazily create the key's bucket, refill it for the time elapsed,
    /// and take one token exactly when one is there. The decision and
    /// the token withdrawal are one `&mut` step per key, and no other
    /// key's bucket is touched.
    pub fn try_acquire(&mut self, key: u128, now_ms: u64) -> (admitted: bool)
        requires
            old(self).wf(),
        ensures
            final(self).wf(),
            final(self).capacity == old(self).capacity,
            final(self).refill_ms == old(self).refill_ms,
            admitted == old(self).bucket_consulted(key, now_ms).spec_admit(now_ms),
            final(self).has_bucket(key),
            (final(self).bucket_of(key), admitted) == old(self).bucket_consulted(
                key,
                now_ms,
            ).spec_try_acquire(now_ms),
            forall|k2: u128|
                k2 != key ==> (#[trigger] final(self).has_bucket(k2) <==> old(self).has_bucket(
                    k2,
                )),
            forall|k2: u128|
                k2 != key && old(self).has_bucket(k2) ==> #[trigger] final(self).bucket_of(k2)
                    == old(self).bucket_of(k2),
    {
        match self.find_bucket(key) {
            Some(i) => {
                let mut b = self.buckets[i].1;
                let admitted = b.try_acquire(now_ms);
                self.buckets[i] = (key, b);
                proof {
                    let olds = old(self).buckets@;
                    let news = self.buckets@;
                    assert(news == olds.update(i as int, (key, b)));
                    assert(forall|k: int|
                        0 <= k < olds.len() && k != i ==> #[trigger] news[k] == olds[k]);
                    assert forall|k2: u128|
                        k2 != key implies (#[trigger] self.has_bucket(k2) <==> old(
                        self,
                    ).has_bucket(k2)) by {
                        if old(self).has_bucket(k2) {
                            let k = choose|x: int|
                                0 <= x < olds.len() && (#[trigger] olds[x]).0 == k2;
                            assert(news[k].0 == k2);
                        }
                        if self.has_bucket(k2) {
                            let k = choose|x: int|
                                0 <= x < news.len() && (#[trigger] news[x]).0 == k2;
                            assert(olds[k].0 == k2);
                        }
                    }
                    assert forall|k2: u128|
                        k2 != key && old(self).has_bucket(k2) implies #[trigger] self.bucket_of(
                        k2,
                    ) == old(self).bucket_of(k2) by {
                        let k1 = old(self).bucket_index(k2);
                        assert(0 <= k1 < olds.len() && olds[k1].0 == k2);
                        assert(self.has_bucket(k2));
                        let k3 = self.bucket_index(k2);
                        assert(0 <= k3 < news.len() && news[k3].0 == k2);
                        assert(olds[k3].0 == k2);
                    }
                    assert(self.has_bucket(key)) by {
                        assert(news[i as int].0 == key);
                    }
                    assert(self.bucket_of(key) == b) by {
                        let k = self.bucket_index(key);
                        assert(0 <= k < news.len() && news[k].0 == key);
                        assert(olds[k].0 == key || k == i);
                    }
                }
                admitted
            },
            None => {
                let mut b = RateBucket::new(self.capacity, self.refill_ms, now_ms);
                let admitted = b.try_acquire(now_ms);
                self.buckets.push((key, b));
                proof {
                    let olds = old(self).buckets@;
                    let news = self.buckets@;
                    assert(news == olds.push((key, b)));
                    assert(forall|k: int| 0 <= k < olds.len() ==> #[trigger] news[k] == olds[k]);
                    assert(news[olds.len() as int] == (key, b));
                    assert forall|k2: u128|
                        k2 != key implies (#[trigger] self.has_bucket(k2) <==> old(
                        self,
                    ).has_bucket(k2)) by {
                        if old(self).has_bucket(k2) {
                            let k = choose|x: int|
                                0 <= x < olds.len() && (#[trigger] olds[x]).0 == k2;
                            assert(news[k].0 == k2);
                        }
                        if self.has_bucket(k2) {
                            let k = choose|x: int|
                                0 <= x < news.len() && (#[trigger] news[x]).0 == k2;
                            assert(k < olds.len());
                            assert(olds[k].0 == k2);
                        }
                    }
                    assert forall|k2: u128|
                        k2 != key && old(self).has_bucket(k2) implies #[trigger] self.bucket_of(
                        k2,
                    ) == old(self).bucket_of(k2) by {
                        let k1 = old(self).bucket_index(k2);
                        assert(0 <= k1 < olds.len() && olds[k1].0 == k2);
                        assert(self.has_bucket(k2));
                        let k3 = self.bucket_index(k2);
                        assert(0 <= k3 < news.len() && news[k3].0 == k2);
                        assert(k3 < olds.len());
                        assert(olds[k3].0 == k2);
                    }
                    assert(self.has_bucket(key)) by {
                        assert(news[olds.len() as int].0 == key);
                    }
                    assert(self.bucket_of(key) == b) by {
                        let k = self.bucket_index(key);
                        assert(0 <= k < news.len() && news[k].0 == key);
                        if k < olds.len() {
                            assert(olds[k].0 == key);
                            assert(old(self).has_bucket(key));
                        }
                    }
                }
                admitted
            },
        }
    }
}

} // verus!
