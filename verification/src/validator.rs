//! Policies that say how long a cached page stays fresh.

use vstd::prelude::*;
use std::time::{Duration, Instant};

verus! {

/// A clock of its own, and a rule that says which stamps of that clock
/// are still fresh. A stamp that has gone stale never becomes fresh again.
pub trait CacheValidator: Sized {
    /// The current reading of the clock.
    spec fn now(&self) -> u64;

    /// Whether a page that was stamped `stamp` is still fresh.
    spec fn fresh(&self, stamp: u64) -> bool;

    /// Whether one advance of the clock can lead from this state to
    /// `next`.
    spec fn advances_to(&self, next: Self) -> bool;

    /// Advances the clock by one step of the policy. This is done once
    /// for each batch.
    fn update_validity(&mut self)
        ensures
            old(self).advances_to(*final(self)),
            final(self).now() >= old(self).now(),
            forall|s: u64| (#[trigger] final(self).fresh(s)) ==> old(self).fresh(s),
    ;

    /// The stamp for a page that is filled now.
    fn stamp(&self) -> (s: u64)
        ensures
            s == self.now(),
    ;

    /// Whether a page that was stamped `stamp` is still fresh.
    fn is_valid(&self, stamp: u64) -> (b: bool)
        ensures
            b == self.fresh(stamp),
    ;
}

/// How many readings of the clock a stamp is old.
pub open spec fn age(now: u64, stamp: u64) -> int {
    if stamp >= now {
        0
    } else {
        now - stamp
    }
}

/// A policy under which no page ever goes stale: for memory that does not
/// change, such as a dump.
#[derive(Clone, Copy, Debug)]
pub struct NeverExpireValidator {}

impl NeverExpireValidator {
    /// The policy.
    pub fn new() -> (r: Self) {
        NeverExpireValidator {  }
    }
}

impl CacheValidator for NeverExpireValidator {
    open spec fn now(&self) -> u64 {
        0
    }

    open spec fn fresh(&self, stamp: u64) -> bool {
        true
    }

    open spec fn advances_to(&self, next: Self) -> bool {
        true
    }

    fn update_validity(&mut self) {
    }

    fn stamp(&self) -> (s: u64) {
        0
    }

    fn is_valid(&self, stamp: u64) -> (b: bool) {
        true
    }
}

/// A policy that counts batches: a page is fresh for `valid_count` batches
/// from the one that filled it on.
#[derive(Clone, Copy, Debug)]
pub struct CountCacheValidator {
    count: u64,
    valid_count: u64,
}

impl CountCacheValidator {
    /// The number of batches seen so far.
    pub closed spec fn count(&self) -> u64 {
        self.count
    }

    /// The number of batches for which a page is fresh.
    pub closed spec fn valid_count(&self) -> u64 {
        self.valid_count
    }

    /// A policy that has seen no batch and keeps a page for `valid_count`
    /// batches.
    pub fn new(valid_count: u64) -> (r: Self)
        ensures
            r.count() == 0,
            r.valid_count() == valid_count,
    {
        CountCacheValidator { count: 0, valid_count }
    }
}

impl CacheValidator for CountCacheValidator {
    open spec fn now(&self) -> u64 {
        self.count()
    }

    open spec fn fresh(&self, stamp: u64) -> bool {
        age(self.count(), stamp) < self.valid_count()
    }

    open spec fn advances_to(&self, next: Self) -> bool {
        &&& next.valid_count() == self.valid_count()
        &&& next.count() == if self.count() < u64::MAX {
            self.count() + 1
        } else {
            u64::MAX as int
        }
    }

    /// Counts one batch more, up to the largest count there is.
    fn update_validity(&mut self) {
        if self.count < u64::MAX {
            self.count = self.count + 1;
        }
    }

    fn stamp(&self) -> (s: u64) {
        self.count
    }

    fn is_valid(&self, stamp: u64) -> (b: bool) {
        if stamp >= self.count {
            0 < self.valid_count
        } else {
            self.count - stamp < self.valid_count
        }
    }
}

/// `std::time::Instant`, a reading of a clock. Nothing is known of it.
#[verifier::external_type_specification]
#[verifier::external_body]
pub struct ExInstant(Instant);

/// Reads the clock with `Instant::now`. Nothing is known of the reading.
#[verifier::external_body]
fn instant_now() -> (r: Instant) {
    Instant::now()
}

/// The time since `start` with `Instant::elapsed`. Nothing is known of it.
#[verifier::external_body]
fn instant_elapsed(start: &Instant) -> (r: Duration) {
    start.elapsed()
}

/// The whole milliseconds of `d` with `Duration::as_millis`. The contract
/// says nothing of the number.
#[verifier::external_body]
fn duration_millis(d: &Duration) -> (r: u128) {
    d.as_millis()
}

/// A policy that goes by the time of day: a page is fresh for
/// `valid_millis` milliseconds from its filling on.
pub struct TimedCacheValidator {
    start: Instant,
    now_millis: u64,
    valid_millis: u64,
}

impl TimedCacheValidator {
    /// The milliseconds that had passed at the latest batch.
    pub closed spec fn now_millis(&self) -> u64 {
        self.now_millis
    }

    /// The milliseconds for which a page is fresh.
    pub closed spec fn valid_millis(&self) -> u64 {
        self.valid_millis
    }

    /// A policy whose clock starts now and that keeps a page for
    /// `valid_millis` milliseconds.
    pub fn new(valid_millis: u64) -> (r: Self)
        ensures
            r.now_millis() == 0,
            r.valid_millis() == valid_millis,
    {
        TimedCacheValidator { start: instant_now(), now_millis: 0, valid_millis }
    }

    /// Sets the clock to `millis` milliseconds, unless it is there or
    /// beyond already: the clock never runs backwards. A reading beyond
    /// the largest is taken for the largest.
    pub fn advance_to(&mut self, millis: u128)
        ensures
            final(self).valid_millis() == old(self).valid_millis(),
            final(self).now_millis() == if millis <= old(self).now_millis() {
                old(self).now_millis() as int
            } else if millis > u64::MAX {
                u64::MAX as int
            } else {
                millis as int
            },
    {
        let capped: u64 = if millis > u64::MAX as u128 {
            u64::MAX
        } else {
            millis as u64
        };
        if capped > self.now_millis {
            self.now_millis = capped;
        }
    }
}

impl CacheValidator for TimedCacheValidator {
    open spec fn now(&self) -> u64 {
        self.now_millis()
    }

    open spec fn fresh(&self, stamp: u64) -> bool {
        age(self.now_millis(), stamp) < self.valid_millis()
    }

    open spec fn advances_to(&self, next: Self) -> bool {
        &&& next.valid_millis() == self.valid_millis()
        &&& next.now_millis() >= self.now_millis()
    }

    /// Reads the time that has passed and hands it to `advance_to`: the
    /// clock goes to that reading, or stays where the reading is not
    /// beyond it.
    fn update_validity(&mut self) {
        let passed = instant_elapsed(&self.start);
        let millis = duration_millis(&passed);
        self.advance_to(millis);
    }

    fn stamp(&self) -> (s: u64) {
        self.now_millis
    }

    fn is_valid(&self, stamp: u64) -> (b: bool) {
        if stamp >= self.now_millis {
            0 < self.valid_millis
        } else {
            self.now_millis - stamp < self.valid_millis
        }
    }
}

} // verus!
