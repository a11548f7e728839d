use vstd::prelude::*;

verus! {

/// A number of attempts.
#[derive(Clone, Copy, Debug, PartialEq, Eq, Structural)]
pub struct Attempts(pub u16);

/// How long to wait between sending a confirmable message again.
#[derive(Clone, Copy, Debug, PartialEq, Eq, Structural)]
pub enum Strategy {
    /// Wait `init_max` milliseconds after the first send, then double the delay after each retry.
    Exponential { init_min: u64, init_max: u64 },
}

/// `acc` plus `n` delays of a schedule that starts at `delay` and doubles each time, every
/// sum saturating at `u64::MAX`.
pub open spec fn exp_total(acc: u64, delay: u64, n: nat) -> u64
    decreases n,
{
    if n == 0 {
        acc
    } else {
        exp_total(sat_add(acc, delay), sat_add(delay, delay), (n - 1) as nat)
    }
}

pub open spec fn sat_add(a: u64, b: u64) -> u64 {
    if a + b > u64::MAX { u64::MAX } else { (a + b) as u64 }
}

impl Strategy {
    pub open spec fn init_delay(self) -> u64 {
        match self {
            Strategy::Exponential { init_max, .. } => init_max,
        }
    }

    /// The longest time that sending `attempts` times may take, in milliseconds.
    pub fn max_time(&self, attempts: Attempts) -> (r: u64)
        ensures
            r == exp_total(0, self.init_delay(), attempts.0 as nat),
    {
        let d0: u64 = match self {
            Strategy::Exponential { init_max, .. } => *init_max,
        };
        let mut acc: u64 = 0;
        let mut delay: u64 = d0;
        let mut i: u16 = 0;
        while i < attempts.0
            invariant
                i <= attempts.0,
                exp_total(acc, delay, (attempts.0 - i) as nat) == exp_total(0, d0, attempts.0 as nat),
            decreases attempts.0 - i,
        {
            acc = acc.saturating_add(delay);
            delay = delay.saturating_add(delay);
            i = i + 1;
        }
        acc
    }
}

/// What a [`RetryTimer`] says to do at a given instant.
#[derive(Clone, Copy, Debug, PartialEq, Eq, Structural)]
pub enum YouShould {
    /// The next attempt is not due yet.
    Wait,
    /// Send the message again now.
    Retry,
    /// Every attempt was spent and the last deadline has passed.
    GiveUp,
}

/// Exponential backoff with a ceiling on the number of attempts.
#[derive(Clone, Copy, Debug, PartialEq, Eq, Structural)]
pub struct RetryTimer {
    pub start: u64,
    pub delay: u64,
    pub next: u64,
    pub attempts: u16,
    pub max_attempts: u16,
}

impl RetryTimer {
    /// A timer for a message first sent at `start`; the first send counts as one attempt.
    pub fn new(start: u64, strategy: Strategy, max_attempts: Attempts) -> (r: RetryTimer)
        ensures
            r.start == start,
            r.delay == strategy.init_delay(),
            r.next == sat_add(start, strategy.init_delay()),
            r.attempts == 1,
            r.max_attempts == max_attempts.0,
    {
        let delay: u64 = match strategy {
            Strategy::Exponential { init_max, .. } => init_max,
        };
        RetryTimer { start, delay, next: start.saturating_add(delay), attempts: 1, max_attempts: max_attempts.0 }
    }

    pub open spec fn exhausted(self) -> bool {
        self.attempts >= self.max_attempts
    }

    /// The decision the timer makes at `now`.
    pub open spec fn decide(self, now: u64) -> YouShould {
        if now < self.next {
            YouShould::Wait
        } else if self.exhausted() {
            YouShould::GiveUp
        } else {
            YouShould::Retry
        }
    }

    /// Decide what to do at `now`; on `Retry` the delay doubles and one more attempt is counted.
    pub fn what_should_i_do(&mut self, now: u64) -> (r: YouShould)
        ensures
            r == old(self).decide(now),
            r == YouShould::Retry ==> *final(self) == (RetryTimer {
                delay: sat_add(old(self).delay, old(self).delay),
                next: sat_add(old(self).next, sat_add(old(self).delay, old(self).delay)),
                attempts: (old(self).attempts + 1) as u16,
                ..*old(self)
            }),
            r != YouShould::Retry ==> *final(self) == *old(self),
    {
        if now < self.next {
            YouShould::Wait
        } else if self.attempts >= self.max_attempts {
            YouShould::GiveUp
        } else {
            let d = self.delay.saturating_add(self.delay);
            self.delay = d;
            self.next = self.next.saturating_add(d);
            self.attempts = self.attempts + 1;
            YouShould::Retry
        }
    }
}

/// Once the attempts are spent, a timer whose deadline has passed gives up, and it never
/// says to retry again, at any instant.
pub proof fn lemma_exhausted_never_retries(t: RetryTimer, now: u64)
    requires
        t.exhausted(),
    ensures
        now >= t.next ==> t.decide(now) == YouShould::GiveUp,
        t.decide(now) != YouShould::Retry,
{
}

} // verus!
