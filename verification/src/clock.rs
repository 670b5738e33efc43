//! Durations and clocks.
use vstd::prelude::*;

verus! {

/// The number of nanoseconds in a second.
pub const NANOS_PER_SECOND: u128 = 1_000_000_000;

/// The number of 64-bit words.
pub const WORDS: u128 = 0x1_0000_0000_0000_0000;

/// A span of time of less than 2^64 seconds.
#[derive(Clone, Copy, Debug, PartialEq, Eq, Structural)]
pub struct Duration {
    nanos: u128,
}

impl Duration {
    /// The number of nanoseconds.
    pub closed spec fn total(self) -> nat {
        self.nanos as nat
    }

    #[verifier::type_invariant]
    closed spec fn fits(self) -> bool {
        self.nanos < 18_446_744_073_709_551_616_000_000_000
    }

    /// A span of seconds.
    pub fn from_secs(secs: u64) -> (r: Self)
        ensures
            r.total() == secs * NANOS_PER_SECOND,
    {
        Self { nanos: secs as u128 * NANOS_PER_SECOND }
    }

    /// A span of milliseconds.
    pub fn from_millis(millis: u64) -> (r: Self)
        ensures
            r.total() == millis * 1_000_000,
    {
        Self { nanos: millis as u128 * 1_000_000 }
    }

    /// A span of nanoseconds.
    pub fn from_nanos(nanos: u64) -> (r: Self)
        ensures
            r.total() == nanos,
    {
        Self { nanos: nanos as u128 }
    }

    /// A span of seconds and nanoseconds. Nanoseconds that make up seconds carry
    /// over.
    pub fn new(secs: u64, nanos: u32) -> (r: Self)
        requires
            secs * NANOS_PER_SECOND + nanos < WORDS * NANOS_PER_SECOND,
        ensures
            r.total() == secs * NANOS_PER_SECOND + nanos,
    {
        Self { nanos: secs as u128 * NANOS_PER_SECOND + nanos as u128 }
    }

    /// The number of nanoseconds.
    pub fn as_nanos(&self) -> (r: u128)
        ensures
            r == self.total(),
    {
        self.nanos
    }

    /// The number of whole milliseconds.
    pub fn as_millis(&self) -> (r: u128)
        ensures
            r == self.total() / 1_000_000,
    {
        self.nanos / 1_000_000
    }

    /// The number of whole seconds.
    pub fn as_secs(&self) -> (r: u64)
        ensures
            r == self.total() / (NANOS_PER_SECOND as nat),
    {
        proof {
            use_type_invariant(self);
        }
        (self.nanos / NANOS_PER_SECOND) as u64
    }
}

/// A clock of the runtime.
pub trait Clock {
    /// The wall-clock time in seconds since the epoch.
    fn epoch_seconds(&self) -> i64;

    /// Whether the clock is driven by hand.
    fn is_deterministic(&self) -> bool;
}

/// The clock of the system.
#[derive(Clone, Copy, Debug)]
pub struct SystemClock;

/// Trusted: the whole seconds that `std::time::SystemTime::elapsed` reports since
/// the Unix epoch, if the system's time is not before it. The result depends on
/// the time, and nothing is stated of it.
#[verifier::external_body]
fn system_seconds() -> (r: Option<u64>) {
    std::time::UNIX_EPOCH.elapsed().ok().map(|d| d.as_secs())
}

/// The epoch time for the seconds that the system reports: the same seconds as
/// a signed number, or zero where it reports none.
pub open spec fn epoch_of(seconds: Option<u64>) -> int {
    match seconds {
        Some(s) => if s <= i64::MAX {
            s as int
        } else {
            s - WORDS
        },
        None => 0,
    }
}

/// Turns the seconds that the system reports into an epoch time.
pub fn epoch_from(seconds: Option<u64>) -> (r: i64)
    ensures
        r == epoch_of(seconds),
{
    match seconds {
        Some(s) => if s <= i64::MAX as u64 {
            s as i64
        } else {
            (s as i128 - 0x1_0000_0000_0000_0000) as i64
        },
        None => 0,
    }
}

impl SystemClock {
    /// The system's clock.
    pub fn new() -> (r: Self)
        ensures
            r == SystemClock,
    {
        Self
    }
}

impl Clock for SystemClock {
    fn epoch_seconds(&self) -> (r: i64)
        ensures
            exists|seconds: Option<u64>| r == epoch_of(seconds),
    {
        let seconds = system_seconds();
        let r = epoch_from(seconds);
        assert(r == epoch_of(seconds));
        r
    }

    fn is_deterministic(&self) -> (r: bool)
        ensures
            !r,
    {
        false
    }
}

/// A clock that is advanced by hand. Its time is a 64-bit count of nanoseconds
/// that wraps around.
#[derive(Clone, Copy, Debug)]
pub struct DeterministicClock {
    elapsed: u64,
}

impl DeterministicClock {
    /// The nanoseconds on the clock.
    pub closed spec fn nanos(self) -> nat {
        self.elapsed as nat
    }

    /// A clock at time zero.
    pub fn new() -> (r: Self)
        ensures
            r.nanos() == 0,
    {
        Self { elapsed: 0 }
    }

    /// The time on the clock.
    pub fn elapsed(&self) -> (r: Duration)
        ensures
            r.total() == self.nanos(),
    {
        Duration::from_nanos(self.elapsed)
    }

    /// Advances the clock.
    pub fn advance(&mut self, duration: Duration)
        ensures
            final(self).nanos() == advanced(old(self).nanos(), duration),
    {
        let step = (duration.as_nanos() % WORDS) as u64;
        let sum = self.elapsed as u128 + step as u128;
        self.elapsed = (sum % WORDS) as u64;
        proof {
            vstd::arithmetic::div_mod::lemma_add_mod_noop(
                old(self).nanos() as int,
                duration.total() as int,
                WORDS as int,
            );
            vstd::arithmetic::div_mod::lemma_small_mod(old(self).nanos(), WORDS as nat);
        }
    }

    /// Sleeping on this clock advances it.
    pub fn sleep(&mut self, duration: Duration)
        ensures
            final(self).nanos() == advanced(old(self).nanos(), duration),
    {
        self.advance(duration);
    }
}

/// The time on a clock after it was advanced.
pub open spec fn advanced(nanos: nat, by: Duration) -> nat {
    (nanos + by.total()) % (WORDS as nat)
}

/// Advancing a clock twice advances it by the sum, and the order does not matter.
pub proof fn law_advances_add_up(nanos: nat, a: Duration, b: Duration)
    ensures
        advanced(advanced(nanos, a), b) == (nanos + a.total() + b.total()) % (WORDS as nat),
        advanced(advanced(nanos, a), b) == advanced(advanced(nanos, b), a),
{
    let (n, x, y) = (nanos as int, a.total() as int, b.total() as int);
    vstd::arithmetic::div_mod::lemma_add_mod_noop(n + x, y, WORDS as int);
    vstd::arithmetic::div_mod::lemma_add_mod_noop((n + x) % WORDS as int, y, WORDS as int);
    vstd::arithmetic::div_mod::lemma_add_mod_noop(n + y, x, WORDS as int);
    vstd::arithmetic::div_mod::lemma_add_mod_noop((n + y) % WORDS as int, x, WORDS as int);
}

impl Clock for DeterministicClock {
    fn epoch_seconds(&self) -> (r: i64)
        ensures
            r == self.nanos() / (NANOS_PER_SECOND as nat),
    {
        let secs = self.elapsed().as_secs();
        assert(self.nanos() < WORDS);
        secs as i64
    }

    fn is_deterministic(&self) -> (r: bool)
        ensures
            r,
    {
        true
    }
}

} // verus!
