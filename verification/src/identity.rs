//! Identifiers and random numbers.
use crate::double::{
    from_int, from_u64, is_finite, lemma_unit_product, negative, one, product, times, value,
};
use rand::{Rng, SeedableRng};
use vstd::arithmetic::power2::*;
use vstd::prelude::*;

verus! {

/// A universally unique identifier, by its 128 bits.
#[derive(Debug, Clone, Copy, PartialEq, Eq, Structural)]
pub struct Uuid {
    /// The bits, the first byte highest.
    pub bits: u128,
}

/// The version in the bits of an identifier.
pub open spec fn uuid_version(bits: u128) -> int {
    (bits as int / 0x1000_0000_0000_0000_0000) % 16
}

/// The two highest bits of the variant in the bits of an identifier. They are two
/// for the variant of RFC 9562.
pub open spec fn uuid_variant(bits: u128) -> int {
    (bits as int / 0x4000_0000_0000_0000) % 4
}

impl Uuid {
    /// The number of the version.
    pub fn get_version_num(&self) -> (r: usize)
        ensures
            r == uuid_version(self.bits),
    {
        ((self.bits / 0x1000_0000_0000_0000_0000) % 16) as usize
    }
}

/// A generator of random words.
#[verifier::external_type_specification]
#[verifier::external_body]
pub struct StdRngType(rand::rngs::StdRng);

/// Generates identifiers.
pub trait UuidGenerator {
    /// A new identifier of version four.
    fn new_v4(&self) -> Uuid;
}

/// The generator of the `uuid` crate.
#[derive(Debug, Clone, Copy)]
pub struct DefaultUuidGenerator;

/// Trusted: `uuid::Uuid::new_v4` makes a random identifier, and `as_u128` gives its
/// bits. It sets the version to four and the variant to that of RFC 9562; the
/// other bits depend on chance, and nothing is stated of them.
#[verifier::external_body]
fn random_uuid() -> (r: u128)
    ensures
        uuid_version(r) == 4,
        uuid_variant(r) == 2,
{
    uuid::Uuid::new_v4().as_u128()
}

impl UuidGenerator for DefaultUuidGenerator {
    fn new_v4(&self) -> (r: Uuid)
        ensures
            uuid_version(r.bits) == 4,
            uuid_variant(r.bits) == 2,
    {
        Uuid { bits: random_uuid() }
    }
}

/// Generates random numbers.
pub trait RandomGenerator {
    /// A random word.
    fn next_u64(&mut self) -> u64;

    /// The bits of a random double from zero up to one, without one.
    fn next_f64(&mut self) -> u64;
}

/// The double of a random word: its 53 highest bits as a fraction of one.
pub open spec fn unit_double(word: u64) -> u64 {
    product(from_int((word / 2048) as int), 0x3ca0_0000_0000_0000)
}

/// Every random double is at least zero and below one, and the 53 highest bits
/// of the word are kept exactly.
pub proof fn law_unit_interval(word: u64)
    ensures
        is_finite(unit_double(word)),
        !negative(unit_double(word)),
        0 <= value(unit_double(word)) < one(),
        value(unit_double(word)) == (word / 2048) * pow2(1021),
{
    lemma2_to64_rest();
    lemma_unit_product((word / 2048) as nat);
}

/// Turns a random word into a double below one.
pub fn unit_from(word: u64) -> (r: u64)
    ensures
        r == unit_double(word),
{
    times(from_u64(word / 2048), 0x3ca0_0000_0000_0000)
}

/// A generator that is seeded by the system.
#[derive(Debug)]
pub struct DefaultRandomGenerator {
    rng: rand::rngs::StdRng,
}

/// Trusted: `StdRng::from_entropy` seeds a generator from the system. The result
/// depends on chance, and nothing is stated of it.
#[verifier::external_body]
fn entropy_rng() -> (r: rand::rngs::StdRng) {
    rand::rngs::StdRng::from_entropy()
}

/// Trusted: `Rng::gen` draws a word from a generator. Nothing is stated of it.
#[verifier::external_body]
fn draw(rng: &mut rand::rngs::StdRng) -> (r: u64) {
    rng.gen()
}

impl Default for DefaultRandomGenerator {
    fn default() -> Self {
        Self { rng: entropy_rng() }
    }
}

impl RandomGenerator for DefaultRandomGenerator {
    fn next_u64(&mut self) -> u64 {
        draw(&mut self.rng)
    }

    fn next_f64(&mut self) -> (r: u64)
        ensures
            exists|word: u64| r == unit_double(word),
    {
        let word = draw(&mut self.rng);
        let r = unit_from(word);
        assert(r == unit_double(word));
        r
    }
}

/// The word at an index of the sequence that `StdRng` gives for a seed.
pub uninterp spec fn seeded_word(seed: u64, index: nat) -> u64;

/// Trusted: the word at an index of the sequence that `StdRng::seed_from_u64` and
/// `Rng::sample_iter` with the standard distribution give for a seed. The
/// sequence is a function of the seed; which words it holds is not stated.
#[verifier::external_body]
fn word_at(seed: u64, index: usize) -> (r: u64)
    ensures
        r == seeded_word(seed, index as nat),
{
    rand::rngs::StdRng::seed_from_u64(seed).sample_iter(rand::distributions::Standard).nth(
        index,
    ).unwrap_or_default()
}

/// A generator with a fixed sequence of numbers for each seed.
#[derive(Debug, Clone, Copy)]
pub struct SeededRandomGenerator {
    seed: u64,
    drawn: usize,
}

impl SeededRandomGenerator {
    /// The seed.
    pub closed spec fn seed_value(self) -> u64 {
        self.seed
    }

    /// The number of words that were drawn.
    pub closed spec fn count(self) -> nat {
        self.drawn as nat
    }

    /// A generator for a seed.
    pub fn new(seed: u64) -> (r: Self)
        ensures
            r.seed_value() == seed,
            r.count() == 0,
    {
        Self { seed, drawn: 0 }
    }

    /// The place of the next word; the sequence starts again after the largest
    /// size.
    fn step(&mut self) -> (r: usize)
        ensures
            r == old(self).count(),
            final(self).seed_value() == old(self).seed_value(),
            final(self).count() == next_count(old(self).count()),
    {
        let at = self.drawn;
        self.drawn = if at == usize::MAX {
            0
        } else {
            at + 1
        };
        at
    }
}

/// The count after one more draw.
pub open spec fn next_count(n: nat) -> nat {
    if n == usize::MAX {
        0
    } else {
        n + 1
    }
}

/// The words that a generator with a seed gives in a row.
pub open spec fn seeded_words(seed: u64, from: nat, count: nat) -> Seq<u64>
    decreases count,
{
    if count == 0 {
        Seq::empty()
    } else {
        seq![seeded_word(seed, from)] + seeded_words(seed, next_count(from), (count - 1) as nat)
    }
}

/// Two generators with the same seed that have drawn equally often give the same
/// words from there on.
pub proof fn law_same_seed(a: SeededRandomGenerator, b: SeededRandomGenerator, count: nat)
    requires
        a.seed_value() == b.seed_value(),
        a.count() == b.count(),
    ensures
        seeded_words(a.seed_value(), a.count(), count) == seeded_words(
            b.seed_value(),
            b.count(),
            count,
        ),
{
}

impl RandomGenerator for SeededRandomGenerator {
    fn next_u64(&mut self) -> (r: u64)
        ensures
            r == seeded_word(old(self).seed_value(), old(self).count()),
            final(self).seed_value() == old(self).seed_value(),
            final(self).count() == next_count(old(self).count()),
    {
        let at = self.step();
        word_at(self.seed, at)
    }

    fn next_f64(&mut self) -> (r: u64)
        ensures
            r == unit_double(seeded_word(old(self).seed_value(), old(self).count())),
            final(self).seed_value() == old(self).seed_value(),
            final(self).count() == next_count(old(self).count()),
    {
        let at = self.step();
        unit_from(word_at(self.seed, at))
    }
}

} // verus!
