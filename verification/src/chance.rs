//! Random numbers.

use rand::Rng;
use vstd::prelude::*;

verus! {

/// `rand::Rng::gen_range` on the generator of `rand::thread_rng`: a number from
/// `low` up to, but not with, `high`. Which one is left to chance.
#[verifier::external_body]
fn random_between(low: u64, high: u64) -> (number: u64)
    requires
        low < high,
    ensures
        low <= number < high,
{
    rand::thread_rng().gen_range(low..high)
}

/// A number that was drawn at random, and the bounds between which it was drawn.
pub struct Drawn {
    number: u64,
    bounds: Ghost<(u64, u64)>,
}

impl Drawn {
    /// The number.
    pub closed spec fn value(&self) -> u64 {
        self.number
    }

    /// The bounds: the number is one from the first up to, but not with, the second.
    pub closed spec fn between(&self) -> (u64, u64) {
        self.bounds@
    }

    /// The number.
    pub fn number(&self) -> (number: u64)
        ensures
            number == self.value(),
    {
        self.number
    }
}

/// Draws a number from `low` up to, but not with, `high`.
pub(crate) fn draw_between(low: u64, high: u64) -> (drawn: Drawn)
    requires
        low < high,
    ensures
        drawn.between() == (low, high),
        low <= drawn.value() < high,
{
    let number: u64 = random_between(low, high);
    Drawn { number, bounds: Ghost((low, high)) }
}

/// `rand::Rng::gen` on the generator of `rand::thread_rng`: 128 bits. All are
/// left to chance.
#[verifier::external_body]
fn random_bits() -> (bits: u128) {
    rand::thread_rng().gen::<u128>()
}

/// Bits that were drawn at random.
pub struct DrawnBits {
    bits: u128,
}

impl DrawnBits {
    /// The bits.
    pub closed spec fn value(&self) -> u128 {
        self.bits
    }

    /// The bits.
    pub fn bits(&self) -> (bits: u128)
        ensures
            bits == self.value(),
    {
        self.bits
    }
}

/// Draws 128 bits. There is nothing to say of them: all are left to chance.
pub(crate) fn draw_bits() -> (drawn: DrawnBits) {
    let bits: u128 = random_bits();
    DrawnBits { bits }
}

} // verus!
