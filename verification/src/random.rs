//! Random draws.
//!
//! A draw is a number in the half-open range from zero to one, held as a
//! fraction with twenty-four binary digits: `numerator / SCALE`.

use vstd::prelude::*;

verus! {

/// The denominator of a draw: two to the power of twenty-four.
pub const SCALE: u32 = 16_777_216;

/// A number drawn from the half-open range from zero to one: the fraction
/// `numerator / SCALE`, with `numerator < SCALE`.
#[derive(Clone, Copy, Debug, PartialEq, Eq, Structural)]
pub struct RandomNumber {
    numerator: u32,
}

impl View for RandomNumber {
    type V = nat;

    /// The numerator of the draw.
    closed spec fn view(&self) -> nat {
        (self.numerator % SCALE) as nat
    }
}

impl RandomNumber {
    /// The fraction is less than one.
    #[verifier::type_invariant]
    spec fn below_one(self) -> bool {
        self.numerator < SCALE
    }

    /// The draw `numerator / SCALE`, if that is less than one.
    pub fn new(numerator: u32) -> (result: Option<RandomNumber>)
        ensures
            result is Some <==> numerator < SCALE,
            result matches Some(draw) ==> draw@ == numerator,
    {
        if numerator < SCALE {
            Some(RandomNumber { numerator })
        } else {
            None
        }
    }

    /// The draw whose twenty-four binary digits are the upper twenty-four bits
    /// of `bits`.
    pub fn from_bits(bits: u32) -> (result: RandomNumber)
        ensures
            result@ == bits / 256,
    {
        RandomNumber { numerator: bits / 256 }
    }

    /// A draw is less than one.
    pub proof fn lemma_below_one(self)
        ensures
            self@ < SCALE,
    {
    }

    /// The numerator of the draw.
    pub fn numerator(self) -> (numerator: u32)
        ensures
            numerator == self@,
            numerator < SCALE,
    {
        proof {
            use_type_invariant(&self);
        }
        self.numerator
    }
}

/// Thirty-two random bits from `rand::random`, which draws them from the
/// generator of the running thread. Nothing is claimed of the bits: every
/// value may come back. The generator takes its seed from the operating
/// system and gives up, with a panic, if it gets none.
#[verifier::external_body]
fn random_bits() -> (bits: u32) {
    rand::random::<u32>()
}

/// A random draw: the upper twenty-four of thirty-two random bits. Which
/// draw comes back is left to chance; every draw lies in the half-open range
/// from zero to one.
pub fn random() -> (draw: RandomNumber)
    ensures
        draw@ < SCALE,
{
    RandomNumber::from_bits(random_bits())
}

} // verus!
