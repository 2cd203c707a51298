//! The value of one cell of the grid.

use vstd::arithmetic::power::lemma_pow_positive;
use vstd::arithmetic::power2::{is_pow2, is_pow2_equiv, is_pow2_exists, pow2};
use vstd::prelude::*;

verus! {

/// The value of one cell: zero for an empty cell, otherwise the number shown
/// on the tile, which in a game is always a power of two.
#[derive(Clone, Copy, Debug, PartialEq, Eq, PartialOrd, Ord, Structural)]
pub struct BoardValue {
    pub value: u32,
}

/// `v` is two to some power.
pub open spec fn is_power_of_two(v: nat) -> bool {
    exists|k: nat| v == #[trigger] pow2(k)
}

/// `v` may stand in a cell: it is zero (empty) or a power of two (a tile).
pub open spec fn is_cell_value(v: nat) -> bool {
    v == 0 || is_power_of_two(v)
}

impl BoardValue {
    /// The cell value with the given number.
    pub fn new(value: u32) -> (result: BoardValue)
        ensures
            result.value == value,
    {
        BoardValue { value }
    }

    /// The number of the cell value.
    pub fn get_value(self) -> (value: u32)
        ensures
            value == self.value,
    {
        self.value
    }

    /// The tile that two tiles of this value merge into.
    pub fn duplicate(self) -> (result: BoardValue)
        requires
            2 * self.value <= u32::MAX,
        ensures
            result.value == 2 * self.value,
    {
        BoardValue::new(self.value * 2)
    }

    /// The cell is empty or holds a power of two.
    pub open spec fn spec_is_valid(self) -> bool {
        is_cell_value(self.value as nat)
    }

    /// Whether the cell is empty or holds a power of two.
    #[verifier::when_used_as_spec(spec_is_valid)]
    pub fn is_valid(self) -> (valid: bool)
        ensures
            valid == self.spec_is_valid(),
    {
        if self.value == 0 {
            return true;
        }
        let mut rest = self.value;
        while rest % 2 == 0
            invariant
                rest > 0,
                is_pow2(rest as int) == is_pow2(self.value as int),
            decreases rest,
        {
            proof {
                reveal(is_pow2);
            }
            rest = rest / 2;
        }
        proof {
            reveal(is_pow2);
            lemma_power_of_two_is_pow2(self.value as nat);
        }
        rest == 1
    }
}

/// The two ways to say that a number is a power of two agree: it is two to
/// some power, and halving it as long as it is even ends in one.
pub proof fn lemma_power_of_two_is_pow2(v: nat)
    ensures
        is_power_of_two(v) <==> is_pow2(v as int),
{
    is_pow2_equiv(v as int);
    if is_power_of_two(v) {
        let k = choose|k: nat| v == #[trigger] pow2(k);
        lemma_pow_positive(2, k);
        assert(vstd::arithmetic::power::pow(2, k) == v);
    }
    if is_pow2_exists(v as int) {
        let k = choose|k: nat| vstd::arithmetic::power::pow(2, k) == v as int;
        assert(v == pow2(k));
    }
}

impl Default for BoardValue {
    /// The tile that most new tiles are: a two.
    fn default() -> (result: BoardValue)
        ensures
            result.value == 2,
    {
        BoardValue::new(2)
    }
}

} // verus!
