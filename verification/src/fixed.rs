use vstd::prelude::*;

verus! {

/// Number of atomic units in one whole unit: fixed-point values carry
/// eighteen fractional decimal digits.
pub const SCALE: u128 = 1_000_000_000_000_000_000;

/// An unsigned fixed-point number with eighteen decimal places, stored as a
/// count of atomic units: the value represented is `atomics / SCALE`.
///
/// The global reward index and the per-holder fractional carries are measured
/// in this type.  All arithmetic on it is checked, never wrapping: an
/// operation whose result does not fit the atomic width reports that instead
/// of producing a value.
#[derive(Clone, Copy, Debug, PartialEq, Eq, Structural)]
pub struct Fixed {
    pub atomics: u128,
}

impl Fixed {
    /// The zero value.
    pub fn zero() -> (r: Fixed)
        ensures
            r.atomics == 0,
    {
        Fixed { atomics: 0 }
    }

    /// The fixed-point quotient `numerator / denominator`, rounded down at
    /// the last fractional digit.  `None` when the scaled numerator does not
    /// fit the atomic width.
    pub fn from_ratio(numerator: u128, denominator: u128) -> (r: Option<Fixed>)
        requires
            denominator > 0,
        ensures
            r is Some <==> numerator * SCALE <= u128::MAX,
            (r matches Some(f) ==> f.atomics == numerator * SCALE / (denominator as int)),
    {
        match numerator.checked_mul(SCALE) {
            Some(scaled) => Some(Fixed { atomics: scaled / denominator }),
            None => None,
        }
    }

    /// The checked sum of two fixed-point numbers.
    pub fn checked_add(self, other: Fixed) -> (r: Option<Fixed>)
        ensures
            r is Some <==> self.atomics + other.atomics <= u128::MAX,
            (r matches Some(f) ==> f.atomics == self.atomics + other.atomics),
    {
        match self.atomics.checked_add(other.atomics) {
            Some(a) => Some(Fixed { atomics: a }),
            None => None,
        }
    }

    /// The difference of two fixed-point numbers; the subtrahend may not
    /// exceed the minuend.
    pub fn sub(self, other: Fixed) -> (r: Fixed)
        requires
            other.atomics <= self.atomics,
        ensures
            r.atomics == self.atomics - other.atomics,
    {
        Fixed { atomics: self.atomics - other.atomics }
    }
}

} // verus!
