//! Chooses, by the size of a number, how its factorial is calculated.

use crate::extractor::Candidate;
use crate::integer::{integer_eq, integer_from_u64, integer_lt};
use vstd::prelude::*;

verus! {

/// The largest number whose factorial is calculated exactly.
pub const UPPER_CALCULATION_LIMIT: u64 = 100_001;

/// The largest number whose factorial is approximated by a mantissa and an
/// exponent.
pub const UPPER_APPROXIMATION_LIMIT: u64 = 500_000_000_000;

/// The largest number for which the number of digits of its factorial is
/// approximated.
pub const UPPER_DIGIT_APPROXIMATION_LIMIT: u64 = 1_000_000_000_000_000;

/// The ways to treat a candidate, from the finest to the coarsest.
#[derive(Debug, Clone, Copy, PartialEq, Eq, Hash, Structural)]
pub enum Tier {
    /// The number is one, whose factorial is not worth a reply.
    Trivial,
    /// The factorial is calculated exactly.
    Exact,
    /// The factorial is approximated by a mantissa and an exponent.
    Approximate,
    /// Only the number of digits of the factorial is approximated.
    ApproximateDigits,
    /// The number is too big for any of these.
    TooBig,
}

impl Tier {
    /// How coarse the tier's result is: 0 for an exact result or none, 3
    /// for a number that is given up on.
    pub open spec fn coarseness(self) -> nat {
        match self {
            Tier::Trivial | Tier::Exact => 0,
            Tier::Approximate => 1,
            Tier::ApproximateDigits => 2,
            Tier::TooBig => 3,
        }
    }

    /// Whether a result is calculated for a candidate of this tier.
    pub open spec fn is_calculated(self) -> bool {
        self is Exact || self is Approximate || self is ApproximateDigits
    }
}

/// The tier of the `level`-fold factorial of `number`.
pub open spec fn tier_of(number: int, level: nat) -> Tier {
    if number > UPPER_DIGIT_APPROXIMATION_LIMIT {
        Tier::TooBig
    } else if number > UPPER_APPROXIMATION_LIMIT || (level > 1 && number
        > UPPER_CALCULATION_LIMIT) {
        Tier::ApproximateDigits
    } else if number > UPPER_CALCULATION_LIMIT {
        Tier::Approximate
    } else if number == 1 {
        Tier::Trivial
    } else {
        Tier::Exact
    }
}

/// A larger number never gets a finer tier than a smaller one of the same
/// level. Up to the calculation limit the result is exact, above it an
/// approximation, above the approximation limit a number of digits, and
/// above the digit approximation limit nothing.
pub proof fn lemma_tier_is_monotonic(smaller: int, larger: int, level: nat)
    requires
        smaller <= larger,
    ensures
        tier_of(smaller, level).coarseness() <= tier_of(larger, level).coarseness(),
        larger <= UPPER_CALCULATION_LIMIT ==> tier_of(larger, level).coarseness() == 0,
        UPPER_CALCULATION_LIMIT < larger <= UPPER_APPROXIMATION_LIMIT && level <= 1 ==> tier_of(
            larger,
            level,
        ) == Tier::Approximate,
        UPPER_CALCULATION_LIMIT < larger <= UPPER_DIGIT_APPROXIMATION_LIMIT && (level > 1
            || larger > UPPER_APPROXIMATION_LIMIT) ==> tier_of(larger, level)
            == Tier::ApproximateDigits,
        larger > UPPER_DIGIT_APPROXIMATION_LIMIT <==> tier_of(larger, level) == Tier::TooBig,
{
}

impl Candidate {
    /// The tier by which the candidate is to be treated.
    pub fn tier(&self) -> (t: Tier)
        ensures
            t == tier_of(self@.number, self@.level),
    {
        let calculation_limit = integer_from_u64(UPPER_CALCULATION_LIMIT);
        if integer_lt(&integer_from_u64(UPPER_DIGIT_APPROXIMATION_LIMIT), &self.number) {
            Tier::TooBig
        } else if integer_lt(&integer_from_u64(UPPER_APPROXIMATION_LIMIT), &self.number) || (
        self.level > 1 && integer_lt(&calculation_limit, &self.number)) {
            Tier::ApproximateDigits
        } else if integer_lt(&calculation_limit, &self.number) {
            Tier::Approximate
        } else if integer_eq(&self.number, &integer_from_u64(1)) {
            Tier::Trivial
        } else {
            Tier::Exact
        }
    }
}

} // verus!
