//! Newtype scalars for the engine.
//!
//! Probabilities, rule weights and entropies are exact fixed-point numbers
//! counted in billionths (`SCALE` parts make one whole). Keeping them as
//! integers makes every arithmetic claim in this crate exact; nothing in the
//! core depends on floating point. An [`Amount`] is an opaque 64-bit value
//! identified by its bit pattern alone, so two amounts are the same resource
//! value exactly when their bits agree.

use vstd::prelude::*;

use crate::errors::OutOfRangeError;

verus! {

/// Number of fixed-point parts in one whole unit of probability.
pub const SCALE: u64 = 1_000_000_000;

/// A probability in `[0, 1]`, stored exactly as parts per `SCALE`.
#[derive(Clone, Copy, Debug, PartialEq, Eq, Structural, Hash)]
pub struct Probability(u64);

impl View for Probability {
    type V = u64;

    closed spec fn view(&self) -> u64 {
        self.0
    }
}

impl Probability {
    /// Every probability holds at most `SCALE` parts.
    #[verifier::type_invariant]
    pub closed spec fn inv(self) -> bool {
        self.0 <= SCALE
    }

    /// Builds a probability from fixed-point parts; rejects values above one.
    pub fn new(parts: u64) -> (r: Result<Probability, OutOfRangeError<u64>>)
        ensures
            parts <= SCALE ==> (r matches Ok(p) && p@ == parts),
            parts > SCALE ==> r == Err::<Probability, OutOfRangeError<u64>>(
                OutOfRangeError { value: parts, min: 0, max: SCALE },
            ),
    {
        if parts <= SCALE {
            Ok(Probability(parts))
        } else {
            Err(OutOfRangeError { value: parts, min: 0, max: SCALE })
        }
    }

    /// The zero probability.
    pub fn zero() -> (r: Probability)
        ensures
            r@ == 0,
    {
        Probability(0)
    }

    /// The certain probability, one whole unit.
    pub fn one() -> (r: Probability)
        ensures
            r@ == SCALE,
    {
        Probability(SCALE)
    }

    /// The fixed-point parts this probability holds; never above `SCALE`.
    pub fn parts(&self) -> (r: u64)
        ensures
            r == self@,
            r <= SCALE,
    {
        proof {
            use_type_invariant(*self);
        }
        self.0
    }

    /// Exact sum of two probabilities; rejects any result above one.
    pub fn checked_add(self, other: Probability) -> (r: Result<
        Probability,
        OutOfRangeError<u64>,
    >)
        ensures
            self@ <= SCALE && other@ <= SCALE,
            self@ + other@ <= SCALE ==> (r matches Ok(p) && p@ == self@ + other@),
            self@ + other@ > SCALE ==> r == Err::<Probability, OutOfRangeError<u64>>(
                OutOfRangeError { value: (self@ + other@) as u64, min: 0, max: SCALE },
            ),
    {
        proof {
            use_type_invariant(self);
            use_type_invariant(other);
        }
        let sum: u64 = self.0 + other.0;
        if sum <= SCALE {
            Ok(Probability(sum))
        } else {
            Err(OutOfRangeError { value: sum, min: 0, max: SCALE })
        }
    }
}

/// A nonnegative rule weight, stored as parts per `SCALE`.
///
/// Weight zero disables a rule. The advance-step endorses the stay-put
/// residual convention, so the weights applicable at one base state are
/// expected to sum to at most `SCALE`; the step reports an out-of-range
/// error when they do not.
#[derive(Clone, Copy, Debug, PartialEq, Eq, Structural, Hash)]
pub struct ProbabilityWeight(u64);

impl View for ProbabilityWeight {
    type V = u64;

    closed spec fn view(&self) -> u64 {
        self.0
    }
}

impl ProbabilityWeight {
    /// The zero weight, which disables its rule.
    pub fn new() -> (r: ProbabilityWeight)
        ensures
            r@ == 0,
    {
        ProbabilityWeight(0)
    }

    /// Builds a weight from fixed-point parts.
    pub fn from_parts(parts: u64) -> (r: ProbabilityWeight)
        ensures
            r@ == parts,
    {
        ProbabilityWeight(parts)
    }

    /// The fixed-point parts this weight holds.
    pub fn parts(&self) -> (r: u64)
        ensures
            r == self@,
    {
        self.0
    }
}

/// A Shannon entropy in bits, stored as billionths of a bit.
#[derive(Clone, Copy, Debug, PartialEq, Eq, Structural, Hash)]
pub struct Entropy(u64);

impl View for Entropy {
    type V = u64;

    closed spec fn view(&self) -> u64 {
        self.0
    }
}

impl Entropy {
    /// Builds an entropy from billionths of a bit.
    pub fn from_parts(parts: u64) -> (r: Entropy)
        ensures
            r@ == parts,
    {
        Entropy(parts)
    }

    /// The billionths of a bit this entropy holds.
    pub fn parts(&self) -> (r: u64)
        ensures
            r == self@,
    {
        self.0
    }
}

/// An opaque 64-bit resource value, identified by its bit pattern.
///
/// Callers that store real-valued resources put the canonicalized bit
/// pattern of the number here; the engine itself only ever compares,
/// hashes and moves amounts, so equality of bits is equality of values.
#[derive(Clone, Copy, Debug, PartialEq, Eq, Structural, Hash)]
pub struct Amount(pub u64);

impl View for Amount {
    type V = u64;

    open spec fn view(&self) -> u64 {
        self.0
    }
}

impl Amount {
    /// Builds an amount from its 64-bit pattern.
    pub fn new(bits: u64) -> (r: Amount)
        ensures
            r@ == bits,
    {
        Amount(bits)
    }

    /// The 64-bit pattern this amount holds.
    pub fn bits(&self) -> (r: u64)
        ensures
            r == self@,
    {
        self.0
    }
}

} // verus!
