//! Where a number came from, and the rule that carries it through arithmetic.
use vstd::prelude::*;

verus! {

/// How a value was arrived at, ordered by strength so that the weakest is the
/// smallest.
///
/// The order is the one the variants are declared in, and it is load-bearing:
/// `join` is the minimum under it, which `rank` states for proofs.
#[derive(Clone, Copy, PartialEq, Eq, Structural, PartialOrd, Ord, Debug, Hash)]
pub enum Provenance {
    /// A guess. The weakest.
    Assumed,
    /// Observed on hardware.
    Measured,
    /// Read out of source or an image.
    Extracted,
    /// Swept against a model. The strongest.
    Derived,
}

/// The rank of a provenance. Larger is stronger.
pub open spec fn rank(p: Provenance) -> nat {
    match p {
        Provenance::Assumed => 0,
        Provenance::Measured => 1,
        Provenance::Extracted => 2,
        Provenance::Derived => 3,
    }
}

/// The weaker of two provenances.
pub open spec fn weaker(a: Provenance, b: Provenance) -> Provenance {
    if rank(a) <= rank(b) { a } else { b }
}

impl Provenance {
    /// The rank used by `join`. Larger is stronger.
    pub fn strength(self) -> (r: u8)
        ensures r == rank(self),
    {
        match self {
            Provenance::Assumed => 0,
            Provenance::Measured => 1,
            Provenance::Extracted => 2,
            Provenance::Derived => 3,
        }
    }

    /// The weaker of two provenances.
    pub fn join(self, other: Self) -> (r: Self)
        ensures r == weaker(self, other),
    {
        if self.strength() <= other.strength() { self } else { other }
    }
}

} // verus!
