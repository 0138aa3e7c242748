//! Fitness: the exact reciprocal of a path's cost.

use vstd::prelude::*;

verus! {

/// How desirable a candidate is. `Inverse(c)` stands for the fraction `1/c`,
/// the fitness of a candidate whose path costs `c`; `Inverse(0)` is above
/// every other value. `Zero` is the fitness of a candidate without a path.
#[derive(Clone, Copy, Debug, PartialEq, Eq, Structural)]
pub enum Fitness {
    Zero,
    Inverse(u128),
}

impl Fitness {
    /// The numerator of the fraction that the fitness stands for.
    pub open spec fn numerator(self) -> nat {
        match self {
            Fitness::Zero => 0,
            Fitness::Inverse(_) => 1,
        }
    }

    /// The denominator of the fraction that the fitness stands for.
    pub open spec fn denominator(self) -> nat {
        match self {
            Fitness::Zero => 1,
            Fitness::Inverse(cost) => cost as nat,
        }
    }

    /// `self` is strictly greater than `other`: among reciprocals the one of
    /// the smaller cost is greater, and every reciprocal is above zero.
    pub open spec fn exceeds(self, other: Fitness) -> bool {
        match (self, other) {
            (Fitness::Zero, _) => false,
            (Fitness::Inverse(_), Fitness::Zero) => true,
            (Fitness::Inverse(mine), Fitness::Inverse(theirs)) => mine < theirs,
        }
    }

    /// The fitness that a decoding earns: the reciprocal of the cost found,
    /// or zero where no path was found.
    pub open spec fn of(outcome: Option<(Seq<usize>, nat)>) -> Fitness {
        match outcome {
            Some((_, cost)) => Fitness::Inverse(cost as u128),
            None => Fitness::Zero,
        }
    }

    /// Whether `self` is strictly greater than `other`.
    pub fn is_above(&self, other: &Fitness) -> (above: bool)
        ensures
            above == self.exceeds(*other),
    {
        match (*self, *other) {
            (Fitness::Zero, _) => false,
            (Fitness::Inverse(_), Fitness::Zero) => true,
            (Fitness::Inverse(mine), Fitness::Inverse(theirs)) => mine < theirs,
        }
    }
}

/// Where neither denominator is zero, `exceeds` compares the two fractions:
/// `a` exceeds `b` exactly when `a`'s numerator times `b`'s denominator is
/// the greater of the two cross products.
pub proof fn lemma_exceeds_compares_fractions(a: Fitness, b: Fitness)
    requires
        a.denominator() > 0,
        b.denominator() > 0,
    ensures
        a.exceeds(b) <==> a.numerator() * b.denominator() > b.numerator() * a.denominator(),
{
}

/// `exceeds` is a strict order in which any two values compare: nothing is
/// above itself, the relation is transitive, and of two values neither of
/// which is above the other, both are equal.
pub proof fn lemma_exceeds_is_strict_total(a: Fitness, b: Fitness, c: Fitness)
    ensures
        !a.exceeds(a),
        a.exceeds(b) && b.exceeds(c) ==> a.exceeds(c),
        a.exceeds(b) ==> !b.exceeds(a),
        !a.exceeds(b) && !b.exceeds(c) ==> !a.exceeds(c),
        !a.exceeds(b) && !b.exceeds(a) ==> a == b,
{
}

} // verus!
