//! Ordered scalar keys: the `Token` capability and its integer instance.

use vstd::prelude::*;

verus! {

/// An ordered key, projected to an unsigned scalar. The tree core only needs
/// this projection, a deterministic midpoint, and the order induced by the
/// scalar.
pub trait Token: Sized {
    /// The scalar this token stands for.
    spec fn spec_value(&self) -> u64;

    /// Projection to the scalar.
    fn value(&self) -> (v: u64)
        ensures
            v == self.spec_value(),
    ;

    /// Deterministic midpoint: for ordered arguments the result lies between
    /// them and is exactly the floored average of the two scalars.
    fn midpoint(&self, other: &Self) -> (m: Self)
        requires
            self.spec_value() <= other.spec_value(),
        ensures
            m.spec_value() == (self.spec_value() + other.spec_value()) / 2,
            self.spec_value() <= m.spec_value() <= other.spec_value(),
    ;
}

/// A token that is just an unsigned integer.
#[derive(Clone, Copy, PartialEq, Eq, Structural, PartialOrd, Debug)]
pub struct IntegerToken {
    value: u64,
}

impl IntegerToken {
    pub fn new(v: u64) -> (t: Self)
        ensures
            t.spec_value() == v,
    {
        IntegerToken { value: v }
    }
}

impl Token for IntegerToken {
    closed spec fn spec_value(&self) -> u64 {
        self.value
    }

    fn value(&self) -> (v: u64) {
        self.value
    }

    fn midpoint(&self, other: &Self) -> (m: Self) {
        let v: u64 = self.value + (other.value - self.value) / 2;
        proof {
            assert(v == (self.value + other.value) / 2) by (nonlinear_arith)
                requires
                    self.value <= other.value,
                    v == self.value + (other.value - self.value) / 2,
            ;
        }
        IntegerToken { value: v }
    }
}

} // verus!
