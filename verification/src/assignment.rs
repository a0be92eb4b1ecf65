//! The state of a variable, or of a literal, as a set of the values it may still take.
use vstd::prelude::*;

use crate::lit::Lit;

verus! {

/// A set of truth values, held in two bits: bit 0 for "may be false", bit 1 for
/// "may be true". Both bits set means unassigned; no bit set means empty (used
/// as "not seen" in the marks of clause construction and conflict analysis).
#[derive(Clone, Copy, PartialEq, Eq, Debug, Structural)]
pub struct Assignment(pub u8);

impl Assignment {
    /// The value holds one of the four sets.
    pub open spec fn wf(self) -> bool {
        self.0 <= 3
    }

    /// The set holds the value "false".
    pub open spec fn has_neg(self) -> bool {
        self.0 % 2 == 1
    }

    /// The set holds the value "true".
    pub open spec fn has_pos(self) -> bool {
        self.0 >= 2
    }

    /// The set that `negated` gives: the truth values swapped.
    pub open spec fn negated_spec(self) -> Assignment {
        if self.0 == 1 {
            Assignment(2)
        } else if self.0 == 2 {
            Assignment(1)
        } else {
            self
        }
    }

    /// The assignment "true" when `b`, "false" otherwise.
    pub open spec fn of_bool(b: bool) -> Assignment {
        if b {
            Assignment(2)
        } else {
            Assignment(1)
        }
    }

    /// The empty set.
    pub fn empty() -> (a: Assignment)
        ensures
            a == Assignment(0),
    {
        Assignment(0)
    }

    /// The set {false}: the variable is false.
    pub fn negative() -> (a: Assignment)
        ensures
            a == Assignment(1),
    {
        Assignment(1)
    }

    /// The set {true}: the variable is true.
    pub fn positive() -> (a: Assignment)
        ensures
            a == Assignment(2),
    {
        Assignment(2)
    }

    /// The set {false, true}: the variable is unassigned.
    pub fn unassigned() -> (a: Assignment)
        ensures
            a == Assignment(3),
    {
        Assignment(3)
    }

    /// Whether no value is in the set.
    pub fn is_empty(self) -> (b: bool)
        ensures
            b == (self.0 == 0),
    {
        self.0 == 0
    }

    /// Whether every value of `other` is in this set (bitwise containment).
    pub fn contains(self, other: Assignment) -> (b: bool)
        ensures
            b == (self.0 & other.0 == other.0),
    {
        (self.0 & other.0) == other.0
    }

    /// Whether both values are possible, i.e. the variable is unassigned.
    pub fn is_unassigned(self) -> (b: bool)
        ensures
            b == (self.0 == 3),
    {
        self.0 == 3
    }

    /// The assignment seen from the negated literal: "true" and "false" swap,
    /// unassigned and empty stay as they are.
    pub fn negated(self) -> (a: Assignment)
        requires
            self.wf(),
        ensures
            a == self.negated_spec(),
            a.wf(),
    {
        let has_positive = self.contains(Assignment::positive());
        let has_negative = self.contains(Assignment::negative());
        let x: u8 = self.0;
        assert(x <= 3 ==> ((x & 2u8 == 2u8) == (x >= 2u8) && (x & 1u8 == 1u8) == (x % 2u8 == 1u8)))
            by (bit_vector);
        if has_negative == has_positive {
            self
        } else {
            assert(x == 1u8 ==> x ^ 3u8 == 2u8) by (bit_vector);
            assert(x == 2u8 ==> x ^ 3u8 == 1u8) by (bit_vector);
            Assignment(self.0 ^ 3)
        }
    }

    /// "true" for `true`, "false" for `false`.
    pub fn from_bool(b: bool) -> (a: Assignment)
        ensures
            a == Assignment::of_bool(b),
    {
        if b {
            Assignment::positive()
        } else {
            Assignment::negative()
        }
    }

    /// The value under which the literal is true: "true" for a positive literal,
    /// "false" for a negative one.
    pub fn from_lit(lit: Lit) -> (a: Assignment)
        ensures
            a == Assignment::of_bool(lit.is_pos_spec()),
    {
        if lit.is_pos() {
            Assignment::positive()
        } else {
            Assignment::negative()
        }
    }
}

impl From<bool> for Assignment {
    fn from(b: bool) -> (a: Assignment) {
        Assignment::from_bool(b)
    }
}

impl vstd::std_specs::convert::FromSpecImpl<bool> for Assignment {
    open spec fn obeys_from_spec() -> bool {
        true
    }

    open spec fn from_spec(v: bool) -> Assignment {
        Assignment::of_bool(v)
    }
}

impl From<Lit> for Assignment {
    fn from(lit: Lit) -> (a: Assignment) {
        Assignment::from_lit(lit)
    }
}

impl vstd::std_specs::convert::FromSpecImpl<Lit> for Assignment {
    open spec fn obeys_from_spec() -> bool {
        true
    }

    open spec fn from_spec(v: Lit) -> Assignment {
        Assignment::of_bool(v.is_pos_spec())
    }
}

/// Negating an assignment twice gives it back.
pub proof fn lemma_negated_involution(a: Assignment)
    requires
        a.wf(),
    ensures
        a.negated_spec().negated_spec() == a,
        a.negated_spec().wf(),
{
}

} // verus!
