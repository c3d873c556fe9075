//! The concrete group the commitment scheme operates in.
//!
//! The scheme only needs a finite cyclic group with a small cofactor: a
//! prime-order subgroup inside a larger ambient group, addition, doubling,
//! and a lossy "x-coordinate" that identifies a point with its negation
//! (exactly what compressing an elliptic-curve point to its x-coordinate
//! does).  The ambient group here is the additive group of integers modulo
//! `GROUP_ORDER = 2 * SUBGROUP_ORDER`; the prime-order subgroup is the set
//! of even residues, so the cofactor is 2 and the subgroup check is a parity
//! check.

use vstd::prelude::*;

verus! {

/// Order of the ambient group: twice the prime `SUBGROUP_ORDER`.
pub const GROUP_ORDER: u64 = 2000006;

/// Order of the prime-order subgroup (the even residues).
pub const SUBGROUP_ORDER: u64 = 1000003;

/// An element of the ambient group, as its canonical residue.
#[derive(Clone, Copy, Debug, PartialEq, Eq, Structural)]
pub struct GroupElement {
    pub value: u64,
}

impl GroupElement {
    /// A group element is well formed when it stores the canonical residue.
    pub open spec fn well_formed(self) -> bool {
        self.value < GROUP_ORDER
    }

    /// Membership in the prime-order subgroup: the even residues.
    pub open spec fn in_subgroup(self) -> bool {
        self.value % 2 == 0
    }

    /// The identity element.
    pub fn zero() -> (r: GroupElement)
        ensures
            r.value == 0,
            r.well_formed(),
            r.in_subgroup(),
    {
        GroupElement { value: 0 }
    }

    /// Group addition of canonical residues.
    pub fn add(&self, other: &GroupElement) -> (r: GroupElement)
        requires
            self.well_formed(),
            other.well_formed(),
        ensures
            r.value == group_add(self.value as int, other.value as int),
            r.well_formed(),
    {
        let sum: u64 = self.value + other.value;
        if sum >= GROUP_ORDER {
            GroupElement { value: sum - GROUP_ORDER }
        } else {
            GroupElement { value: sum }
        }
    }

    /// Doubling: the element added to itself.
    pub fn double(&self) -> (r: GroupElement)
        requires
            self.well_formed(),
        ensures
            r.value == group_add(self.value as int, self.value as int),
            r.well_formed(),
    {
        self.add(self)
    }

    /// The inverse element.
    pub fn neg(&self) -> (r: GroupElement)
        requires
            self.well_formed(),
        ensures
            r.value == group_neg(self.value as int),
            r.well_formed(),
    {
        if self.value == 0 {
            GroupElement { value: 0 }
        } else {
            GroupElement { value: GROUP_ORDER - self.value }
        }
    }

    /// The subgroup-membership check used when parameters are allocated.
    pub fn is_in_correct_subgroup(&self) -> (r: bool)
        ensures
            r == self.in_subgroup(),
    {
        self.value % 2 == 0
    }

    /// Compression to the "x-coordinate": the smaller of a residue and its
    /// negation, so a point and its inverse compress identically.  Lossy by
    /// design.
    pub fn to_x_coordinate(&self) -> (r: u64)
        requires
            self.well_formed(),
        ensures
            r == x_coordinate_of(self.value as int),
    {
        let negated: GroupElement = self.neg();
        if self.value <= negated.value {
            self.value
        } else {
            negated.value
        }
    }
}

/// Addition in the ambient group, on canonical residues.
pub open spec fn group_add(a: int, b: int) -> int {
    (a + b) % (GROUP_ORDER as int)
}

/// Negation in the ambient group, on canonical residues.
pub open spec fn group_neg(a: int) -> int {
    if a % (GROUP_ORDER as int) == 0 {
        0
    } else {
        (GROUP_ORDER as int) - (a % (GROUP_ORDER as int))
    }
}

/// The compressed form of a canonical residue: the smaller of the residue
/// and its negation.
pub open spec fn x_coordinate_of(a: int) -> int {
    if a <= group_neg(a) {
        a
    } else {
        group_neg(a)
    }
}

/// Compression identifies an element with its negation: the defining
/// property of the lossy x-coordinate.
pub proof fn lemma_x_coordinate_symmetric(a: int)
    requires
        0 <= a < GROUP_ORDER as int,
    ensures
        x_coordinate_of(a) == x_coordinate_of(group_neg(a)),
{
}

} // verus!

