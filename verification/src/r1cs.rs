//! A model of the constraint-system provider the gadgets run against.
//!
//! The gadgets only issue three kinds of requests: allocate a variable (as a
//! constant, a private witness or a public input), build an in-circuit group
//! operation, and enforce a constraint.  The model tracks how many variables
//! of each kind have been allocated against a fixed capacity, and counts the
//! enforced constraints in ghost state, so that contracts can say that an
//! operation really was constrained and that a failed allocation leaves the
//! system untouched.

use vstd::prelude::*;

use crate::group::{group_add, x_coordinate_of, GroupElement, GROUP_ORDER};

verus! {

/// Failure of circuit construction.  Every gadget operation either fully
/// constrains its output or returns one of these and leaves the constraint
/// system unchanged.
#[derive(Clone, Copy, Debug, PartialEq, Eq, Structural)]
pub enum SynthesisError {
    /// The constraint-system provider has no room for the requested
    /// allocations.
    AllocationFailed,
    /// A parameter point lies outside the prime-order subgroup.
    NotInCorrectSubgroup,
    /// The committed input holds more bits than the scheme's capacity.
    InputLengthExceeded,
}

/// How a variable is embedded in the circuit.
#[derive(Clone, Copy, Debug, PartialEq, Eq, Structural)]
pub enum AllocationMode {
    Constant,
    Witness,
    PublicInput,
}

/// The constraint-system model: allocation counters against a capacity, and
/// a ghost count of enforced constraints.
pub struct ConstraintSystem {
    pub max_variables: u64,
    pub num_constants: u64,
    pub num_witnesses: u64,
    pub num_public_inputs: u64,
    pub num_constraints: Ghost<nat>,
}

impl ConstraintSystem {
    /// Total number of allocated variables.
    pub open spec fn total_variables(self) -> int {
        self.num_constants + self.num_witnesses + self.num_public_inputs
    }

    /// The counters never exceed the capacity.
    pub open spec fn well_formed(self) -> bool {
        self.total_variables() <= self.max_variables
    }

    /// Unused allocation capacity.
    pub open spec fn spec_room(self) -> int {
        self.max_variables - self.total_variables()
    }

    /// A fresh, empty constraint system with the given allocation capacity.
    pub fn new(max_variables: u64) -> (r: ConstraintSystem)
        ensures
            r.well_formed(),
            r.max_variables == max_variables,
            r.num_constants == 0,
            r.num_witnesses == 0,
            r.num_public_inputs == 0,
            r.num_constraints@ == 0,
    {
        ConstraintSystem {
            max_variables,
            num_constants: 0,
            num_witnesses: 0,
            num_public_inputs: 0,
            num_constraints: Ghost(0),
        }
    }

    /// Unused allocation capacity, for the pre-checks of all-or-nothing
    /// allocation.
    pub fn room(&self) -> (r: u64)
        requires
            self.well_formed(),
        ensures
            r == self.spec_room(),
    {
        self.max_variables - (self.num_constants + self.num_witnesses + self.num_public_inputs)
    }

    /// Allocate one group element as a circuit variable of the given mode.
    /// The provider demands free capacity; the gadgets check for room first
    /// and surface the shortfall as `SynthesisError::AllocationFailed`.
    pub fn alloc_group_element(
        &mut self,
        value: &GroupElement,
        mode: AllocationMode,
    ) -> (r: GroupElementGadget)
        requires
            old(self).well_formed(),
            old(self).spec_room() >= 1,
            value.well_formed(),
        ensures
            final(self).well_formed(),
            r.value == value.value,
            r.mode == mode,
            r.well_formed(),
            final(self).max_variables == old(self).max_variables,
            final(self).num_constraints@ == old(self).num_constraints@,
            final(self).total_variables() == old(self).total_variables() + 1,
            mode == AllocationMode::Constant ==> final(self).num_constants
                == old(self).num_constants + 1 && final(self).num_witnesses
                == old(self).num_witnesses && final(self).num_public_inputs
                == old(self).num_public_inputs,
            mode == AllocationMode::Witness ==> final(self).num_witnesses
                == old(self).num_witnesses + 1 && final(self).num_constants
                == old(self).num_constants && final(self).num_public_inputs
                == old(self).num_public_inputs,
            mode == AllocationMode::PublicInput ==> final(self).num_public_inputs
                == old(self).num_public_inputs + 1 && final(self).num_constants
                == old(self).num_constants && final(self).num_witnesses
                == old(self).num_witnesses,
    {
        match mode {
            AllocationMode::Constant => {
                self.num_constants = self.num_constants + 1;
            },
            AllocationMode::Witness => {
                self.num_witnesses = self.num_witnesses + 1;
            },
            AllocationMode::PublicInput => {
                self.num_public_inputs = self.num_public_inputs + 1;
            },
        }
        GroupElementGadget { value: value.value, mode }
    }

    /// Record one enforced constraint.
    fn enforce(&mut self)
        ensures
            final(self).num_constraints@ == old(self).num_constraints@ + 1,
            final(self).max_variables == old(self).max_variables,
            final(self).num_constants == old(self).num_constants,
            final(self).num_witnesses == old(self).num_witnesses,
            final(self).num_public_inputs == old(self).num_public_inputs,
    {
        let ghost n = self.num_constraints@;
        self.num_constraints = Ghost(n + 1);
    }
}

/// An in-circuit group element: the value the circuit assigns to it, and the
/// mode of the allocation it descends from.
#[derive(Clone, Copy, Debug, PartialEq, Eq, Structural)]
pub struct GroupElementGadget {
    pub value: u64,
    pub mode: AllocationMode,
}

/// An in-circuit base-field element, the output form of the compressed
/// commitment gadget.
#[derive(Clone, Copy, Debug, PartialEq, Eq, Structural)]
pub struct FieldElementGadget {
    pub value: u64,
}

impl GroupElementGadget {
    pub open spec fn well_formed(self) -> bool {
        self.value < GROUP_ORDER
    }

    pub open spec fn in_subgroup(self) -> bool {
        self.value % 2 == 0
    }

    /// In-circuit group addition: computes the assigned value and enforces
    /// the constraint tying it to the two addends.
    pub fn add(&self, cs: &mut ConstraintSystem, other: &GroupElementGadget) -> (r:
        GroupElementGadget)
        requires
            self.well_formed(),
            other.well_formed(),
        ensures
            r.value == group_add(self.value as int, other.value as int),
            r.mode == self.mode,
            r.well_formed(),
            final(cs).num_constraints@ == old(cs).num_constraints@ + 1,
            final(cs).max_variables == old(cs).max_variables,
            final(cs).num_constants == old(cs).num_constants,
            final(cs).num_witnesses == old(cs).num_witnesses,
            final(cs).num_public_inputs == old(cs).num_public_inputs,
    {
        cs.enforce();
        let lhs = GroupElement { value: self.value };
        let rhs = GroupElement { value: other.value };
        let sum = lhs.add(&rhs);
        GroupElementGadget { value: sum.value, mode: self.mode }
    }

    /// In-circuit doubling.
    pub fn double(&self, cs: &mut ConstraintSystem) -> (r: GroupElementGadget)
        requires
            self.well_formed(),
        ensures
            r.value == group_add(self.value as int, self.value as int),
            r.mode == self.mode,
            r.well_formed(),
            final(cs).num_constraints@ == old(cs).num_constraints@ + 1,
            final(cs).max_variables == old(cs).max_variables,
            final(cs).num_constants == old(cs).num_constants,
            final(cs).num_witnesses == old(cs).num_witnesses,
            final(cs).num_public_inputs == old(cs).num_public_inputs,
    {
        self.add(cs, self)
    }

    /// In-circuit compression: extracts the x-coordinate and enforces the
    /// constraint binding it to this point, so a prover cannot substitute an
    /// unrelated field element.
    pub fn to_x_coordinate(&self, cs: &mut ConstraintSystem) -> (r: FieldElementGadget)
        requires
            self.well_formed(),
        ensures
            r.value == x_coordinate_of(self.value as int),
            final(cs).num_constraints@ == old(cs).num_constraints@ + 1,
            final(cs).max_variables == old(cs).max_variables,
            final(cs).num_constants == old(cs).num_constants,
            final(cs).num_witnesses == old(cs).num_witnesses,
            final(cs).num_public_inputs == old(cs).num_public_inputs,
    {
        cs.enforce();
        let point = GroupElement { value: self.value };
        FieldElementGadget { value: point.to_x_coordinate() }
    }
}

} // verus!
