//! The in-circuit commitment gadgets.
//!
//! `PedersenCommitmentGadget` embeds a native parameter set into a
//! constraint system — as constants, private witnesses or public inputs,
//! after checking every generator against the prime-order subgroup — and
//! computes the commitment to a bit string entirely with in-circuit
//! operations.  `PedersenCompressedCommitmentGadget` wraps it and reduces
//! the output to the point's x-coordinate, itself under a constraint.

use vstd::prelude::*;

use crate::group::x_coordinate_of;
use crate::pedersen::{
    bits_of_bytes, randomness_fold, window_fold, PedersenCommitment, PedersenCompressedCommitment,
};
use crate::r1cs::{AllocationMode, ConstraintSystem, FieldElementGadget, GroupElementGadget,
    SynthesisError};

verus! {

/// An in-circuit byte, tracked here by its assigned value.
#[derive(Clone, Copy, Debug, PartialEq, Eq, Structural)]
pub struct UInt8 {
    pub value: u8,
}

/// The byte values of a sequence of in-circuit bytes.
pub open spec fn uint8_values(s: Seq<UInt8>) -> Seq<u8> {
    s.map_values(|b: UInt8| b.value)
}

/// Commitment randomness inside the circuit: an allocated byte sequence,
/// read as bits — with the same little-endian convention as the native
/// scheme — where the randomness is consumed.  Owned by one commitment
/// evaluation.
#[derive(Clone, Debug)]
pub struct PedersenRandomnessGadget {
    pub bytes: Vec<UInt8>,
}

impl PedersenRandomnessGadget {
    /// The randomness bit sequence this gadget stands for.
    pub open spec fn spec_bits(self) -> Seq<bool> {
        bits_of_bytes(uint8_values(self.bytes@))
    }
}

/// The in-circuit Pedersen commitment gadget: one allocated group element
/// per window slot, plus the allocated randomness base.
#[derive(Clone, Debug)]
pub struct PedersenCommitmentGadget {
    pub num_windows: usize,
    pub window_size: usize,
    pub generators: Vec<Vec<GroupElementGadget>>,
    pub randomness_base: GroupElementGadget,
}

impl PedersenCommitmentGadget {
    /// Shape and range invariant, the in-circuit counterpart of the native
    /// parameters' one; allocation further guarantees every generator lies
    /// in the prime-order subgroup.
    pub open spec fn well_formed(self) -> bool {
        &&& 1 <= self.num_windows
        &&& 1 <= self.window_size
        &&& self.num_windows * self.window_size <= crate::pedersen::MAX_CAPACITY_BITS as int
        &&& self.generators@.len() == self.num_windows
        &&& forall|w: int|
            0 <= w < self.generators@.len() ==> (#[trigger] self.generators@[w])@.len()
                == self.window_size
        &&& forall|w: int, i: int|
            0 <= w < self.generators@.len() && 0 <= i < self.generators@[w]@.len() ==> (
            #[trigger] self.generators@[w]@[i]).well_formed()
        &&& forall|w: int, i: int|
            0 <= w < self.generators@.len() && 0 <= i < self.generators@[w]@.len() ==> (
            #[trigger] self.generators@[w]@[i]).in_subgroup()
        &&& self.randomness_base.well_formed()
        &&& self.randomness_base.in_subgroup()
    }

    /// All generators, the randomness base included, were allocated with
    /// the given mode.
    pub open spec fn allocated_with(self, mode: AllocationMode) -> bool {
        &&& forall|w: int, i: int|
            0 <= w < self.generators@.len() && 0 <= i < self.generators@[w]@.len() ==> (
            #[trigger] self.generators@[w]@[i]).mode == mode
        &&& self.randomness_base.mode == mode
    }

    /// The allocated generator table as plain residues.
    pub open spec fn generator_values(self) -> Seq<Seq<int>> {
        self.generators@.map_values(
            |row: Vec<GroupElementGadget>| row@.map_values(|g: GroupElementGadget| g.value as int),
        )
    }

    /// The scheme's capacity: the number of input bits it can commit to.
    pub open spec fn spec_capacity_bits(self) -> int {
        self.num_windows * self.window_size
    }

    /// The value the in-circuit evaluation assigns to the commitment: the
    /// fold of conditional additions over the input bits, then over the
    /// randomness bits with a doubling base.
    pub open spec fn spec_commitment(self, input_bits: Seq<bool>, randomness_bits: Seq<bool>) -> int {
        randomness_fold(
            window_fold(0, self.generator_values(), self.window_size as int, input_bits, 0),
            self.randomness_base.value as int,
            randomness_bits,
            0,
        )
    }

    /// The allocation protocol, shared by the three modes.  All-or-nothing:
    /// either every generator passes the subgroup check and the whole table
    /// plus the randomness base is allocated, or the constraint system is
    /// left untouched.  A generator outside the prime-order subgroup is
    /// rejected before anything else — an unchecked parameter here would
    /// let a degenerate commitment satisfy the circuit.
    pub fn alloc_with_mode(
        cs: &mut ConstraintSystem,
        params: &PedersenCommitment,
        mode: AllocationMode,
    ) -> (r: Result<PedersenCommitmentGadget, SynthesisError>)
        requires
            old(cs).well_formed(),
            params.well_formed(),
        ensures
            final(cs).well_formed(),
            final(cs).max_variables == old(cs).max_variables,
            final(cs).num_constraints@ == old(cs).num_constraints@,
            match r {
                Ok(g) => {
                    &&& params.in_subgroup()
                    &&& old(cs).spec_room() >= params.spec_capacity_bits() + 1
                    &&& g.well_formed()
                    &&& g.allocated_with(mode)
                    &&& g.num_windows == params.num_windows
                    &&& g.window_size == params.window_size
                    &&& g.generator_values() == params.generator_values()
                    &&& g.randomness_base.value == params.randomness_base.value
                    &&& final(cs).total_variables() == old(cs).total_variables()
                        + params.spec_capacity_bits() + 1
                    &&& (mode == AllocationMode::Constant ==> final(cs).num_constants == old(
                    cs).num_constants + params.spec_capacity_bits() + 1 && final(cs).num_witnesses
                        == old(cs).num_witnesses && final(cs).num_public_inputs == old(
                    cs).num_public_inputs)
                    &&& (mode == AllocationMode::Witness ==> final(cs).num_witnesses == old(
                    cs).num_witnesses + params.spec_capacity_bits() + 1 && final(cs).num_constants
                        == old(cs).num_constants && final(cs).num_public_inputs == old(
                    cs).num_public_inputs)
                    &&& (mode == AllocationMode::PublicInput ==> final(cs).num_public_inputs
                        == old(cs).num_public_inputs + params.spec_capacity_bits() + 1 && final(
                    cs).num_constants == old(cs).num_constants && final(cs).num_witnesses == old(
                    cs).num_witnesses)
                },
                Err(e) => {
                    &&& *final(cs) == *old(cs)
                    &&& (!params.in_subgroup() && e == SynthesisError::NotInCorrectSubgroup) || (
                    params.in_subgroup() && old(cs).spec_room() < params.spec_capacity_bits() + 1
                        && e == SynthesisError::AllocationFailed)
                },
            },
    {
        let num_windows = params.num_windows;
        let window_size = params.window_size;
        // Subgroup check on every generator, before any allocation.
        let mut w: usize = 0;
        while w < num_windows
            invariant
                w <= num_windows,
                params.well_formed(),
                num_windows == params.num_windows,
                window_size == params.window_size,
                *cs == *old(cs),
                old(cs).well_formed(),
                forall|a: int, i: int|
                    0 <= a < w && 0 <= i < params.generators@[a]@.len() ==> (
                    #[trigger] params.generators@[a]@[i]).in_subgroup(),
            decreases num_windows - w,
        {
            let mut i: usize = 0;
            while i < window_size
                invariant
                    i <= window_size,
                    w < num_windows,
                    params.well_formed(),
                    num_windows == params.num_windows,
                    window_size == params.window_size,
                    *cs == *old(cs),
                    old(cs).well_formed(),
                    forall|a: int, b: int|
                        0 <= a < w && 0 <= b < params.generators@[a]@.len() ==> (
                        #[trigger] params.generators@[a]@[b]).in_subgroup(),
                    forall|b: int|
                        0 <= b < i ==> (#[trigger] params.generators@[w as int]@[b]).in_subgroup(),
                decreases window_size - i,
            {
                if !params.generators[w][i].is_in_correct_subgroup() {
                    return Err(SynthesisError::NotInCorrectSubgroup);
                }
                i += 1;
            }
            w += 1;
        }
        if !params.randomness_base.is_in_correct_subgroup() {
            return Err(SynthesisError::NotInCorrectSubgroup);
        }
        // Capacity check, before any allocation.
        let needed: u64 = params.capacity_in_bits() + 1;
        if cs.room() < needed {
            return Err(SynthesisError::AllocationFailed);
        }
        // Allocate the whole table.
        let ghost cs0 = *cs;
        let mut generators: Vec<Vec<GroupElementGadget>> = Vec::new();
        let mut w: usize = 0;
        while w < num_windows
            invariant
                w <= num_windows,
                params.well_formed(),
                params.in_subgroup(),
                num_windows == params.num_windows,
                window_size == params.window_size,
                cs.well_formed(),
                cs.max_variables == cs0.max_variables,
                cs.num_constraints@ == cs0.num_constraints@,
                cs0.spec_room() >= params.spec_capacity_bits() + 1,
                cs.total_variables() == cs0.total_variables() + w * window_size,
                mode == AllocationMode::Constant ==> cs.num_witnesses == cs0.num_witnesses
                    && cs.num_public_inputs == cs0.num_public_inputs,
                mode == AllocationMode::Witness ==> cs.num_constants == cs0.num_constants
                    && cs.num_public_inputs == cs0.num_public_inputs,
                mode == AllocationMode::PublicInput ==> cs.num_constants == cs0.num_constants
                    && cs.num_witnesses == cs0.num_witnesses,
                generators@.len() == w,
                forall|a: int|
                    0 <= a < w ==> (#[trigger] generators@[a])@.len() == window_size,
                forall|a: int, i: int|
                    0 <= a < w && 0 <= i < window_size ==> (
                    #[trigger] generators@[a]@[i]).well_formed(),
                forall|a: int, i: int|
                    0 <= a < w && 0 <= i < window_size ==> (
                    #[trigger] generators@[a]@[i]).in_subgroup(),
                forall|a: int, i: int|
                    0 <= a < w && 0 <= i < window_size ==> (#[trigger] generators@[a]@[i]).mode
                        == mode,
                forall|a: int, i: int|
                    0 <= a < w && 0 <= i < window_size ==> (#[trigger] generators@[a]@[i]).value
                        == params.generators@[a]@[i].value,
            decreases num_windows - w,
        {
            let mut row: Vec<GroupElementGadget> = Vec::new();
            let mut i: usize = 0;
            while i < window_size
                invariant
                    i <= window_size,
                    w < num_windows,
                    params.well_formed(),
                    params.in_subgroup(),
                    num_windows == params.num_windows,
                    window_size == params.window_size,
                    cs.well_formed(),
                    cs.max_variables == cs0.max_variables,
                    cs.num_constraints@ == cs0.num_constraints@,
                    cs0.spec_room() >= params.spec_capacity_bits() + 1,
                    cs.total_variables() == cs0.total_variables() + w * window_size + i,
                    mode == AllocationMode::Constant ==> cs.num_witnesses == cs0.num_witnesses
                        && cs.num_public_inputs == cs0.num_public_inputs,
                    mode == AllocationMode::Witness ==> cs.num_constants == cs0.num_constants
                        && cs.num_public_inputs == cs0.num_public_inputs,
                    mode == AllocationMode::PublicInput ==> cs.num_constants == cs0.num_constants
                        && cs.num_witnesses == cs0.num_witnesses,
                    row@.len() == i,
                    forall|b: int| 0 <= b < i ==> (#[trigger] row@[b]).well_formed(),
                    forall|b: int| 0 <= b < i ==> (#[trigger] row@[b]).in_subgroup(),
                    forall|b: int| 0 <= b < i ==> (#[trigger] row@[b]).mode == mode,
                    forall|b: int|
                        0 <= b < i ==> (#[trigger] row@[b]).value
                            == params.generators@[w as int]@[b].value,
                decreases window_size - i,
            {
                proof {
                    assert(w * window_size + i < num_windows * window_size) by (nonlinear_arith)
                        requires
                            0 <= w < num_windows,
                            0 <= i < window_size,
                    ;
                }
                let g = cs.alloc_group_element(&params.generators[w][i], mode);
                row.push(g);
                i += 1;
            }
            generators.push(row);
            proof {
                assert((w + 1) * window_size == w * window_size + window_size)
                    by (nonlinear_arith);
            }
            w += 1;
        }
        let randomness_base = cs.alloc_group_element(&params.randomness_base, mode);
        let gadget = PedersenCommitmentGadget { num_windows, window_size, generators,
            randomness_base };
        proof {
            assert(gadget.generator_values() =~= params.generator_values()) by {
                assert forall|a: int| 0 <= a < num_windows implies gadget.generator_values()[a]
                    =~= params.generator_values()[a] by {};
            }
        }
        Ok(gadget)
    }

    /// Allocates the parameters as circuit constants: parameters are public
    /// and fixed, so beyond the one-time subgroup check no constraint
    /// budget is spent on them.
    pub fn alloc_constant(cs: &mut ConstraintSystem, params: &PedersenCommitment) -> (r: Result<
        PedersenCommitmentGadget,
        SynthesisError,
    >)
        requires
            old(cs).well_formed(),
            params.well_formed(),
        ensures
            final(cs).well_formed(),
            final(cs).max_variables == old(cs).max_variables,
            final(cs).num_constraints@ == old(cs).num_constraints@,
            match r {
                Ok(g) => {
                    &&& params.in_subgroup()
                    &&& g.well_formed()
                    &&& g.allocated_with(AllocationMode::Constant)
                    &&& g.num_windows == params.num_windows
                    &&& g.window_size == params.window_size
                    &&& g.generator_values() == params.generator_values()
                    &&& g.randomness_base.value == params.randomness_base.value
                    &&& final(cs).num_constants == old(cs).num_constants + params.spec_capacity_bits() + 1
                    &&& final(cs).num_witnesses == old(cs).num_witnesses
                    &&& final(cs).num_public_inputs == old(cs).num_public_inputs
                    &&& final(cs).total_variables() == old(cs).total_variables()
                        + params.spec_capacity_bits() + 1
                },
                Err(e) => {
                    &&& *final(cs) == *old(cs)
                    &&& (!params.in_subgroup() && e == SynthesisError::NotInCorrectSubgroup) || (
                    params.in_subgroup() && old(cs).spec_room() < params.spec_capacity_bits() + 1
                        && e == SynthesisError::AllocationFailed)
                },
            },
    {
        Self::alloc_with_mode(cs, params, AllocationMode::Constant)
    }

    /// Allocates the same parameter set as private witnesses, under the
    /// same subgroup contract, for circuits that must prove their
    /// parameters consistent with an external commitment.
    pub fn alloc_witness(cs: &mut ConstraintSystem, params: &PedersenCommitment) -> (r: Result<
        PedersenCommitmentGadget,
        SynthesisError,
    >)
        requires
            old(cs).well_formed(),
            params.well_formed(),
        ensures
            final(cs).well_formed(),
            final(cs).max_variables == old(cs).max_variables,
            final(cs).num_constraints@ == old(cs).num_constraints@,
            match r {
                Ok(g) => {
                    &&& params.in_subgroup()
                    &&& g.well_formed()
                    &&& g.allocated_with(AllocationMode::Witness)
                    &&& g.num_windows == params.num_windows
                    &&& g.window_size == params.window_size
                    &&& g.generator_values() == params.generator_values()
                    &&& g.randomness_base.value == params.randomness_base.value
                    &&& final(cs).num_witnesses == old(cs).num_witnesses + params.spec_capacity_bits() + 1
                    &&& final(cs).num_constants == old(cs).num_constants
                    &&& final(cs).num_public_inputs == old(cs).num_public_inputs
                    &&& final(cs).total_variables() == old(cs).total_variables()
                        + params.spec_capacity_bits() + 1
                },
                Err(e) => {
                    &&& *final(cs) == *old(cs)
                    &&& (!params.in_subgroup() && e == SynthesisError::NotInCorrectSubgroup) || (
                    params.in_subgroup() && old(cs).spec_room() < params.spec_capacity_bits() + 1
                        && e == SynthesisError::AllocationFailed)
                },
            },
    {
        Self::alloc_with_mode(cs, params, AllocationMode::Witness)
    }

    /// Allocates the same parameter set as public circuit inputs, under the
    /// same subgroup contract.
    pub fn alloc_input(cs: &mut ConstraintSystem, params: &PedersenCommitment) -> (r: Result<
        PedersenCommitmentGadget,
        SynthesisError,
    >)
        requires
            old(cs).well_formed(),
            params.well_formed(),
        ensures
            final(cs).well_formed(),
            final(cs).max_variables == old(cs).max_variables,
            final(cs).num_constraints@ == old(cs).num_constraints@,
            match r {
                Ok(g) => {
                    &&& params.in_subgroup()
                    &&& g.well_formed()
                    &&& g.allocated_with(AllocationMode::PublicInput)
                    &&& g.num_windows == params.num_windows
                    &&& g.window_size == params.window_size
                    &&& g.generator_values() == params.generator_values()
                    &&& g.randomness_base.value == params.randomness_base.value
                    &&& final(cs).num_public_inputs == old(cs).num_public_inputs + params.spec_capacity_bits() + 1
                    &&& final(cs).num_constants == old(cs).num_constants
                    &&& final(cs).num_witnesses == old(cs).num_witnesses
                    &&& final(cs).total_variables() == old(cs).total_variables()
                        + params.spec_capacity_bits() + 1
                },
                Err(e) => {
                    &&& *final(cs) == *old(cs)
                    &&& (!params.in_subgroup() && e == SynthesisError::NotInCorrectSubgroup) || (
                    params.in_subgroup() && old(cs).spec_room() < params.spec_capacity_bits() + 1
                        && e == SynthesisError::AllocationFailed)
                },
            },
    {
        Self::alloc_with_mode(cs, params, AllocationMode::PublicInput)
    }
}

impl PedersenCommitmentGadget {
    /// The in-circuit commitment evaluation on bit level: requires nothing
    /// beyond well-formedness, succeeds exactly when the input fits the
    /// capacity `num_windows * window_size`, and then returns the gadget
    /// whose value is the committed point.  Every addition is constrained;
    /// a failure leaves the constraint system untouched.
    pub fn check_commitment_bits(
        &self,
        cs: &mut ConstraintSystem,
        input_bits: &Vec<bool>,
        randomness_bits: &Vec<bool>,
    ) -> (r: Result<GroupElementGadget, SynthesisError>)
        requires
            self.well_formed(),
        ensures
            final(cs).max_variables == old(cs).max_variables,
            final(cs).num_constants == old(cs).num_constants,
            final(cs).num_witnesses == old(cs).num_witnesses,
            final(cs).num_public_inputs == old(cs).num_public_inputs,
            match r {
                Ok(out) => {
                    &&& input_bits@.len() <= self.spec_capacity_bits()
                    &&& out.well_formed()
                    &&& out.value == self.spec_commitment(input_bits@, randomness_bits@)
                    &&& final(cs).num_constraints@ >= old(cs).num_constraints@
                },
                Err(e) => {
                    &&& input_bits@.len() > self.spec_capacity_bits()
                    &&& e == SynthesisError::InputLengthExceeded
                    &&& *final(cs) == *old(cs)
                },
            },
    {
        let cap: u64 = (self.num_windows as u64) * (self.window_size as u64);
        if (input_bits.len() as u64) > cap {
            return Err(SynthesisError::InputLengthExceeded);
        }
        let ghost gens = self.generator_values();
        let ghost bits = input_bits@;
        let ghost ws = self.window_size as int;
        let n_bits: usize = input_bits.len();
        let mut acc = GroupElementGadget { value: 0, mode: AllocationMode::Constant };
        let mut j: usize = 0;
        while j < n_bits
            invariant
                j <= n_bits,
                n_bits == input_bits@.len(),
                n_bits <= self.spec_capacity_bits(),
                self.well_formed(),
                acc.well_formed(),
                gens == self.generator_values(),
                bits == input_bits@,
                ws == self.window_size as int,
                cs.max_variables == old(cs).max_variables,
                cs.num_constants == old(cs).num_constants,
                cs.num_witnesses == old(cs).num_witnesses,
                cs.num_public_inputs == old(cs).num_public_inputs,
                cs.num_constraints@ >= old(cs).num_constraints@,
                window_fold(0, gens, ws, bits, 0) == window_fold(
                    acc.value as int,
                    gens,
                    ws,
                    bits,
                    j as int,
                ),
            decreases n_bits - j,
        {
            let ghost acc_before = acc.value as int;
            if input_bits[j] {
                proof {
                    assert((j as int) / ws < self.num_windows && 0 <= (j as int) / ws && 0 <= (
                    j as int) % ws < ws) by (nonlinear_arith)
                        requires
                            0 <= j < n_bits,
                            1 <= ws,
                            n_bits <= (self.num_windows as int) * ws,
                    ;
                }
                let w: usize = j / self.window_size;
                let i: usize = j % self.window_size;
                let g: GroupElementGadget = self.generators[w][i];
                acc = acc.add(cs, &g);
            }
            proof {
                assert(window_fold(acc_before, gens, ws, bits, j as int) == window_fold(
                    acc.value as int,
                    gens,
                    ws,
                    bits,
                    j as int + 1,
                ));
            }
            j += 1;
        }
        let ghost windowed = acc.value as int;
        let ghost rbits = randomness_bits@;
        let ghost base0 = self.randomness_base.value as int;
        let mut base_power: GroupElementGadget = self.randomness_base;
        let n_rand: usize = randomness_bits.len();
        let mut k: usize = 0;
        while k < n_rand
            invariant
                k <= n_rand,
                n_rand == randomness_bits@.len(),
                rbits == randomness_bits@,
                acc.well_formed(),
                base_power.well_formed(),
                cs.max_variables == old(cs).max_variables,
                cs.num_constants == old(cs).num_constants,
                cs.num_witnesses == old(cs).num_witnesses,
                cs.num_public_inputs == old(cs).num_public_inputs,
                cs.num_constraints@ >= old(cs).num_constraints@,
                randomness_fold(windowed, base0, rbits, 0) == randomness_fold(
                    acc.value as int,
                    base_power.value as int,
                    rbits,
                    k as int,
                ),
            decreases n_rand - k,
        {
            let ghost acc_before = acc.value as int;
            let ghost base_before = base_power.value as int;
            if randomness_bits[k] {
                acc = acc.add(cs, &base_power);
            }
            base_power = base_power.double(cs);
            proof {
                assert(randomness_fold(acc_before, base_before, rbits, k as int)
                    == randomness_fold(
                    acc.value as int,
                    base_power.value as int,
                    rbits,
                    k as int + 1,
                ));
            }
            k += 1;
        }
        Ok(acc)
    }

    /// The in-circuit commitment evaluation on allocated bytes, the form
    /// the surrounding circuit calls: both the input and the randomness
    /// bytes are read through the scheme's bit-serialization convention.
    pub fn check_commitment_gadget(
        &self,
        cs: &mut ConstraintSystem,
        input: &[UInt8],
        randomness: &PedersenRandomnessGadget,
    ) -> (r: Result<GroupElementGadget, SynthesisError>)
        requires
            self.well_formed(),
            input@.len() * 8 <= usize::MAX,
            randomness.bytes@.len() * 8 <= usize::MAX,
        ensures
            final(cs).max_variables == old(cs).max_variables,
            final(cs).num_constants == old(cs).num_constants,
            final(cs).num_witnesses == old(cs).num_witnesses,
            final(cs).num_public_inputs == old(cs).num_public_inputs,
            match r {
                Ok(out) => {
                    &&& 8 * input@.len() <= self.spec_capacity_bits()
                    &&& out.well_formed()
                    &&& out.value == self.spec_commitment(
                        bits_of_bytes(uint8_values(input@)),
                        randomness.spec_bits(),
                    )
                    &&& final(cs).num_constraints@ >= old(cs).num_constraints@
                },
                Err(e) => {
                    &&& 8 * input@.len() > self.spec_capacity_bits()
                    &&& e == SynthesisError::InputLengthExceeded
                    &&& *final(cs) == *old(cs)
                },
            },
    {
        let input_bits = uint8s_to_bits_le(input);
        let randomness_bits = uint8s_to_bits_le(randomness.bytes.as_slice());
        self.check_commitment_bits(cs, &input_bits, &randomness_bits)
    }
}

/// Expands a sequence of in-circuit bytes into its bit values, least
/// significant bit of each byte first.
fn uint8s_to_bits_le(bytes: &[UInt8]) -> (r: Vec<bool>)
    requires
        bytes@.len() * 8 <= usize::MAX,
    ensures
        r@ == bits_of_bytes(uint8_values(bytes@)),
{
    let mut plain: Vec<u8> = Vec::new();
    let n: usize = bytes.len();
    let mut b: usize = 0;
    while b < n
        invariant
            b <= n,
            n == bytes@.len(),
            n * 8 <= usize::MAX,
            plain@.len() == b,
            forall|i: int| 0 <= i < b ==> plain@[i] == bytes@[i].value,
        decreases n - b,
    {
        let byte: UInt8 = bytes[b];
        plain.push(byte.value);
        b += 1;
    }
    proof {
        assert(plain@ =~= uint8_values(bytes@));
    }
    crate::pedersen::bytes_to_bits_le(&plain)
}

/// The compressed commitment gadget: holds one Pedersen commitment gadget,
/// delegates allocation and evaluation to it entirely, and exposes the
/// output as a single field element — the committed point's x-coordinate,
/// extracted under a constraint of its own.
///
/// This wrapper deliberately offers constant allocation only.  Circuits
/// that need the parameters as witnesses or public inputs allocate the
/// inner [`PedersenCommitmentGadget`] through `alloc_witness` or
/// `alloc_input` directly; the compressed form is meant for fixed, public
/// parameter sets.
#[derive(Clone, Debug)]
pub struct PedersenCompressedCommitmentGadget {
    pub pedersen: PedersenCommitmentGadget,
}

impl PedersenCompressedCommitmentGadget {
    pub open spec fn well_formed(self) -> bool {
        self.pedersen.well_formed()
    }

    /// The value the compressed evaluation assigns: the x-coordinate of
    /// the inner gadget's committed point.
    pub open spec fn spec_commitment(self, input_bits: Seq<bool>, randomness_bits: Seq<bool>) -> int {
        x_coordinate_of(self.pedersen.spec_commitment(input_bits, randomness_bits))
    }

    /// Allocates the compressed scheme's parameters as circuit constants:
    /// takes the native parameter set the compressed scheme wraps, checks
    /// every generator against the prime-order subgroup, and delegates to
    /// the inner gadget.
    pub fn alloc_constant(cs: &mut ConstraintSystem, params: &PedersenCompressedCommitment) -> (r:
        Result<PedersenCompressedCommitmentGadget, SynthesisError>)
        requires
            old(cs).well_formed(),
            params.well_formed(),
        ensures
            final(cs).well_formed(),
            final(cs).max_variables == old(cs).max_variables,
            final(cs).num_constraints@ == old(cs).num_constraints@,
            match r {
                Ok(g) => {
                    &&& params.in_subgroup()
                    &&& g.well_formed()
                    &&& g.pedersen.allocated_with(AllocationMode::Constant)
                    &&& g.pedersen.num_windows == params.pedersen.num_windows
                    &&& g.pedersen.window_size == params.pedersen.window_size
                    &&& g.pedersen.generator_values() == params.pedersen.generator_values()
                    &&& g.pedersen.randomness_base.value == params.pedersen.randomness_base.value
                    &&& final(cs).num_constants == old(cs).num_constants
                        + params.pedersen.spec_capacity_bits() + 1
                    &&& final(cs).num_witnesses == old(cs).num_witnesses
                    &&& final(cs).num_public_inputs == old(cs).num_public_inputs
                    &&& final(cs).total_variables() == old(cs).total_variables()
                        + params.pedersen.spec_capacity_bits() + 1
                },
                Err(e) => {
                    &&& *final(cs) == *old(cs)
                    &&& (!params.in_subgroup() && e == SynthesisError::NotInCorrectSubgroup) || (
                    params.in_subgroup() && old(cs).spec_room()
                        < params.pedersen.spec_capacity_bits() + 1 && e
                        == SynthesisError::AllocationFailed)
                },
            },
    {
        match PedersenCommitmentGadget::alloc_constant(cs, params.parameters()) {
            Ok(pedersen) => Ok(PedersenCompressedCommitmentGadget { pedersen }),
            Err(e) => Err(e),
        }
    }

    /// Represents commitment randomness inside the circuit: the raw byte
    /// sequence becomes the randomness gadget's bit source, with no
    /// constraints added at this stage — the bits are constrained where the
    /// randomness is consumed.
    pub fn randomness_from_bytes(bytes: &[UInt8]) -> (r: Result<
        PedersenRandomnessGadget,
        SynthesisError,
    >)
        ensures
            match r {
                Ok(g) => g.bytes@ == bytes@,
                Err(_) => false,
            },
    {
        let mut copied: Vec<UInt8> = Vec::new();
        let n: usize = bytes.len();
        let mut b: usize = 0;
        while b < n
            invariant
                b <= n,
                n == bytes@.len(),
                copied@.len() == b,
                forall|i: int| 0 <= i < b ==> copied@[i] == bytes@[i],
            decreases n - b,
        {
            copied.push(bytes[b]);
            b += 1;
        }
        proof {
            assert(copied@ =~= bytes@);
        }
        Ok(PedersenRandomnessGadget { bytes: copied })
    }

    /// The compressed in-circuit evaluation: delegates to the inner
    /// gadget, then extracts the x-coordinate under a constraint of its own
    /// — visible below as at least one constraint beyond the inner
    /// evaluation's, so a prover cannot substitute an arbitrary field
    /// element for the compressed output.
    pub fn check_commitment_gadget(
        &self,
        cs: &mut ConstraintSystem,
        input: &[UInt8],
        randomness: &PedersenRandomnessGadget,
    ) -> (r: Result<FieldElementGadget, SynthesisError>)
        requires
            self.well_formed(),
            input@.len() * 8 <= usize::MAX,
            randomness.bytes@.len() * 8 <= usize::MAX,
        ensures
            final(cs).max_variables == old(cs).max_variables,
            final(cs).num_constants == old(cs).num_constants,
            final(cs).num_witnesses == old(cs).num_witnesses,
            final(cs).num_public_inputs == old(cs).num_public_inputs,
            match r {
                Ok(out) => {
                    &&& 8 * input@.len() <= self.pedersen.spec_capacity_bits()
                    &&& out.value == self.spec_commitment(
                        bits_of_bytes(uint8_values(input@)),
                        randomness.spec_bits(),
                    )
                    &&& final(cs).num_constraints@ >= old(cs).num_constraints@ + 1
                },
                Err(e) => {
                    &&& 8 * input@.len() > self.pedersen.spec_capacity_bits()
                    &&& e == SynthesisError::InputLengthExceeded
                    &&& *final(cs) == *old(cs)
                },
            },
    {
        match self.pedersen.check_commitment_gadget(cs, input, randomness) {
            Ok(point) => Ok(point.to_x_coordinate(cs)),
            Err(e) => Err(e),
        }
    }
}

/// Equivalence of the gadget and the native scheme: the value the
/// in-circuit fold assigns to the commitment equals the native closed-form
/// Pedersen commitment, for every parameter set the gadget can be allocated
/// from and all input and randomness bits.
pub proof fn lemma_gadget_matches_native(
    gadget: PedersenCommitmentGadget,
    params: PedersenCommitment,
    input_bits: Seq<bool>,
    randomness_bits: Seq<bool>,
)
    requires
        gadget.well_formed(),
        gadget.window_size == params.window_size,
        gadget.generator_values() == params.generator_values(),
        gadget.randomness_base.value == params.randomness_base.value,
    ensures
        gadget.spec_commitment(input_bits, randomness_bits) == params.spec_commitment(
            input_bits,
            randomness_bits,
        ),
{
    let gens = gadget.generator_values();
    let ws = gadget.window_size as int;
    let base = gadget.randomness_base.value as int;
    crate::pedersen::lemma_window_fold_range(0, gens, ws, input_bits, 0);
    crate::pedersen::lemma_randomness_fold_closed(
        window_fold(0, gens, ws, input_bits, 0),
        base,
        randomness_bits,
        0,
    );
}

/// Determinism: two gadget evaluations with the same allocated parameter
/// values — in separate circuit instances or the same one — assign the same
/// value to the commitment.
pub proof fn lemma_gadget_deterministic(
    first: PedersenCommitmentGadget,
    second: PedersenCommitmentGadget,
    input_bits: Seq<bool>,
    randomness_bits: Seq<bool>,
)
    requires
        first.window_size == second.window_size,
        first.generator_values() == second.generator_values(),
        first.randomness_base.value == second.randomness_base.value,
    ensures
        first.spec_commitment(input_bits, randomness_bits) == second.spec_commitment(
            input_bits,
            randomness_bits,
        ),
{
}

/// Compression consistency: the compressed gadget's output is exactly the
/// x-coordinate of the uncompressed gadget's output on the same parameters,
/// input and randomness.
pub proof fn lemma_compression_consistent(
    compressed: PedersenCompressedCommitmentGadget,
    input_bits: Seq<bool>,
    randomness_bits: Seq<bool>,
)
    ensures
        compressed.spec_commitment(input_bits, randomness_bits) == x_coordinate_of(
            compressed.pedersen.spec_commitment(input_bits, randomness_bits),
        ),
{
}

} // verus!
