use pedersen_gadget::gadget::{
    PedersenCommitmentGadget, PedersenCompressedCommitmentGadget, UInt8,
};
use pedersen_gadget::group::{GroupElement, GROUP_ORDER};
use pedersen_gadget::pedersen::{
    bytes_to_bits_le, CommitmentError, PedersenCommitment, PedersenCompressedCommitment,
};
use pedersen_gadget::r1cs::{AllocationMode, ConstraintSystem, SynthesisError};

fn to_uint8s(bytes: &[u8]) -> Vec<UInt8> {
    bytes.iter().map(|b| UInt8 { value: *b }).collect()
}

#[test]
fn setup_has_expected_shape() {
    let params = PedersenCommitment::setup(8, 4, 42);
    assert_eq!(params.num_windows, 8);
    assert_eq!(params.window_size, 4);
    assert_eq!(params.generators.len(), 8);
    for row in &params.generators {
        assert_eq!(row.len(), 4);
        for g in row {
            assert!(g.value < GROUP_ORDER);
            assert_eq!(g.value % 2, 0);
        }
    }
    assert_eq!(params.randomness_base.value % 2, 0);
}

#[test]
fn zero_input_and_zero_randomness_commit_to_identity() {
    let params = PedersenCommitment::setup(8, 4, 42);
    let commitment = params.commit(&Vec::new(), &Vec::new()).unwrap();
    assert_eq!(commitment.value, 0);
}

#[test]
fn exact_commitment_value_on_tiny_scheme() {
    // With seed 0 the derived generators are 0 and 2, and the randomness
    // base is 4.  Committing to bits [1, 1] with randomness bits [1, 0, 1]
    // yields 0 + 2 + 4 + 16 = 22.
    let params = PedersenCommitment::setup(1, 2, 0);
    assert_eq!(params.generators[0][0].value, 0);
    assert_eq!(params.generators[0][1].value, 2);
    assert_eq!(params.randomness_base.value, 4);
    let commitment = params
        .commit_bits(&vec![true, true], &vec![true, false, true])
        .unwrap();
    assert_eq!(commitment.value, 22);
}

#[test]
fn x_coordinate_identifies_a_point_with_its_negation() {
    let point = GroupElement { value: GROUP_ORDER - 5 };
    assert_eq!(point.to_x_coordinate(), 5);
    let point = GroupElement { value: 5 };
    assert_eq!(point.to_x_coordinate(), 5);
    let identity = GroupElement { value: 0 };
    assert_eq!(identity.to_x_coordinate(), 0);
}

#[test]
fn bytes_expand_to_little_endian_bits() {
    let bits = bytes_to_bits_le(&vec![0b0000_0101, 0b1000_0000]);
    assert_eq!(
        bits,
        vec![
            true, false, true, false, false, false, false, false, // 0x05
            false, false, false, false, false, false, false, true, // 0x80
        ]
    );
}

#[test]
fn scenario_all_ones_input_matches_native_commitment() {
    let params = PedersenCompressedCommitment::setup(8, 4, 42);
    let input = vec![0xFFu8; 4];
    let randomness = vec![3u8];

    let native_point = params.parameters().commit(&input, &randomness).unwrap();
    let native_compressed = params.commit(&input, &randomness).unwrap();
    assert_eq!(native_compressed, native_point.to_x_coordinate());

    let mut cs = ConstraintSystem::new(u64::MAX);
    let gadget = PedersenCompressedCommitmentGadget::alloc_constant(&mut cs, &params).unwrap();
    let input_gadget = to_uint8s(&input);
    let randomness_gadget =
        PedersenCompressedCommitmentGadget::randomness_from_bytes(&to_uint8s(&randomness))
            .unwrap();
    let output = gadget
        .check_commitment_gadget(&mut cs, input_gadget.as_slice(), &randomness_gadget)
        .unwrap();
    assert_eq!(output.value, native_compressed);
    assert_ne!(output.value, 0);
}

#[test]
fn gadget_output_equals_native_commitment() {
    let params = PedersenCommitment::setup(4, 8, 7);
    let input = vec![0x5Au8, 0xC3, 0x01];
    let randomness = vec![0x10u8, 0x99];
    let native = params.commit(&input, &randomness).unwrap();

    let mut cs = ConstraintSystem::new(u64::MAX);
    let gadget = PedersenCommitmentGadget::alloc_constant(&mut cs, &params).unwrap();
    let randomness_gadget =
        PedersenCompressedCommitmentGadget::randomness_from_bytes(&to_uint8s(&randomness))
            .unwrap();
    let output = gadget
        .check_commitment_gadget(&mut cs, to_uint8s(&input).as_slice(), &randomness_gadget)
        .unwrap();
    assert_eq!(output.value, native.value);
}

#[test]
fn repeated_evaluation_in_separate_circuits_is_deterministic() {
    let params = PedersenCommitment::setup(8, 4, 99);
    let input = vec![0xABu8, 0xCD];
    let randomness = vec![0x11u8];

    let mut outputs = Vec::new();
    for _ in 0..2 {
        let mut cs = ConstraintSystem::new(u64::MAX);
        let gadget = PedersenCommitmentGadget::alloc_constant(&mut cs, &params).unwrap();
        let randomness_gadget =
            PedersenCompressedCommitmentGadget::randomness_from_bytes(&to_uint8s(&randomness))
                .unwrap();
        let output = gadget
            .check_commitment_gadget(&mut cs, to_uint8s(&input).as_slice(), &randomness_gadget)
            .unwrap();
        outputs.push(output.value);
    }
    assert_eq!(outputs[0], outputs[1]);
}

#[test]
fn capacity_boundary_is_exact() {
    // 8 windows of 4 bits: exactly 32 bits succeed, 33 bits fail.
    let params = PedersenCommitment::setup(8, 4, 42);
    let mut cs = ConstraintSystem::new(u64::MAX);
    let gadget = PedersenCommitmentGadget::alloc_constant(&mut cs, &params).unwrap();

    let at_capacity = vec![true; 32];
    let result = gadget.check_commitment_bits(&mut cs, &at_capacity, &vec![true, false]);
    assert!(result.is_ok());

    let one_bit_beyond = vec![true; 33];
    let result = gadget.check_commitment_bits(&mut cs, &one_bit_beyond, &vec![true, false]);
    assert_eq!(result.unwrap_err(), SynthesisError::InputLengthExceeded);

    let native = params.commit_bits(&one_bit_beyond, &Vec::new());
    assert_eq!(
        native.unwrap_err(),
        CommitmentError::IncorrectInputLength(33)
    );
}

#[test]
fn constant_allocation_rejects_a_generator_outside_the_subgroup() {
    let mut params = PedersenCommitment::setup(2, 2, 5);
    // An odd residue lies outside the prime-order (even) subgroup.
    params.generators[1][0] = GroupElement { value: 3 };
    let mut cs = ConstraintSystem::new(u64::MAX);
    let result = PedersenCommitmentGadget::alloc_constant(&mut cs, &params);
    assert_eq!(result.unwrap_err(), SynthesisError::NotInCorrectSubgroup);
    // All-or-nothing: nothing was allocated.
    assert_eq!(cs.num_constants, 0);
}

#[test]
fn constant_allocation_accepts_subgroup_parameters() {
    let params = PedersenCommitment::setup(2, 2, 5);
    let mut cs = ConstraintSystem::new(u64::MAX);
    let gadget = PedersenCommitmentGadget::alloc_constant(&mut cs, &params).unwrap();
    // 2 * 2 generators plus the randomness base, all as constants.
    assert_eq!(cs.num_constants, 5);
    assert_eq!(cs.num_witnesses, 0);
    assert_eq!(cs.num_public_inputs, 0);
    assert_eq!(gadget.generators.len(), 2);
    for row in &gadget.generators {
        for g in row {
            assert_eq!(g.mode, AllocationMode::Constant);
        }
    }
}

#[test]
fn compressed_allocation_rejects_bad_subgroup_too() {
    let mut params = PedersenCompressedCommitment::setup(2, 2, 5);
    params.pedersen.randomness_base = GroupElement { value: 1 };
    let mut cs = ConstraintSystem::new(u64::MAX);
    let result = PedersenCompressedCommitmentGadget::alloc_constant(&mut cs, &params);
    assert_eq!(result.unwrap_err(), SynthesisError::NotInCorrectSubgroup);
}

#[test]
fn allocation_fails_without_capacity_and_leaves_the_system_untouched() {
    let params = PedersenCommitment::setup(2, 2, 5);
    // Five variables are needed; only three fit.
    let mut cs = ConstraintSystem::new(3);
    let result = PedersenCommitmentGadget::alloc_constant(&mut cs, &params);
    assert_eq!(result.unwrap_err(), SynthesisError::AllocationFailed);
    assert_eq!(cs.num_constants, 0);
    assert_eq!(cs.num_witnesses, 0);
    assert_eq!(cs.num_public_inputs, 0);
}

#[test]
fn witness_and_public_input_allocation_use_their_modes() {
    let params = PedersenCommitment::setup(2, 3, 11);
    let mut cs = ConstraintSystem::new(u64::MAX);
    let witness_gadget = PedersenCommitmentGadget::alloc_witness(&mut cs, &params).unwrap();
    assert_eq!(cs.num_witnesses, 7);
    assert_eq!(cs.num_constants, 0);
    assert_eq!(witness_gadget.randomness_base.mode, AllocationMode::Witness);

    let mut cs = ConstraintSystem::new(u64::MAX);
    let input_gadget = PedersenCommitmentGadget::alloc_input(&mut cs, &params).unwrap();
    assert_eq!(cs.num_public_inputs, 7);
    assert_eq!(input_gadget.randomness_base.mode, AllocationMode::PublicInput);
}

#[test]
fn compressed_output_is_x_coordinate_of_uncompressed_output() {
    let params = PedersenCompressedCommitment::setup(8, 4, 13);
    let input = vec![0x0Fu8, 0xF0];
    let randomness = vec![0x42u8];

    let mut cs = ConstraintSystem::new(u64::MAX);
    let uncompressed =
        PedersenCommitmentGadget::alloc_constant(&mut cs, params.parameters()).unwrap();
    let randomness_gadget =
        PedersenCompressedCommitmentGadget::randomness_from_bytes(&to_uint8s(&randomness))
            .unwrap();
    let point = uncompressed
        .check_commitment_gadget(&mut cs, to_uint8s(&input).as_slice(), &randomness_gadget)
        .unwrap();

    let mut cs = ConstraintSystem::new(u64::MAX);
    let compressed = PedersenCompressedCommitmentGadget::alloc_constant(&mut cs, &params).unwrap();
    let field_element = compressed
        .check_commitment_gadget(&mut cs, to_uint8s(&input).as_slice(), &randomness_gadget)
        .unwrap();

    let expected = GroupElement { value: point.value }.to_x_coordinate();
    assert_eq!(field_element.value, expected);
}

#[test]
fn randomness_from_bytes_keeps_the_bytes() {
    let bytes = to_uint8s(&[1, 2, 3, 255]);
    let gadget = PedersenCompressedCommitmentGadget::randomness_from_bytes(bytes.as_slice())
        .unwrap();
    assert_eq!(gadget.bytes, bytes);
}
