use pedersen_gadget::binding_signature::BindingSignatureError;
use pedersen_gadget::pedersen::CommitmentError;

#[test]
fn anyhow_variant_round_trips_with_its_message() {
    let error = BindingSignatureError::AnyhowError(anyhow::Error::msg("lower layer failed"));
    let generic = error.to_generic();
    assert_eq!(generic.code, 1);
    assert_eq!(generic.message, "lower layer failed");
    let back = BindingSignatureError::from_generic(&generic);
    assert_eq!(back.code(), 1);
    match back {
        BindingSignatureError::AnyhowError(cause) => {
            assert_eq!(format!("{}", cause), "lower layer failed");
        }
        _ => panic!("wrong variant"),
    }
}

#[test]
fn commitment_variant_round_trips() {
    let error =
        BindingSignatureError::CommitmentError(CommitmentError::IncorrectInputLength(40));
    let generic = error.to_generic();
    assert_eq!(generic.code, 2);
    assert_eq!(generic.length, 40);
    let back = BindingSignatureError::from_generic(&generic);
    match back {
        BindingSignatureError::CommitmentError(CommitmentError::IncorrectInputLength(n)) => {
            assert_eq!(n, 40);
        }
        _ => panic!("wrong variant"),
    }
}

#[test]
fn crate_variant_round_trips() {
    let error = BindingSignatureError::Crate("storage".to_string(), "disk gone".to_string());
    let generic = error.to_generic();
    assert_eq!(generic.code, 3);
    assert_eq!(generic.source, "storage");
    assert_eq!(generic.message, "disk gone");
    let back = BindingSignatureError::from_generic(&generic);
    match back {
        BindingSignatureError::Crate(source, message) => {
            assert_eq!(source, "storage");
            assert_eq!(message, "disk gone");
        }
        _ => panic!("wrong variant"),
    }
}

#[test]
fn message_variant_round_trips() {
    let error = BindingSignatureError::Message("ad hoc".to_string());
    let generic = error.to_generic();
    assert_eq!(generic.code, 4);
    let back = BindingSignatureError::from_generic(&generic);
    match back {
        BindingSignatureError::Message(message) => assert_eq!(message, "ad hoc"),
        _ => panic!("wrong variant"),
    }
}

#[test]
fn subgroup_variant_round_trips_with_point_encoding() {
    let error = BindingSignatureError::NotInCorrectSubgroupOnCurve(vec![9, 8, 7]);
    let generic = error.to_generic();
    assert_eq!(generic.code, 5);
    assert_eq!(generic.point, vec![9, 8, 7]);
    let back = BindingSignatureError::from_generic(&generic);
    match back {
        BindingSignatureError::NotInCorrectSubgroupOnCurve(point) => {
            assert_eq!(point, vec![9, 8, 7]);
        }
        _ => panic!("wrong variant"),
    }
}

#[test]
fn out_of_bounds_variant_round_trips_with_extreme_values() {
    for balance in [i64::MIN, -1, 0, i64::MAX] {
        let error = BindingSignatureError::OutOfBounds(balance);
        let generic = error.to_generic();
        assert_eq!(generic.code, 6);
        assert_eq!(generic.balance, balance);
        let back = BindingSignatureError::from_generic(&generic);
        match back {
            BindingSignatureError::OutOfBounds(b) => assert_eq!(b, balance),
            _ => panic!("wrong variant"),
        }
    }
}

#[test]
fn unknown_code_collapses_to_message() {
    let mut generic = BindingSignatureError::Message("free text".to_string()).to_generic();
    generic.code = 999;
    let back = BindingSignatureError::from_generic(&generic);
    match back {
        BindingSignatureError::Message(message) => assert_eq!(message, "free text"),
        _ => panic!("wrong variant"),
    }
}

#[test]
fn value_balance_at_i64_min_is_out_of_bounds() {
    let result = pedersen_gadget::binding_signature::validate_value_balance(i64::MIN);
    match result {
        Err(BindingSignatureError::OutOfBounds(b)) => assert_eq!(b, i64::MIN),
        _ => panic!("expected an out-of-bounds failure"),
    }
}

#[test]
fn value_balance_wrap_of_i64_max_plus_one_is_out_of_bounds() {
    let wrapped = i64::MAX.wrapping_add(1);
    assert_eq!(wrapped, i64::MIN);
    let result = pedersen_gadget::binding_signature::validate_value_balance(wrapped);
    match result {
        Err(BindingSignatureError::OutOfBounds(b)) => assert_eq!(b, wrapped),
        _ => panic!("expected an out-of-bounds failure"),
    }
}

#[test]
fn value_balance_in_bounds_passes_through() {
    assert_eq!(
        pedersen_gadget::binding_signature::validate_value_balance(0).unwrap(),
        0
    );
    assert_eq!(
        pedersen_gadget::binding_signature::validate_value_balance(i64::MAX).unwrap(),
        i64::MAX
    );
    assert_eq!(
        pedersen_gadget::binding_signature::validate_value_balance(-i64::MAX).unwrap(),
        -i64::MAX
    );
}

#[test]
fn io_error_wraps_as_a_named_source_failure() {
    let io_error = std::io::Error::new(std::io::ErrorKind::NotFound, "missing block");
    let error = BindingSignatureError::from_io_error(io_error);
    assert_eq!(error.code(), 3);
    match error {
        BindingSignatureError::Crate(source, message) => {
            assert_eq!(source, "std::io");
            assert!(message.contains("missing block"));
        }
        _ => panic!("wrong variant"),
    }
}

#[test]
fn collapsing_into_io_error_keeps_the_description() {
    let error = BindingSignatureError::Message("signature failed".to_string());
    let io_error = error.into_io_error();
    assert_eq!(io_error.kind(), std::io::ErrorKind::Other);
    assert_eq!(io_error.to_string(), "signature failed");

    let error = BindingSignatureError::Crate("db".to_string(), "broken".to_string());
    let io_error = error.into_io_error();
    assert_eq!(io_error.to_string(), "db: broken");
}

#[test]
fn io_error_text_carries_the_out_of_bounds_balance() {
    let io_error = BindingSignatureError::OutOfBounds(i64::MIN).into_io_error();
    assert_eq!(io_error.kind(), std::io::ErrorKind::Other);
    assert_eq!(
        io_error.to_string(),
        "The value balance is out of bounds: -9223372036854775808"
    );

    let io_error = BindingSignatureError::OutOfBounds(42).into_io_error();
    assert_eq!(io_error.to_string(), "The value balance is out of bounds: 42");
}

#[test]
fn io_error_text_carries_the_offending_point_encoding() {
    let io_error =
        BindingSignatureError::NotInCorrectSubgroupOnCurve(vec![1, 2, 255]).into_io_error();
    assert_eq!(io_error.kind(), std::io::ErrorKind::Other);
    assert_eq!(
        io_error.to_string(),
        "Affine point is not in the correct subgroup on curve [1, 2, 255]"
    );

    let io_error = BindingSignatureError::NotInCorrectSubgroupOnCurve(Vec::new()).into_io_error();
    assert_eq!(
        io_error.to_string(),
        "Affine point is not in the correct subgroup on curve []"
    );
}

#[test]
fn describe_renders_each_payload() {
    let error = BindingSignatureError::OutOfBounds(-3);
    assert_eq!(error.describe(), "The value balance is out of bounds: -3");
    let error = BindingSignatureError::OutOfBounds(0);
    assert_eq!(error.describe(), "The value balance is out of bounds: 0");
    let error = BindingSignatureError::OutOfBounds(i64::MAX);
    assert_eq!(
        error.describe(),
        "The value balance is out of bounds: 9223372036854775807"
    );
    let error =
        BindingSignatureError::CommitmentError(CommitmentError::IncorrectInputLength(9));
    assert_eq!(error.describe(), "The input length is incorrect: 9");
    let error = BindingSignatureError::NotInCorrectSubgroupOnCurve(vec![100]);
    assert_eq!(
        error.describe(),
        "Affine point is not in the correct subgroup on curve [100]"
    );
    let error = BindingSignatureError::AnyhowError(anyhow::Error::msg("deep cause"));
    assert_eq!(error.describe(), "deep cause");
}

#[test]
fn from_impls_convert_in_both_directions() {
    let io_error = std::io::Error::new(std::io::ErrorKind::Other, "pipe closed");
    let error = BindingSignatureError::from(io_error);
    match error {
        BindingSignatureError::Crate(source, message) => {
            assert_eq!(source, "std::io");
            assert!(message.contains("pipe closed"));
        }
        _ => panic!("wrong variant"),
    }

    let back: std::io::Error = BindingSignatureError::Message("sum is off".to_string()).into();
    assert_eq!(back.to_string(), "sum is off");
}

#[test]
fn io_round_trip_restores_out_of_bounds() {
    for balance in [i64::MIN, -1, 0, 42, i64::MAX] {
        let io_error = BindingSignatureError::OutOfBounds(balance).into_io_error();
        let back = BindingSignatureError::from_io_error(io_error);
        match back {
            BindingSignatureError::OutOfBounds(b) => assert_eq!(b, balance),
            _ => panic!("wrong variant"),
        }
    }
}

#[test]
fn io_round_trip_restores_subgroup_point() {
    for point in [vec![], vec![0], vec![1, 2, 255], vec![10, 0, 0, 200]] {
        let io_error =
            BindingSignatureError::NotInCorrectSubgroupOnCurve(point.clone()).into_io_error();
        let back = BindingSignatureError::from_io_error(io_error);
        match back {
            BindingSignatureError::NotInCorrectSubgroupOnCurve(p) => assert_eq!(p, point),
            _ => panic!("wrong variant"),
        }
    }
}

#[test]
fn io_round_trip_restores_commitment_failure() {
    let io_error = BindingSignatureError::CommitmentError(
        CommitmentError::IncorrectInputLength(40),
    )
    .into_io_error();
    let back = BindingSignatureError::from_io_error(io_error);
    match back {
        BindingSignatureError::CommitmentError(CommitmentError::IncorrectInputLength(n)) => {
            assert_eq!(n, 40);
        }
        _ => panic!("wrong variant"),
    }
}

#[test]
fn io_round_trip_keeps_free_text_as_named_source() {
    let io_error = BindingSignatureError::Message("free text".to_string()).into_io_error();
    let back = BindingSignatureError::from_io_error(io_error);
    match back {
        BindingSignatureError::Crate(source, message) => {
            assert_eq!(source, "std::io");
            assert_eq!(message, "free text");
        }
        _ => panic!("wrong variant"),
    }
}

#[test]
fn from_description_rejects_non_canonical_renderings() {
    let back = BindingSignatureError::from_description(
        &"The value balance is out of bounds: 007".to_string(),
    );
    assert_eq!(back.code(), 3);
    let back = BindingSignatureError::from_description(
        &"Affine point is not in the correct subgroup on curve [1,2]".to_string(),
    );
    assert_eq!(back.code(), 3);
    let back = BindingSignatureError::from_description(
        &"Affine point is not in the correct subgroup on curve [300]".to_string(),
    );
    assert_eq!(back.code(), 3);
    let back = BindingSignatureError::from_description(
        &"The value balance is out of bounds: -".to_string(),
    );
    assert_eq!(back.code(), 3);
}

#[test]
fn from_impls_wrap_lower_layer_causes() {
    let error = BindingSignatureError::from(anyhow::Error::msg("deep"));
    assert_eq!(error.code(), 1);
    let error = BindingSignatureError::from(CommitmentError::IncorrectInputLength(7));
    match error {
        BindingSignatureError::CommitmentError(CommitmentError::IncorrectInputLength(n)) => {
            assert_eq!(n, 7);
        }
        _ => panic!("wrong variant"),
    }
}

#[test]
fn variant_codes_are_distinct() {
    let errors = [
        BindingSignatureError::AnyhowError(anyhow::Error::msg("x")),
        BindingSignatureError::CommitmentError(CommitmentError::IncorrectInputLength(1)),
        BindingSignatureError::Crate("a".to_string(), "b".to_string()),
        BindingSignatureError::Message("c".to_string()),
        BindingSignatureError::NotInCorrectSubgroupOnCurve(vec![0]),
        BindingSignatureError::OutOfBounds(1),
    ];
    let codes: Vec<u64> = errors.iter().map(|e| e.code()).collect();
    assert_eq!(codes, vec![1, 2, 3, 4, 5, 6]);
}
