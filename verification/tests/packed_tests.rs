use unity_asset_core::{decode_integers, encode_integers, PackedElement};

#[test]
fn int32_fixture_and_negative_boundaries_round_trip() {
    assert_eq!(decode_integers("010000000200000003000000", PackedElement::I32).unwrap(), vec![1, 2, 3]);
    let values = vec![-1, i32::MIN as i128, i32::MAX as i128];
    assert_eq!(encode_integers(&values, PackedElement::I32).unwrap(), "ffffffff00000080ffffff7f");
    assert_eq!(decode_integers("ffffffff00000080ffffff7f", PackedElement::I32).unwrap(), values);
    assert!(decode_integers("0100", PackedElement::I32).is_err());
    assert!(decode_integers("zz000000", PackedElement::I32).is_err());
    assert!(encode_integers(&[2147483648], PackedElement::I32).is_err());
}

#[test]
fn exact_wide_integers_round_trip() {
    let values = vec![9007199254740993, i64::MAX as i128];
    let text = encode_integers(&values, PackedElement::I64).unwrap();
    assert_eq!(decode_integers(&text, PackedElement::I64).unwrap(), values);
    assert_eq!(decode_integers("", PackedElement::I32).unwrap(), Vec::<i128>::new());
    let unsigned = vec![18446744073709551615];
    assert_eq!(decode_integers("ffffffffffffffff", PackedElement::U64).unwrap(), unsigned);
    assert_eq!(encode_integers(&unsigned, PackedElement::U64).unwrap(), "ffffffffffffffff");
}

#[test]
fn decoding_trims_and_accepts_uppercase() {
    assert_eq!(decode_integers("  FF7F \n", PackedElement::I16).unwrap(), vec![32767]);
    assert_eq!(decode_integers("ff7f", PackedElement::U16).unwrap(), vec![0x7fff]);
    assert_eq!(decode_integers("8000", PackedElement::I16).unwrap(), vec![128]);
    assert_eq!(decode_integers("0080", PackedElement::I16).unwrap(), vec![-32768]);
}

#[test]
fn decode_errors_name_the_element_and_group_size() {
    let error = decode_integers("0100", PackedElement::I32).unwrap_err();
    assert_eq!(error.code, "packed_array");
    assert_eq!(error.message, "compact I32 array requires hexadecimal groups of 8 characters");
    assert_eq!(error.offset, 0);
    let error = decode_integers("0102", PackedElement::Bool).unwrap_err();
    assert_eq!(error.message, "compact boolean elements must be 0 or 1");
    assert_eq!(decode_integers("0100", PackedElement::Bool).unwrap(), vec![1, 0]);
}

#[test]
fn encode_errors_name_the_range() {
    assert_eq!(
        encode_integers(&[1, 300], PackedElement::U8).unwrap_err().message,
        "value exceeds U8 element range"
    );
    assert_eq!(
        encode_integers(&[2], PackedElement::Bool).unwrap_err().message,
        "compact boolean writes require boolean or integer 0/1"
    );
    assert_eq!(encode_integers(&[1, 0, 1], PackedElement::Bool).unwrap(), "010001");
    assert_eq!(encode_integers(&[-128, 127], PackedElement::I8).unwrap(), "807f");
    assert_eq!(encode_integers(&[], PackedElement::I64).unwrap(), "");
}

#[test]
fn widths_follow_the_element_types() {
    assert_eq!(PackedElement::Bool.width(), 1);
    assert_eq!(PackedElement::U16.width(), 2);
    assert_eq!(PackedElement::F32.width(), 4);
    assert_eq!(PackedElement::I64.width(), 8);
}
