use boeidl::runtime::encode::{
    encode_number, encode_signed_amount, encode_signed_amount_n, encode_unsigned_amount, pad_left,
    pad_right,
};
use boeidl::runtime::errors::AeatError;

#[test]
fn pad_left_zero() {
    assert_eq!(pad_left("42", 5, '0'), "00042");
    assert_eq!(pad_left("12345", 5, '0'), "12345");
    assert_eq!(pad_left("123456", 5, '0'), "123456"); // no truncation
}

#[test]
fn pad_right_space() {
    assert_eq!(pad_right("HI", 5, ' '), "HI   ");
}

#[test]
fn encode_number_pads() {
    assert_eq!(encode_number("x", 130, 3).unwrap(), "130");
    assert_eq!(encode_number("x", 1, 5).unwrap(), "00001");
}

#[test]
fn encode_number_overflows() {
    let err = encode_number("x", 1000, 3).unwrap_err();
    match err {
        AeatError::FieldOverflow {
            width: 3, got: 4, ..
        } => {}
        other => panic!("unexpected: {other:?}"),
    }
}

#[test]
fn encode_signed_positive() {
    // 13 chars total: sign + 12 digits. Value 12345 (= 123.45 with 2 decimals).
    let s = encode_signed_amount("x", 12345, 13, 2).unwrap();
    assert_eq!(s, " 000000012345");
    assert_eq!(s.chars().count(), 13);
}

#[test]
fn encode_signed_negative() {
    let s = encode_signed_amount("x", -12345, 13, 2).unwrap();
    assert_eq!(s, "N000000012345");
}

#[test]
fn encode_signed_zero() {
    let s = encode_signed_amount("x", 0, 13, 2).unwrap();
    assert_eq!(s, " 000000000000");
}

#[test]
fn encode_unsigned_amount_positive() {
    assert_eq!(
        encode_unsigned_amount("x", 1_000_000, 17, 2).unwrap(),
        "00000000001000000"
    );
}

#[test]
fn encode_unsigned_amount_zero() {
    assert_eq!(encode_unsigned_amount("x", 0, 10, 2).unwrap(), "0000000000");
}

#[test]
fn encode_unsigned_amount_rejects_negative() {
    assert!(encode_unsigned_amount("x", -1, 10, 2).is_err());
}

#[test]
fn encode_unsigned_amount_overflow() {
    assert!(encode_unsigned_amount("x", 10_i64.pow(11), 10, 2).is_err());
}

#[test]
fn encode_signed_overflow() {
    // 5 chars total → 4 digits max → 99999 overflows.
    let err = encode_signed_amount("x", 99999, 5, 0).unwrap_err();
    match err {
        AeatError::FieldOverflow {
            width: 5, got: 6, ..
        } => {}
        other => panic!("unexpected: {other:?}"),
    }
}

#[test]
fn encode_signed_n_positive_is_all_digits() {
    assert_eq!(
        encode_signed_amount_n("x", 1_128_041, 17, 2).unwrap(),
        "00000000001128041"
    );
    assert_eq!(
        encode_signed_amount_n("x", 0, 17, 2).unwrap(),
        "00000000000000000"
    );
}

#[test]
fn encode_signed_n_negative_has_n_prefix() {
    assert_eq!(
        encode_signed_amount_n("x", -18_695, 17, 2).unwrap(),
        "N0000000000018695"
    );
}

#[test]
fn encode_signed_n_overflow() {
    assert!(encode_signed_amount_n("x", 10_i64.pow(17), 17, 2).is_err());
    assert!(encode_signed_amount_n("x", -(10_i64.pow(16)), 17, 2).is_err());
}
