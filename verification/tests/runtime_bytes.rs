use boeidl::runtime::bytes::{
    append_latin1, parse_signed_amount, parse_signed_amount_n, parse_unsigned_amount, read_field,
    verify_literal, write_field,
};
use boeidl::runtime::errors::AeatError;

#[test]
fn write_ascii_and_latin1() {
    let mut buf = vec![b' '; 10];
    write_field(&mut buf, 1, 5, "HOLA", "x").unwrap();
    assert_eq!(&buf[0..5], b"HOLA ");

    write_field(&mut buf, 6, 5, "PEÑA", "x").unwrap();
    assert_eq!(buf[5], b'P');
    assert_eq!(buf[6], b'E');
    assert_eq!(buf[7], 0xD1); // Ñ in ISO-8859-1
    assert_eq!(buf[8], b'A');
}

#[test]
fn write_rejects_non_latin1() {
    let mut buf = vec![b' '; 10];
    let err = write_field(&mut buf, 1, 5, "€uro", "x").unwrap_err();
    assert!(matches!(err, AeatError::InvalidValue { .. }));
}

#[test]
fn read_latin1_roundtrip() {
    let mut buf = vec![b' '; 10];
    write_field(&mut buf, 1, 5, "PEÑA ", "x").unwrap();
    assert_eq!(read_field(&buf, 1, 5), "PEÑA ");
}

#[test]
fn parse_signed_positive_and_negative() {
    let mut buf = vec![b' '; 20];
    write_field(&mut buf, 1, 13, " 000000012345", "x").unwrap();
    assert_eq!(parse_signed_amount(&buf, 1, 13).unwrap(), 12345);

    let mut buf = vec![b' '; 20];
    write_field(&mut buf, 1, 13, "N000000012345", "x").unwrap();
    assert_eq!(parse_signed_amount(&buf, 1, 13).unwrap(), -12345);
}

#[test]
fn parse_unsigned_basic() {
    assert_eq!(
        parse_unsigned_amount(b"00000000001000000", 1, 17).unwrap(),
        1_000_000
    );
}

#[test]
fn append_latin1_pushes_bytes() {
    let mut buf = Vec::new();
    append_latin1(&mut buf, "<AUX>").unwrap();
    assert_eq!(buf, b"<AUX>");
    append_latin1(&mut buf, "PEÑA").unwrap();
    assert_eq!(buf[5], b'P');
    assert_eq!(buf[7], 0xD1); // Ñ
}

#[test]
fn append_latin1_rejects_non_latin1() {
    let mut buf = Vec::new();
    assert!(append_latin1(&mut buf, "€").is_err());
}

#[test]
fn verify_literal_ok_and_mismatch() {
    let data = b"<T13002026";
    verify_literal(data, 0, "<T1300", "header").unwrap();
    let err = verify_literal(data, 0, "<AUX>", "header").unwrap_err();
    assert!(matches!(err, AeatError::InvalidDelimiter { .. }));
}

#[test]
fn verify_literal_short_data() {
    let err = verify_literal(b"<T", 0, "<T1300", "header").unwrap_err();
    assert!(matches!(err, AeatError::ShortRecord { .. }));
}

#[test]
fn parse_signed_n_roundtrip() {
    let mut buf = vec![b' '; 20];
    write_field(&mut buf, 1, 17, "00000000001128041", "x").unwrap();
    assert_eq!(parse_signed_amount_n(&buf, 1, 17).unwrap(), 1_128_041);
    let mut buf = vec![b' '; 20];
    write_field(&mut buf, 1, 17, "N0000000000018695", "x").unwrap();
    assert_eq!(parse_signed_amount_n(&buf, 1, 17).unwrap(), -18_695);
}
