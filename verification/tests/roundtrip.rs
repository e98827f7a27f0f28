use boeidl::runtime::bytes::{
    append_latin1, parse_signed_amount, parse_signed_amount_n, parse_unsigned_amount, read_field,
    verify_literal, write_field,
};
use boeidl::runtime::encode::{
    encode_number, encode_signed_amount, encode_signed_amount_n, encode_unsigned_amount, pad_left,
    pad_right,
};
use boeidl::runtime::sanitize::{sanitize_alpha, sanitize_alphanumeric};

#[test]
fn signed_amount_survives_a_record() {
    for v in [0_i64, 1, -1, 5_640_204, -18_695, 999_999_999_999, -999_999_999_999] {
        let mut buf = vec![b'#'; 40];
        let s = encode_signed_amount("c", v, 13, 2).unwrap();
        assert_eq!(s.chars().count(), 13);
        write_field(&mut buf, 7, 13, &s, "c").unwrap();
        assert_eq!(parse_signed_amount(&buf, 7, 13).unwrap(), v);
        // Bytes outside the field keep their value.
        assert!(buf[..6].iter().all(|b| *b == b'#'));
        assert!(buf[19..].iter().all(|b| *b == b'#'));
    }
}

#[test]
fn signed_amount_n_survives_a_record() {
    for v in [0_i64, 1_128_041, -18_695, 99_999_999_999_999_999, -9_999_999_999_999_999] {
        let mut buf = vec![b' '; 30];
        let s = encode_signed_amount_n("c", v, 17, 2).unwrap();
        assert_eq!(s.chars().count(), 17);
        write_field(&mut buf, 3, 17, &s, "c").unwrap();
        assert_eq!(parse_signed_amount_n(&buf, 3, 17).unwrap(), v);
    }
}

#[test]
fn unsigned_amount_survives_a_record() {
    for v in [0_i64, 7, 240_715, 12_345_678_901] {
        let mut buf = vec![b' '; 30];
        let s = encode_unsigned_amount("c", v, 17, 2).unwrap();
        write_field(&mut buf, 10, 17, &s, "c").unwrap();
        assert_eq!(parse_unsigned_amount(&buf, 10, 17).unwrap(), v);
    }
}

#[test]
fn number_survives_a_record() {
    let mut buf = vec![b' '; 8];
    let s = encode_number("ejercicio", 2026, 4).unwrap();
    write_field(&mut buf, 2, 4, &s, "ejercicio").unwrap();
    assert_eq!(read_field(&buf, 2, 4), "2026");
    assert_eq!(parse_unsigned_amount(&buf, 2, 4).unwrap(), 2026);
}

#[test]
fn latin1_text_survives_a_record() {
    let mut buf = vec![0u8; 12];
    write_field(&mut buf, 4, 6, "ÇAÑO ", "x").unwrap();
    assert_eq!(read_field(&buf, 4, 6), "ÇAÑO \0");
    assert_eq!(read_field(&buf, 4, 5), "ÇAÑO ");
    assert_eq!(&buf[..3], &[0, 0, 0]);
}

#[test]
fn write_field_overflow_writes_the_prefix() {
    let mut buf = vec![b'.'; 6];
    let err = write_field(&mut buf, 2, 3, "ABCDE", "x").unwrap_err();
    assert_eq!(err.to_string(), "field `x`: value has 5 chars but field width is 3");
    assert_eq!(&buf, b".ABC..");
}

#[test]
fn appended_literal_is_verified() {
    let mut buf = b"<T1300".to_vec();
    append_latin1(&mut buf, "20261T0000>").unwrap();
    append_latin1(&mut buf, "<AUX>").unwrap();
    assert!(verify_literal(&buf, 0, "<T130020261T0000>", "header").is_ok());
    assert!(verify_literal(&buf, 17, "<AUX>", "aux").is_ok());
}

#[test]
fn sanitize_is_idempotent_and_keeps_length() {
    let inputs = ["Peña García, José-María", "ç ü ÿ 123 @€", "", "ÁÉÍÓÚ ñ"];
    for s in inputs {
        let a = sanitize_alpha(s);
        assert_eq!(a.chars().count(), s.chars().count());
        assert_eq!(sanitize_alpha(&a), a);
        assert!(a
            .chars()
            .all(|c| c.is_ascii_uppercase() || c == ' ' || c == 'Ñ' || c == 'Ç'));
        let n = sanitize_alphanumeric(s);
        assert_eq!(n.chars().count(), s.chars().count());
        assert_eq!(sanitize_alphanumeric(&n), n);
        assert!(n
            .chars()
            .all(|c| c.is_ascii_uppercase() || c.is_ascii_digit() || c == ' ' || c == 'Ñ' || c == 'Ç'));
        // Sanitized text always fits an ISO-8859-1 record.
        let mut buf = vec![b' '; a.chars().count()];
        write_field(&mut buf, 1, a.chars().count(), &a, "x").unwrap();
    }
}

#[test]
fn padding_lengths() {
    assert_eq!(pad_left("7", 3, '0'), "007");
    assert_eq!(pad_right("AB", 5, ' '), "AB   ");
    assert_eq!(pad_left("12345", 3, '0'), "12345");
    assert_eq!(pad_right("12345", 3, ' '), "12345");
    assert_eq!(pad_left("", 2, '*'), "**");
}
