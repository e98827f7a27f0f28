use boeidl::parser::parse;
use boeidl::runtime::bytes::{parse_signed_amount, parse_unsigned_amount, verify_literal};
use boeidl::runtime::encode::{encode_signed_amount, encode_unsigned_amount};
use boeidl::runtime::errors::AeatError;

#[test]
fn error_messages() {
    let e = AeatError::FieldOverflow { field: "nif".to_string(), width: 9, got: 10 };
    assert_eq!(e.to_string(), "field `nif`: value has 10 chars but field width is 9");
    let e = AeatError::MissingRequired { field: "nif".to_string() };
    assert_eq!(e.to_string(), "field `nif`: required value is empty");
    let e = AeatError::InvalidValue { field: "periodo".to_string(), value: "5T".to_string() };
    assert_eq!(e.to_string(), "field `periodo`: invalid value `5T`");
    let e = AeatError::ShortRecord { expected: 878, got: 12 };
    assert_eq!(e.to_string(), "record too short: expected 878 bytes, got 12");
    assert_eq!(AeatError::InvalidEncoding.to_string(), "invalid ISO-8859-1 encoding");
    let e = AeatError::InvalidDelimiter {
        context: "header".to_string(),
        expected: "<T13>".to_string(),
        got: "<X13>".to_string(),
    };
    assert_eq!(
        e.to_string(),
        "delimitador inválido en header: esperaba `<T13>`, encontrado `<X13>`"
    );
}

#[test]
fn each_error_variant_has_an_input() {
    assert!(matches!(
        encode_signed_amount("c", 1_000, 4, 2),
        Err(AeatError::FieldOverflow { width: 4, got: 5, .. })
    ));
    assert!(matches!(
        encode_signed_amount("c", 0, 0, 2),
        Err(AeatError::FieldOverflow { width: 0, got: 1, .. })
    ));
    assert_eq!(
        encode_unsigned_amount("c", -5, 4, 2),
        Err(AeatError::InvalidValue { field: "c".to_string(), value: "-5".to_string() })
    );
    assert_eq!(
        parse_unsigned_amount(b"12", 1, 5),
        Err(AeatError::ShortRecord { expected: 5, got: 2 })
    );
    // Every byte is ISO-8859-1: a non-digit byte is an invalid value, never an encoding error.
    assert_eq!(
        parse_unsigned_amount(&[0xff], 1, 1),
        Err(AeatError::InvalidValue {
            field: "parse_unsigned_amount@1".to_string(),
            value: "ÿ".to_string()
        })
    );
    assert_eq!(
        parse_unsigned_amount(&[0x31, 0xd1], 1, 2),
        Err(AeatError::InvalidValue {
            field: "parse_unsigned_amount@1".to_string(),
            value: "1Ñ".to_string()
        })
    );
    assert_eq!(
        parse_unsigned_amount(b"12A4", 1, 4),
        Err(AeatError::InvalidValue {
            field: "parse_unsigned_amount@1".to_string(),
            value: "12A4".to_string()
        })
    );
    assert_eq!(
        parse_signed_amount(b" 12X", 1, 4),
        Err(AeatError::InvalidValue { field: "<at 1>".to_string(), value: " 12X".to_string() })
    );
    assert_eq!(
        verify_literal(b"<AUY>", 0, "<AUX>", "aux"),
        Err(AeatError::InvalidDelimiter {
            context: "aux".to_string(),
            expected: "<AUX>".to_string(),
            got: "<AUY>".to_string()
        })
    );
}

#[test]
fn parse_error_messages() {
    let msg = |src: &str| parse(src).unwrap_err().to_string();
    assert_eq!(msg(""), "missing `model` block");
    assert_eq!(
        msg("model \"130\" {"),
        "model: expected `model \"<number>\" version \"<version>\" {`"
    );
    assert_eq!(
        msg("model \"130\" version \"1\" { encoding = \"UTF-8\" }"),
        "unknown encoding: UTF-8"
    );
    assert_eq!(msg("model @"), "syntax error: unexpected character or unterminated string");
    let head = "model \"1\" version \"1\" { encoding = \"ASCII\" line_ending = \"LF\" record_length = 9 }\n";
    assert_eq!(msg(&format!("{head}record \"r\" {{ }}")), "record `r`: missing `record_length`");
    assert_eq!(
        msg(&format!("{head}field f {{ at = 1 length = 2 type = alpha colour = red }}")),
        "field `f`: unsupported attribute `colour` (value rule ident)"
    );
    assert_eq!(msg(&format!("{head}derive x = foo(1)")), "unknown function: foo");
    assert_eq!(
        msg(&format!("{head}field f {{ at = 1 length = 2 type = text }}")),
        "unknown field type: text"
    );
    assert_eq!(
        msg(&format!("{head}field f {{ at = x length = 2 type = alpha }}")),
        "field `f`: unsupported attribute `at` (value rule ident)"
    );
    assert_eq!(
        msg(&format!("{head}field f {{ at = 99999999999999999999999 length = 2 type = alpha }}")),
        "at: number too large to fit in target type"
    );
    assert_eq!(
        msg("model \"1\" version \"1\" { encoding = \"ASCII\" line_ending = \"LF\" record_length = \"9\" }"),
        "invalid record_length: invalid digit found in string"
    );
    assert_eq!(
        msg(&format!("{head}check C {{ rule = a == 1 severity = error message = 5 }}")),
        "check `C`: unsupported attr `message` (rule int)"
    );
    assert_eq!(msg(&format!("{head}field f {{ at = 1 length = 2 type = alpha align = centre }}")), "unknown align: centre");
    assert_eq!(msg(&format!("{head}field f {{ at = 1 length = 2 type = alpha pad = dots }}")), "unknown pad: dots");
    assert_eq!(
        msg(&format!("{head}field f {{ at = 1 length = 2 type = alpha required = yes }}")),
        "required must be true/false, got yes"
    );
    assert_eq!(msg(&format!("{head}field f {{ at = 1 length = 2 type = alpha usage = web }}")), "unknown usage: web");
    assert_eq!(msg(&format!("{head}derive x = (1")), "expected `)`");
    assert_eq!(
        msg(&format!("{head}check C {{ rule = a == 1 severity = fatal message = \"m\" }}")),
        "unknown severity: fatal"
    );
    assert_eq!(msg(&format!("{head}envelope {{ header = \"${{x\" }}")), "envelope: malformed template");
    assert_eq!(
        msg(&format!("{head}envelope {{ header = \"h\" trailer = \"t\" }} envelope {{ }}")),
        "only one `envelope` block is allowed per file"
    );
}
