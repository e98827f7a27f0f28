use boeidl::ast::{Field, FieldType, Usage};
use boeidl::parser::parse;
use boeidl::report::{field_type_name, inspect_report, semantic_report, truncate, usage_name};
use boeidl::validator::{positions_fit, DiagLevel, Diagnostic};

fn field(ty: FieldType, decimals: Option<usize>) -> Field {
    Field {
        name: "x".to_string(),
        at: 1,
        length: 1,
        ty,
        decimals,
        align: None,
        pad: None,
        required: false,
        fixed: None,
        domain: None,
        usage: Usage::All,
        description: None,
    }
}

#[test]
fn type_and_usage_names() {
    assert_eq!(field_type_name(&field(FieldType::Alpha, None)), "alpha");
    assert_eq!(field_type_name(&field(FieldType::Alphanumeric, None)), "alphanumeric");
    assert_eq!(field_type_name(&field(FieldType::Number, None)), "number");
    assert_eq!(field_type_name(&field(FieldType::SignedAmount, Some(2))), "amount(2)");
    assert_eq!(field_type_name(&field(FieldType::SignedAmount, None)), "amount");
    assert_eq!(field_type_name(&field(FieldType::SignedAmountN, Some(2))), "amountN(2)");
    assert_eq!(field_type_name(&field(FieldType::UnsignedAmount, Some(12))), "uamount(12)");
    assert_eq!(usage_name(Usage::All), "all");
    assert_eq!(usage_name(Usage::PrintOnly), "print_only");
    assert_eq!(usage_name(Usage::InternetOnly), "internet_only");
}

#[test]
fn truncate_marks_the_cut() {
    assert_eq!(truncate("corto", 14), "corto");
    assert_eq!(truncate("exacto", 6), "exacto");
    assert_eq!(truncate("c03_rendimiento_neto", 10), "c03_rendi…");
    assert_eq!(truncate("ñandú", 3), "ña…");
}

#[test]
fn semantic_report_lists_errors_or_keeps_warnings() {
    let diags = vec![
        Diagnostic { level: DiagLevel::Warning, message: "w1".to_string() },
        Diagnostic { level: DiagLevel::Error, message: "e1".to_string() },
        Diagnostic { level: DiagLevel::Error, message: "e2".to_string() },
    ];
    assert_eq!(semantic_report(&diags), Err("semantic errors:\n  - e1\n  - e2\n".to_string()));
    let diags = vec![
        Diagnostic { level: DiagLevel::Warning, message: "w1".to_string() },
        Diagnostic { level: DiagLevel::Warning, message: "w2".to_string() },
    ];
    assert_eq!(semantic_report(&diags), Ok(vec!["w1".to_string(), "w2".to_string()]));
    assert_eq!(semantic_report(&Vec::new()), Ok(Vec::<String>::new()));
}

const SMALL: &str = r#"
model "130" version "2015-v11" {
    encoding = "ISO-8859-1"
    line_ending = "CRLF"
    record_length = 30
}

field modelo {
    at = 1
    length = 3
    type = number
    fixed = "130"
}

field nif {
    at = 4
    length = 9
    type = alphanumeric
    usage = print_only
}

field c01_ingresos {
    at = 13
    length = 13
    type = signed_amount
    decimals = 2
}

derive c01_copia = c01_ingresos
"#;

#[test]
fn inspect_table() {
    let file = parse(SMALL).unwrap();
    assert!(positions_fit(&file));
    let table = inspect_report(&file).unwrap();
    let lines: Vec<&str> = table.lines().collect();
    assert_eq!(lines[0], "Modelo 130 (version 2015-v11)");
    assert_eq!(lines[1], "Encoding: Iso8859_1");
    assert_eq!(lines[2], "Record length: 30");
    assert_eq!(lines[3], "");
    assert_eq!(
        lines[4],
        format!(
            "{:<4} {:<32} {:<6} {:<6} {:<14} {:<14} Usage",
            "#", "Name", "At", "Len", "Type", "Fixed"
        )
    );
    assert_eq!(lines[5], "─".repeat(100));
    assert_eq!(
        lines[6],
        format!("{:<4} {:<32} {:<6} {:<6} {:<14} {:<14} {}", 1, "modelo", 1, 3, "number", "130", "all")
    );
    assert_eq!(
        lines[7],
        format!("{:<4} {:<32} {:<6} {:<6} {:<14} {:<14} {}", 2, "nif", 4, 9, "alphanumeric", "", "print_only")
    );
    assert_eq!(
        lines[8],
        format!("{:<4} {:<32} {:<6} {:<6} {:<14} {:<14} {}", 3, "c01_ingresos", 13, 13, "amount(2)", "", "all")
    );
    assert_eq!(lines[9], "");
    assert_eq!(lines[10], "Derives: 1");
    assert_eq!(lines[11], "Checks: 0");
    assert_eq!(lines.len(), 12);
}
