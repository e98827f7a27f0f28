use boeidl::ast::TemplatePart;
use boeidl::parser::parse;
use boeidl::validator::{validate, DiagLevel};

const TWO_RECORDS: &str = r#"
model "999" version "1" {
    encoding = "ISO-8859-1"
    line_ending = "LF"
    record_length = 20
}

record "a" {
    record_length = 10
    field tag { at = 1 length = 3 type = alphanumeric fixed = "<A>" }
    field n1 { at = 4 length = 4 type = number }
    field n2 { at = 8 length = 3 type = number }
    derive n2 = n1 + 1
    check C1 { rule = n2 > n1 severity = error message = "n2 > n1" }
}

record "b" {
    record_length = 20
    field t { at = 1 length = 10 type = signed_amount decimals = 2 }
    field u { at = 11 length = 10 type = signed_n decimals = 2 }
}

envelope {
    param year { length = 4 type = number required = true }
    header = "<H${year}>"
    trailer = "</H${year}>"
    contains = [a, b]
}
"#;

#[test]
fn error_free_model_has_sound_layout_and_references() {
    let file = parse(TWO_RECORDS).unwrap();
    let diags = validate(&file);
    assert!(diags.iter().all(|d| d.level != DiagLevel::Error), "{diags:?}");
    for r in &file.records {
        for (i, f) in r.fields.iter().enumerate() {
            assert!(f.at >= 1 && f.length >= 1);
            assert!(f.at + f.length - 1 <= r.record_length);
            for (j, g) in r.fields.iter().enumerate() {
                if i != j {
                    assert!(f.at + f.length <= g.at || g.at + g.length <= f.at);
                    assert_ne!(f.name, g.name);
                }
            }
        }
    }
    let env = file.envelope.as_ref().unwrap();
    assert!(!env.contains.is_empty());
    for c in &env.contains {
        assert!(file.records.iter().any(|r| &r.name == c));
    }
    for part in env.header.0.iter().chain(env.trailer.0.iter()) {
        if let TemplatePart::Field(name) = part {
            assert!(env.params.iter().any(|p| &p.name == name));
        }
    }
}

#[test]
fn overlap_and_bad_references_are_errors() {
    let src = TWO_RECORDS
        .replace("field n2 { at = 8", "field n2 { at = 7")
        .replace("contains = [a, b]", "contains = [a, c]")
        .replace("derive n2 = n1 + 1", "derive n1 = n2 + 1");
    let file = parse(&src).unwrap();
    let errors: Vec<String> = validate(&file)
        .into_iter()
        .filter(|d| d.level == DiagLevel::Error)
        .map(|d| d.message)
        .collect();
    assert!(errors.iter().any(|m| m.contains("overlaps previous field")), "{errors:?}");
    assert!(errors.iter().any(|m| m.contains("record desconocido `c`")), "{errors:?}");
    assert!(errors.iter().any(|m| m.contains("forward reference to `n2`")), "{errors:?}");
}

#[test]
fn parsed_files_clone_to_equal_values() {
    let file = parse(TWO_RECORDS).unwrap();
    let copy = file.clone();
    assert_eq!(copy, file);
    let rule = file.records[0].checks[0].rule.clone();
    assert_eq!(rule, file.records[0].checks[0].rule);
    let call = parse(
        "model \"1\" version \"1\" { encoding = \"ASCII\" line_ending = \"LF\" record_length = 9 }\nderive x = max(a, min(b, 2))",
    )
    .unwrap();
    let e = call.records[0].derives[0].expr.clone();
    assert_eq!(e, call.records[0].derives[0].expr);
}

#[test]
fn loose_items_form_one_record_and_cannot_mix_with_records() {
    let head = "model \"130\" version \"1\" { encoding = \"ASCII\" line_ending = \"LF\" record_length = 12 }\n";
    let file = parse(&format!(
        "{head}field a {{ at = 1 length = 2 type = number }}\nderive b = a\nfield b {{ at = 3 length = 2 type = number }}\ncheck C {{ rule = a == b severity = error message = \"m\" }}"
    ))
    .unwrap();
    assert_eq!(file.records.len(), 1);
    let r = &file.records[0];
    assert_eq!(r.name, "mod130");
    assert_eq!(r.record_length, 12);
    let names: Vec<&str> = r.fields.iter().map(|f| f.name.as_str()).collect();
    assert_eq!(names, vec!["a", "b"]);
    assert_eq!(r.derives.len(), 1);
    assert_eq!(r.checks.len(), 1);
    let err = parse(&format!(
        "{head}record \"x\" {{ record_length = 4 }}\nfield a {{ at = 1 length = 2 type = number }}"
    ))
    .unwrap_err();
    assert_eq!(err.to_string(), "cannot mix top-level fields with record blocks");
}

#[test]
fn gap_is_a_warning_and_overlap_an_error() {
    let head = "model \"1\" version \"1\" { encoding = \"ASCII\" line_ending = \"LF\" record_length = 10 }\n";
    let gap = parse(&format!(
        "{head}field a {{ at = 1 length = 3 type = number }}\nfield b {{ at = 6 length = 5 type = number }}"
    ))
    .unwrap();
    let d = validate(&gap);
    assert!(d.iter().all(|x| x.level != DiagLevel::Error));
    assert!(d.iter().any(|x| x.level == DiagLevel::Warning && x.message == "gap between positions 4 and 5 (before field `b`)"));
    let full = parse(&format!(
        "{head}field a {{ at = 1 length = 5 type = number }}\nfield b {{ at = 6 length = 5 type = number }}"
    ))
    .unwrap();
    assert!(validate(&full).is_empty());
    let over = parse(&format!(
        "{head}field a {{ at = 1 length = 5 type = number }}\nfield b {{ at = 3 length = 5 type = number }}"
    ))
    .unwrap();
    assert!(validate(&over)
        .iter()
        .any(|x| x.level == DiagLevel::Error && x.message.contains("overlaps previous field")));
}

fn errors_after(from: &str, to: &str) -> Vec<String> {
    let src = TWO_RECORDS.replace(from, to);
    assert_ne!(src, TWO_RECORDS);
    validate(&parse(&src).unwrap())
        .into_iter()
        .filter(|d| d.level == DiagLevel::Error)
        .map(|d| d.message)
        .collect()
}

#[test]
fn each_error_names_its_only_cause() {
    assert_eq!(
        errors_after("type = number }\n    field n2", "type = number decimals = 2 }\n    field n2"),
        vec!["record `a`: field `n1`: `decimals` only allowed on signed_amount or unsigned_amount"]
    );
    assert_eq!(
        errors_after("rule = n2 > n1", "rule = n2 > n9"),
        vec!["record `a`: check `C1`: unknown field `n9`"]
    );
    assert_eq!(
        errors_after("fixed = \"<A>\"", "fixed = \"<AB>\""),
        vec!["record `a`: field `tag`: fixed value length 4 does not match declared length 3"]
    );
    assert_eq!(
        errors_after("header = \"<H${year}>\"", "header = \"<H${yy}>\""),
        vec!["envelope header: `${yy}` no es un param declarado"]
    );
    assert_eq!(
        errors_after("field n2 { at = 8 length = 3", "field n2 { at = 8 length = 4"),
        vec!["record `a`: field `n2`: end position 11 exceeds record_length 10"]
    );
}
