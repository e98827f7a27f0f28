use boeidl::runtime::sanitize::{sanitize_alpha, sanitize_alphanumeric};

#[test]
fn uppercases_ascii() {
    assert_eq!(sanitize_alpha("hola mundo"), "HOLA MUNDO");
}

#[test]
fn strips_accents_keeps_enye_and_cedilla() {
    assert_eq!(sanitize_alpha("Señor Peña"), "SEÑOR PEÑA");
    assert_eq!(sanitize_alpha("Barça"), "BARÇA");
    assert_eq!(sanitize_alpha("José Martín"), "JOSE MARTIN");
}

#[test]
fn digits_only_in_alphanumeric() {
    assert_eq!(sanitize_alpha("A1B2"), "A B ");
    assert_eq!(sanitize_alphanumeric("A1B2"), "A1B2");
}

#[test]
fn replaces_invalid_with_space() {
    assert_eq!(sanitize_alpha("hi!"), "HI ");
    assert_eq!(sanitize_alphanumeric("a-b"), "A B");
}
