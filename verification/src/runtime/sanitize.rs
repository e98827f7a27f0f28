//! AEAT text sanitization.
//!
//! The BOE format requires uppercase text in ISO-8859-1, without accents, but
//! keeping Ñ and Ç, which are part of the allowed alphabet.
//!
//! - `sanitize_alpha`        → only letters (A-Z, Ñ, Ç) and spaces
//! - `sanitize_alphanumeric` → letters, digits and spaces
//!
//! Invalid characters are replaced with a space.
use vstd::prelude::*;

use crate::text::{chars_of, push_char};

verus! {

pub open spec fn is_upper_ascii(c: char) -> bool {
    'A' <= c <= 'Z'
}

pub open spec fn is_lower_ascii(c: char) -> bool {
    'a' <= c <= 'z'
}

/// The base letter an accented (or otherwise decorated) Spanish-relevant
/// letter folds to, if any.
pub open spec fn accent_base(c: char) -> Option<char> {
    if c == 'Á' || c == 'À' || c == 'Ä' || c == 'Â' || c == 'Ã' || c == 'Å' || c == 'á' || c == 'à'
        || c == 'ä' || c == 'â' || c == 'ã' || c == 'å' {
        Some('A')
    } else if c == 'É' || c == 'È' || c == 'Ë' || c == 'Ê' || c == 'é' || c == 'è' || c == 'ë' || c
        == 'ê' {
        Some('E')
    } else if c == 'Í' || c == 'Ì' || c == 'Ï' || c == 'Î' || c == 'í' || c == 'ì' || c == 'ï' || c
        == 'î' {
        Some('I')
    } else if c == 'Ó' || c == 'Ò' || c == 'Ö' || c == 'Ô' || c == 'Õ' || c == 'ó' || c == 'ò' || c
        == 'ö' || c == 'ô' || c == 'õ' {
        Some('O')
    } else if c == 'Ú' || c == 'Ù' || c == 'Ü' || c == 'Û' || c == 'ú' || c == 'ù' || c == 'ü' || c
        == 'û' {
        Some('U')
    } else if c == 'Ý' || c == 'ý' || c == 'ÿ' {
        Some('Y')
    } else {
        None
    }
}

/// How one character is sanitized: ASCII letters are uppercased, digits are
/// kept when `allow_digit`, Ñ/ñ and Ç/ç become Ñ and Ç, accented vowels (and
/// Ý/ý/ÿ) lose their accent; everything else becomes a space.
pub open spec fn fold_char_spec(c: char, allow_digit: bool) -> char {
    if (c as u32) < 128 {
        if is_upper_ascii(c) {
            c
        } else if is_lower_ascii(c) {
            ((c as u32) - 32) as char
        } else if allow_digit && '0' <= c <= '9' {
            c
        } else {
            ' '
        }
    } else if c == 'Ñ' || c == 'ñ' {
        'Ñ'
    } else if c == 'Ç' || c == 'ç' {
        'Ç'
    } else {
        match accent_base(c) {
            Some(b) => b,
            None => ' ',
        }
    }
}

/// `s` with every character sanitized.
pub open spec fn sanitized(s: Seq<char>, allow_digit: bool) -> Seq<char> {
    s.map_values(|c: char| fold_char_spec(c, allow_digit))
}

/// Characters allowed in sanitized text.
pub open spec fn in_aeat_alphabet(c: char, allow_digit: bool) -> bool {
    is_upper_ascii(c) || c == ' ' || c == 'Ñ' || c == 'Ç' || (allow_digit && '0' <= c <= '9')
}

proof fn lemma_fold_char(c: char, allow_digit: bool)
    ensures
        in_aeat_alphabet(fold_char_spec(c, allow_digit), allow_digit),
        (fold_char_spec(c, allow_digit) as u32) < 256,
        fold_char_spec(fold_char_spec(c, allow_digit), allow_digit) == fold_char_spec(c, allow_digit),
{
    if (c as u32) < 128 && is_lower_ascii(c) {
        let u = ((c as u32) - 32) as char;
        assert((u as u32) == (c as u32) - 32);
        assert(is_upper_ascii(u));
    }
}

/// Sanitizing keeps the length of the text, leaves only characters of the
/// AEAT alphabet (each with a one-byte ISO-8859-1 encoding), and sanitizing
/// sanitized text changes nothing.
pub proof fn law_sanitize(s: Seq<char>, allow_digit: bool)
    ensures
        sanitized(s, allow_digit).len() == s.len(),
        forall|i: int|
            0 <= i < s.len() ==> in_aeat_alphabet(#[trigger] sanitized(s, allow_digit)[i], allow_digit)
                && (sanitized(s, allow_digit)[i] as u32) < 256,
        sanitized(sanitized(s, allow_digit), allow_digit) == sanitized(s, allow_digit),
{
    let t = sanitized(s, allow_digit);
    assert forall|i: int| 0 <= i < s.len() implies in_aeat_alphabet(#[trigger] t[i], allow_digit)
        && (t[i] as u32) < 256 by {
        lemma_fold_char(s[i], allow_digit);
    }
    assert forall|i: int| 0 <= i < t.len() implies #[trigger] sanitized(t, allow_digit)[i] == t[i] by {
        lemma_fold_char(s[i], allow_digit);
    }
    assert(sanitized(t, allow_digit) =~= t);
}

fn accent_base_exec(c: char) -> (res: Option<char>)
    ensures
        res == accent_base(c),
{
    if c == 'Á' || c == 'À' || c == 'Ä' || c == 'Â' || c == 'Ã' || c == 'Å' || c == 'á' || c == 'à'
        || c == 'ä' || c == 'â' || c == 'ã' || c == 'å' {
        Some('A')
    } else if c == 'É' || c == 'È' || c == 'Ë' || c == 'Ê' || c == 'é' || c == 'è' || c == 'ë' || c
        == 'ê' {
        Some('E')
    } else if c == 'Í' || c == 'Ì' || c == 'Ï' || c == 'Î' || c == 'í' || c == 'ì' || c == 'ï' || c
        == 'î' {
        Some('I')
    } else if c == 'Ó' || c == 'Ò' || c == 'Ö' || c == 'Ô' || c == 'Õ' || c == 'ó' || c == 'ò' || c
        == 'ö' || c == 'ô' || c == 'õ' {
        Some('O')
    } else if c == 'Ú' || c == 'Ù' || c == 'Ü' || c == 'Û' || c == 'ú' || c == 'ù' || c == 'ü' || c
        == 'û' {
        Some('U')
    } else if c == 'Ý' || c == 'ý' || c == 'ÿ' {
        Some('Y')
    } else {
        None
    }
}

/// Map a single source char to its sanitized representation; invalid input
/// becomes `' '`.
fn fold_char(c: char, allow_digit: bool) -> (res: char)
    ensures
        res == fold_char_spec(c, allow_digit),
{
    if (c as u32) < 128 {
        if 'A' <= c && c <= 'Z' {
            return c;
        }
        if 'a' <= c && c <= 'z' {
            let b = c as u8;
            return (b - 32) as char;
        }
        if allow_digit && '0' <= c && c <= '9' {
            return c;
        }
        return ' ';
    }
    if c == 'Ñ' || c == 'ñ' {
        return 'Ñ';
    }
    if c == 'Ç' || c == 'ç' {
        return 'Ç';
    }
    match accent_base_exec(c) {
        Some(b) => b,
        None => ' ',
    }
}

fn sanitize_with(s: &str, allow_digit: bool) -> (res: String)
    ensures
        res@ == sanitized(s@, allow_digit),
{
    let cs = chars_of(s);
    let mut out = String::new();
    let mut i: usize = 0;
    while i < cs.len()
        invariant
            cs@ == s@,
            0 <= i <= cs@.len(),
            out@ == sanitized(s@.take(i as int), allow_digit),
        decreases cs@.len() - i,
    {
        push_char(&mut out, fold_char(cs[i], allow_digit));
        i = i + 1;
        assert(out@ =~= sanitized(s@.take(i as int), allow_digit));
    }
    assert(s@.take(cs@.len() as int) =~= s@);
    out
}

/// Uppercase letters (A-Z, Ñ, Ç) and spaces only: accents are removed and
/// every other character becomes a space.
pub fn sanitize_alpha(s: &str) -> (res: String)
    ensures
        res@ == sanitized(s@, false),
{
    sanitize_with(s, false)
}

/// Like `sanitize_alpha`, but digits are kept.
pub fn sanitize_alphanumeric(s: &str) -> (res: String)
    ensures
        res@ == sanitized(s@, true),
{
    sanitize_with(s, true)
}

/// What sanitizing does to each character: ASCII letters become their
/// capital, digits stay when allowed, Ñ/ñ become Ñ and Ç/ç become Ç, each
/// accented vowel (and Ý ý ÿ) becomes its own base capital, and any other
/// ASCII character becomes a space.
pub proof fn law_sanitize_chars(s: Seq<char>, allow_digit: bool, i: int)
    requires
        0 <= i < s.len(),
    ensures
        ({
            let c = s[i];
            let o = sanitized(s, allow_digit)[i];
            &&& 'A' <= c <= 'Z' ==> o == c
            &&& 'a' <= c <= 'z' ==> o as u32 == c as u32 - 32
            &&& '0' <= c <= '9' ==> o == (if allow_digit { c } else { ' ' })
            &&& (c == 'Ñ' || c == 'ñ') ==> o == 'Ñ'
            &&& (c == 'Ç' || c == 'ç') ==> o == 'Ç'
            &&& (c == 'Á' || c == 'À' || c == 'Ä' || c == 'Â' || c == 'Ã' || c == 'Å' || c == 'á'
                || c == 'à' || c == 'ä' || c == 'â' || c == 'ã' || c == 'å') ==> o == 'A'
            &&& (c == 'É' || c == 'È' || c == 'Ë' || c == 'Ê' || c == 'é' || c == 'è' || c == 'ë'
                || c == 'ê') ==> o == 'E'
            &&& (c == 'Í' || c == 'Ì' || c == 'Ï' || c == 'Î' || c == 'í' || c == 'ì' || c == 'ï'
                || c == 'î') ==> o == 'I'
            &&& (c == 'Ó' || c == 'Ò' || c == 'Ö' || c == 'Ô' || c == 'Õ' || c == 'ó' || c == 'ò'
                || c == 'ö' || c == 'ô' || c == 'õ') ==> o == 'O'
            &&& (c == 'Ú' || c == 'Ù' || c == 'Ü' || c == 'Û' || c == 'ú' || c == 'ù' || c == 'ü'
                || c == 'û') ==> o == 'U'
            &&& (c == 'Ý' || c == 'ý' || c == 'ÿ') ==> o == 'Y'
            &&& ((c as u32) < 128 && !('A' <= c <= 'Z') && !('a' <= c <= 'z') && !(allow_digit
                && '0' <= c <= '9')) ==> o == ' '
        }),
{
}

} // verus!
