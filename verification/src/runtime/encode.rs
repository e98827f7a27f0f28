//! Encoding helpers used by marshal code.
use vstd::prelude::*;

use crate::runtime::errors::{is_field_overflow, is_invalid_value, AeatError};
use crate::text::{chars_of, int_text, nat_text, push_char, string_from, string_of, u64_text};

verus! {

/// `s` left-padded with `ch` up to `width` characters; unchanged when already that long.
pub open spec fn pad_left_text(s: Seq<char>, width: nat, ch: char) -> Seq<char> {
    if s.len() >= width {
        s
    } else {
        Seq::new((width - s.len()) as nat, |_i: int| ch) + s
    }
}

/// `s` right-padded with `ch` up to `width` characters; unchanged when already that long.
pub open spec fn pad_right_text(s: Seq<char>, width: nat, ch: char) -> Seq<char> {
    if s.len() >= width {
        s
    } else {
        s + Seq::new((width - s.len()) as nat, |_i: int| ch)
    }
}

/// The absolute value of an integer, as a natural number.
pub open spec fn abs_nat(v: int) -> nat {
    if v < 0 {
        (-v) as nat
    } else {
        v as nat
    }
}

/// AEAT signed amount: `' '` (or `'N'` when negative) followed by the
/// absolute value zero-padded to `width - 1` digits.
pub open spec fn signed_amount_text(v: int, width: nat) -> Seq<char> {
    seq![if v < 0 { 'N' } else { ' ' }] + pad_left_text(nat_text(abs_nat(v)), (width - 1) as nat, '0')
}

/// Envelope (`numN`) signed amount: digits over the full width when `v >= 0`;
/// `'N'` followed by `width - 1` digits when negative.
pub open spec fn signed_amount_n_text(v: int, width: nat) -> Seq<char> {
    if v < 0 {
        seq!['N'] + pad_left_text(nat_text(abs_nat(v)), (width - 1) as nat, '0')
    } else {
        pad_left_text(nat_text(abs_nat(v)), width, '0')
    }
}

fn repeat_onto(out: &mut String, ch: char, n: usize)
    ensures
        final(out)@ == old(out)@ + Seq::new(n as nat, |_i: int| ch),
{
    let ghost start = out@;
    let mut k: usize = 0;
    while k < n
        invariant
            0 <= k <= n,
            out@ == start + Seq::new(k as nat, |_i: int| ch),
        decreases n - k,
    {
        push_char(out, ch);
        k = k + 1;
        assert(out@ =~= start + Seq::new(k as nat, |_i: int| ch));
    }
}

/// Left-pad `s` to `width` with `ch`. If `s` is already at or over width,
/// return it unchanged (the caller is responsible for width checks).
pub fn pad_left(s: &str, width: usize, ch: char) -> (res: String)
    ensures
        res@ == pad_left_text(s@, width as nat, ch),
{
    let len = chars_of(s).len();
    if len >= width {
        return string_from(s);
    }
    let mut out = String::new();
    repeat_onto(&mut out, ch, width - len);
    out.append(s);
    assert(out@ =~= pad_left_text(s@, width as nat, ch));
    out
}

/// Right-pad `s` to `width` with `ch`.
pub fn pad_right(s: &str, width: usize, ch: char) -> (res: String)
    ensures
        res@ == pad_right_text(s@, width as nat, ch),
{
    let len = chars_of(s).len();
    if len >= width {
        return string_from(s);
    }
    let mut out = string_from(s);
    repeat_onto(&mut out, ch, width - len);
    out
}

/// Encode a non-negative integer as a zero-padded numeric field of `width` chars.
/// Returns `FieldOverflow` if the number does not fit.
pub fn encode_number(field: &str, value: u64, width: usize) -> (res: Result<String, AeatError>)
    ensures
        nat_text(value as nat).len() > width ==> (res matches Err(e) && is_field_overflow(
            e,
            field@,
            width as int,
            nat_text(value as nat).len() as int,
        )),
        nat_text(value as nat).len() <= width ==> (res matches Ok(s) && s@ == pad_left_text(
            nat_text(value as nat),
            width as nat,
            '0',
        )),
{
    let digits = string_of(&u64_text(value));
    let n = chars_of(digits.as_str()).len();
    if n > width {
        return Err(AeatError::FieldOverflow { field: string_from(field), width, got: n });
    }
    Ok(pad_left(digits.as_str(), width, '0'))
}

fn abs_u64(value: i64) -> (r: u64)
    ensures
        r as nat == abs_nat(value as int),
{
    if value < 0 {
        ((-(value + 1)) as u64) + 1
    } else {
        value as u64
    }
}

/// Encode a signed amount in AEAT BOE format:
/// - first position: `' '` if `value >= 0`, `'N'` if negative
/// - remaining `width - 1` positions: absolute value zero-padded
/// - decimals are part of the digit run (no separator): `value` is the
///   integer including decimal places (123.45 with 2 decimals is `12345`).
pub fn encode_signed_amount(field: &str, value: i64, width: usize, decimals: usize) -> (res: Result<
    String,
    AeatError,
>)
    ensures
        width == 0 ==> (res matches Err(e) && is_field_overflow(e, field@, 0, 1)),
        width > 0 && nat_text(abs_nat(value as int)).len() > width - 1 ==> (res matches Err(e)
            && is_field_overflow(e, field@, width as int, nat_text(abs_nat(value as int)).len() + 1 as int)),
        width > 0 && nat_text(abs_nat(value as int)).len() <= width - 1 ==> (res matches Ok(s)
            && s@ == signed_amount_text(value as int, width as nat)),
{
    if width == 0 {
        return Err(AeatError::FieldOverflow { field: string_from(field), width, got: 1 });
    }
    let sign = if value < 0 {
        'N'
    } else {
        ' '
    };
    let digits = string_of(&u64_text(abs_u64(value)));
    let n = chars_of(digits.as_str()).len();
    proof {
        crate::text::lemma_nat_text_len_u64(abs_nat(value as int));
    }
    let digits_width = width - 1;
    if n > digits_width {
        proof {
            crate::text::lemma_nat_text_len_pos(abs_nat(value as int));
        }
        return Err(AeatError::FieldOverflow { field: string_from(field), width, got: n + 1 });
    }
    let padded = pad_left(digits.as_str(), digits_width, '0');
    let mut out = String::new();
    push_char(&mut out, sign);
    out.append(padded.as_str());
    assert(out@ =~= signed_amount_text(value as int, width as nat));
    Ok(out)
}

/// Encode an unsigned fixed-point amount as `width` digits, zero-padded.
/// Errors on negative values or overflow.
pub fn encode_unsigned_amount(field: &str, value: i64, width: usize, _decimals: usize) -> (res:
    Result<String, AeatError>)
    ensures
        value < 0 ==> (res matches Err(e) && is_invalid_value(e, field@, int_text(value as int))),
        value >= 0 && nat_text(value as nat).len() > width ==> (res matches Err(e)
            && is_field_overflow(e, field@, width as int, nat_text(value as nat).len() as int)),
        value >= 0 && nat_text(value as nat).len() <= width ==> (res matches Ok(s) && s@
            == pad_left_text(nat_text(value as nat), width as nat, '0')),
{
    if value < 0 {
        let mut v = String::new();
        push_char(&mut v, '-');
        v.append(string_of(&u64_text(abs_u64(value))).as_str());
        assert(v@ =~= int_text(value as int));
        return Err(AeatError::InvalidValue { field: string_from(field), value: v });
    }
    let s = string_of(&u64_text(value as u64));
    let n = chars_of(s.as_str()).len();
    if n > width {
        return Err(AeatError::FieldOverflow { field: string_from(field), width, got: n });
    }
    Ok(pad_left(s.as_str(), width, '0'))
}

/// Encode a signed amount in the AEAT envelope (`numN`) convention:
/// - `value >= 0`: `width` digits, zero-padded, no sign character;
/// - `value < 0`: `'N'` + `width - 1` digits, zero-padded.
pub fn encode_signed_amount_n(field: &str, value: i64, width: usize, _decimals: usize) -> (res:
    Result<String, AeatError>)
    ensures
        width == 0 ==> (res matches Err(e) && is_field_overflow(e, field@, 0, 1)),
        width > 0 && value < 0 && nat_text(abs_nat(value as int)).len() > width - 1 ==> (res matches Err(e)
            && is_field_overflow(e, field@, width as int, nat_text(abs_nat(value as int)).len() + 1 as int)),
        width > 0 && value >= 0 && nat_text(abs_nat(value as int)).len() > width ==> (res matches Err(e)
            && is_field_overflow(e, field@, width as int, nat_text(abs_nat(value as int)).len() as int)),
        width > 0 && (if value < 0 {
            nat_text(abs_nat(value as int)).len() <= width - 1
        } else {
            nat_text(abs_nat(value as int)).len() <= width
        }) ==> (res matches Ok(s) && s@ == signed_amount_n_text(value as int, width as nat)),
{
    if width == 0 {
        return Err(AeatError::FieldOverflow { field: string_from(field), width, got: 1 });
    }
    let digits = string_of(&u64_text(abs_u64(value)));
    let n = chars_of(digits.as_str()).len();
    proof {
        crate::text::lemma_nat_text_len_u64(abs_nat(value as int));
    }
    if value < 0 {
        let dw = width - 1;
        if n > dw {
            return Err(AeatError::FieldOverflow { field: string_from(field), width, got: n + 1 });
        }
        let mut out = String::new();
        push_char(&mut out, 'N');
        out.append(pad_left(digits.as_str(), dw, '0').as_str());
        assert(out@ =~= signed_amount_n_text(value as int, width as nat));
        Ok(out)
    } else {
        if n > width {
            return Err(AeatError::FieldOverflow { field: string_from(field), width, got: n });
        }
        Ok(pad_left(digits.as_str(), width, '0'))
    }
}

} // verus!
