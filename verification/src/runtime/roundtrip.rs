//! What the encoders write, the readers give back.
//!
//! These are the facts that make generated `marshal` / `unmarshal` pairs
//! inverse to each other, stated over the spec functions that the runtime
//! helpers' own contracts use.
use vstd::prelude::*;

use crate::runtime::bytes::{
    field_text, literal_bytes, first_non_latin1, is_latin1, latin1_bytes, latin1_text, magnitude_of,
    signed_amount_n_value, signed_amount_negative, signed_amount_rest, signed_amount_value, store,
    trim_zeros_spaces, written_count, lemma_zero_then,
};
use crate::runtime::encode::{abs_nat, pad_left_text, pad_right_text, signed_amount_n_text, signed_amount_text};
use crate::text::{all_digits, digits_value, is_digit, lemma_nat_text_digits, nat_text, parse_i64_text};

verus! {

proof fn lemma_trim_zero_prefix(k: nat, t: Seq<char>)
    ensures
        trim_zeros_spaces(Seq::new(k, |_i: int| '0') + t) == trim_zeros_spaces(t),
    decreases k,
{
    let s = Seq::new(k, |_i: int| '0') + t;
    if k > 0 {
        assert(s[0] == '0');
        assert(s.drop_first() =~= Seq::new((k - 1) as nat, |_i: int| '0') + t);
        lemma_trim_zero_prefix((k - 1) as nat, t);
    } else {
        assert(s =~= t);
    }
}

/// A zero-padded decimal number reads back as that number.
pub proof fn law_padded_number_magnitude(n: nat, width: nat)
    requires
        n <= i64::MAX,
    ensures
        magnitude_of(pad_left_text(nat_text(n), width, '0')) == Some(n as i64),
{
    let t = nat_text(n);
    lemma_nat_text_digits(n);
    let p = pad_left_text(t, width, '0');
    assert(trim_zeros_spaces(p) == trim_zeros_spaces(t)) by {
        if t.len() < width {
            lemma_trim_zero_prefix((width - t.len()) as nat, t);
        }
    }
    if n == 0 {
        assert(t.drop_first() =~= Seq::<char>::empty());
        assert(trim_zeros_spaces(t) == trim_zeros_spaces(t.drop_first()));
    } else {
        assert(is_digit(t[0]));
        assert(trim_zeros_spaces(t) == t);
        assert(parse_i64_text(t) == Some(n as i64));
    }
}

/// Every character of the decimal text of a number has a one-byte encoding.
proof fn lemma_nat_text_latin1(n: nat)
    ensures
        forall|i: int| 0 <= i < nat_text(n).len() ==> is_latin1(#[trigger] nat_text(n)[i]),
{
    lemma_nat_text_digits(n);
    assert forall|i: int| 0 <= i < nat_text(n).len() implies is_latin1(#[trigger] nat_text(n)[i]) by {
        assert(is_digit(nat_text(n)[i]));
    }
}

/// A DR signed amount (`' '`/`'N'` and digits) has exactly `width`
/// characters and reads back as the amount it encodes.
pub proof fn law_signed_amount_round_trip(v: int, width: nat)
    requires
        i64::MIN < v <= i64::MAX,
        width >= 1,
        nat_text(abs_nat(v)).len() <= width - 1,
    ensures
        signed_amount_text(v, width).len() == width,
        signed_amount_value(signed_amount_text(v, width)) == Some(v),
{
    let s = signed_amount_text(v, width);
    let p = pad_left_text(nat_text(abs_nat(v)), (width - 1) as nat, '0');
    assert(signed_amount_rest(s) =~= p);
    assert(signed_amount_negative(s) == (v < 0));
    law_padded_number_magnitude(abs_nat(v), (width - 1) as nat);
}

/// An envelope (`numN`) amount has exactly `width` characters and reads back
/// as the amount it encodes.
pub proof fn law_signed_amount_n_round_trip(v: int, width: nat)
    requires
        i64::MIN < v <= i64::MAX,
        width >= 1,
        v < 0 ==> nat_text(abs_nat(v)).len() <= width - 1,
        v >= 0 ==> nat_text(abs_nat(v)).len() <= width,
    ensures
        signed_amount_n_text(v, width).len() == width,
        signed_amount_n_value(signed_amount_n_text(v, width)) == Some(v),
{
    let s = signed_amount_n_text(v, width);
    lemma_nat_text_digits(abs_nat(v));
    if v < 0 {
        let p = pad_left_text(nat_text(abs_nat(v)), (width - 1) as nat, '0');
        assert(s.drop_first() =~= p);
        law_padded_number_magnitude(abs_nat(v), (width - 1) as nat);
    } else {
        let t = nat_text(abs_nat(v));
        assert(s[0] != 'N') by {
            if t.len() < width {
                assert(s[0] == '0');
            } else {
                assert(is_digit(t[0]));
            }
        }
        law_padded_number_magnitude(abs_nat(v), width);
    }
}

/// A zero-padded number (`number` and `unsigned_amount` fields) has exactly
/// `width` characters and reads back as that number.
pub proof fn law_unsigned_round_trip(n: nat, width: nat)
    requires
        n <= i64::MAX,
        nat_text(n).len() <= width,
    ensures
        pad_left_text(nat_text(n), width, '0').len() == width,
        magnitude_of(pad_left_text(nat_text(n), width, '0')) == Some(n as i64),
{
    law_padded_number_magnitude(n, width);
}

/// Writing a text whose characters all have a one-byte encoding and reading
/// the same positions back gives the text; the bytes outside the field keep
/// their values.
pub proof fn law_field_round_trip(buf: Seq<u8>, at: int, s: Seq<char>)
    requires
        at >= 1,
        at - 1 + s.len() <= buf.len(),
        forall|i: int| 0 <= i < s.len() ==> is_latin1(#[trigger] s[i]),
    ensures
        written_count(s, s.len()) == s.len(),
        store(buf, at - 1, latin1_bytes(s)).len() == buf.len(),
        field_text(store(buf, at - 1, latin1_bytes(s)), at, s.len() as int) == s,
        forall|i: int|
            0 <= i < buf.len() && !(at - 1 <= i < at - 1 + s.len()) ==> #[trigger] store(
                buf,
                at - 1,
                latin1_bytes(s),
            )[i] == buf[i],
{
    lemma_first_non_latin1_all(s, 0);
    let b = store(buf, at - 1, latin1_bytes(s));
    assert(b.subrange(at - 1, at - 1 + s.len()) =~= latin1_bytes(s));
    assert forall|i: int| 0 <= i < s.len() implies #[trigger] latin1_text(latin1_bytes(s))[i]
        == s[i] by {
        assert(is_latin1(s[i]));
        vstd::utf8::char_u32_cast(s[i], s[i] as u32);
    }
    assert(latin1_text(latin1_bytes(s)) =~= s);
}

proof fn lemma_first_non_latin1_all(s: Seq<char>, i: int)
    requires
        0 <= i <= s.len(),
        forall|k: int| 0 <= k < s.len() ==> is_latin1(#[trigger] s[k]),
    ensures
        first_non_latin1(s, i) == s.len(),
    decreases s.len() - i,
{
    if i < s.len() {
        lemma_first_non_latin1_all(s, i + 1);
    }
}

/// A DR signed amount that fits its field, written into a record and parsed
/// back from the same positions, gives the amount.
pub proof fn law_signed_amount_field_round_trip(buf: Seq<u8>, at: int, v: int, width: nat)
    requires
        at >= 1,
        at - 1 + width <= buf.len(),
        i64::MIN < v <= i64::MAX,
        width >= 1,
        nat_text(abs_nat(v)).len() <= width - 1,
    ensures
        signed_amount_value(
            field_text(store(buf, at - 1, latin1_bytes(signed_amount_text(v, width))), at, width as int),
        ) == Some(v),
{
    let s = signed_amount_text(v, width);
    law_signed_amount_round_trip(v, width);
    lemma_nat_text_latin1(abs_nat(v));
    lemma_nat_text_digits(abs_nat(v));
    let t = nat_text(abs_nat(v));
    let p = pad_left_text(t, (width - 1) as nat, '0');
    assert forall|i: int| 0 <= i < s.len() implies is_latin1(#[trigger] s[i]) by {
        if i > 0 {
            assert(s[i] == p[i - 1]);
            if t.len() < width - 1 {
                let z = (width - 1 - t.len()) as int;
                if i - 1 >= z {
                    assert(p[i - 1] == t[i - 1 - z]);
                }
            }
        }
    }
    law_field_round_trip(buf, at, s);
}

/// An envelope (`numN`) amount that fits its field, written into a record and
/// parsed back from the same positions, gives the amount.
pub proof fn law_signed_amount_n_field_round_trip(buf: Seq<u8>, at: int, v: int, width: nat)
    requires
        at >= 1,
        at - 1 + width <= buf.len(),
        i64::MIN < v <= i64::MAX,
        width >= 1,
        v < 0 ==> nat_text(abs_nat(v)).len() <= width - 1,
        v >= 0 ==> nat_text(abs_nat(v)).len() <= width,
    ensures
        signed_amount_n_value(
            field_text(store(buf, at - 1, latin1_bytes(signed_amount_n_text(v, width))), at, width as int),
        ) == Some(v),
{
    let s = signed_amount_n_text(v, width);
    law_signed_amount_n_round_trip(v, width);
    lemma_nat_text_latin1(abs_nat(v));
    let t = nat_text(abs_nat(v));
    if v < 0 {
        let p = pad_left_text(t, (width - 1) as nat, '0');
        assert forall|i: int| 0 <= i < s.len() implies is_latin1(#[trigger] s[i]) by {
            if i > 0 {
                assert(s[i] == p[i - 1]);
                if t.len() < width - 1 {
                    let z = (width - 1 - t.len()) as int;
                    if i - 1 >= z {
                        assert(p[i - 1] == t[i - 1 - z]);
                    }
                }
            }
        }
    } else {
        assert forall|i: int| 0 <= i < s.len() implies is_latin1(#[trigger] s[i]) by {
            if t.len() < width {
                let z = (width - t.len()) as int;
                if i >= z {
                    assert(s[i] == t[i - z]);
                }
            }
        }
    }
    law_field_round_trip(buf, at, s);
}

/// A literal appended with `append_latin1` is what `verify_literal` accepts
/// at the offset where it was appended.
pub proof fn law_literal_round_trip(buf: Seq<u8>, s: Seq<char>)
    requires
        forall|i: int| 0 <= i < s.len() ==> is_latin1(#[trigger] s[i]),
    ensures
        first_non_latin1(s, 0) == s.len(),
        (buf + latin1_bytes(s.take(first_non_latin1(s, 0)))).subrange(
            buf.len() as int,
            (buf.len() + s.len()) as int,
        ) == literal_bytes(s),
{
    lemma_first_non_latin1_all(s, 0);
    assert(s.take(s.len() as int) =~= s);
    assert((buf + latin1_bytes(s)).subrange(buf.len() as int, (buf.len() + s.len()) as int) =~= literal_bytes(
        s,
    ));
}

/// Padding gives `max(len, width)` characters: the fill, then the text
/// (left) or the text, then the fill (right).
pub proof fn law_pad_lengths(s: Seq<char>, width: nat, ch: char)
    ensures
        pad_left_text(s, width, ch).len() == if s.len() >= width { s.len() } else { width },
        pad_right_text(s, width, ch).len() == if s.len() >= width { s.len() } else { width },
        pad_left_text(s, width, ch).skip(pad_left_text(s, width, ch).len() - s.len()) == s,
        pad_right_text(s, width, ch).take(s.len() as int) == s,
        forall|i: int|
            0 <= i < pad_left_text(s, width, ch).len() - s.len() ==> #[trigger] pad_left_text(
                s,
                width,
                ch,
            )[i] == ch,
        forall|i: int|
            s.len() <= i < pad_right_text(s, width, ch).len() ==> #[trigger] pad_right_text(
                s,
                width,
                ch,
            )[i] == ch,
{
    assert(pad_left_text(s, width, ch).skip(pad_left_text(s, width, ch).len() - s.len()) =~= s);
    assert(pad_right_text(s, width, ch).take(s.len() as int) =~= s);
}

/// A zero-padded number (`number` and `unsigned_amount` fields) that fits its
/// field, written into a record and read back from the same positions as
/// `parse_unsigned_amount` reads it, gives the number.
pub proof fn law_unsigned_field_round_trip(buf: Seq<u8>, at: int, n: nat, width: nat)
    requires
        at >= 1,
        at - 1 + width <= buf.len(),
        n <= i64::MAX,
        nat_text(n).len() <= width,
    ensures
        magnitude_of(
            field_text(store(buf, at - 1, latin1_bytes(pad_left_text(nat_text(n), width, '0'))), at, width as int),
        ) == Some(n as i64),
{
    let s = pad_left_text(nat_text(n), width, '0');
    law_unsigned_round_trip(n, width);
    lemma_nat_text_latin1(n);
    let t = nat_text(n);
    assert forall|i: int| 0 <= i < s.len() implies is_latin1(#[trigger] s[i]) by {
        if t.len() < width {
            let z = (width - t.len()) as int;
            if i >= z {
                assert(s[i] == t[i - z]);
            }
        }
    }
    law_field_round_trip(buf, at, s);
}

proof fn lemma_zero_pad_value(k: nat, t: Seq<char>)
    requires
        all_digits(t),
    ensures
        all_digits(Seq::new(k, |_i: int| '0') + t),
        digits_value(Seq::new(k, |_i: int| '0') + t) == digits_value(t),
    decreases k,
{
    let s = Seq::new(k, |_i: int| '0') + t;
    if k > 0 {
        let r = Seq::new((k - 1) as nat, |_i: int| '0') + t;
        lemma_zero_pad_value((k - 1) as nat, t);
        assert(s =~= seq!['0'] + r);
        lemma_zero_then(r);
    } else {
        assert(s =~= t);
    }
}

proof fn lemma_padded_digits(n: nat, width: nat)
    ensures
        all_digits(pad_left_text(nat_text(n), width, '0')),
        digits_value(pad_left_text(nat_text(n), width, '0')) == n,
{
    lemma_nat_text_digits(n);
    if nat_text(n).len() < width {
        lemma_zero_pad_value((width - nat_text(n).len()) as nat, nat_text(n));
    }
}

/// What the amount encoders write, character by character: a DR signed
/// amount is `N` (negative) or a blank (otherwise), then the absolute value
/// in decimal digits over the rest of the width; an envelope amount is the
/// value in digits over the whole width, or `N` and the absolute value when
/// negative.
pub proof fn law_amount_texts(v: int, width: nat)
    requires
        width >= 1,
    ensures
        ({
            let a: nat = if v < 0 { (-v) as nat } else { v as nat };
            let s = signed_amount_text(v, width);
            let t = signed_amount_n_text(v, width);
            &&& nat_text(a).len() <= width - 1 ==> {
                &&& s.len() == width
                &&& s[0] == (if v < 0 { 'N' } else { ' ' })
                &&& all_digits(s.drop_first())
                &&& digits_value(s.drop_first()) == a
            }
            &&& (v >= 0 && nat_text(a).len() <= width) ==> {
                &&& t.len() == width
                &&& all_digits(t)
                &&& digits_value(t) == a
            }
            &&& (v < 0 && nat_text(a).len() <= width - 1) ==> {
                &&& t.len() == width
                &&& t[0] == 'N'
                &&& all_digits(t.drop_first())
                &&& digits_value(t.drop_first()) == a
            }
        }),
{
    let a: nat = if v < 0 { (-v) as nat } else { v as nat };
    assert(abs_nat(v) == a);
    lemma_padded_digits(a, (width - 1) as nat);
    lemma_padded_digits(a, width);
    law_pad_lengths(nat_text(a), (width - 1) as nat, '0');
    law_pad_lengths(nat_text(a), width, '0');
    let p = pad_left_text(nat_text(a), (width - 1) as nat, '0');
    assert(signed_amount_text(v, width).drop_first() =~= p);
    if v < 0 {
        assert(signed_amount_n_text(v, width).drop_first() =~= p);
    }
}

} // verus!
