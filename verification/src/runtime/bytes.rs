//! Byte-level helpers for ISO-8859-1 fixed-position records.
//!
//! Positions given to `write_field` / `read_field` and the amount parsers are
//! 1-indexed, as in the `.boe` DSL; `verify_literal` takes a 0-indexed offset.
use vstd::prelude::*;

use crate::runtime::errors::{
    is_field_overflow, is_invalid_delimiter, is_invalid_value, is_short_record, AeatError,
};
use crate::text::{
    all_digits, chars_of, digits_value, nat_text, parse_i64_chars, parse_i64_text, push_char, string_from,
    usize_string,
};

verus! {

/// A character that has a one-byte ISO-8859-1 encoding.
pub open spec fn is_latin1(c: char) -> bool {
    (c as u32) < 256
}

/// ISO-8859-1 bytes of characters that all have one.
pub open spec fn latin1_bytes(s: Seq<char>) -> Seq<u8> {
    s.map_values(|c: char| (c as u32) as u8)
}

/// ISO-8859-1 decoding: each byte is the code point of one character.
pub open spec fn latin1_text(b: Seq<u8>) -> Seq<char> {
    b.map_values(|x: u8| x as char)
}

/// Index of the first character of `s` at or after `i` without a one-byte encoding
/// (the length of `s` when there is none).
pub open spec fn first_non_latin1(s: Seq<char>, i: int) -> int
    decreases s.len() - i,
{
    if i < 0 || i >= s.len() {
        s.len() as int
    } else if !is_latin1(s[i]) {
        i
    } else {
        first_non_latin1(s, i + 1)
    }
}

pub proof fn lemma_first_non_latin1(s: Seq<char>, i: int)
    requires
        0 <= i <= s.len(),
    ensures
        i <= first_non_latin1(s, i) <= s.len(),
        forall|k: int| i <= k < first_non_latin1(s, i) ==> is_latin1(#[trigger] s[k]),
        first_non_latin1(s, i) < s.len() ==> !is_latin1(s[first_non_latin1(s, i)]),
    decreases s.len() - i,
{
    if i < s.len() && is_latin1(s[i]) {
        lemma_first_non_latin1(s, i + 1);
    }
}

/// How many characters of `s` `write_field` stores before it stops: it stops
/// at the field width or at the first character without a one-byte encoding.
pub open spec fn written_count(s: Seq<char>, width: nat) -> int {
    let k = first_non_latin1(s, 0);
    if k < width {
        k
    } else {
        width as int
    }
}

/// `buf` with the bytes `b` stored from offset `start`.
pub open spec fn store(buf: Seq<u8>, start: int, b: Seq<u8>) -> Seq<u8> {
    buf.take(start) + b + buf.skip(start + b.len())
}

/// Write `s` into `buf` starting at 1-indexed position `at`, encoding each
/// char as its ISO-8859-1 byte. Stops with `FieldOverflow` when `s` has more
/// than `width` characters, and with `InvalidValue` at a character outside
/// ISO-8859-1; the characters before the stop are written either way. The
/// other positions keep what the caller put there.
pub fn write_field(buf: &mut [u8], at: usize, width: usize, s: &str, field: &str) -> (res: Result<
    (),
    AeatError,
>)
    requires
        at >= 1,
        at - 1 + written_count(s@, width as nat) <= old(buf)@.len(),
    ensures
        final(buf)@ == store(
            old(buf)@,
            at - 1,
            latin1_bytes(s@.take(written_count(s@, width as nat))),
        ),
        first_non_latin1(s@, 0) >= width && s@.len() > width ==> (res matches Err(e)
            && is_field_overflow(e, field@, width as int, s@.len() as int)),
        first_non_latin1(s@, 0) < width && first_non_latin1(s@, 0) < s@.len() ==> (res matches Err(
            e,
        ) && is_invalid_value(e, field@, s@)),
        first_non_latin1(s@, 0) >= s@.len() && s@.len() <= width ==> res is Ok,
{
    let ghost old_buf = buf@;
    let blen = buf.len();
    let start = at - 1;
    let cs = chars_of(s);
    proof {
        lemma_first_non_latin1(s@, 0);
    }
    let mut n: usize = 0;
    while n < cs.len()
        invariant
            cs@ == s@,
            start == at - 1,
            0 <= n <= cs@.len(),
            n <= width,
            n <= first_non_latin1(s@, 0),
            start + written_count(s@, width as nat) <= old_buf.len(),
            old_buf == old(buf)@,
            blen == old_buf.len(),
            buf@.len() == old_buf.len(),
            0 <= first_non_latin1(s@, 0) <= s@.len(),
            forall|k: int| 0 <= k < first_non_latin1(s@, 0) ==> is_latin1(#[trigger] s@[k]),
            first_non_latin1(s@, 0) < s@.len() ==> !is_latin1(s@[first_non_latin1(s@, 0)]),
            buf@ == store(old_buf, start as int, latin1_bytes(s@.take(n as int))),
        decreases cs@.len() - n,
    {
        let c = cs[n];
        if n >= width {
            assert(written_count(s@, width as nat) == width);
            assert(s@.take(n as int) =~= s@.take(written_count(s@, width as nat)));
            return Err(
                AeatError::FieldOverflow { field: string_from(field), width, got: cs.len() },
            );
        }
        let cp = c as u32;
        if cp >= 256 {
            assert(n == first_non_latin1(s@, 0));
            assert(s@.take(n as int) =~= s@.take(written_count(s@, width as nat)));
            return Err(AeatError::InvalidValue { field: string_from(field), value: string_from(s) });
        }
        assert(n < first_non_latin1(s@, 0));
        assert(n < written_count(s@, width as nat));
        buf[start + n] = cp as u8;
        proof {
            assert(buf@ =~= store(old_buf, start as int, latin1_bytes(s@.take(n + 1))));
        }
        n = n + 1;
    }
    assert(s@.take(n as int) =~= s@.take(written_count(s@, width as nat)));
    Ok(())
}

/// Read a fixed-position field from `buf` as a `String`, decoding each byte
/// as its ISO-8859-1 code point. Never fails: ISO-8859-1 covers every byte.
pub fn read_field(buf: &[u8], at: usize, width: usize) -> (res: String)
    requires
        at >= 1,
        at - 1 + width <= buf@.len(),
    ensures
        res@ == latin1_text(buf@.subrange(at - 1, at - 1 + width)),
{
    let blen = buf.len();
    let start = at - 1;
    let mut out = String::new();
    let mut i: usize = 0;
    while i < width
        invariant
            blen == buf@.len(),
            start == at - 1,
            start + width <= buf@.len(),
            0 <= i <= width,
            out@ == latin1_text(buf@.subrange(start as int, start + i)),
        decreases width - i,
    {
        push_char(&mut out, buf[start + i] as char);
        i = i + 1;
        assert(out@ =~= latin1_text(buf@.subrange(start as int, start + i)));
    }
    out
}

/// `s` without its leading `'0'` and `' '` characters.
pub open spec fn trim_zeros_spaces(s: Seq<char>) -> Seq<char>
    decreases s.len(),
{
    if s.len() > 0 && (s[0] == '0' || s[0] == ' ') {
        trim_zeros_spaces(s.drop_first())
    } else {
        s
    }
}

/// The magnitude of an amount: its text without leading zeros and spaces,
/// read as an `i64` (zero when nothing is left).
pub open spec fn magnitude_of(rest: Seq<char>) -> Option<i64> {
    let t = trim_zeros_spaces(rest);
    if t.len() == 0 {
        Some(0)
    } else {
        parse_i64_text(t)
    }
}

/// The sign character and the digits of a DR signed amount field.
pub open spec fn signed_amount_rest(s: Seq<char>) -> Seq<char> {
    if s.len() > 0 {
        s.drop_first()
    } else {
        s
    }
}

pub open spec fn signed_amount_negative(s: Seq<char>) -> bool {
    s.len() > 0 && s[0] == 'N'
}

/// Value of a DR signed amount field: first character `'N'` for negative
/// (anything else for positive), then the magnitude.
pub open spec fn signed_amount_value(s: Seq<char>) -> Option<int> {
    match magnitude_of(signed_amount_rest(s)) {
        Some(n) => Some(if signed_amount_negative(s) { -n } else { n as int }),
        None => None,
    }
}

/// Value of an envelope (`numN`) amount field: a leading `'N'` for negative,
/// otherwise the whole field is the magnitude.
pub open spec fn signed_amount_n_value(s: Seq<char>) -> Option<int> {
    if s.len() > 0 && s[0] == 'N' {
        match magnitude_of(s.drop_first()) {
            Some(n) => Some(-n),
            None => None,
        }
    } else {
        match magnitude_of(s) {
            Some(n) => Some(n as int),
            None => None,
        }
    }
}

pub open spec fn field_text(buf: Seq<u8>, at: int, width: int) -> Seq<char> {
    latin1_text(buf.subrange(at - 1, at - 1 + width))
}

pub open spec fn at_label(at: nat) -> Seq<char> {
    "<at "@ + nat_text(at) + ">"@
}

fn trim_zeros_spaces_exec(s: &Vec<char>, from: usize) -> (res: Vec<char>)
    requires
        from <= s@.len(),
    ensures
        res@ == trim_zeros_spaces(s@.skip(from as int)),
{
    let mut i = from;
    while i < s.len() && (s[i] == '0' || s[i] == ' ')
        invariant
            from <= i <= s@.len(),
            trim_zeros_spaces(s@.skip(from as int)) == trim_zeros_spaces(s@.skip(i as int)),
        decreases s@.len() - i,
    {
        assert(s@.skip(i as int).drop_first() =~= s@.skip(i + 1));
        i = i + 1;
    }
    let mut out: Vec<char> = Vec::new();
    let mut k = i;
    while k < s.len()
        invariant
            i <= k <= s@.len(),
            out@ == s@.subrange(i as int, k as int),
        decreases s@.len() - k,
    {
        out.push(s[k]);
        k = k + 1;
        assert(out@ =~= s@.subrange(i as int, k as int));
    }
    assert(out@ =~= s@.skip(i as int));
    out
}

fn magnitude_exec(s: &Vec<char>, from: usize) -> (res: Option<i64>)
    requires
        from <= s@.len(),
    ensures
        res == magnitude_of(s@.skip(from as int)),
{
    let t = trim_zeros_spaces_exec(s, from);
    if t.len() == 0 {
        Some(0)
    } else {
        parse_i64_chars(&t)
    }
}

fn at_label_exec(at: usize) -> (res: String)
    ensures
        res@ == at_label(at as nat),
{
    let mut m = string_from("<at ");
    m.append(usize_string(at).as_str());
    m.append(">");
    m
}

/// Parse a signed amount field from the buffer. The first character is
/// `'N'` for negative (anything else for positive); the remaining ones are
/// digits, possibly with leading zeros or spaces.
pub fn parse_signed_amount(buf: &[u8], at: usize, width: usize) -> (res: Result<i64, AeatError>)
    requires
        at >= 1,
        at - 1 + width <= buf@.len(),
        signed_amount_negative(field_text(buf@, at as int, width as int)) ==> magnitude_of(
            signed_amount_rest(field_text(buf@, at as int, width as int)),
        ) != Some(i64::MIN),
    ensures
        match signed_amount_value(field_text(buf@, at as int, width as int)) {
            Some(v) => res == Ok::<i64, AeatError>(v as i64),
            None => res matches Err(e) && is_invalid_value(
                e,
                at_label(at as nat),
                field_text(buf@, at as int, width as int),
            ),
        },
{
    let s = read_field(buf, at, width);
    let cs = chars_of(s.as_str());
    let neg = cs.len() > 0 && cs[0] == 'N';
    let from: usize = if cs.len() > 0 {
        1
    } else {
        0
    };
    assert(cs@.skip(from as int) =~= signed_amount_rest(cs@));
    match magnitude_exec(&cs, from) {
        Some(n) => {
            if neg {
                Ok(-n)
            } else {
                Ok(n)
            }
        },
        None => Err(AeatError::InvalidValue { field: at_label_exec(at), value: s }),
    }
}

/// Parse an envelope-style (`numN`) signed amount: `'N'`-prefixed means
/// negative, otherwise all the characters are the magnitude.
pub fn parse_signed_amount_n(buf: &[u8], at: usize, width: usize) -> (res: Result<i64, AeatError>)
    requires
        at >= 1,
        at - 1 + width <= buf@.len(),
        signed_amount_negative(field_text(buf@, at as int, width as int)) ==> magnitude_of(
            field_text(buf@, at as int, width as int).drop_first(),
        ) != Some(i64::MIN),
    ensures
        match signed_amount_n_value(field_text(buf@, at as int, width as int)) {
            Some(v) => res == Ok::<i64, AeatError>(v as i64),
            None => res matches Err(e) && is_invalid_value(
                e,
                at_label(at as nat),
                field_text(buf@, at as int, width as int),
            ),
        },
{
    let s = read_field(buf, at, width);
    let cs = chars_of(s.as_str());
    if cs.len() > 0 && cs[0] == 'N' {
        assert(cs@.skip(1) =~= cs@.drop_first());
        match magnitude_exec(&cs, 1) {
            Some(n) => Ok(-n),
            None => Err(AeatError::InvalidValue { field: at_label_exec(at), value: s }),
        }
    } else {
        assert(cs@.skip(0) =~= cs@);
        match magnitude_exec(&cs, 0) {
            Some(n) => Ok(n),
            None => Err(AeatError::InvalidValue { field: at_label_exec(at), value: s }),
        }
    }
}

pub open spec fn unsigned_label(at: nat) -> Seq<char> {
    "parse_unsigned_amount@"@ + nat_text(at)
}

/// Parse an unsigned amount field from the buffer: its ISO-8859-1 text
/// without leading zeros and spaces, read as an integer. Every byte is valid
/// ISO-8859-1, so the only failures are a short buffer and a text that is not
/// a number.
pub fn parse_unsigned_amount(data: &[u8], at: usize, len: usize) -> (res: Result<i64, AeatError>)
    requires
        at >= 1,
        at - 1 + len <= usize::MAX,
    ensures
        at - 1 + len > data@.len() ==> (res matches Err(e) && is_short_record(
            e,
            at - 1 + len,
            data@.len() as int,
        )),
        at - 1 + len <= data@.len() ==> match magnitude_of(field_text(data@, at as int, len as int)) {
            Some(v) => res == Ok::<i64, AeatError>(v),
            None => res matches Err(e) && is_invalid_value(
                e,
                unsigned_label(at as nat),
                field_text(data@, at as int, len as int),
            ),
        },
{
    let start = at - 1;
    let end = start + len;
    if end > data.len() {
        return Err(AeatError::ShortRecord { expected: end, got: data.len() });
    }
    let s = read_field(data, at, len);
    let cs = chars_of(s.as_str());
    assert(cs@.skip(0) =~= cs@);
    match magnitude_exec(&cs, 0) {
        Some(v) => Ok(v),
        None => {
            let mut label = string_from("parse_unsigned_amount@");
            label.append(usize_string(at).as_str());
            Err(AeatError::InvalidValue { field: label, value: s })
        },
    }
}

/// Append `s` to `buf`, one ISO-8859-1 byte per char. Stops with
/// `InvalidValue` at the first character outside ISO-8859-1, after appending
/// the ones before it.
pub fn append_latin1(buf: &mut Vec<u8>, s: &str) -> (res: Result<(), AeatError>)
    ensures
        final(buf)@ == old(buf)@ + latin1_bytes(s@.take(first_non_latin1(s@, 0))),
        first_non_latin1(s@, 0) < s@.len() ==> (res matches Err(e) && is_invalid_value(
            e,
            "<template>"@,
            s@,
        )),
        first_non_latin1(s@, 0) >= s@.len() ==> res is Ok,
{
    let ghost old_buf = buf@;
    let cs = chars_of(s);
    proof {
        lemma_first_non_latin1(s@, 0);
    }
    let mut n: usize = 0;
    while n < cs.len()
        invariant
            cs@ == s@,
            0 <= n <= cs@.len(),
            n <= first_non_latin1(s@, 0),
            0 <= first_non_latin1(s@, 0) <= s@.len(),
            old_buf == old(buf)@,
            forall|k: int| 0 <= k < first_non_latin1(s@, 0) ==> is_latin1(#[trigger] s@[k]),
            first_non_latin1(s@, 0) < s@.len() ==> !is_latin1(s@[first_non_latin1(s@, 0)]),
            buf@ == old_buf + latin1_bytes(s@.take(n as int)),
        decreases cs@.len() - n,
    {
        let cp = cs[n] as u32;
        if cp >= 256 {
            assert(n == first_non_latin1(s@, 0));
            return Err(
                AeatError::InvalidValue { field: string_from("<template>"), value: string_from(s) },
            );
        }
        buf.push(cp as u8);
        n = n + 1;
        assert(buf@ =~= old_buf + latin1_bytes(s@.take(n as int)));
    }
    Ok(())
}

/// The byte each character of a literal is compared with (`c as u8`: the low
/// eight bits of its code point).
pub open spec fn literal_bytes(s: Seq<char>) -> Seq<u8> {
    s.map_values(|c: char| ((c as u32) % 256) as u8)
}

/// Verify that the fixed literal `expected` sits at 0-indexed byte offset
/// `at` in `data`. `context` names the segment for the error message.
pub fn verify_literal(data: &[u8], at: usize, expected: &str, context: &str) -> (res: Result<
    (),
    AeatError,
>)
    requires
        at + expected@.len() <= usize::MAX,
    ensures
        data@.len() < at + expected@.len() ==> (res matches Err(e) && is_short_record(
            e,
            at + expected@.len(),
            data@.len() as int,
        )),
        data@.len() >= at + expected@.len() && data@.subrange(at as int, at + expected@.len())
            != literal_bytes(expected@) ==> (res matches Err(e) && is_invalid_delimiter(
            e,
            context@,
            expected@,
            latin1_text(data@.subrange(at as int, at + expected@.len())),
        )),
        data@.len() >= at + expected@.len() && data@.subrange(at as int, at + expected@.len())
            == literal_bytes(expected@) ==> res is Ok,
{
    let cs = chars_of(expected);
    let mut want: Vec<u8> = Vec::new();
    let mut i: usize = 0;
    while i < cs.len()
        invariant
            cs@ == expected@,
            0 <= i <= cs@.len(),
            want@ == literal_bytes(cs@.take(i as int)),
        decreases cs@.len() - i,
    {
        want.push((cs[i] as u32 % 256) as u8);
        i = i + 1;
        assert(want@ =~= literal_bytes(cs@.take(i as int)));
    }
    assert(cs@.take(cs@.len() as int) =~= cs@);
    let end = at + want.len();
    if data.len() < end {
        return Err(AeatError::ShortRecord { expected: end, got: data.len() });
    }
    let mut same = true;
    let mut k: usize = 0;
    while k < want.len()
        invariant
            end == at + want@.len(),
            end <= data@.len(),
            0 <= k <= want@.len(),
            same <==> forall|j: int| 0 <= j < k ==> data@[at + j] == want@[j],
        decreases want@.len() - k,
    {
        if data[at + k] != want[k] {
            same = false;
        }
        k = k + 1;
    }
    if !same {
        let mut got = String::new();
        let mut j: usize = at;
        while j < end
            invariant
                at <= j <= end <= data@.len(),
                got@ == latin1_text(data@.subrange(at as int, j as int)),
            decreases end - j,
        {
            push_char(&mut got, data[j] as char);
            j = j + 1;
            assert(got@ =~= latin1_text(data@.subrange(at as int, j as int)));
        }
        assert(data@.subrange(at as int, end as int) != want@) by {
            let w = choose|j: int| 0 <= j < want@.len() && data@[at + j] != want@[j];
            assert(data@.subrange(at as int, end as int)[w] != want@[w]);
        }
        return Err(
            AeatError::InvalidDelimiter {
                context: string_from(context),
                expected: string_from(expected),
                got,
            },
        );
    }
    assert(data@.subrange(at as int, end as int) =~= want@);
    Ok(())
}

// ── leading blanks and zeros ────────────────────────────────────────────
/// Every character of `p` is a blank or a zero.
pub open spec fn blanks_and_zeros(p: Seq<char>) -> bool {
    forall|i: int| 0 <= i < p.len() ==> p[i] == ' ' || p[i] == '0'
}

pub(crate) proof fn lemma_zero_then(e: Seq<char>)
    ensures
        digits_value(seq!['0'] + e) == digits_value(e),
    decreases e.len(),
{
    if e.len() > 0 {
        lemma_zero_then(e.drop_last());
        assert((seq!['0'] + e).drop_last() =~= seq!['0'] + e.drop_last());
    } else {
        assert((seq!['0'] + e).drop_last() =~= e);
    }
}

proof fn lemma_trim_leading(p: Seq<char>, d: Seq<char>)
    requires
        blanks_and_zeros(p),
        all_digits(d),
    ensures
        all_digits(trim_zeros_spaces(p + d)),
        digits_value(trim_zeros_spaces(p + d)) == digits_value(d),
        trim_zeros_spaces(p + d).len() > 0 ==> trim_zeros_spaces(p + d)[0] != '0',
    decreases p.len() + d.len(),
{
    let s = p + d;
    if p.len() > 0 {
        assert(s.drop_first() =~= p.drop_first() + d);
        assert(s[0] == p[0]);
        lemma_trim_leading(p.drop_first(), d);
    } else if d.len() > 0 && d[0] == '0' {
        assert(s =~= d);
        assert(s.drop_first() =~= Seq::<char>::empty() + d.drop_first());
        lemma_trim_leading(Seq::empty(), d.drop_first());
        assert(d =~= seq!['0'] + d.drop_first());
        lemma_zero_then(d.drop_first());
    } else {
        assert(s =~= d);
    }
}

/// An amount's magnitude ignores leading blanks like leading zeros: a text
/// of blanks and zeros followed by digits is the value of those digits, and
/// a text of blanks only is 0.
pub proof fn law_magnitude_skips_blanks(p: Seq<char>, d: Seq<char>)
    requires
        blanks_and_zeros(p),
        all_digits(d),
        digits_value(d) <= i64::MAX,
    ensures
        magnitude_of(p + d) == Some(digits_value(d) as i64),
{
    lemma_trim_leading(p, d);
}

/// A signed amount field of a sign character, blanks or zeros, then digits
/// is the digits' value, negative for `N`; a blank field is 0.
pub proof fn law_signed_amount_skips_blanks(sign: char, p: Seq<char>, d: Seq<char>)
    requires
        blanks_and_zeros(p),
        all_digits(d),
        digits_value(d) <= i64::MAX,
    ensures
        signed_amount_value(seq![sign] + p + d) == Some(
            if sign == 'N' { -(digits_value(d) as int) } else { digits_value(d) as int },
        ),
        signed_amount_n_value(p + d) == Some(digits_value(d) as int),
        signed_amount_n_value(seq!['N'] + p + d) == Some(-(digits_value(d) as int)),
        blanks_and_zeros(p) ==> signed_amount_value(p) == Some(0int) && signed_amount_n_value(p) == Some(0int),
{
    lemma_trim_leading(p, d);
    assert(signed_amount_rest(seq![sign] + p + d) =~= p + d);
    assert((seq!['N'] + p + d).drop_first() =~= p + d);
    if p.len() > 0 {
        assert((p + d)[0] == p[0]);
    }
    lemma_trim_leading(p, Seq::empty());
    assert(p + Seq::<char>::empty() =~= p);
    if p.len() > 0 {
        lemma_trim_leading(p.drop_first(), Seq::empty());
        assert(p.drop_first() + Seq::<char>::empty() =~= p.drop_first());
        assert(signed_amount_rest(p) =~= p.drop_first());
    }
}

} // verus!
