//! Each error message of `validate` names its cause: the message is reported
//! exactly when its cause holds in the model.
use vstd::prelude::*;

use crate::ast::{SpecBoeFile, SpecEnvelope, SpecField, SpecRecord, SpecTemplatePart};
use crate::text::{is_digit, lemma_nat_text_digits, nat_text};
use crate::validator::{
    allows_decimals, bool_idents, check_ref_diags, checks_diags, contains_diags, derive_diags,
    derive_ref_diags, derives_diags, duplicate_record_diags, end_position, envelope_diags,
    error_diag, expr_idents, field_at_diag, field_decimals_diag, field_diags, field_dup_diag,
    field_end_diag, field_fixed_diag, field_head, field_len_diag, field_named_before,
    fields_diags, has_error, has_param, has_record, last_index, layout_diags, lemma_order_by_at_bounds,
    no_diag, order_by_at, param_diags, record_diags, record_layout_diags, record_named_before,
    record_prefix, records_diags, template_diags, validate_spec, warning_diag, DiagLevel,
};
use crate::layout::{
    derive_ref_reported, law_envelope_problems_reported, law_reference_problems_reported,
    lemma_contains_concat, lemma_error_diag_contains, lemma_in_fields_diags,
    lemma_record_part_reported, law_overlap_iff_intersect, fields_intersect, positions_positive,
    reported,
};

verus! {

/// The cause of one error that `validate` can report. Record-level causes
/// carry the name of their record; a cause holds when the model has it.
pub enum ErrorCause {
    DuplicateRecord(Seq<char>),
    ParamLength(Seq<char>),
    UnknownContained(Seq<char>),
    NothingContained,
    HeaderPlaceholder(Seq<char>),
    TrailerPlaceholder(Seq<char>),
    /// record, field
    DuplicateField(Seq<char>, Seq<char>),
    AtZero(Seq<char>, Seq<char>),
    LengthZero(Seq<char>, Seq<char>),
    /// record, field, end position, record length
    EndPast(Seq<char>, Seq<char>, nat, nat),
    /// record, field, length of the fixed value, declared length
    FixedLength(Seq<char>, Seq<char>, nat, nat),
    Decimals(Seq<char>, Seq<char>),
    /// record, field, position, expected position
    Overlap(Seq<char>, Seq<char>, nat, nat),
    /// record, derive target
    UnknownTarget(Seq<char>, Seq<char>),
    /// record, derive target, field read
    UnknownRead(Seq<char>, Seq<char>, Seq<char>),
    ForwardRead(Seq<char>, Seq<char>, Seq<char>),
    /// record, check code, field read
    UnknownCheckRead(Seq<char>, Seq<char>, Seq<char>),
}

/// The prefix of the messages about record `r` (empty when the model has one record).
pub open spec fn prefix_of(multi: bool, r: Seq<char>) -> Seq<char> {
    if multi {
        "record `"@ + r + "`: "@
    } else {
        Seq::empty()
    }
}

/// Whether a cause is about one record (its message then starts with the
/// record's prefix).
pub open spec fn record_level(c: ErrorCause) -> bool {
    !(c is DuplicateRecord || c is ParamLength || c is UnknownContained || c is NothingContained
        || c is HeaderPlaceholder || c is TrailerPlaceholder)
}

/// The record a record-level cause is about.
pub open spec fn cause_record(c: ErrorCause) -> Seq<char> {
    match c {
        ErrorCause::DuplicateField(r, _) => r,
        ErrorCause::AtZero(r, _) => r,
        ErrorCause::LengthZero(r, _) => r,
        ErrorCause::EndPast(r, _, _, _) => r,
        ErrorCause::FixedLength(r, _, _, _) => r,
        ErrorCause::Decimals(r, _) => r,
        ErrorCause::Overlap(r, _, _, _) => r,
        ErrorCause::UnknownTarget(r, _) => r,
        ErrorCause::UnknownRead(r, _, _) => r,
        ErrorCause::ForwardRead(r, _, _) => r,
        ErrorCause::UnknownCheckRead(r, _, _) => r,
        _ => Seq::empty(),
    }
}

/// The message of a cause, without the record prefix.
pub open spec fn cause_body(c: ErrorCause) -> Seq<char> {
    match c {
        ErrorCause::DuplicateRecord(r) => "duplicate record name `"@ + r + "`"@,
        ErrorCause::ParamLength(n) => "envelope param `"@ + n + "`: `length` debe ser > 0"@,
        ErrorCause::UnknownContained(n) => "envelope `contains`: record desconocido `"@ + n + "`"@,
        ErrorCause::NothingContained => "envelope `contains` no puede estar vacío"@,
        ErrorCause::HeaderPlaceholder(x) => "envelope header: `${"@ + x + "}` no es un param declarado"@,
        ErrorCause::TrailerPlaceholder(x) => "envelope trailer: `${"@ + x
            + "}` no es un param declarado"@,
        ErrorCause::DuplicateField(_, n) => "duplicate field name `"@ + n + "`"@,
        ErrorCause::AtZero(_, n) => "field `"@ + n + "`: `at` is 1-indexed, got 0"@,
        ErrorCause::LengthZero(_, n) => "field `"@ + n + "`: `length` must be > 0"@,
        ErrorCause::EndPast(_, n, e, l) => "field `"@ + n + "`: end position "@ + nat_text(e)
            + " exceeds record_length "@ + nat_text(l),
        ErrorCause::FixedLength(_, n, x, l) => "field `"@ + n + "`: fixed value length "@ + nat_text(x)
            + " does not match declared length "@ + nat_text(l),
        ErrorCause::Decimals(_, n) => "field `"@ + n
            + "`: `decimals` only allowed on signed_amount or unsigned_amount"@,
        ErrorCause::Overlap(_, n, a, c) => "field `"@ + n + "` at position "@ + nat_text(a)
            + " overlaps previous field (expected >= "@ + nat_text(c) + ")"@,
        ErrorCause::UnknownTarget(_, t) => "derive: unknown target field `"@ + t + "`"@,
        ErrorCause::UnknownRead(_, t, n) => "derive `"@ + t + "`: unknown field `"@ + n + "`"@,
        ErrorCause::ForwardRead(_, t, n) => "derive `"@ + t + "`: forward reference to `"@ + n
            + "` (must be declared before target)"@,
        ErrorCause::UnknownCheckRead(_, k, n) => "check `"@ + k + "`: unknown field `"@ + n + "`"@,
    }
}

/// The message `validate` gives for a cause.
pub open spec fn cause_message(multi: bool, c: ErrorCause) -> Seq<char> {
    if record_level(c) {
        prefix_of(multi, cause_record(c)) + cause_body(c)
    } else {
        cause_body(c)
    }
}

/// A text without backticks (all names of a parsed model but record names are identifiers).
pub open spec fn plain(s: Seq<char>) -> bool {
    forall|i: int| 0 <= i < s.len() ==> s[i] != '`'
}

pub open spec fn cause_plain(c: ErrorCause) -> bool {
    match c {
        ErrorCause::DuplicateRecord(r) => plain(r),
        ErrorCause::ParamLength(n) => plain(n),
        ErrorCause::UnknownContained(n) => plain(n),
        ErrorCause::NothingContained => true,
        ErrorCause::HeaderPlaceholder(x) => plain(x),
        ErrorCause::TrailerPlaceholder(x) => plain(x),
        ErrorCause::DuplicateField(r, n) => plain(r) && plain(n),
        ErrorCause::AtZero(r, n) => plain(r) && plain(n),
        ErrorCause::LengthZero(r, n) => plain(r) && plain(n),
        ErrorCause::EndPast(r, n, _, _) => plain(r) && plain(n),
        ErrorCause::FixedLength(r, n, _, _) => plain(r) && plain(n),
        ErrorCause::Decimals(r, n) => plain(r) && plain(n),
        ErrorCause::Overlap(r, n, _, _) => plain(r) && plain(n),
        ErrorCause::UnknownTarget(r, t) => plain(r) && plain(t),
        ErrorCause::UnknownRead(r, t, n) => plain(r) && plain(t) && plain(n),
        ErrorCause::ForwardRead(r, t, n) => plain(r) && plain(t) && plain(n),
        ErrorCause::UnknownCheckRead(r, k, n) => plain(r) && plain(k) && plain(n),
    }
}

/// Two causes with the same message: equal, but for the record name of a
/// record-level cause in a model with one record, which no message shows.
pub open spec fn same_cause(multi: bool, c1: ErrorCause, c2: ErrorCause) -> bool {
    if multi {
        c1 == c2
    } else {
        match (c1, c2) {
            (ErrorCause::DuplicateField(_, a), ErrorCause::DuplicateField(_, b)) => a == b,
            (ErrorCause::AtZero(_, a), ErrorCause::AtZero(_, b)) => a == b,
            (ErrorCause::LengthZero(_, a), ErrorCause::LengthZero(_, b)) => a == b,
            (ErrorCause::EndPast(_, a, x, y), ErrorCause::EndPast(_, b, u, v)) => a == b && x == u && y == v,
            (ErrorCause::FixedLength(_, a, x, y), ErrorCause::FixedLength(_, b, u, v)) => a == b && x == u
                && y == v,
            (ErrorCause::Decimals(_, a), ErrorCause::Decimals(_, b)) => a == b,
            (ErrorCause::Overlap(_, a, x, y), ErrorCause::Overlap(_, b, u, v)) => a == b && x == u && y == v,
            (ErrorCause::UnknownTarget(_, a), ErrorCause::UnknownTarget(_, b)) => a == b,
            (ErrorCause::UnknownRead(_, a, x), ErrorCause::UnknownRead(_, b, y)) => a == b && x == y,
            (ErrorCause::ForwardRead(_, a, x), ErrorCause::ForwardRead(_, b, y)) => a == b && x == y,
            (ErrorCause::UnknownCheckRead(_, a, x), ErrorCause::UnknownCheckRead(_, b, y)) => a == b && x
                == y,
            _ => c1 == c2,
        }
    }
}

// ── reading a message back ────────────────────────────────────────────────
/// The first backtick of `m` at or after `i` (`m.len()` when there is none).
pub open spec fn backtick_from(m: Seq<char>, i: int) -> int
    decreases m.len() - i,
{
    if 0 <= i < m.len() && m[i] != '`' {
        backtick_from(m, i + 1)
    } else {
        i
    }
}

proof fn lemma_backtick_from(a: Seq<char>, n: Seq<char>, b: Seq<char>, i: int)
    requires
        0 <= i <= a.len() + n.len(),
        forall|k: int| i <= k < a.len() ==> a[k] != '`',
        plain(n),
        b.len() > 0,
        b[0] == '`',
    ensures
        backtick_from(a + n + b, i) == a.len() + n.len(),
    decreases a.len() + n.len() - i,
{
    let m = a + n + b;
    if i < a.len() + n.len() {
        if i < a.len() {
            assert(m[i] == a[i]);
        } else {
            assert(m[i] == n[i - a.len()]);
        }
        lemma_backtick_from(a, n, b, i + 1);
    } else {
        assert(m[i] == b[0]);
    }
}

/// The body of a message: what follows the record prefix, if any.
pub open spec fn message_body(multi: bool, m: Seq<char>) -> Seq<char> {
    if multi && m.len() > 0 && m[0] == 'r' {
        m.skip(backtick_from(m, 8) + 3)
    } else {
        m
    }
}

/// Texts that read the same up to a run of `good` characters, followed by a
/// character that is not `good`, have the same run and the same rest.
proof fn lemma_split(p: Seq<char>, x1: Seq<char>, y1: Seq<char>, x2: Seq<char>, y2: Seq<char>, good: spec_fn(char) -> bool)
    requires
        p + x1 + y1 == p + x2 + y2,
        forall|i: int| 0 <= i < x1.len() ==> good(#[trigger] x1[i]),
        forall|i: int| 0 <= i < x2.len() ==> good(#[trigger] x2[i]),
        y1.len() > 0 && !good(y1[0]),
        y2.len() > 0 && !good(y2[0]),
    ensures
        x1 == x2,
        y1 == y2,
{
    let m = p + x1 + y1;
    let m2 = p + x2 + y2;
    if x1.len() < x2.len() {
        assert(m[(p.len() + x1.len()) as int] == y1[0]);
        assert(m2[(p.len() + x1.len()) as int] == x2[x1.len() as int]);
        assert(false);
    }
    if x2.len() < x1.len() {
        assert(m2[(p.len() + x2.len()) as int] == y2[0]);
        assert(m[(p.len() + x2.len()) as int] == x1[x2.len() as int]);
        assert(false);
    }
    assert(x1 =~= m.subrange(p.len() as int, (p.len() + x1.len()) as int));
    assert(x2 =~= m2.subrange(p.len() as int, (p.len() + x2.len()) as int));
    assert(y1 =~= m.skip((p.len() + x1.len()) as int));
    assert(y2 =~= m2.skip((p.len() + x2.len()) as int));
}

pub open spec fn not_backtick(c: char) -> bool {
    c != '`'
}

/// Reading a record-level message back: the record prefix gives the record
/// name, and what follows it is the body.
proof fn lemma_message_body(multi: bool, c: ErrorCause)
    requires
        cause_plain(c),
    ensures
        message_body(multi, cause_message(multi, c)) == cause_body(c),
        multi && record_level(c) ==> cause_message(multi, c).subrange(
            8,
            backtick_from(cause_message(multi, c), 8),
        ) == cause_record(c),
{
    let m = cause_message(multi, c);
    let b = cause_body(c);
    reveal_strlit("record `");
    reveal_strlit("`: ");
    reveal_strlit("duplicate record name `");
    reveal_strlit("envelope param `");
    reveal_strlit("envelope `contains`: record desconocido `");
    reveal_strlit("envelope `contains` no puede estar vacío");
    reveal_strlit("envelope header: `${");
    reveal_strlit("envelope trailer: `${");
    if record_level(c) && multi {
        let r = cause_record(c);
        assert(plain(r));
        let a: Seq<char> = "record `"@;
        let tail: Seq<char> = "`: "@ + b;
        assert(m =~= a + r + tail);
        assert forall|k: int| 8 <= k < a.len() implies a[k] != '`' by {}
        lemma_backtick_from(a, r, tail, 8);
        assert(m.skip(8 + r.len() as int + 3) =~= b);
        assert(m.subrange(8, 8 + r.len() as int) =~= r);
        assert(m[0] == 'r');
    } else if record_level(c) {
        assert(m =~= b);
    }
}

/// The kind of cause a message body tells, as a number.
pub open spec fn body_kind(b: Seq<char>) -> int {
    if b[0] == 'f' {
        let j = backtick_from(b, 7);
        if b[j + 1] == ' ' {
            12
        } else if b[j + 3] == 'e' {
            9
        } else if b[j + 3] == 'f' {
            10
        } else if b[j + 4] == 'a' {
            7
        } else if b[j + 4] == 'l' {
            8
        } else {
            11
        }
    } else if b[0] == 'c' {
        16
    } else if b[0] == 'e' {
        if b[9] == 'p' {
            1
        } else if b[9] == 'h' {
            4
        } else if b[9] == 't' {
            5
        } else if b[19] == ':' {
            2
        } else {
            3
        }
    } else if b[1] == 'u' {
        if b[10] == 'f' {
            6
        } else {
            0
        }
    } else if b[6] == ':' {
        13
    } else {
        let j = backtick_from(b, 8);
        if b[j + 3] == 'u' {
            14
        } else {
            15
        }
    }
}

pub open spec fn cause_kind(c: ErrorCause) -> int {
    match c {
        ErrorCause::DuplicateRecord(_) => 0,
        ErrorCause::ParamLength(_) => 1,
        ErrorCause::UnknownContained(_) => 2,
        ErrorCause::NothingContained => 3,
        ErrorCause::HeaderPlaceholder(_) => 4,
        ErrorCause::TrailerPlaceholder(_) => 5,
        ErrorCause::DuplicateField(_, _) => 6,
        ErrorCause::AtZero(_, _) => 7,
        ErrorCause::LengthZero(_, _) => 8,
        ErrorCause::EndPast(_, _, _, _) => 9,
        ErrorCause::FixedLength(_, _, _, _) => 10,
        ErrorCause::Decimals(_, _) => 11,
        ErrorCause::Overlap(_, _, _, _) => 12,
        ErrorCause::UnknownTarget(_, _) => 13,
        ErrorCause::UnknownRead(_, _, _) => 14,
        ErrorCause::ForwardRead(_, _, _) => 15,
        ErrorCause::UnknownCheckRead(_, _, _) => 16,
    }
}

/// The body of a field-level message: `field `, the field name, then a text
/// that starts with a backtick.
proof fn lemma_field_body(n: Seq<char>, rest: Seq<char>)
    requires
        plain(n),
        rest.len() > 4,
        rest[0] == '`',
    ensures
        backtick_from("field `"@ + n + rest, 7) == 7 + n.len(),
        ("field `"@ + n + rest)[0] == 'f',
{
    reveal_strlit("field `");
    let a: Seq<char> = "field `"@;
    assert forall|k: int| 7 <= k < a.len() implies a[k] != '`' by {}
    lemma_backtick_from(a, n, rest, 7);
}

proof fn lemma_derive_body(t: Seq<char>, rest: Seq<char>)
    requires
        plain(t),
        rest.len() > 4,
        rest[0] == '`',
    ensures
        backtick_from("derive `"@ + t + rest, 8) == 8 + t.len(),
        ("derive `"@ + t + rest)[0] == 'd',
        ("derive `"@ + t + rest)[1] == 'e',
        ("derive `"@ + t + rest)[6] == ' ',
{
    reveal_strlit("derive `");
    let a: Seq<char> = "derive `"@;
    assert forall|k: int| 8 <= k < a.len() implies a[k] != '`' by {}
    lemma_backtick_from(a, t, rest, 8);
}

/// A body tells the kind of its cause.
proof fn lemma_body_kind(c: ErrorCause)
    requires
        cause_plain(c),
    ensures
        body_kind(cause_body(c)) == cause_kind(c),
{
    let b = cause_body(c);
    reveal_strlit("duplicate record name `");
    reveal_strlit("duplicate field name `");
    reveal_strlit("envelope param `");
    reveal_strlit("envelope `contains`: record desconocido `");
    reveal_strlit("envelope `contains` no puede estar vacío");
    reveal_strlit("envelope header: `${");
    reveal_strlit("envelope trailer: `${");
    reveal_strlit("derive: unknown target field `");
    reveal_strlit("check `");
    reveal_strlit("field `");
    reveal_strlit("derive `");
    match c {
        ErrorCause::AtZero(_, n) => {
            let rest: Seq<char> = "`: `at` is 1-indexed, got 0"@;
            reveal_strlit("`: `at` is 1-indexed, got 0");
            assert(b =~= "field `"@ + n + rest);
            lemma_field_body(n, rest);
            let j: int = 7 + n.len() as int;
            assert(b[j + 1] == rest[1] && b[j + 3] == rest[3] && b[j + 4] == rest[4]);
        },
        ErrorCause::LengthZero(_, n) => {
            let rest: Seq<char> = "`: `length` must be > 0"@;
            reveal_strlit("`: `length` must be > 0");
            assert(b =~= "field `"@ + n + rest);
            lemma_field_body(n, rest);
            let j: int = 7 + n.len() as int;
            assert(b[j + 1] == rest[1] && b[j + 3] == rest[3] && b[j + 4] == rest[4]);
        },
        ErrorCause::Decimals(_, n) => {
            let rest: Seq<char> = "`: `decimals` only allowed on signed_amount or unsigned_amount"@;
            reveal_strlit("`: `decimals` only allowed on signed_amount or unsigned_amount");
            assert(b =~= "field `"@ + n + rest);
            lemma_field_body(n, rest);
            let j: int = 7 + n.len() as int;
            assert(b[j + 1] == rest[1] && b[j + 3] == rest[3] && b[j + 4] == rest[4]);
        },
        ErrorCause::EndPast(_, n, e, l) => {
            let rest = "`: end position "@ + nat_text(e) + " exceeds record_length "@ + nat_text(l);
            reveal_strlit("`: end position ");
            assert(b =~= "field `"@ + n + rest);
            lemma_field_body(n, rest);
            let j: int = 7 + n.len() as int;
            assert(b[j + 1] == rest[1] && b[j + 3] == rest[3]);
        },
        ErrorCause::FixedLength(_, n, x, l) => {
            let rest = "`: fixed value length "@ + nat_text(x) + " does not match declared length "@
                + nat_text(l);
            reveal_strlit("`: fixed value length ");
            assert(b =~= "field `"@ + n + rest);
            lemma_field_body(n, rest);
            let j: int = 7 + n.len() as int;
            assert(b[j + 1] == rest[1] && b[j + 3] == rest[3]);
        },
        ErrorCause::Overlap(_, n, a, k) => {
            let rest = "` at position "@ + nat_text(a) + " overlaps previous field (expected >= "@
                + nat_text(k) + ")"@;
            reveal_strlit("` at position ");
            assert(b =~= "field `"@ + n + rest);
            lemma_field_body(n, rest);
            let j: int = 7 + n.len() as int;
            assert(b[j + 1] == rest[1]);
        },
        ErrorCause::UnknownRead(_, t, n) => {
            let rest = "`: unknown field `"@ + n + "`"@;
            reveal_strlit("`: unknown field `");
            assert(b =~= "derive `"@ + t + rest);
            lemma_derive_body(t, rest);
            let j: int = 8 + t.len() as int;
            assert(b[j + 3] == rest[3]);
        },
        ErrorCause::ForwardRead(_, t, n) => {
            let rest = "`: forward reference to `"@ + n + "` (must be declared before target)"@;
            reveal_strlit("`: forward reference to `");
            assert(b =~= "derive `"@ + t + rest);
            lemma_derive_body(t, rest);
            let j: int = 8 + t.len() as int;
            assert(b[j + 3] == rest[3]);
        },
        _ => {},
    }
}

proof fn lemma_cancel(p: Seq<char>, x1: Seq<char>, x2: Seq<char>, y: Seq<char>)
    requires
        p + x1 + y == p + x2 + y,
    ensures
        x1 == x2,
{
    let m = p + x1 + y;
    let m2 = p + x2 + y;
    assert(m.len() == m2.len());
    assert(x1.len() == x2.len());
    assert forall|i: int| 0 <= i < x1.len() implies x1[i] == x2[i] by {
        assert(m[p.len() + i] == x1[i]);
        assert(m2[p.len() + i] == x2[i]);
    }
    assert(x1 =~= x2);
}

proof fn lemma_nat_text_injective(a: nat, b: nat)
    requires
        nat_text(a) == nat_text(b),
    ensures
        a == b,
{
    lemma_nat_text_digits(a);
    lemma_nat_text_digits(b);
}

proof fn lemma_nat_text_is_digits(a: nat)
    ensures
        forall|i: int| 0 <= i < nat_text(a).len() ==> is_digit(#[trigger] nat_text(a)[i]),
        forall|i: int| 0 <= i < nat_text(a).len() ==> not_backtick(#[trigger] nat_text(a)[i]),
{
    lemma_nat_text_digits(a);
    assert forall|i: int| 0 <= i < nat_text(a).len() implies not_backtick(#[trigger] nat_text(a)[i]) by {
        assert(is_digit(nat_text(a)[i]));
    }
}

/// The fields of a cause that its body shows.
pub open spec fn body_fields_equal(c1: ErrorCause, c2: ErrorCause) -> bool {
    match (c1, c2) {
        (ErrorCause::DuplicateField(_, a), ErrorCause::DuplicateField(_, b)) => a == b,
        (ErrorCause::AtZero(_, a), ErrorCause::AtZero(_, b)) => a == b,
        (ErrorCause::LengthZero(_, a), ErrorCause::LengthZero(_, b)) => a == b,
        (ErrorCause::EndPast(_, a, x, y), ErrorCause::EndPast(_, b, u, v)) => a == b && x == u && y == v,
        (ErrorCause::FixedLength(_, a, x, y), ErrorCause::FixedLength(_, b, u, v)) => a == b && x == u && y
            == v,
        (ErrorCause::Decimals(_, a), ErrorCause::Decimals(_, b)) => a == b,
        (ErrorCause::Overlap(_, a, x, y), ErrorCause::Overlap(_, b, u, v)) => a == b && x == u && y == v,
        (ErrorCause::UnknownTarget(_, a), ErrorCause::UnknownTarget(_, b)) => a == b,
        (ErrorCause::UnknownRead(_, a, x), ErrorCause::UnknownRead(_, b, y)) => a == b && x == y,
        (ErrorCause::ForwardRead(_, a, x), ErrorCause::ForwardRead(_, b, y)) => a == b && x == y,
        (ErrorCause::UnknownCheckRead(_, a, x), ErrorCause::UnknownCheckRead(_, b, y)) => a == b && x == y,
        _ => c1 == c2,
    }
}

proof fn lemma_simple_bodies(c1: ErrorCause, c2: ErrorCause)
    requires
        cause_kind(c1) == cause_kind(c2),
        cause_body(c1) == cause_body(c2),
        !(c1 is EndPast || c1 is FixedLength || c1 is Overlap || c1 is UnknownRead || c1 is ForwardRead
            || c1 is UnknownCheckRead),
    ensures
        body_fields_equal(c1, c2),
{
    match (c1, c2) {
        (ErrorCause::DuplicateRecord(x), ErrorCause::DuplicateRecord(y)) => {
            lemma_cancel("duplicate record name `"@, x, y, "`"@);
        },
        (ErrorCause::ParamLength(x), ErrorCause::ParamLength(y)) => {
            lemma_cancel("envelope param `"@, x, y, "`: `length` debe ser > 0"@);
        },
        (ErrorCause::UnknownContained(x), ErrorCause::UnknownContained(y)) => {
            lemma_cancel("envelope `contains`: record desconocido `"@, x, y, "`"@);
        },
        (ErrorCause::HeaderPlaceholder(x), ErrorCause::HeaderPlaceholder(y)) => {
            lemma_cancel("envelope header: `${"@, x, y, "}` no es un param declarado"@);
        },
        (ErrorCause::TrailerPlaceholder(x), ErrorCause::TrailerPlaceholder(y)) => {
            lemma_cancel("envelope trailer: `${"@, x, y, "}` no es un param declarado"@);
        },
        (ErrorCause::DuplicateField(_, x), ErrorCause::DuplicateField(_, y)) => {
            lemma_cancel("duplicate field name `"@, x, y, "`"@);
        },
        (ErrorCause::AtZero(_, x), ErrorCause::AtZero(_, y)) => {
            lemma_cancel("field `"@, x, y, "`: `at` is 1-indexed, got 0"@);
        },
        (ErrorCause::LengthZero(_, x), ErrorCause::LengthZero(_, y)) => {
            lemma_cancel("field `"@, x, y, "`: `length` must be > 0"@);
        },
        (ErrorCause::Decimals(_, x), ErrorCause::Decimals(_, y)) => {
            lemma_cancel(
                "field `"@,
                x,
                y,
                "`: `decimals` only allowed on signed_amount or unsigned_amount"@,
            );
        },
        (ErrorCause::UnknownTarget(_, x), ErrorCause::UnknownTarget(_, y)) => {
            lemma_cancel("derive: unknown target field `"@, x, y, "`"@);
        },
        _ => {},
    }
}

proof fn lemma_end_bodies(x: Seq<char>, e1: nat, l1: nat, y: Seq<char>, e2: nat, l2: nat)
    requires
        plain(x),
        plain(y),
        cause_body(ErrorCause::EndPast(Seq::empty(), x, e1, l1)) == cause_body(
            ErrorCause::EndPast(Seq::empty(), y, e2, l2),
        ),
    ensures
        x == y && e1 == e2 && l1 == l2,
{
    reveal_strlit("`: end position ");
    reveal_strlit(" exceeds record_length ");
    let nb = |c: char| not_backtick(c);
    let dg = |c: char| is_digit(c);
    let r1 = "`: end position "@ + nat_text(e1) + " exceeds record_length "@ + nat_text(l1);
    let r2 = "`: end position "@ + nat_text(e2) + " exceeds record_length "@ + nat_text(l2);
    assert("field `"@ + x + r1 =~= cause_body(ErrorCause::EndPast(Seq::empty(), x, e1, l1)));
    assert("field `"@ + y + r2 =~= cause_body(ErrorCause::EndPast(Seq::empty(), y, e2, l2)));
    lemma_split("field `"@, x, r1, y, r2, nb);
    lemma_nat_text_is_digits(e1);
    lemma_nat_text_is_digits(e2);
    let t1 = " exceeds record_length "@ + nat_text(l1);
    let t2 = " exceeds record_length "@ + nat_text(l2);
    assert(r1 =~= "`: end position "@ + nat_text(e1) + t1);
    assert(r2 =~= "`: end position "@ + nat_text(e2) + t2);
    lemma_split("`: end position "@, nat_text(e1), t1, nat_text(e2), t2, dg);
    assert(t1 =~= " exceeds record_length "@ + nat_text(l1) + Seq::<char>::empty());
    assert(t2 =~= " exceeds record_length "@ + nat_text(l2) + Seq::<char>::empty());
    lemma_cancel(" exceeds record_length "@, nat_text(l1), nat_text(l2), Seq::<char>::empty());
    lemma_nat_text_injective(e1, e2);
    lemma_nat_text_injective(l1, l2);
}

proof fn lemma_fixed_bodies(x: Seq<char>, e1: nat, l1: nat, y: Seq<char>, e2: nat, l2: nat)
    requires
        plain(x),
        plain(y),
        cause_body(ErrorCause::FixedLength(Seq::empty(), x, e1, l1)) == cause_body(
            ErrorCause::FixedLength(Seq::empty(), y, e2, l2),
        ),
    ensures
        x == y && e1 == e2 && l1 == l2,
{
    reveal_strlit("`: fixed value length ");
    reveal_strlit(" does not match declared length ");
    let nb = |c: char| not_backtick(c);
    let dg = |c: char| is_digit(c);
    let r1 = "`: fixed value length "@ + nat_text(e1) + " does not match declared length "@ + nat_text(l1);
    let r2 = "`: fixed value length "@ + nat_text(e2) + " does not match declared length "@ + nat_text(l2);
    assert("field `"@ + x + r1 =~= cause_body(ErrorCause::FixedLength(Seq::empty(), x, e1, l1)));
    assert("field `"@ + y + r2 =~= cause_body(ErrorCause::FixedLength(Seq::empty(), y, e2, l2)));
    lemma_split("field `"@, x, r1, y, r2, nb);
    lemma_nat_text_is_digits(e1);
    lemma_nat_text_is_digits(e2);
    let t1 = " does not match declared length "@ + nat_text(l1);
    let t2 = " does not match declared length "@ + nat_text(l2);
    assert(r1 =~= "`: fixed value length "@ + nat_text(e1) + t1);
    assert(r2 =~= "`: fixed value length "@ + nat_text(e2) + t2);
    lemma_split("`: fixed value length "@, nat_text(e1), t1, nat_text(e2), t2, dg);
    assert(t1 =~= " does not match declared length "@ + nat_text(l1) + Seq::<char>::empty());
    assert(t2 =~= " does not match declared length "@ + nat_text(l2) + Seq::<char>::empty());
    lemma_cancel(" does not match declared length "@, nat_text(l1), nat_text(l2), Seq::<char>::empty());
    lemma_nat_text_injective(e1, e2);
    lemma_nat_text_injective(l1, l2);
}

proof fn lemma_overlap_bodies(x: Seq<char>, a1: nat, k1: nat, y: Seq<char>, a2: nat, k2: nat)
    requires
        plain(x),
        plain(y),
        cause_body(ErrorCause::Overlap(Seq::empty(), x, a1, k1)) == cause_body(
            ErrorCause::Overlap(Seq::empty(), y, a2, k2),
        ),
    ensures
        x == y && a1 == a2 && k1 == k2,
{
    reveal_strlit("` at position ");
    reveal_strlit(" overlaps previous field (expected >= ");
    let nb = |c: char| not_backtick(c);
    let dg = |c: char| is_digit(c);
    let r1 = "` at position "@ + nat_text(a1) + " overlaps previous field (expected >= "@ + nat_text(k1)
        + ")"@;
    let r2 = "` at position "@ + nat_text(a2) + " overlaps previous field (expected >= "@ + nat_text(k2)
        + ")"@;
    assert("field `"@ + x + r1 =~= cause_body(ErrorCause::Overlap(Seq::empty(), x, a1, k1)));
    assert("field `"@ + y + r2 =~= cause_body(ErrorCause::Overlap(Seq::empty(), y, a2, k2)));
    lemma_split("field `"@, x, r1, y, r2, nb);
    lemma_nat_text_is_digits(a1);
    lemma_nat_text_is_digits(a2);
    let t1 = " overlaps previous field (expected >= "@ + nat_text(k1) + ")"@;
    let t2 = " overlaps previous field (expected >= "@ + nat_text(k2) + ")"@;
    assert(r1 =~= "` at position "@ + nat_text(a1) + t1);
    assert(r2 =~= "` at position "@ + nat_text(a2) + t2);
    lemma_split("` at position "@, nat_text(a1), t1, nat_text(a2), t2, dg);
    lemma_cancel(" overlaps previous field (expected >= "@, nat_text(k1), nat_text(k2), ")"@);
    lemma_nat_text_injective(a1, a2);
    lemma_nat_text_injective(k1, k2);
}

proof fn lemma_read_bodies(lead: Seq<char>, t1: Seq<char>, x: Seq<char>, t2: Seq<char>, y: Seq<char>, mid: Seq<char>, tail: Seq<char>)
    requires
        plain(t1),
        plain(t2),
        mid.len() > 0,
        mid[0] == '`',
        lead + t1 + mid + x + tail == lead + t2 + mid + y + tail,
    ensures
        t1 == t2 && x == y,
{
    let nb = |c: char| not_backtick(c);
    let r1 = mid + x + tail;
    let r2 = mid + y + tail;
    assert(lead + t1 + r1 =~= lead + t1 + mid + x + tail);
    assert(lead + t2 + r2 =~= lead + t2 + mid + y + tail);
    lemma_split(lead, t1, r1, t2, r2, nb);
    lemma_cancel(mid, x, y, tail);
}

/// A message tells its cause: two causes with the same message are the same
/// (up to the record name that no message of a one-record model shows).
pub proof fn law_message_tells_cause(multi: bool, c1: ErrorCause, c2: ErrorCause)
    requires
        cause_plain(c1),
        cause_plain(c2),
        cause_message(multi, c1) == cause_message(multi, c2),
    ensures
        same_cause(multi, c1, c2),
{
    lemma_message_body(multi, c1);
    lemma_message_body(multi, c2);
    lemma_body_kind(c1);
    lemma_body_kind(c2);
    let b1 = cause_body(c1);
    let b2 = cause_body(c2);
    assert(b1 == b2);
    match (c1, c2) {
        (ErrorCause::EndPast(_, x, e1, l1), ErrorCause::EndPast(_, y, e2, l2)) => {
            lemma_end_bodies(x, e1, l1, y, e2, l2);
        },
        (ErrorCause::FixedLength(_, x, e1, l1), ErrorCause::FixedLength(_, y, e2, l2)) => {
            lemma_fixed_bodies(x, e1, l1, y, e2, l2);
        },
        (ErrorCause::Overlap(_, x, a1, k1), ErrorCause::Overlap(_, y, a2, k2)) => {
            lemma_overlap_bodies(x, a1, k1, y, a2, k2);
        },
        (ErrorCause::UnknownRead(_, t1, x), ErrorCause::UnknownRead(_, t2, y)) => {
            reveal_strlit("`: unknown field `");
            lemma_read_bodies("derive `"@, t1, x, t2, y, "`: unknown field `"@, "`"@);
        },
        (ErrorCause::ForwardRead(_, t1, x), ErrorCause::ForwardRead(_, t2, y)) => {
            reveal_strlit("`: forward reference to `");
            lemma_read_bodies(
                "derive `"@,
                t1,
                x,
                t2,
                y,
                "`: forward reference to `"@,
                "` (must be declared before target)"@,
            );
        },
        (ErrorCause::UnknownCheckRead(_, t1, x), ErrorCause::UnknownCheckRead(_, t2, y)) => {
            reveal_strlit("`: unknown field `");
            lemma_read_bodies("check `"@, t1, x, t2, y, "`: unknown field `"@, "`"@);
        },
        _ => {
            lemma_simple_bodies(c1, c2);
        },
    }
    assert(body_fields_equal(c1, c2));
    if multi && record_level(c1) {
        assert(cause_record(c1) == cause_record(c2));
    }
}


// ── when a cause holds ────────────────────────────────────────────────────
/// Record `r` of `f` is the one named `name`; a model of one record shows no
/// record name in its messages, so there any name will do.
pub open spec fn record_ok(f: SpecBoeFile, name: Seq<char>, r: int) -> bool {
    0 <= r < f.records.len() && (f.records.len() > 1 ==> f.records[r].name == name)
}

/// The first position free after the first `k` fields in position order.
pub open spec fn cursor_before(fs: Seq<SpecField>, order: Seq<int>, k: int) -> int {
    if k == 0 {
        1
    } else {
        fs[order[k - 1]].at + fs[order[k - 1]].length
    }
}

/// Cause `c` holds in `f` at record `r`, item `i` of that record (a field,
/// the `i`-th field in position order for an overlap, a derive, a check) or
/// of the envelope, and name `k` read by that derive or check.
pub open spec fn holds_at(f: SpecBoeFile, c: ErrorCause, r: int, i: int, k: int) -> bool {
    let rs = f.records;
    match c {
        ErrorCause::DuplicateRecord(n) => 0 <= r < rs.len() && rs[r].name == n && record_named_before(rs, r),
        ErrorCause::ParamLength(n) => f.envelope is Some && 0 <= i < f.envelope.unwrap().params.len()
            && f.envelope.unwrap().params[i].name == n && f.envelope.unwrap().params[i].length == 0,
        ErrorCause::UnknownContained(n) => f.envelope is Some && 0 <= i < f.envelope.unwrap().contains.len()
            && f.envelope.unwrap().contains[i] == n && !has_record(rs, n),
        ErrorCause::NothingContained => f.envelope is Some && f.envelope.unwrap().contains.len() == 0,
        ErrorCause::HeaderPlaceholder(x) => f.envelope is Some && 0 <= i < f.envelope.unwrap().header.len()
            && f.envelope.unwrap().header[i] == SpecTemplatePart::Field(x) && !has_param(
            f.envelope.unwrap().params,
            x,
        ),
        ErrorCause::TrailerPlaceholder(x) => f.envelope is Some && 0 <= i < f.envelope.unwrap().trailer.len()
            && f.envelope.unwrap().trailer[i] == SpecTemplatePart::Field(x) && !has_param(
            f.envelope.unwrap().params,
            x,
        ),
        ErrorCause::DuplicateField(name, n) => record_ok(f, name, r) && 0 <= i < rs[r].fields.len()
            && rs[r].fields[i].name == n && field_named_before(rs[r].fields, i),
        ErrorCause::AtZero(name, n) => record_ok(f, name, r) && 0 <= i < rs[r].fields.len()
            && rs[r].fields[i].name == n && rs[r].fields[i].at == 0,
        ErrorCause::LengthZero(name, n) => record_ok(f, name, r) && 0 <= i < rs[r].fields.len()
            && rs[r].fields[i].name == n && rs[r].fields[i].length == 0,
        ErrorCause::EndPast(name, n, e, l) => record_ok(f, name, r) && 0 <= i < rs[r].fields.len()
            && rs[r].fields[i].name == n && e == end_position(rs[r].fields[i]) && l == rs[r].record_length
            && e > l,
        ErrorCause::FixedLength(name, n, x, l) => record_ok(f, name, r) && 0 <= i < rs[r].fields.len()
            && rs[r].fields[i].name == n && rs[r].fields[i].fixed is Some && x == rs[r].fields[i].fixed.unwrap().len()
            && l == rs[r].fields[i].length && x != l,
        ErrorCause::Decimals(name, n) => record_ok(f, name, r) && 0 <= i < rs[r].fields.len()
            && rs[r].fields[i].name == n && rs[r].fields[i].decimals is Some && !allows_decimals(
            rs[r].fields[i].ty,
        ),
        ErrorCause::Overlap(name, n, a, cur) => record_ok(f, name, r) && 0 <= i < rs[r].fields.len()
            && rs[r].fields[order_by_at(rs[r].fields, rs[r].fields.len())[i]].name == n
            && a == rs[r].fields[order_by_at(rs[r].fields, rs[r].fields.len())[i]].at
            && cur == cursor_before(rs[r].fields, order_by_at(rs[r].fields, rs[r].fields.len()), i)
            && a < cur,
        ErrorCause::UnknownTarget(name, t) => record_ok(f, name, r) && 0 <= i < rs[r].derives.len()
            && rs[r].derives[i].target == t && last_index(rs[r].fields, t) is None,
        ErrorCause::UnknownRead(name, t, n) => record_ok(f, name, r) && 0 <= i < rs[r].derives.len()
            && rs[r].derives[i].target == t && last_index(rs[r].fields, t) is Some
            && 0 <= k < expr_idents(rs[r].derives[i].expr).len() && expr_idents(rs[r].derives[i].expr)[k] == n
            && last_index(rs[r].fields, n) is None,
        ErrorCause::ForwardRead(name, t, n) => record_ok(f, name, r) && 0 <= i < rs[r].derives.len()
            && rs[r].derives[i].target == t && last_index(rs[r].fields, t) is Some
            && 0 <= k < expr_idents(rs[r].derives[i].expr).len() && expr_idents(rs[r].derives[i].expr)[k] == n
            && last_index(rs[r].fields, n) is Some && last_index(rs[r].fields, n).unwrap() >= last_index(
            rs[r].fields,
            t,
        ).unwrap(),
        ErrorCause::UnknownCheckRead(name, code, n) => record_ok(f, name, r) && 0 <= i < rs[r].checks.len()
            && rs[r].checks[i].code == code && 0 <= k < bool_idents(rs[r].checks[i].rule).len()
            && bool_idents(rs[r].checks[i].rule)[k] == n && last_index(rs[r].fields, n) is None,
    }
}

/// Cause `c` holds somewhere in `f`.
pub open spec fn cause_holds(f: SpecBoeFile, c: ErrorCause) -> bool {
    exists|r: int, i: int, k: int| #[trigger] holds_at(f, c, r, i, k)
}

pub open spec fn record_plain(rec: SpecRecord) -> bool {
    &&& plain(rec.name)
    &&& forall|i: int| 0 <= i < rec.fields.len() ==> plain(#[trigger] rec.fields[i].name)
    &&& forall|d: int| 0 <= d < rec.derives.len() ==> plain(#[trigger] rec.derives[d].target)
    &&& forall|d: int, k: int|
        0 <= d < rec.derives.len() && 0 <= k < expr_idents(rec.derives[d].expr).len() ==> plain(
            #[trigger] expr_idents(#[trigger] rec.derives[d].expr)[k],
        )
    &&& forall|c: int| 0 <= c < rec.checks.len() ==> plain(#[trigger] rec.checks[c].code)
    &&& forall|c: int, k: int|
        0 <= c < rec.checks.len() && 0 <= k < bool_idents(rec.checks[c].rule).len() ==> plain(
            #[trigger] bool_idents(#[trigger] rec.checks[c].rule)[k],
        )
}

pub open spec fn template_plain(t: Seq<SpecTemplatePart>) -> bool {
    forall|k: int| 0 <= k < t.len() && (#[trigger] t[k]) is Field ==> plain(t[k]->Field_0)
}

pub open spec fn envelope_plain(e: SpecEnvelope) -> bool {
    &&& forall|k: int| 0 <= k < e.params.len() ==> plain(#[trigger] e.params[k].name)
    &&& forall|k: int| 0 <= k < e.contains.len() ==> plain(#[trigger] e.contains[k])
    &&& template_plain(e.header)
    &&& template_plain(e.trailer)
}

/// No name that a message shows holds a backtick. Identifiers never do; a
/// record name is a string and could.
pub open spec fn plain_names(f: SpecBoeFile) -> bool {
    &&& forall|r: int| 0 <= r < f.records.len() ==> record_plain(#[trigger] f.records[r])
    &&& f.envelope is Some ==> envelope_plain(f.envelope.unwrap())
}

/// Message `m` is the message of a cause that holds in `f`.
pub open spec fn explained(f: SpecBoeFile, m: Seq<char>) -> bool {
    exists|c: ErrorCause|
        cause_plain(c) && #[trigger] cause_holds(f, c) && cause_message(f.records.len() > 1, c) == m
}

// ── every error has a cause ───────────────────────────────────────────────
proof fn lemma_explain(f: SpecBoeFile, c: ErrorCause, r: int, i: int, k: int, m: Seq<char>)
    requires
        holds_at(f, c, r, i, k),
        cause_plain(c),
        cause_message(f.records.len() > 1, c) == m,
    ensures
        explained(f, m),
{
    assert(cause_holds(f, c));
}

proof fn lemma_in_concat<A>(a: Seq<A>, b: Seq<A>, x: A)
    ensures
        (a + b).contains(x) ==> a.contains(x) || b.contains(x),
{
    if (a + b).contains(x) {
        let k = choose|k: int| 0 <= k < (a + b).len() && (a + b)[k] == x;
        if k < a.len() {
            assert(a[k] == x);
        } else {
            assert(b[k - a.len()] == x);
        }
    }
}

proof fn lemma_in_single<A>(a: A, x: A)
    requires
        seq![a].contains(x),
    ensures
        x == a,
{
    let k = choose|k: int| 0 <= k < seq![a].len() && seq![a][k] == x;
    assert(k == 0);
}

proof fn lemma_in_none(x: (DiagLevel, Seq<char>))
    ensures
        !no_diag().contains(x),
{
}

proof fn lemma_dup_records_origin(f: SpecBoeFile, n: nat, x: (DiagLevel, Seq<char>))
    requires
        plain_names(f),
        n <= f.records.len(),
        duplicate_record_diags(f.records, n).contains(x),
    ensures
        explained(f, x.1),
    decreases n,
{
    let rs = f.records;
    if n == 0 {
        lemma_in_none(x);
    } else {
        let m = "duplicate record name `"@ + rs[n - 1].name + "`"@;
        let last = if record_named_before(rs, n - 1) {
            error_diag(m)
        } else {
            no_diag()
        };
        lemma_in_concat(duplicate_record_diags(rs, (n - 1) as nat), last, x);
        if duplicate_record_diags(rs, (n - 1) as nat).contains(x) {
            lemma_dup_records_origin(f, (n - 1) as nat, x);
        } else {
            lemma_in_none(x);
            lemma_in_single((DiagLevel::Error, m), x);
            assert(record_plain(rs[n - 1]));
            lemma_explain(f, ErrorCause::DuplicateRecord(rs[n - 1].name), n - 1, 0, 0, x.1);
        }
    }
}

proof fn lemma_field_origin(f: SpecBoeFile, r: int, i: int, x: (DiagLevel, Seq<char>))
    requires
        plain_names(f),
        0 <= r < f.records.len(),
        0 <= i < f.records[r].fields.len(),
        field_diags(f.records[r], record_prefix(f.records[r], f.records.len() > 1), i).contains(x),
    ensures
        explained(f, x.1),
{
    let multi = f.records.len() > 1;
    let rec = f.records[r];
    let p = record_prefix(rec, multi);
    let fl = rec.fields[i];
    let d1 = field_dup_diag(rec, p, i);
    let d2 = field_at_diag(p, fl);
    let d3 = field_len_diag(p, fl);
    let d4 = field_end_diag(p, fl, rec.record_length);
    let d5 = field_fixed_diag(p, fl);
    let d6 = field_decimals_diag(p, fl);
    assert(field_diags(rec, p, i) == d1 + d2 + d3 + d4 + d5 + d6);
    lemma_in_concat(d1 + d2 + d3 + d4 + d5, d6, x);
    lemma_in_concat(d1 + d2 + d3 + d4, d5, x);
    lemma_in_concat(d1 + d2 + d3, d4, x);
    lemma_in_concat(d1 + d2, d3, x);
    lemma_in_concat(d1, d2, x);
    lemma_in_none(x);
    assert(record_plain(rec));
    assert(plain(fl.name));
    assert(prefix_of(multi, rec.name) == p);
    if d1.contains(x) {
        let c = ErrorCause::DuplicateField(rec.name, fl.name);
        lemma_in_single((DiagLevel::Error, p + "duplicate field name `"@ + fl.name + "`"@), x);
        assert(cause_message(multi, c) =~= x.1);
        lemma_explain(f, c, r, i, 0, x.1);
    } else if d2.contains(x) {
        let c = ErrorCause::AtZero(rec.name, fl.name);
        lemma_in_single((DiagLevel::Error, field_head(p, fl) + "`: `at` is 1-indexed, got 0"@), x);
        assert(cause_message(multi, c) =~= x.1);
        lemma_explain(f, c, r, i, 0, x.1);
    } else if d3.contains(x) {
        let c = ErrorCause::LengthZero(rec.name, fl.name);
        lemma_in_single((DiagLevel::Error, field_head(p, fl) + "`: `length` must be > 0"@), x);
        assert(cause_message(multi, c) =~= x.1);
        lemma_explain(f, c, r, i, 0, x.1);
    } else if d4.contains(x) {
        let c = ErrorCause::EndPast(rec.name, fl.name, end_position(fl), rec.record_length as nat);
        lemma_in_single(
            (
                DiagLevel::Error,
                field_head(p, fl) + "`: end position "@ + nat_text(end_position(fl))
                    + " exceeds record_length "@ + nat_text(rec.record_length as nat),
            ),
            x,
        );
        assert(cause_message(multi, c) =~= x.1);
        lemma_explain(f, c, r, i, 0, x.1);
    } else if d5.contains(x) {
        let v = fl.fixed.unwrap();
        let c = ErrorCause::FixedLength(rec.name, fl.name, v.len(), fl.length as nat);
        lemma_in_single(
            (
                DiagLevel::Error,
                field_head(p, fl) + "`: fixed value length "@ + nat_text(v.len())
                    + " does not match declared length "@ + nat_text(fl.length as nat),
            ),
            x,
        );
        assert(cause_message(multi, c) =~= x.1);
        lemma_explain(f, c, r, i, 0, x.1);
    } else {
        let c = ErrorCause::Decimals(rec.name, fl.name);
        lemma_in_single(
            (
                DiagLevel::Error,
                field_head(p, fl) + "`: `decimals` only allowed on signed_amount or unsigned_amount"@,
            ),
            x,
        );
        assert(cause_message(multi, c) =~= x.1);
        lemma_explain(f, c, r, i, 0, x.1);
    }
}

proof fn lemma_fields_origin(f: SpecBoeFile, r: int, n: nat, x: (DiagLevel, Seq<char>))
    requires
        plain_names(f),
        0 <= r < f.records.len(),
        n <= f.records[r].fields.len(),
        fields_diags(f.records[r], record_prefix(f.records[r], f.records.len() > 1), n).contains(x),
    ensures
        explained(f, x.1),
    decreases n,
{
    let rec = f.records[r];
    let p = record_prefix(rec, f.records.len() > 1);
    if n == 0 {
        lemma_in_none(x);
    } else {
        lemma_in_concat(fields_diags(rec, p, (n - 1) as nat), field_diags(rec, p, n - 1), x);
        if fields_diags(rec, p, (n - 1) as nat).contains(x) {
            lemma_fields_origin(f, r, (n - 1) as nat, x);
        } else {
            lemma_field_origin(f, r, n - 1, x);
        }
    }
}

proof fn lemma_layout_cursor(fs: Seq<SpecField>, order: Seq<int>, p: Seq<char>, k: nat)
    requires
        k <= order.len(),
    ensures
        layout_diags(fs, order, p, k).1 == cursor_before(fs, order, k as int),
{
}

/// An error of the layout pass over the first `k` fields in position order
/// is the message of an overlap that holds.
proof fn lemma_layout_origin(f: SpecBoeFile, r: int, k: nat, x: (DiagLevel, Seq<char>))
    requires
        0 <= r < f.records.len(),
        k <= f.records[r].fields.len(),
        x.0 == DiagLevel::Error,
        layout_diags(
            f.records[r].fields,
            order_by_at(f.records[r].fields, f.records[r].fields.len()),
            record_prefix(f.records[r], f.records.len() > 1),
            k,
        ).0.contains(x),
    ensures
        exists|c: ErrorCause, i: int|
            c is Overlap && cause_record(c) == f.records[r].name && #[trigger] holds_at(f, c, r, i, 0)
                && cause_message(f.records.len() > 1, c) == x.1,
    decreases k,
{
    let multi = f.records.len() > 1;
    let rec = f.records[r];
    let fs = rec.fields;
    let order = order_by_at(fs, fs.len());
    let p = record_prefix(rec, multi);
    lemma_order_by_at_bounds(fs, fs.len());
    if k == 0 {
        lemma_in_none(x);
    } else {
        let (d, cursor) = layout_diags(fs, order, p, (k - 1) as nat);
        let fl = fs[order[k - 1]];
        let msg = p + "field `"@ + fl.name + "` at position "@ + nat_text(fl.at as nat)
            + " overlaps previous field (expected >= "@ + nat_text(cursor) + ")"@;
        let gap = p + "gap between positions "@ + nat_text(cursor) + " and "@ + nat_text(
            (fl.at - 1) as nat,
        ) + " (before field `"@ + fl.name + "`)"@;
        if fl.at < cursor {
            assert(layout_diags(fs, order, p, k).0 == d + error_diag(msg));
            lemma_in_concat(d, error_diag(msg), x);
            if d.contains(x) {
                lemma_layout_origin(f, r, (k - 1) as nat, x);
            } else {
                lemma_in_single((DiagLevel::Error, msg), x);
                lemma_layout_cursor(fs, order, p, (k - 1) as nat);
                let c = ErrorCause::Overlap(rec.name, fl.name, fl.at as nat, cursor);
                assert(prefix_of(multi, rec.name) == p);
                assert(cause_message(multi, c) =~= x.1);
                assert(holds_at(f, c, r, k - 1, 0));
            }
        } else if fl.at > cursor {
            assert(layout_diags(fs, order, p, k).0 == d + warning_diag(gap));
            lemma_in_concat(d, warning_diag(gap), x);
            if d.contains(x) {
                lemma_layout_origin(f, r, (k - 1) as nat, x);
            } else {
                lemma_in_single((DiagLevel::Warning, gap), x);
            }
        } else {
            lemma_layout_origin(f, r, (k - 1) as nat, x);
        }
    }
}

proof fn lemma_record_layout_origin(f: SpecBoeFile, r: int, x: (DiagLevel, Seq<char>))
    requires
        plain_names(f),
        0 <= r < f.records.len(),
        x.0 == DiagLevel::Error,
        record_layout_diags(f.records[r], record_prefix(f.records[r], f.records.len() > 1)).contains(x),
    ensures
        explained(f, x.1),
{
    let rec = f.records[r];
    let fs = rec.fields;
    let n = fs.len();
    let p = record_prefix(rec, f.records.len() > 1);
    let (ldd, cursor) = layout_diags(fs, order_by_at(fs, n), p, n);
    let tail_msg = p + "trailing gap: positions "@ + nat_text(cursor) + ".."@ + nat_text(
        rec.record_length as nat,
    ) + " are not covered"@;
    let tail = if n > 0 && cursor < rec.record_length + 1 {
        warning_diag(tail_msg)
    } else {
        no_diag()
    };
    assert(record_layout_diags(rec, p) == ldd + tail);
    lemma_in_concat(ldd, tail, x);
    if ldd.contains(x) {
        lemma_layout_origin(f, r, n, x);
        let (c, i) = choose|c: ErrorCause, i: int|
            c is Overlap && cause_record(c) == f.records[r].name && #[trigger] holds_at(f, c, r, i, 0)
                && cause_message(f.records.len() > 1, c) == x.1;
        lemma_order_by_at_bounds(fs, n);
        assert(record_plain(rec));
        assert(plain(fs[order_by_at(fs, n)[i]].name));
        lemma_explain(f, c, r, i, 0, x.1);
    } else {
        lemma_in_none(x);
        lemma_in_single((DiagLevel::Warning, tail_msg), x);
    }
}

proof fn lemma_derive_refs_origin(f: SpecBoeFile, r: int, d: int, n: nat, x: (DiagLevel, Seq<char>))
    requires
        plain_names(f),
        0 <= r < f.records.len(),
        0 <= d < f.records[r].derives.len(),
        last_index(f.records[r].fields, f.records[r].derives[d].target) is Some,
        n <= expr_idents(f.records[r].derives[d].expr).len(),
        derive_ref_diags(
            f.records[r].fields,
            record_prefix(f.records[r], f.records.len() > 1),
            f.records[r].derives[d].target,
            last_index(f.records[r].fields, f.records[r].derives[d].target).unwrap(),
            expr_idents(f.records[r].derives[d].expr),
            n,
        ).contains(x),
    ensures
        explained(f, x.1),
    decreases n,
{
    let multi = f.records.len() > 1;
    let rec = f.records[r];
    let fs = rec.fields;
    let p = record_prefix(rec, multi);
    let dv = rec.derives[d];
    let target = dv.target;
    let t = last_index(fs, target).unwrap();
    let names = expr_idents(dv.expr);
    if n == 0 {
        lemma_in_none(x);
    } else {
        let nm = names[n - 1];
        let unknown = p + "derive `"@ + target + "`: unknown field `"@ + nm + "`"@;
        let forward = p + "derive `"@ + target + "`: forward reference to `"@ + nm
            + "` (must be declared before target)"@;
        let last = match last_index(fs, nm) {
            None => error_diag(unknown),
            Some(idx) => if idx >= t {
                error_diag(forward)
            } else {
                no_diag()
            },
        };
        let prev = derive_ref_diags(fs, p, target, t, names, (n - 1) as nat);
        assert(derive_ref_diags(fs, p, target, t, names, n) == prev + last);
        lemma_in_concat(prev, last, x);
        if prev.contains(x) {
            lemma_derive_refs_origin(f, r, d, (n - 1) as nat, x);
        } else {
            lemma_in_none(x);
            assert(record_plain(rec));
            assert(plain(target));
            assert(plain(nm));
            assert(prefix_of(multi, rec.name) == p);
            if last_index(fs, nm) is None {
                lemma_in_single((DiagLevel::Error, unknown), x);
                let c = ErrorCause::UnknownRead(rec.name, target, nm);
                assert(cause_message(multi, c) =~= x.1);
                lemma_explain(f, c, r, d, n - 1, x.1);
            } else {
                lemma_in_single((DiagLevel::Error, forward), x);
                let c = ErrorCause::ForwardRead(rec.name, target, nm);
                assert(cause_message(multi, c) =~= x.1);
                lemma_explain(f, c, r, d, n - 1, x.1);
            }
        }
    }
}

proof fn lemma_derives_origin(f: SpecBoeFile, r: int, n: nat, x: (DiagLevel, Seq<char>))
    requires
        plain_names(f),
        0 <= r < f.records.len(),
        n <= f.records[r].derives.len(),
        derives_diags(f.records[r], record_prefix(f.records[r], f.records.len() > 1), n).contains(x),
    ensures
        explained(f, x.1),
    decreases n,
{
    let multi = f.records.len() > 1;
    let rec = f.records[r];
    let p = record_prefix(rec, multi);
    if n == 0 {
        lemma_in_none(x);
    } else {
        let d = n - 1;
        let dv = rec.derives[d];
        lemma_in_concat(derives_diags(rec, p, (n - 1) as nat), derive_diags(rec, p, dv), x);
        if derives_diags(rec, p, (n - 1) as nat).contains(x) {
            lemma_derives_origin(f, r, (n - 1) as nat, x);
        } else if last_index(rec.fields, dv.target) is None {
            let m = p + "derive: unknown target field `"@ + dv.target + "`"@;
            lemma_in_single((DiagLevel::Error, m), x);
            assert(record_plain(rec));
            assert(plain(rec.derives[d].target));
            assert(prefix_of(multi, rec.name) == p);
            let c = ErrorCause::UnknownTarget(rec.name, dv.target);
            assert(cause_message(multi, c) =~= x.1);
            lemma_explain(f, c, r, d, 0, x.1);
        } else {
            lemma_derive_refs_origin(f, r, d, expr_idents(dv.expr).len(), x);
        }
    }
}

proof fn lemma_check_refs_origin(f: SpecBoeFile, r: int, ci: int, n: nat, x: (DiagLevel, Seq<char>))
    requires
        plain_names(f),
        0 <= r < f.records.len(),
        0 <= ci < f.records[r].checks.len(),
        n <= bool_idents(f.records[r].checks[ci].rule).len(),
        check_ref_diags(
            f.records[r].fields,
            record_prefix(f.records[r], f.records.len() > 1),
            f.records[r].checks[ci].code,
            bool_idents(f.records[r].checks[ci].rule),
            n,
        ).contains(x),
    ensures
        explained(f, x.1),
    decreases n,
{
    let multi = f.records.len() > 1;
    let rec = f.records[r];
    let fs = rec.fields;
    let p = record_prefix(rec, multi);
    let code = rec.checks[ci].code;
    let names = bool_idents(rec.checks[ci].rule);
    if n == 0 {
        lemma_in_none(x);
    } else {
        let nm = names[n - 1];
        let m = p + "check `"@ + code + "`: unknown field `"@ + nm + "`"@;
        let last = if last_index(fs, nm) is None {
            error_diag(m)
        } else {
            no_diag()
        };
        let prev = check_ref_diags(fs, p, code, names, (n - 1) as nat);
        assert(check_ref_diags(fs, p, code, names, n) == prev + last);
        lemma_in_concat(prev, last, x);
        if prev.contains(x) {
            lemma_check_refs_origin(f, r, ci, (n - 1) as nat, x);
        } else {
            lemma_in_none(x);
            lemma_in_single((DiagLevel::Error, m), x);
            assert(record_plain(rec));
            assert(plain(rec.checks[ci].code));
            assert(plain(nm));
            assert(prefix_of(multi, rec.name) == p);
            let c = ErrorCause::UnknownCheckRead(rec.name, code, nm);
            assert(cause_message(multi, c) =~= x.1);
            lemma_explain(f, c, r, ci, n - 1, x.1);
        }
    }
}

proof fn lemma_checks_origin(f: SpecBoeFile, r: int, n: nat, x: (DiagLevel, Seq<char>))
    requires
        plain_names(f),
        0 <= r < f.records.len(),
        n <= f.records[r].checks.len(),
        checks_diags(f.records[r], record_prefix(f.records[r], f.records.len() > 1), n).contains(x),
    ensures
        explained(f, x.1),
    decreases n,
{
    let rec = f.records[r];
    let p = record_prefix(rec, f.records.len() > 1);
    if n == 0 {
        lemma_in_none(x);
    } else {
        let c = rec.checks[n - 1];
        let names = bool_idents(c.rule);
        let last = check_ref_diags(rec.fields, p, c.code, names, names.len());
        lemma_in_concat(checks_diags(rec, p, (n - 1) as nat), last, x);
        if checks_diags(rec, p, (n - 1) as nat).contains(x) {
            lemma_checks_origin(f, r, (n - 1) as nat, x);
        } else {
            lemma_check_refs_origin(f, r, n - 1, names.len(), x);
        }
    }
}

proof fn lemma_records_origin(f: SpecBoeFile, n: nat, x: (DiagLevel, Seq<char>))
    requires
        plain_names(f),
        n <= f.records.len(),
        x.0 == DiagLevel::Error,
        records_diags(f.records, f.records.len() > 1, n).contains(x),
    ensures
        explained(f, x.1),
    decreases n,
{
    let rs = f.records;
    let multi = rs.len() > 1;
    if n == 0 {
        lemma_in_none(x);
    } else {
        lemma_in_concat(records_diags(rs, multi, (n - 1) as nat), record_diags(rs[n - 1], multi), x);
        if records_diags(rs, multi, (n - 1) as nat).contains(x) {
            lemma_records_origin(f, (n - 1) as nat, x);
        } else {
            let r = n - 1;
            let rec = rs[r];
            let p = record_prefix(rec, multi);
            let fd = fields_diags(rec, p, rec.fields.len());
            let ld = record_layout_diags(rec, p);
            let dd = derives_diags(rec, p, rec.derives.len());
            let cd = checks_diags(rec, p, rec.checks.len());
            assert(record_diags(rec, multi) == fd + ld + dd + cd);
            lemma_in_concat(fd + ld + dd, cd, x);
            lemma_in_concat(fd + ld, dd, x);
            lemma_in_concat(fd, ld, x);
            if fd.contains(x) {
                lemma_fields_origin(f, r, rec.fields.len(), x);
            } else if ld.contains(x) {
                lemma_record_layout_origin(f, r, x);
            } else if dd.contains(x) {
                lemma_derives_origin(f, r, rec.derives.len(), x);
            } else {
                lemma_checks_origin(f, r, rec.checks.len(), x);
            }
        }
    }
}

proof fn lemma_params_origin(f: SpecBoeFile, n: nat, x: (DiagLevel, Seq<char>))
    requires
        plain_names(f),
        f.envelope is Some,
        n <= f.envelope.unwrap().params.len(),
        param_diags(f.envelope.unwrap().params, n).contains(x),
    ensures
        explained(f, x.1),
    decreases n,
{
    let e = f.envelope.unwrap();
    let ps = e.params;
    if n == 0 {
        lemma_in_none(x);
    } else {
        let m = "envelope param `"@ + ps[n - 1].name + "`: `length` debe ser > 0"@;
        let last = if ps[n - 1].length == 0 {
            error_diag(m)
        } else {
            no_diag()
        };
        lemma_in_concat(param_diags(ps, (n - 1) as nat), last, x);
        if param_diags(ps, (n - 1) as nat).contains(x) {
            lemma_params_origin(f, (n - 1) as nat, x);
        } else {
            lemma_in_none(x);
            lemma_in_single((DiagLevel::Error, m), x);
            assert(plain(ps[n - 1].name));
            lemma_explain(f, ErrorCause::ParamLength(ps[n - 1].name), 0, n - 1, 0, x.1);
        }
    }
}

proof fn lemma_contains_origin(f: SpecBoeFile, n: nat, x: (DiagLevel, Seq<char>))
    requires
        plain_names(f),
        f.envelope is Some,
        n <= f.envelope.unwrap().contains.len(),
        contains_diags(f.records, f.envelope.unwrap().contains, n).contains(x),
    ensures
        explained(f, x.1),
    decreases n,
{
    let e = f.envelope.unwrap();
    let cs = e.contains;
    if n == 0 {
        lemma_in_none(x);
    } else {
        let m = "envelope `contains`: record desconocido `"@ + cs[n - 1] + "`"@;
        let last = if !has_record(f.records, cs[n - 1]) {
            error_diag(m)
        } else {
            no_diag()
        };
        lemma_in_concat(contains_diags(f.records, cs, (n - 1) as nat), last, x);
        if contains_diags(f.records, cs, (n - 1) as nat).contains(x) {
            lemma_contains_origin(f, (n - 1) as nat, x);
        } else {
            lemma_in_none(x);
            lemma_in_single((DiagLevel::Error, m), x);
            assert(plain(cs[n - 1]));
            lemma_explain(f, ErrorCause::UnknownContained(cs[n - 1]), 0, n - 1, 0, x.1);
        }
    }
}

proof fn lemma_template_origin(f: SpecBoeFile, header: bool, n: nat, x: (DiagLevel, Seq<char>))
    requires
        plain_names(f),
        f.envelope is Some,
        n <= (if header { f.envelope.unwrap().header } else { f.envelope.unwrap().trailer }).len(),
        template_diags(
            if header { "header"@ } else { "trailer"@ },
            f.envelope.unwrap().params,
            if header { f.envelope.unwrap().header } else { f.envelope.unwrap().trailer },
            n,
        ).contains(x),
    ensures
        explained(f, x.1),
    decreases n,
{
    let e = f.envelope.unwrap();
    let label: Seq<char> = if header { "header"@ } else { "trailer"@ };
    let t = if header { e.header } else { e.trailer };
    if n == 0 {
        lemma_in_none(x);
    } else {
        let last = match t[n - 1] {
            SpecTemplatePart::Field(y) => if !has_param(e.params, y) {
                error_diag("envelope "@ + label + ": `${"@ + y + "}` no es un param declarado"@)
            } else {
                no_diag()
            },
            SpecTemplatePart::Lit(_) => no_diag(),
        };
        lemma_in_concat(template_diags(label, e.params, t, (n - 1) as nat), last, x);
        if template_diags(label, e.params, t, (n - 1) as nat).contains(x) {
            lemma_template_origin(f, header, (n - 1) as nat, x);
        } else {
            lemma_in_none(x);
            let y = t[n - 1]->Field_0;
            assert(t[n - 1] == SpecTemplatePart::Field(y));
            lemma_in_single(
                (DiagLevel::Error, "envelope "@ + label + ": `${"@ + y + "}` no es un param declarado"@),
                x,
            );
            assert(template_plain(t));
            assert(plain(y));
            reveal_strlit("envelope ");
            reveal_strlit("header");
            reveal_strlit("trailer");
            reveal_strlit("envelope header: `${");
            reveal_strlit("envelope trailer: `${");
            reveal_strlit(": `${");
            if header {
                let c = ErrorCause::HeaderPlaceholder(y);
                assert(cause_message(f.records.len() > 1, c) =~= x.1);
                lemma_explain(f, c, 0, n - 1, 0, x.1);
            } else {
                let c = ErrorCause::TrailerPlaceholder(y);
                assert(cause_message(f.records.len() > 1, c) =~= x.1);
                lemma_explain(f, c, 0, n - 1, 0, x.1);
            }
        }
    }
}

/// Every error that `validate` reports is the message of a cause that holds.
proof fn lemma_origin(f: SpecBoeFile, x: (DiagLevel, Seq<char>))
    requires
        plain_names(f),
        x.0 == DiagLevel::Error,
        validate_spec(f).contains(x),
    ensures
        explained(f, x.1),
{
    let rs = f.records;
    let dup = duplicate_record_diags(rs, rs.len());
    let recs = records_diags(rs, rs.len() > 1, rs.len());
    let env = match f.envelope {
        Some(e) => envelope_diags(rs, e),
        None => no_diag(),
    };
    assert(validate_spec(f) == dup + recs + env);
    lemma_in_concat(dup + recs, env, x);
    lemma_in_concat(dup, recs, x);
    if dup.contains(x) {
        lemma_dup_records_origin(f, rs.len(), x);
    } else if recs.contains(x) {
        lemma_records_origin(f, rs.len(), x);
    } else {
        lemma_in_none(x);
        let e = f.envelope.unwrap();
        let a = param_diags(e.params, e.params.len());
        let b = contains_diags(rs, e.contains, e.contains.len());
        let empty_msg = "envelope `contains` no puede estar vacío"@;
        let c = if e.contains.len() == 0 {
            error_diag(empty_msg)
        } else {
            no_diag()
        };
        let h = template_diags("header"@, e.params, e.header, e.header.len());
        let t = template_diags("trailer"@, e.params, e.trailer, e.trailer.len());
        assert(env == a + b + c + h + t);
        lemma_in_concat(a + b + c + h, t, x);
        lemma_in_concat(a + b + c, h, x);
        lemma_in_concat(a + b, c, x);
        lemma_in_concat(a, b, x);
        if a.contains(x) {
            lemma_params_origin(f, e.params.len(), x);
        } else if b.contains(x) {
            lemma_contains_origin(f, e.contains.len(), x);
        } else if c.contains(x) {
            lemma_in_single((DiagLevel::Error, empty_msg), x);
            lemma_explain(f, ErrorCause::NothingContained, 0, 0, 0, x.1);
        } else if h.contains(x) {
            lemma_template_origin(f, true, e.header.len(), x);
        } else {
            lemma_template_origin(f, false, e.trailer.len(), x);
        }
    }
}

// ── every cause that holds is reported ────────────────────────────────────
proof fn lemma_in_layout(fs: Seq<SpecField>, order: Seq<int>, p: Seq<char>, k: nat, n: nat)
    requires
        k < n <= order.len(),
        fs[order[k as int]].at < layout_diags(fs, order, p, k).1,
    ensures
        layout_diags(fs, order, p, n).0.contains(
            (
                DiagLevel::Error,
                p + "field `"@ + fs[order[k as int]].name + "` at position "@ + nat_text(
                    fs[order[k as int]].at as nat,
                ) + " overlaps previous field (expected >= "@ + nat_text(
                    layout_diags(fs, order, p, k).1,
                ) + ")"@,
            ),
        ),
    decreases n,
{
    let x = (
        DiagLevel::Error,
        p + "field `"@ + fs[order[k as int]].name + "` at position "@ + nat_text(
            fs[order[k as int]].at as nat,
        ) + " overlaps previous field (expected >= "@ + nat_text(layout_diags(fs, order, p, k).1)
            + ")"@,
    );
    let (d, cursor) = layout_diags(fs, order, p, (n - 1) as nat);
    let fl = fs[order[n - 1]];
    let msg = p + "field `"@ + fl.name + "` at position "@ + nat_text(fl.at as nat)
        + " overlaps previous field (expected >= "@ + nat_text(cursor) + ")"@;
    let gap = p + "gap between positions "@ + nat_text(cursor) + " and "@ + nat_text(
        (fl.at - 1) as nat,
    ) + " (before field `"@ + fl.name + "`)"@;
    if n == k + 1 {
        assert(layout_diags(fs, order, p, n).0 == d + error_diag(msg));
        lemma_error_diag_contains(msg);
        lemma_contains_concat(d, error_diag(msg), x);
    } else {
        lemma_in_layout(fs, order, p, k, (n - 1) as nat);
        if fl.at < cursor {
            assert(layout_diags(fs, order, p, n).0 == d + error_diag(msg));
            lemma_contains_concat(d, error_diag(msg), x);
        } else if fl.at > cursor {
            assert(layout_diags(fs, order, p, n).0 == d + warning_diag(gap));
            lemma_contains_concat(d, warning_diag(gap), x);
        }
    }
}

proof fn lemma_field_part_reported(f: SpecBoeFile, r: int, i: int, x: (DiagLevel, Seq<char>))
    requires
        0 <= r < f.records.len(),
        0 <= i < f.records[r].fields.len(),
        ({
            let rec = f.records[r];
            let p = record_prefix(rec, f.records.len() > 1);
            let fl = rec.fields[i];
            ||| field_dup_diag(rec, p, i).contains(x)
            ||| field_at_diag(p, fl).contains(x)
            ||| field_len_diag(p, fl).contains(x)
            ||| field_end_diag(p, fl, rec.record_length).contains(x)
            ||| field_fixed_diag(p, fl).contains(x)
            ||| field_decimals_diag(p, fl).contains(x)
        }),
    ensures
        validate_spec(f).contains(x),
{
    let rec = f.records[r];
    let p = record_prefix(rec, f.records.len() > 1);
    let fl = rec.fields[i];
    let d1 = field_dup_diag(rec, p, i);
    let d2 = field_at_diag(p, fl);
    let d3 = field_len_diag(p, fl);
    let d4 = field_end_diag(p, fl, rec.record_length);
    let d5 = field_fixed_diag(p, fl);
    let d6 = field_decimals_diag(p, fl);
    lemma_contains_concat(d1, d2, x);
    lemma_contains_concat(d1 + d2, d3, x);
    lemma_contains_concat(d1 + d2 + d3, d4, x);
    lemma_contains_concat(d1 + d2 + d3 + d4, d5, x);
    lemma_contains_concat(d1 + d2 + d3 + d4 + d5, d6, x);
    assert(field_diags(rec, p, i) == d1 + d2 + d3 + d4 + d5 + d6);
    lemma_in_fields_diags(rec, p, rec.fields.len(), i, x);
    lemma_record_part_reported(f, r, x);
}

proof fn lemma_complete_overlap(f: SpecBoeFile, c: ErrorCause, r: int, i: int)
    requires
        c is Overlap,
        holds_at(f, c, r, i, 0),
    ensures
        reported(f, cause_message(f.records.len() > 1, c)),
{
    let multi = f.records.len() > 1;
    let m = cause_message(multi, c);
    let rec = f.records[r];
    let fs = rec.fields;
    let p = record_prefix(rec, multi);
    let order = order_by_at(fs, fs.len());
    lemma_order_by_at_bounds(fs, fs.len());
    lemma_layout_cursor(fs, order, p, i as nat);
    lemma_in_layout(fs, order, p, i as nat, fs.len());
    assert(prefix_of(multi, cause_record(c)) == p);
    let x = (DiagLevel::Error, m);
    assert(m =~= p + "field `"@ + fs[order[i]].name + "` at position "@ + nat_text(
        fs[order[i]].at as nat,
    ) + " overlaps previous field (expected >= "@ + nat_text(layout_diags(fs, order, p, i as nat).1)
        + ")"@);
    let (ldd, cursor) = layout_diags(fs, order, p, fs.len());
    let tail_msg = p + "trailing gap: positions "@ + nat_text(cursor) + ".."@ + nat_text(
        rec.record_length as nat,
    ) + " are not covered"@;
    let tail = if fs.len() > 0 && cursor < rec.record_length + 1 {
        warning_diag(tail_msg)
    } else {
        no_diag()
    };
    assert(record_layout_diags(rec, p) == ldd + tail);
    lemma_contains_concat(ldd, tail, x);
    lemma_record_part_reported(f, r, x);
}

proof fn lemma_complete_field(f: SpecBoeFile, c: ErrorCause, r: int, i: int)
    requires
        c is DuplicateField || c is AtZero || c is LengthZero || c is EndPast || c is FixedLength
            || c is Decimals,
        holds_at(f, c, r, i, 0),
    ensures
        reported(f, cause_message(f.records.len() > 1, c)),
{
    let multi = f.records.len() > 1;
    let m = cause_message(multi, c);
    let rec = f.records[r];
    let p = record_prefix(rec, multi);
    let fl = rec.fields[i];
    assert(prefix_of(multi, cause_record(c)) == p);
    let x = (DiagLevel::Error, m);
    match c {
        ErrorCause::DuplicateField(_, n) => {
            assert(m =~= p + "duplicate field name `"@ + fl.name + "`"@);
        },
        ErrorCause::AtZero(_, n) => {
            assert(m =~= field_head(p, fl) + "`: `at` is 1-indexed, got 0"@);
        },
        ErrorCause::LengthZero(_, n) => {
            assert(m =~= field_head(p, fl) + "`: `length` must be > 0"@);
        },
        ErrorCause::EndPast(_, n, e, l) => {
            assert(m =~= field_head(p, fl) + "`: end position "@ + nat_text(end_position(fl))
                + " exceeds record_length "@ + nat_text(rec.record_length as nat));
        },
        ErrorCause::FixedLength(_, n, v, l) => {
            assert(m =~= field_head(p, fl) + "`: fixed value length "@ + nat_text(fl.fixed.unwrap().len())
                + " does not match declared length "@ + nat_text(fl.length as nat));
        },
        ErrorCause::Decimals(_, n) => {
            assert(m =~= field_head(p, fl)
                + "`: `decimals` only allowed on signed_amount or unsigned_amount"@);
        },
        _ => {},
    }
    lemma_error_diag_contains(m);
    lemma_field_part_reported(f, r, i, x);
}

proof fn lemma_complete_refs(f: SpecBoeFile, c: ErrorCause, r: int, i: int, k: int)
    requires
        c is UnknownTarget || c is UnknownRead || c is ForwardRead || c is UnknownCheckRead,
        holds_at(f, c, r, i, k),
    ensures
        reported(f, cause_message(f.records.len() > 1, c)),
{
    let multi = f.records.len() > 1;
    let rs = f.records;
    let m = cause_message(multi, c);
    let rec = rs[r];
    law_reference_problems_reported(f, r);
    assert(prefix_of(multi, cause_record(c)) == record_prefix(rec, multi));
    match c {
        ErrorCause::UnknownTarget(name, t) => {
            assert(rec.derives[i].target == t);
            assert(m =~= record_prefix(rec, multi) + "derive: unknown target field `"@ + t + "`"@);
        },
        ErrorCause::UnknownRead(name, t, n) => {
            assert(derive_ref_reported(
                f,
                record_prefix(rec, multi),
                rec,
                rec.derives[i],
                expr_idents(rec.derives[i].expr)[k],
            ));
            assert(m =~= record_prefix(rec, multi) + "derive `"@ + t + "`: unknown field `"@ + n + "`"@);
        },
        ErrorCause::ForwardRead(name, t, n) => {
            assert(derive_ref_reported(
                f,
                record_prefix(rec, multi),
                rec,
                rec.derives[i],
                expr_idents(rec.derives[i].expr)[k],
            ));
            assert(m =~= record_prefix(rec, multi) + "derive `"@ + t + "`: forward reference to `"@ + n
                + "` (must be declared before target)"@);
        },
        ErrorCause::UnknownCheckRead(name, code, n) => {
            assert(last_index(rec.fields, bool_idents(rec.checks[i].rule)[k]) is None);
            assert(m =~= record_prefix(rec, multi) + "check `"@ + code + "`: unknown field `"@ + n + "`"@);
        },
        _ => {},
    }
}

/// Every cause that holds is reported with its message.
proof fn lemma_complete(f: SpecBoeFile, c: ErrorCause)
    requires
        cause_holds(f, c),
    ensures
        reported(f, cause_message(f.records.len() > 1, c)),
{
    let rs = f.records;
    let (r, i, k) = choose|r: int, i: int, k: int| holds_at(f, c, r, i, k);
    match c {
        ErrorCause::DuplicateRecord(n) => {
            law_reference_problems_reported(f, r);
        },
        ErrorCause::ParamLength(n) => {
            let e = f.envelope.unwrap();
            law_envelope_problems_reported(f, e);
            assert(e.params[i].length == 0);
        },
        ErrorCause::UnknownContained(n) => {
            let e = f.envelope.unwrap();
            law_envelope_problems_reported(f, e);
            assert(!has_record(rs, e.contains[i]));
        },
        ErrorCause::NothingContained => {
            law_envelope_problems_reported(f, f.envelope.unwrap());
        },
        ErrorCause::HeaderPlaceholder(y) => {
            let e = f.envelope.unwrap();
            law_envelope_problems_reported(f, e);
            assert(e.header[i] is Field);
        },
        ErrorCause::TrailerPlaceholder(y) => {
            let e = f.envelope.unwrap();
            law_envelope_problems_reported(f, e);
            assert(e.trailer[i] is Field);
        },
        ErrorCause::Overlap(..) => {
            lemma_complete_overlap(f, c, r, i);
        },
        ErrorCause::UnknownTarget(..) => {
            lemma_complete_refs(f, c, r, i, k);
        },
        ErrorCause::UnknownRead(..) => {
            lemma_complete_refs(f, c, r, i, k);
        },
        ErrorCause::ForwardRead(..) => {
            lemma_complete_refs(f, c, r, i, k);
        },
        ErrorCause::UnknownCheckRead(..) => {
            lemma_complete_refs(f, c, r, i, k);
        },
        _ => {
            lemma_complete_field(f, c, r, i);
        },
    }
}

proof fn lemma_same_cause_holds(f: SpecBoeFile, c1: ErrorCause, c2: ErrorCause)
    requires
        same_cause(f.records.len() > 1, c1, c2),
        cause_holds(f, c1),
    ensures
        cause_holds(f, c2),
{
    let (r, i, k) = choose|r: int, i: int, k: int| holds_at(f, c1, r, i, k);
    assert(holds_at(f, c2, r, i, k));
}

/// Each error `validate` reports tells its cause, both ways: the message of
/// a cause is among the errors exactly when that cause holds in the model (a
/// reused record or field name, a field at 0, of length 0, ending past its
/// record, with a fixed value of another length, or with decimals on a type
/// without them, an overlap, a derive target or a name read by a derive or a
/// check that is missing or not declared before the target, a param of
/// length 0, a contained record that does not exist, nothing contained, a
/// placeholder that names no param). The names that messages show hold no
/// backtick, as parsed identifiers never do.
pub proof fn law_message_iff_cause(f: SpecBoeFile, c: ErrorCause)
    requires
        plain_names(f),
        cause_plain(c),
    ensures
        reported(f, cause_message(f.records.len() > 1, c)) <==> cause_holds(f, c),
{
    let multi = f.records.len() > 1;
    let m = cause_message(multi, c);
    if cause_holds(f, c) {
        lemma_complete(f, c);
    }
    if reported(f, m) {
        lemma_origin(f, (DiagLevel::Error, m));
        let c2 = choose|c2: ErrorCause|
            cause_plain(c2) && #[trigger] cause_holds(f, c2) && cause_message(multi, c2) == m;
        law_message_tells_cause(multi, c2, c);
        lemma_same_cause_holds(f, c2, c);
    }
}

/// In a model of one record whose fields all start at position 1 or later
/// and are at least one position long, `validate` reports an overlap exactly
/// when two distinct fields share a position.
pub proof fn law_overlap_reported_iff_intersect(f: SpecBoeFile)
    requires
        f.records.len() == 1,
        positions_positive(f.records[0]),
        plain_names(f),
    ensures
        (exists|n: Seq<char>, a: nat, cur: nat|
            plain(n) && reported(f, #[trigger] cause_message(false, ErrorCause::Overlap(Seq::empty(), n, a, cur))))
            <==> exists|i: int, j: int|
            0 <= i < f.records[0].fields.len() && 0 <= j < f.records[0].fields.len() && i != j
                && fields_intersect(#[trigger] f.records[0].fields[i], #[trigger] f.records[0].fields[j]),
{
    let rec = f.records[0];
    let fs = rec.fields;
    let p = record_prefix(rec, false);
    let order = order_by_at(fs, fs.len());
    lemma_order_by_at_bounds(fs, fs.len());
    law_overlap_iff_intersect(rec, p);
    let (ldd, cursor) = layout_diags(fs, order, p, fs.len());
    let tail_msg = p + "trailing gap: positions "@ + nat_text(cursor) + ".."@ + nat_text(
        rec.record_length as nat,
    ) + " are not covered"@;
    let tail = if fs.len() > 0 && cursor < rec.record_length + 1 {
        warning_diag(tail_msg)
    } else {
        no_diag()
    };
    assert(record_layout_diags(rec, p) == ldd + tail);
    if exists|n: Seq<char>, a: nat, cur: nat|
        plain(n) && reported(f, #[trigger] cause_message(false, ErrorCause::Overlap(Seq::empty(), n, a, cur))) {
        let (n, a, cur) = choose|n: Seq<char>, a: nat, cur: nat|
            plain(n) && reported(f, #[trigger] cause_message(false, ErrorCause::Overlap(Seq::empty(), n, a, cur)));
        let c = ErrorCause::Overlap(Seq::empty(), n, a, cur);
        law_message_iff_cause(f, c);
        let (r, i, k) = choose|r: int, i: int, k: int| holds_at(f, c, r, i, k);
        assert(r == 0);
        lemma_layout_cursor(fs, order, p, i as nat);
        lemma_in_layout(fs, order, p, i as nat, fs.len());
        let x = (
            DiagLevel::Error,
            p + "field `"@ + fs[order[i]].name + "` at position "@ + nat_text(fs[order[i]].at as nat)
                + " overlaps previous field (expected >= "@ + nat_text(
                layout_diags(fs, order, p, i as nat).1,
            ) + ")"@,
        );
        lemma_contains_concat(ldd, tail, x);
        let w = choose|w: int| 0 <= w < record_layout_diags(rec, p).len() && record_layout_diags(rec, p)[w] == x;
        assert(record_layout_diags(rec, p)[w].0 == DiagLevel::Error);
    }
    if has_error(record_layout_diags(rec, p)) {
        let w = choose|w: int|
            0 <= w < record_layout_diags(rec, p).len() && (#[trigger] record_layout_diags(rec, p)[w]).0
                == DiagLevel::Error;
        let x = record_layout_diags(rec, p)[w];
        assert(record_layout_diags(rec, p).contains(x));
        lemma_in_concat(ldd, tail, x);
        lemma_in_none(x);
        if tail.contains(x) {
            lemma_in_single((DiagLevel::Warning, tail_msg), x);
        }
        lemma_layout_origin(f, 0, fs.len(), x);
        let (c, i) = choose|c: ErrorCause, i: int|
            c is Overlap && cause_record(c) == f.records[0].name && #[trigger] holds_at(f, c, 0, i, 0)
                && cause_message(false, c) == x.1;
        lemma_complete(f, c);
        assert(record_plain(rec));
        assert(plain(fs[order[i]].name));
        assert(cause_message(false, c) == cause_message(
            false,
            ErrorCause::Overlap(Seq::empty(), c->Overlap_1, c->Overlap_2, c->Overlap_3),
        ));
        assert(reported(
            f,
            cause_message(false, ErrorCause::Overlap(Seq::empty(), c->Overlap_1, c->Overlap_2, c->Overlap_3)),
        ));
    }
}

} // verus!
