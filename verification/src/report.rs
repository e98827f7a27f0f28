//! What the command-line tool shows of a model: the names of field types and
//! usages, the `inspect` table and the report of semantic errors.
use vstd::prelude::*;

use crate::ast::{BoeFile, Encoding, Field, FieldType, SpecBoeFile, SpecField, SpecRecord, Usage};
use crate::runtime::encode::{pad_right, pad_right_text};
use crate::text::{
    chars_of, nat_text, push_char, string_from, string_of_range, texts, usize_string,
};
use crate::validator::{diags_view, has_error, DiagLevel, Diagnostic};

verus! {

pub open spec fn usage_text(u: Usage) -> Seq<char> {
    match u {
        Usage::All => "all"@,
        Usage::PrintOnly => "print_only"@,
        Usage::InternetOnly => "internet_only"@,
    }
}

/// The name of a field usage, as the `.boe` syntax writes it.
pub fn usage_name(u: Usage) -> (r: &'static str)
    ensures
        r@ == usage_text(u),
{
    match u {
        Usage::All => "all",
        Usage::PrintOnly => "print_only",
        Usage::InternetOnly => "internet_only",
    }
}

/// `base`, followed by the number of decimals in brackets when there is one.
pub open spec fn with_decimals_text(base: Seq<char>, decimals: Option<usize>) -> Seq<char> {
    match decimals {
        Some(d) => base + "("@ + nat_text(d as nat) + ")"@,
        None => base,
    }
}

pub open spec fn field_type_text(ty: FieldType, decimals: Option<usize>) -> Seq<char> {
    match ty {
        FieldType::Alpha => "alpha"@,
        FieldType::Alphanumeric => "alphanumeric"@,
        FieldType::Number => "number"@,
        FieldType::SignedAmount => with_decimals_text("amount"@, decimals),
        FieldType::SignedAmountN => with_decimals_text("amountN"@, decimals),
        FieldType::UnsignedAmount => with_decimals_text("uamount"@, decimals),
    }
}

fn with_decimals(base: &str, decimals: Option<usize>) -> (res: String)
    ensures
        res@ == with_decimals_text(base@, decimals),
{
    let mut out = string_from(base);
    match decimals {
        Some(d) => {
            out.append("(");
            out.append(usize_string(d).as_str());
            out.append(")");
        },
        None => {},
    }
    out
}

/// The type column of the `inspect` table: the type's name, with the number
/// of decimals of an amount.
pub fn field_type_name(f: &Field) -> (res: String)
    ensures
        res@ == field_type_text(f.ty, f.decimals),
{
    match f.ty {
        FieldType::Alpha => string_from("alpha"),
        FieldType::Alphanumeric => string_from("alphanumeric"),
        FieldType::Number => string_from("number"),
        FieldType::SignedAmount => with_decimals("amount", f.decimals),
        FieldType::SignedAmountN => with_decimals("amountN", f.decimals),
        FieldType::UnsignedAmount => with_decimals("uamount", f.decimals),
    }
}

/// `s` when it has at most `n` characters; otherwise its first `n - 1`
/// characters and an ellipsis.
pub open spec fn truncated(s: Seq<char>, n: nat) -> Seq<char> {
    if s.len() <= n {
        s
    } else {
        s.take(n - 1).push('…')
    }
}

/// Shorten `s` to at most `n` characters, marking the cut with `…`.
pub fn truncate(s: &str, n: usize) -> (res: String)
    requires
        s@.len() > n ==> n >= 1,
    ensures
        res@ == truncated(s@, n as nat),
{
    let cs = chars_of(s);
    if cs.len() <= n {
        return string_from(s);
    }
    let mut t = string_of_range(&cs, 0, n - 1);
    push_char(&mut t, '…');
    assert(cs@.subrange(0, n - 1) =~= s@.take(n - 1));
    t
}

// ── the report of semantic errors ──────────────────────────────────────────
/// One `  - <message>` line per error, in order.
pub open spec fn error_lines(ds: Seq<(DiagLevel, Seq<char>)>) -> Seq<char>
    decreases ds.len(),
{
    if ds.len() == 0 {
        Seq::empty()
    } else {
        error_lines(ds.drop_last()) + if ds.last().0 == DiagLevel::Error {
            "  - "@ + ds.last().1 + "\n"@
        } else {
            Seq::empty()
        }
    }
}

/// The messages of the warnings, in order.
pub open spec fn warning_messages(ds: Seq<(DiagLevel, Seq<char>)>) -> Seq<Seq<char>>
    decreases ds.len(),
{
    if ds.len() == 0 {
        Seq::empty()
    } else if ds.last().0 == DiagLevel::Warning {
        warning_messages(ds.drop_last()).push(ds.last().1)
    } else {
        warning_messages(ds.drop_last())
    }
}

/// How a model with these diagnostics is judged: when any of them is an
/// error, the message that lists the errors; otherwise the warnings'
/// messages, which do not stop the tool.
pub fn semantic_report(diags: &Vec<Diagnostic>) -> (res: Result<Vec<String>, String>)
    ensures
        has_error(diags_view(diags@)) ==> (res matches Err(m) && m@ == "semantic errors:\n"@
            + error_lines(diags_view(diags@))),
        !has_error(diags_view(diags@)) ==> (res matches Ok(w) && texts(w@) == warning_messages(
            diags_view(diags@),
        )),
{
    let ghost ds = diags_view(diags@);
    let mut errors = string_from("semantic errors:\n");
    let mut warnings: Vec<String> = Vec::new();
    let mut any = false;
    let mut i: usize = 0;
    while i < diags.len()
        invariant
            ds == diags_view(diags@),
            0 <= i <= diags@.len(),
            errors@ == "semantic errors:\n"@ + error_lines(ds.take(i as int)),
            texts(warnings@) == warning_messages(ds.take(i as int)),
            any == has_error(ds.take(i as int)),
        decreases diags@.len() - i,
    {
        let d = &diags[i];
        assert(ds.take(i + 1).drop_last() =~= ds.take(i as int));
        assert(ds.take(i + 1).last() == d@);
        if d.level == DiagLevel::Error {
            errors.append("  - ");
            errors.append(d.message.as_str());
            errors.append("\n");
            any = true;
            assert(ds.take(i + 1)[i as int].0 == DiagLevel::Error);
        } else {
            warnings.push(d.message.clone());
            assert(has_error(ds.take(i + 1)) == has_error(ds.take(i as int))) by {
                if has_error(ds.take(i + 1)) {
                    let k = choose|k: int|
                        0 <= k < i + 1 && (#[trigger] ds.take(i + 1)[k]).0 == DiagLevel::Error;
                    assert(ds.take(i as int)[k] == ds.take(i + 1)[k]);
                }
            }
        }
        proof {
            if has_error(ds.take(i as int)) {
                let k = choose|k: int|
                    0 <= k < i && (#[trigger] ds.take(i as int)[k]).0 == DiagLevel::Error;
                assert(ds.take(i + 1)[k] == ds.take(i as int)[k]);
            }
        }
        i = i + 1;
        assert(errors@ =~= "semantic errors:\n"@ + error_lines(ds.take(i as int)));
        assert(texts(warnings@) =~= warning_messages(ds.take(i as int)));
    }
    assert(ds.take(diags@.len() as int) =~= ds);
    if any {
        Err(errors)
    } else {
        Ok(warnings)
    }
}

// ── the inspect table ─────────────────────────────────────────────────────
/// A left-aligned table cell: the text, space-padded to the column width.
pub open spec fn cell(s: Seq<char>, width: nat) -> Seq<char> {
    pad_right_text(s, width, ' ')
}

pub open spec fn fixed_cell_text(fixed: Option<Seq<char>>) -> Seq<char> {
    match fixed {
        Some(v) => truncated(v, 14),
        None => Seq::empty(),
    }
}

/// The table line of the `i`-th field (counting from 1).
pub open spec fn inspect_row(i: nat, f: SpecField) -> Seq<char> {
    cell(nat_text(i), 4) + " "@ + cell(truncated(f.name, 32), 32) + " "@ + cell(
        nat_text(f.at as nat),
        6,
    ) + " "@ + cell(nat_text(f.length as nat), 6) + " "@ + cell(field_type_text(f.ty, f.decimals), 14)
        + " "@ + cell(fixed_cell_text(f.fixed), 14) + " "@ + usage_text(f.usage) + "\n"@
}

pub open spec fn table_header() -> Seq<char> {
    cell("#"@, 4) + " "@ + cell("Name"@, 32) + " "@ + cell("At"@, 6) + " "@ + cell("Len"@, 6) + " "@
        + cell("Type"@, 14) + " "@ + cell("Fixed"@, 14) + " Usage\n"@
}

pub open spec fn table_rule() -> Seq<char> {
    Seq::new(100, |_i: int| '─') + "\n"@
}

/// The fields of all the records, record after record.
pub open spec fn all_fields(rs: Seq<SpecRecord>) -> Seq<SpecField>
    decreases rs.len(),
{
    if rs.len() == 0 {
        Seq::empty()
    } else {
        all_fields(rs.drop_last()) + rs.last().fields
    }
}

/// The table lines of the first `k` fields of `fs`.
pub open spec fn inspect_rows(fs: Seq<SpecField>, k: nat) -> Seq<char>
    decreases k,
{
    if k == 0 {
        Seq::empty()
    } else {
        inspect_rows(fs, (k - 1) as nat) + inspect_row(k, fs[k - 1])
    }
}

pub open spec fn derive_total(rs: Seq<SpecRecord>) -> nat
    decreases rs.len(),
{
    if rs.len() == 0 {
        0
    } else {
        derive_total(rs.drop_last()) + rs.last().derives.len()
    }
}

pub open spec fn check_total(rs: Seq<SpecRecord>) -> nat
    decreases rs.len(),
{
    if rs.len() == 0 {
        0
    } else {
        check_total(rs.drop_last()) + rs.last().checks.len()
    }
}

pub open spec fn encoding_text(e: Encoding) -> Seq<char> {
    match e {
        Encoding::Iso8859_1 => "Iso8859_1"@,
        Encoding::Ascii => "Ascii"@,
    }
}

/// The lines of `inspect` above the field rows: the model's identity and the
/// table's header.
pub open spec fn inspect_head_text(f: SpecBoeFile) -> Seq<char> {
    "Modelo "@ + f.model.number + " (version "@ + f.model.version + ")\n"@ + "Encoding: "@
        + encoding_text(f.model.encoding) + "\n"@ + "Record length: "@ + nat_text(
        f.model.record_length as nat,
    ) + "\n"@ + "\n"@ + table_header() + table_rule()
}

/// The lines of `inspect` below the field rows.
pub open spec fn inspect_tail_text(derives: nat, checks: nat) -> Seq<char> {
    "\n"@ + "Derives: "@ + nat_text(derives) + "\n"@ + "Checks: "@ + nat_text(checks) + "\n"@
}

/// What `inspect` prints: the model's identity, one line per field of every
/// record, and how many derives and checks there are.
pub open spec fn inspect_text(f: SpecBoeFile) -> Seq<char> {
    inspect_head_text(f) + inspect_rows(all_fields(f.records), all_fields(f.records).len())
        + inspect_tail_text(derive_total(f.records), check_total(f.records))
}

/// Whether the counts that `inspect` prints fit a `usize`.
pub open spec fn inspect_counts_fit(f: SpecBoeFile) -> bool {
    &&& all_fields(f.records).len() <= usize::MAX
    &&& derive_total(f.records) <= usize::MAX
    &&& check_total(f.records) <= usize::MAX
}

proof fn lemma_totals_step(rs: Seq<SpecRecord>, k: int)
    requires
        0 <= k < rs.len(),
    ensures
        all_fields(rs.take(k + 1)) == all_fields(rs.take(k)) + rs[k].fields,
        derive_total(rs.take(k + 1)) == derive_total(rs.take(k)) + rs[k].derives.len(),
        check_total(rs.take(k + 1)) == check_total(rs.take(k)) + rs[k].checks.len(),
{
    assert(rs.take(k + 1).drop_last() =~= rs.take(k));
}

proof fn lemma_totals_prefix(rs: Seq<SpecRecord>, k: int)
    requires
        0 <= k <= rs.len(),
    ensures
        all_fields(rs.take(k)).len() <= all_fields(rs).len(),
        derive_total(rs.take(k)) <= derive_total(rs),
        check_total(rs.take(k)) <= check_total(rs),
    decreases rs.len() - k,
{
    if k < rs.len() {
        lemma_totals_step(rs, k);
        lemma_totals_prefix(rs, k + 1);
    } else {
        assert(rs.take(k) =~= rs);
    }
}

proof fn lemma_rows_prefix(fs: Seq<SpecField>, gs: Seq<SpecField>, k: nat)
    requires
        k <= fs.len(),
        k <= gs.len(),
        fs.take(k as int) == gs.take(k as int),
    ensures
        inspect_rows(fs, k) == inspect_rows(gs, k),
    decreases k,
{
    if k > 0 {
        assert(fs[k - 1] == fs.take(k as int)[k - 1]);
        assert(gs[k - 1] == gs.take(k as int)[k - 1]);
        assert(fs.take(k - 1) =~= fs.take(k as int).take(k - 1));
        assert(gs.take(k - 1) =~= gs.take(k as int).take(k - 1));
        lemma_rows_prefix(fs, gs, (k - 1) as nat);
    }
}

fn push_cell(out: &mut String, s: &str, width: usize)
    ensures
        final(out)@ == old(out)@ + cell(s@, width as nat),
{
    let c = pad_right(s, width, ' ');
    out.append(c.as_str());
}

fn inspect_row_exec(i: usize, f: &Field) -> (res: String)
    ensures
        res@ == inspect_row(i as nat, f@),
{
    let mut out = String::new();
    push_cell(&mut out, usize_string(i).as_str(), 4);
    out.append(" ");
    push_cell(&mut out, truncate(f.name.as_str(), 32).as_str(), 32);
    out.append(" ");
    push_cell(&mut out, usize_string(f.at).as_str(), 6);
    out.append(" ");
    push_cell(&mut out, usize_string(f.length).as_str(), 6);
    out.append(" ");
    push_cell(&mut out, field_type_name(f).as_str(), 14);
    out.append(" ");
    let fixed = match &f.fixed {
        Some(v) => truncate(v.as_str(), 14),
        None => String::new(),
    };
    assert(fixed@ == fixed_cell_text(f@.fixed));
    push_cell(&mut out, fixed.as_str(), 14);
    out.append(" ");
    out.append(usage_name(f.usage));
    out.append("\n");
    assert(out@ =~= inspect_row(i as nat, f@));
    out
}

fn table_header_exec() -> (res: String)
    ensures
        res@ == table_header(),
{
    let mut out = String::new();
    push_cell(&mut out, "#", 4);
    out.append(" ");
    push_cell(&mut out, "Name", 32);
    out.append(" ");
    push_cell(&mut out, "At", 6);
    out.append(" ");
    push_cell(&mut out, "Len", 6);
    out.append(" ");
    push_cell(&mut out, "Type", 14);
    out.append(" ");
    push_cell(&mut out, "Fixed", 14);
    out.append(" Usage\n");
    assert(out@ =~= table_header());
    out
}

fn table_rule_exec() -> (res: String)
    ensures
        res@ == table_rule(),
{
    let mut out = String::new();
    let mut k: usize = 0;
    while k < 100
        invariant
            0 <= k <= 100,
            out@ == Seq::new(k as nat, |_i: int| '─'),
        decreases 100 - k,
    {
        push_char(&mut out, '─');
        k = k + 1;
        assert(out@ =~= Seq::new(k as nat, |_i: int| '─'));
    }
    out.append("\n");
    out
}

fn inspect_head(file: &BoeFile) -> (res: String)
    ensures
        res@ == inspect_head_text(file@),
{
    let mut out = string_from("Modelo ");
    out.append(file.model.number.as_str());
    out.append(" (version ");
    out.append(file.model.version.as_str());
    out.append(")\n");
    out.append("Encoding: ");
    match file.model.encoding {
        Encoding::Iso8859_1 => out.append("Iso8859_1"),
        Encoding::Ascii => out.append("Ascii"),
    }
    out.append("\n");
    out.append("Record length: ");
    out.append(usize_string(file.model.record_length).as_str());
    out.append("\n");
    out.append("\n");
    let ghost identity = out@;
    out.append(table_header_exec().as_str());
    out.append(table_rule_exec().as_str());
    assert(out@ =~= identity + table_header() + table_rule());
    assert(out@ =~= inspect_head_text(file@));
    out
}

fn inspect_tail(derives: usize, checks: usize) -> (res: String)
    ensures
        res@ == inspect_tail_text(derives as nat, checks as nat),
{
    let mut out = string_from("\n");
    out.append("Derives: ");
    out.append(usize_string(derives).as_str());
    out.append("\n");
    out.append("Checks: ");
    out.append(usize_string(checks).as_str());
    out.append("\n");
    assert(out@ =~= inspect_tail_text(derives as nat, checks as nat));
    out
}

/// The text of the `inspect` table for `file`, or `None` when one of the
/// counts it prints does not fit a `usize`.
pub fn inspect_report(file: &BoeFile) -> (res: Option<String>)
    ensures
        res is Some <==> inspect_counts_fit(file@),
        res matches Some(t) ==> t@ == inspect_text(file@),
{
    let ghost fv = file@;
    let ghost rs = fv.records;
    let mut rows = String::new();
    let mut n: usize = 0;
    let mut derives: usize = 0;
    let mut checks: usize = 0;
    let mut i: usize = 0;
    assert(rs.take(0) =~= Seq::<SpecRecord>::empty());
    while i < file.records.len()
        invariant
            fv == file@,
            rs == fv.records,
            0 <= i <= rs.len(),
            n == all_fields(rs.take(i as int)).len(),
            rows@ == inspect_rows(all_fields(rs.take(i as int)), n as nat),
            derives == derive_total(rs.take(i as int)),
            checks == check_total(rs.take(i as int)),
        decreases rs.len() - i,
    {
        let r = &file.records[i];
        assert(rs[i as int] == r@);
        proof {
            lemma_totals_step(rs, i as int);
            lemma_totals_prefix(rs, i + 1);
        }
        let ghost before = all_fields(rs.take(i as int));
        let mut j: usize = 0;
        while j < r.fields.len()
            invariant
                fv == file@,
                rs == fv.records,
                i < rs.len(),
                rs[i as int] == r@,
                before == all_fields(rs.take(i as int)),
                all_fields(rs.take(i + 1)) == before + r@.fields,
                all_fields(rs.take(i + 1)).len() <= all_fields(rs).len(),
                0 <= j <= r.fields@.len(),
                n == before.len() + j,
                rows@ == inspect_rows(before + r@.fields.take(j as int), n as nat),
            decreases r.fields@.len() - j,
        {
            if n == usize::MAX {
                return None;
            }
            let ghost fs1 = before + r@.fields.take(j as int);
            let ghost fs2 = before + r@.fields.take(j + 1);
            proof {
                assert(fs2.take(n as int) =~= fs1.take(n as int));
                lemma_rows_prefix(fs1, fs2, n as nat);
                assert(fs2[n as int] == r.fields@[j as int]@);
            }
            n = n + 1;
            let row = inspect_row_exec(n, &r.fields[j]);
            rows.append(row.as_str());
            j = j + 1;
            assert(rows@ =~= inspect_rows(fs2, n as nat));
        }
        assert(r@.fields.take(j as int) =~= r@.fields);
        if derives > usize::MAX - r.derives.len() || checks > usize::MAX - r.checks.len() {
            return None;
        }
        derives = derives + r.derives.len();
        checks = checks + r.checks.len();
        i = i + 1;
    }
    assert(rs.take(i as int) =~= rs);
    let mut out = inspect_head(file);
    out.append(rows.as_str());
    out.append(inspect_tail(derives, checks).as_str());
    assert(out@ =~= inspect_text(fv));
    Some(out)
}

/// The `inspect` text opens with the model's identity and then names the
/// model's own encoding on the second line: `Encoding: Ascii` for an ASCII
/// model and `Encoding: Iso8859_1` for an ISO-8859-1 one.
pub proof fn law_inspect_names_encoding(f: SpecBoeFile)
    ensures
        ({
            let first = "Modelo "@ + f.model.number + " (version "@ + f.model.version + ")\n"@;
            let k = first.len() as int;
            let t = inspect_text(f);
            &&& t.subrange(0, k) == first
            &&& f.model.encoding == Encoding::Ascii ==> t.subrange(k, k + 16) == "Encoding: Ascii\n"@
            &&& f.model.encoding == Encoding::Iso8859_1 ==> t.subrange(k, k + 20)
                == "Encoding: Iso8859_1\n"@
        }),
{
    let first = "Modelo "@ + f.model.number + " (version "@ + f.model.version + ")\n"@;
    let k = first.len() as int;
    let t = inspect_text(f);
    let line: Seq<char> = "Encoding: "@ + encoding_text(f.model.encoding) + "\n"@;
    let rest = "Record length: "@ + nat_text(f.model.record_length as nat) + "\n"@ + "\n"@
        + table_header() + table_rule() + inspect_rows(all_fields(f.records), all_fields(f.records).len())
        + inspect_tail_text(derive_total(f.records), check_total(f.records));
    assert(t =~= first + line + rest);
    assert(t.subrange(0, k) =~= first);
    reveal_strlit("Encoding: ");
    reveal_strlit("\n");
    reveal_strlit("Ascii");
    reveal_strlit("Iso8859_1");
    reveal_strlit("Encoding: Ascii\n");
    reveal_strlit("Encoding: Iso8859_1\n");
    assert(t.subrange(k, k + line.len()) =~= line);
    if f.model.encoding == Encoding::Ascii {
        assert(line =~= "Encoding: Ascii\n"@);
    } else {
        assert(line =~= "Encoding: Iso8859_1\n"@);
    }
}

/// The `Type` cell names the field's own type, as the `.boe` syntax
/// writes it (`amount`, `amountN`, `uamount` for amounts), with the number
/// of decimals in brackets when the amount has them; the `Usage` cell names
/// the field's own usage.
pub proof fn law_type_and_usage_names(decimals: Option<usize>)
    ensures
        field_type_text(FieldType::Alpha, decimals) == "alpha"@,
        field_type_text(FieldType::Alphanumeric, decimals) == "alphanumeric"@,
        field_type_text(FieldType::Number, decimals) == "number"@,
        field_type_text(FieldType::SignedAmount, None) == "amount"@,
        field_type_text(FieldType::SignedAmountN, None) == "amountN"@,
        field_type_text(FieldType::UnsignedAmount, None) == "uamount"@,
        decimals matches Some(d) ==> field_type_text(FieldType::SignedAmount, decimals) == "amount("@
            + nat_text(d as nat) + ")"@,
        decimals matches Some(d) ==> field_type_text(FieldType::SignedAmountN, decimals) == "amountN("@
            + nat_text(d as nat) + ")"@,
        decimals matches Some(d) ==> field_type_text(FieldType::UnsignedAmount, decimals) == "uamount("@
            + nat_text(d as nat) + ")"@,
        usage_text(Usage::All) == "all"@,
        usage_text(Usage::PrintOnly) == "print_only"@,
        usage_text(Usage::InternetOnly) == "internet_only"@,
{
    reveal_strlit("amount");
    reveal_strlit("amountN");
    reveal_strlit("uamount");
    reveal_strlit("(");
    reveal_strlit("amount(");
    reveal_strlit("amountN(");
    reveal_strlit("uamount(");
    assert("amount"@ + "("@ =~= "amount("@);
    assert("amountN"@ + "("@ =~= "amountN("@);
    assert("uamount"@ + "("@ =~= "uamount("@);
}

/// Truncating to `n` characters keeps a text that fits; a longer text keeps
/// exactly `n` characters: its first `n - 1` and an ellipsis.
pub proof fn law_truncated(s: Seq<char>, n: nat)
    requires
        n >= 1,
    ensures
        s.len() <= n ==> truncated(s, n) == s,
        s.len() > n ==> truncated(s, n).len() == n && truncated(s, n)[n - 1] == '…' && forall|i: int|
            0 <= i < n - 1 ==> #[trigger] truncated(s, n)[i] == s[i],
{
}

proof fn lemma_report_concat(a: Seq<(DiagLevel, Seq<char>)>, b: Seq<(DiagLevel, Seq<char>)>)
    ensures
        error_lines(a + b) == error_lines(a) + error_lines(b),
        warning_messages(a + b) == warning_messages(a) + warning_messages(b),
    decreases b.len(),
{
    if b.len() == 0 {
        assert(a + b =~= a);
        assert(error_lines(a) + error_lines(b) =~= error_lines(a));
        assert(warning_messages(a) + warning_messages(b) =~= warning_messages(a));
    } else {
        lemma_report_concat(a, b.drop_last());
        assert((a + b).drop_last() =~= a + b.drop_last());
        assert((a + b).last() == b.last());
    }
}

/// The error report lists one `  - <message>` line per error diagnostic, in
/// order, and nothing for a warning; the warnings kept are the warnings'
/// messages, in order: each part of a list of diagnostics adds its own.
pub proof fn law_report_lists_each_diagnostic(
    a: Seq<(DiagLevel, Seq<char>)>,
    b: Seq<(DiagLevel, Seq<char>)>,
    m: Seq<char>,
)
    ensures
        error_lines(a + b) == error_lines(a) + error_lines(b),
        warning_messages(a + b) == warning_messages(a) + warning_messages(b),
        error_lines(seq![(DiagLevel::Error, m)]) == "  - "@ + m + "\n"@,
        error_lines(seq![(DiagLevel::Warning, m)]) == Seq::<char>::empty(),
        warning_messages(seq![(DiagLevel::Warning, m)]) == seq![m],
        warning_messages(seq![(DiagLevel::Error, m)]) == Seq::<Seq<char>>::empty(),
{
    lemma_report_concat(a, b);
    let e = seq![(DiagLevel::Error, m)];
    let w = seq![(DiagLevel::Warning, m)];
    assert(e.drop_last() =~= Seq::<(DiagLevel, Seq<char>)>::empty());
    assert(w.drop_last() =~= Seq::<(DiagLevel, Seq<char>)>::empty());
    let z = Seq::<(DiagLevel, Seq<char>)>::empty();
    assert(error_lines(z) == Seq::<char>::empty());
    assert(warning_messages(z) == Seq::<Seq<char>>::empty());
    assert(e.last() == (DiagLevel::Error, m));
    assert(w.last() == (DiagLevel::Warning, m));
    assert(error_lines(e) == error_lines(z) + ("  - "@ + m + "\n"@));
    assert(error_lines(e) =~= "  - "@ + m + "\n"@);
    assert(warning_messages(w) == warning_messages(z).push(m));
    assert(warning_messages(w) =~= seq![m]);
}

proof fn lemma_totals_concat(a: Seq<SpecRecord>, b: Seq<SpecRecord>)
    ensures
        all_fields(a + b) == all_fields(a) + all_fields(b),
        derive_total(a + b) == derive_total(a) + derive_total(b),
        check_total(a + b) == check_total(a) + check_total(b),
    decreases b.len(),
{
    if b.len() == 0 {
        assert(a + b =~= a);
        assert(all_fields(a) + all_fields(b) =~= all_fields(a));
    } else {
        lemma_totals_concat(a, b.drop_last());
        assert((a + b).drop_last() =~= a + b.drop_last());
        assert((a + b).last() == b.last());
        assert(all_fields(a + b) =~= all_fields(a) + all_fields(b));
    }
}

/// The table lists the fields of every record, record after record, and the
/// totals count every record's derives and checks: each group of records
/// adds its own, and one record adds its fields, derives and checks.
pub proof fn law_inspect_counts(a: Seq<SpecRecord>, b: Seq<SpecRecord>, r: SpecRecord)
    ensures
        all_fields(a + b) == all_fields(a) + all_fields(b),
        derive_total(a + b) == derive_total(a) + derive_total(b),
        check_total(a + b) == check_total(a) + check_total(b),
        all_fields(seq![r]) == r.fields,
        derive_total(seq![r]) == r.derives.len(),
        check_total(seq![r]) == r.checks.len(),
{
    lemma_totals_concat(a, b);
    let z = Seq::<SpecRecord>::empty();
    assert(seq![r].drop_last() =~= z);
    assert(all_fields(z) == Seq::<SpecField>::empty());
    assert(all_fields(seq![r]) =~= r.fields);
    assert(derive_total(z) == 0);
    assert(check_total(z) == 0);
    assert(seq![r].last() == r);
}

} // verus!
