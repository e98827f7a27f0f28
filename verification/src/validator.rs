//! Semantic validation of a parsed `BoeFile`.
//!
//! Checks (all reported as diagnostics; the caller decides what to do):
//! - duplicate record and field names
//! - `at` / `length` fit inside `record_length`
//! - `fixed` value length matches field length
//! - field positions don't overlap; gaps between fields are warnings
//! - `derive` target must be a declared field and may only reference fields declared before it
//! - `check.rule` references only declared fields
//! - envelope params, `contains` and template placeholders refer to declared items
use vstd::prelude::*;

use crate::ast::{
    BoeFile, BoolExpr, Expr, Field, FieldType, Record, SpecBoeFile, SpecBoolExpr, SpecDerive,
    SpecEnvelope, SpecExpr, SpecField, SpecParam, SpecRecord, SpecTemplatePart, TemplatePart,
};
use crate::text::{chars_of, nat_text, string_from, texts, usize_string};

verus! {

#[derive(Debug, Clone, Copy, PartialEq, Eq, Structural)]
pub enum DiagLevel {
    Error,
    Warning,
}

#[derive(Debug, Clone, PartialEq, Eq)]
pub struct Diagnostic {
    pub level: DiagLevel,
    pub message: String,
}

impl View for Diagnostic {
    type V = (DiagLevel, Seq<char>);

    open spec fn view(&self) -> (DiagLevel, Seq<char>) {
        (self.level, self.message@)
    }
}

pub open spec fn diags_view(v: Seq<Diagnostic>) -> Seq<(DiagLevel, Seq<char>)> {
    v.map_values(|d: Diagnostic| d@)
}

pub open spec fn error_diag(m: Seq<char>) -> Seq<(DiagLevel, Seq<char>)> {
    seq![(DiagLevel::Error, m)]
}

pub open spec fn warning_diag(m: Seq<char>) -> Seq<(DiagLevel, Seq<char>)> {
    seq![(DiagLevel::Warning, m)]
}

pub open spec fn no_diag() -> Seq<(DiagLevel, Seq<char>)> {
    Seq::empty()
}

/// Whether any diagnostic is an error.
pub open spec fn has_error(ds: Seq<(DiagLevel, Seq<char>)>) -> bool {
    exists|i: int| 0 <= i < ds.len() && (#[trigger] ds[i]).0 == DiagLevel::Error
}

// ── identifiers referenced by expressions ──────────────────────────────

/// Field names referenced by `e`, in left-to-right order.
pub open spec fn expr_idents(e: SpecExpr) -> Seq<Seq<char>>
    decreases e, 0nat,
{
    match e {
        SpecExpr::Ident(n) => seq![n],
        SpecExpr::Int(_) => Seq::empty(),
        SpecExpr::Str(_) => Seq::empty(),
        SpecExpr::Bin(a, _, b) => expr_idents(*a) + expr_idents(*b),
        SpecExpr::Call(_, args) => args_idents(args, args.len()),
    }
}

/// Field names referenced by the first `n` expressions of `args`.
pub open spec fn args_idents(args: Seq<SpecExpr>, n: nat) -> Seq<Seq<char>>
    decreases args, n,
{
    if n == 0 || n > args.len() {
        Seq::empty()
    } else {
        args_idents(args, (n - 1) as nat) + expr_idents(args[n - 1])
    }
}

/// Field names referenced by a boolean rule, in left-to-right order.
pub open spec fn bool_idents(b: SpecBoolExpr) -> Seq<Seq<char>>
    decreases b,
{
    match b {
        SpecBoolExpr::Cmp(x, _, y) => expr_idents(x) + expr_idents(y),
        SpecBoolExpr::Implies(l, r) => bool_idents(*l) + bool_idents(*r),
    }
}

// ── lookups ─────────────────────────────────────────────────────────────

/// Index of the last field among `fs[0..n]` named `name`.
pub open spec fn last_index_in(fs: Seq<SpecField>, name: Seq<char>, n: nat) -> Option<nat>
    decreases n,
{
    if n == 0 || n > fs.len() {
        None
    } else if fs[n - 1].name == name {
        Some((n - 1) as nat)
    } else {
        last_index_in(fs, name, (n - 1) as nat)
    }
}

/// Index of the last field of `fs` named `name`, if any.
pub open spec fn last_index(fs: Seq<SpecField>, name: Seq<char>) -> Option<nat> {
    last_index_in(fs, name, fs.len())
}

pub open spec fn field_named_before(fs: Seq<SpecField>, i: int) -> bool {
    exists|j: int| 0 <= j < i && #[trigger] fs[j].name == fs[i].name
}

pub open spec fn record_named_before(rs: Seq<SpecRecord>, i: int) -> bool {
    exists|j: int| 0 <= j < i && #[trigger] rs[j].name == rs[i].name
}

pub open spec fn has_record(rs: Seq<SpecRecord>, name: Seq<char>) -> bool {
    exists|j: int| 0 <= j < rs.len() && #[trigger] rs[j].name == name
}

pub open spec fn has_param(ps: Seq<SpecParam>, name: Seq<char>) -> bool {
    exists|j: int| 0 <= j < ps.len() && #[trigger] ps[j].name == name
}

// ── per-record diagnostics ──────────────────────────────────────────────

pub open spec fn record_prefix(r: SpecRecord, multi: bool) -> Seq<char> {
    if multi {
        "record `"@ + r.name + "`: "@
    } else {
        Seq::empty()
    }
}

pub open spec fn allows_decimals(t: FieldType) -> bool {
    t == FieldType::SignedAmount || t == FieldType::SignedAmountN || t == FieldType::UnsignedAmount
}

/// `at + length - 1`, saturating at both ends as the validator computes it.
pub open spec fn end_position(f: SpecField) -> nat {
    let s: int = if f.at + f.length > usize::MAX { usize::MAX as int } else { f.at + f.length };
    if s == 0 { 0 } else { (s - 1) as nat }
}

pub open spec fn field_head(p: Seq<char>, f: SpecField) -> Seq<char> {
    p + "field `"@ + f.name
}

pub open spec fn field_dup_diag(r: SpecRecord, p: Seq<char>, i: int) -> Seq<(DiagLevel, Seq<char>)> {
    if field_named_before(r.fields, i) {
        error_diag(p + "duplicate field name `"@ + r.fields[i].name + "`"@)
    } else {
        no_diag()
    }
}

pub open spec fn field_at_diag(p: Seq<char>, f: SpecField) -> Seq<(DiagLevel, Seq<char>)> {
    if f.at == 0 {
        error_diag(field_head(p, f) + "`: `at` is 1-indexed, got 0"@)
    } else {
        no_diag()
    }
}

pub open spec fn field_len_diag(p: Seq<char>, f: SpecField) -> Seq<(DiagLevel, Seq<char>)> {
    if f.length == 0 {
        error_diag(field_head(p, f) + "`: `length` must be > 0"@)
    } else {
        no_diag()
    }
}

pub open spec fn field_end_diag(p: Seq<char>, f: SpecField, record_length: usize) -> Seq<
    (DiagLevel, Seq<char>),
> {
    if end_position(f) > record_length {
        error_diag(
            field_head(p, f) + "`: end position "@ + nat_text(end_position(f))
                + " exceeds record_length "@ + nat_text(record_length as nat),
        )
    } else {
        no_diag()
    }
}

pub open spec fn field_fixed_diag(p: Seq<char>, f: SpecField) -> Seq<(DiagLevel, Seq<char>)> {
    match f.fixed {
        Some(x) => if x.len() != f.length {
            error_diag(
                field_head(p, f) + "`: fixed value length "@ + nat_text(x.len())
                    + " does not match declared length "@ + nat_text(f.length as nat),
            )
        } else {
            no_diag()
        },
        None => no_diag(),
    }
}

pub open spec fn field_decimals_diag(p: Seq<char>, f: SpecField) -> Seq<(DiagLevel, Seq<char>)> {
    if f.decimals is Some && !allows_decimals(f.ty) {
        error_diag(field_head(p, f) + "`: `decimals` only allowed on signed_amount or unsigned_amount"@)
    } else {
        no_diag()
    }
}

/// Diagnostics about field `i` of `r` taken on its own.
pub open spec fn field_diags(r: SpecRecord, p: Seq<char>, i: int) -> Seq<(DiagLevel, Seq<char>)> {
    let f = r.fields[i];
    field_dup_diag(r, p, i) + field_at_diag(p, f) + field_len_diag(p, f) + field_end_diag(
        p,
        f,
        r.record_length,
    ) + field_fixed_diag(p, f) + field_decimals_diag(p, f)
}

pub open spec fn fields_diags(r: SpecRecord, p: Seq<char>, n: nat) -> Seq<(DiagLevel, Seq<char>)>
    decreases n,
{
    if n == 0 || n > r.fields.len() {
        no_diag()
    } else {
        fields_diags(r, p, (n - 1) as nat) + field_diags(r, p, n - 1)
    }
}

/// Inserts index `i` into `s` (already ordered by `at`) after every index whose
/// field starts at or before field `i`: a stable insertion.
pub open spec fn insert_by_at(fs: Seq<SpecField>, s: Seq<int>, i: int) -> Seq<int>
    decreases s.len(),
{
    if s.len() == 0 {
        seq![i]
    } else if fs[s.last()].at <= fs[i].at {
        s.push(i)
    } else {
        insert_by_at(fs, s.drop_last(), i).push(s.last())
    }
}

/// The indices `0..n` of `fs`, stably sorted by `at`.
pub open spec fn order_by_at(fs: Seq<SpecField>, n: nat) -> Seq<int>
    decreases n,
{
    if n == 0 {
        Seq::empty()
    } else {
        insert_by_at(fs, order_by_at(fs, (n - 1) as nat), n - 1)
    }
}

/// Overlap and gap diagnostics over the first `k` fields in `order`, and the
/// position right after the last of them.
pub open spec fn layout_diags(fs: Seq<SpecField>, order: Seq<int>, p: Seq<char>, k: nat) -> (
    Seq<(DiagLevel, Seq<char>)>,
    nat,
)
    decreases k,
{
    if k == 0 || k > order.len() {
        (no_diag(), 1)
    } else {
        let (d, cursor) = layout_diags(fs, order, p, (k - 1) as nat);
        let f = fs[order[k - 1]];
        let d2 = if f.at < cursor {
            d + error_diag(
                p + "field `"@ + f.name + "` at position "@ + nat_text(f.at as nat)
                    + " overlaps previous field (expected >= "@ + nat_text(cursor) + ")"@,
            )
        } else if f.at > cursor {
            d + warning_diag(
                p + "gap between positions "@ + nat_text(cursor) + " and "@ + nat_text(
                    (f.at - 1) as nat,
                ) + " (before field `"@ + f.name + "`)"@,
            )
        } else {
            d
        };
        (d2, (f.at + f.length) as nat)
    }
}

pub open spec fn record_layout_diags(r: SpecRecord, p: Seq<char>) -> Seq<(DiagLevel, Seq<char>)> {
    let n = r.fields.len();
    let (d, cursor) = layout_diags(r.fields, order_by_at(r.fields, n), p, n);
    d + (if n > 0 && cursor < r.record_length + 1 {
        warning_diag(
            p + "trailing gap: positions "@ + nat_text(cursor) + ".."@ + nat_text(
                r.record_length as nat,
            ) + " are not covered"@,
        )
    } else {
        no_diag()
    })
}

/// Diagnostics for the first `n` names referenced by derive `d` whose target is field `t`.
pub open spec fn derive_ref_diags(
    fs: Seq<SpecField>,
    p: Seq<char>,
    target: Seq<char>,
    t: nat,
    names: Seq<Seq<char>>,
    n: nat,
) -> Seq<(DiagLevel, Seq<char>)>
    decreases n,
{
    if n == 0 || n > names.len() {
        no_diag()
    } else {
        derive_ref_diags(fs, p, target, t, names, (n - 1) as nat) + match last_index(
            fs,
            names[n - 1],
        ) {
            None => error_diag(
                p + "derive `"@ + target + "`: unknown field `"@ + names[n - 1] + "`"@,
            ),
            Some(idx) => if idx >= t {
                error_diag(
                    p + "derive `"@ + target + "`: forward reference to `"@ + names[n - 1]
                        + "` (must be declared before target)"@,
                )
            } else {
                no_diag()
            },
        }
    }
}

pub open spec fn derive_diags(r: SpecRecord, p: Seq<char>, d: SpecDerive) -> Seq<
    (DiagLevel, Seq<char>),
> {
    match last_index(r.fields, d.target) {
        None => error_diag(p + "derive: unknown target field `"@ + d.target + "`"@),
        Some(t) => {
            let names = expr_idents(d.expr);
            derive_ref_diags(r.fields, p, d.target, t, names, names.len())
        },
    }
}

pub open spec fn derives_diags(r: SpecRecord, p: Seq<char>, n: nat) -> Seq<(DiagLevel, Seq<char>)>
    decreases n,
{
    if n == 0 || n > r.derives.len() {
        no_diag()
    } else {
        derives_diags(r, p, (n - 1) as nat) + derive_diags(r, p, r.derives[n - 1])
    }
}

pub open spec fn check_ref_diags(
    fs: Seq<SpecField>,
    p: Seq<char>,
    code: Seq<char>,
    names: Seq<Seq<char>>,
    n: nat,
) -> Seq<(DiagLevel, Seq<char>)>
    decreases n,
{
    if n == 0 || n > names.len() {
        no_diag()
    } else {
        check_ref_diags(fs, p, code, names, (n - 1) as nat) + if last_index(
            fs,
            names[n - 1],
        ) is None {
            error_diag(p + "check `"@ + code + "`: unknown field `"@ + names[n - 1] + "`"@)
        } else {
            no_diag()
        }
    }
}

pub open spec fn checks_diags(r: SpecRecord, p: Seq<char>, n: nat) -> Seq<(DiagLevel, Seq<char>)>
    decreases n,
{
    if n == 0 || n > r.checks.len() {
        no_diag()
    } else {
        let c = r.checks[n - 1];
        let names = bool_idents(c.rule);
        checks_diags(r, p, (n - 1) as nat) + check_ref_diags(r.fields, p, c.code, names, names.len())
    }
}

/// All diagnostics about one record.
pub open spec fn record_diags(r: SpecRecord, multi: bool) -> Seq<(DiagLevel, Seq<char>)> {
    let p = record_prefix(r, multi);
    fields_diags(r, p, r.fields.len()) + record_layout_diags(r, p) + derives_diags(
        r,
        p,
        r.derives.len(),
    ) + checks_diags(r, p, r.checks.len())
}

pub open spec fn records_diags(rs: Seq<SpecRecord>, multi: bool, n: nat) -> Seq<
    (DiagLevel, Seq<char>),
>
    decreases n,
{
    if n == 0 || n > rs.len() {
        no_diag()
    } else {
        records_diags(rs, multi, (n - 1) as nat) + record_diags(rs[n - 1], multi)
    }
}

pub open spec fn duplicate_record_diags(rs: Seq<SpecRecord>, n: nat) -> Seq<
    (DiagLevel, Seq<char>),
>
    decreases n,
{
    if n == 0 || n > rs.len() {
        no_diag()
    } else {
        duplicate_record_diags(rs, (n - 1) as nat) + if record_named_before(rs, n - 1) {
            error_diag("duplicate record name `"@ + rs[n - 1].name + "`"@)
        } else {
            no_diag()
        }
    }
}

// ── envelope diagnostics ────────────────────────────────────────────────

pub open spec fn param_diags(ps: Seq<SpecParam>, n: nat) -> Seq<(DiagLevel, Seq<char>)>
    decreases n,
{
    if n == 0 || n > ps.len() {
        no_diag()
    } else {
        param_diags(ps, (n - 1) as nat) + if ps[n - 1].length == 0 {
            error_diag("envelope param `"@ + ps[n - 1].name + "`: `length` debe ser > 0"@)
        } else {
            no_diag()
        }
    }
}

pub open spec fn contains_diags(rs: Seq<SpecRecord>, cs: Seq<Seq<char>>, n: nat) -> Seq<
    (DiagLevel, Seq<char>),
>
    decreases n,
{
    if n == 0 || n > cs.len() {
        no_diag()
    } else {
        contains_diags(rs, cs, (n - 1) as nat) + if !has_record(rs, cs[n - 1]) {
            error_diag("envelope `contains`: record desconocido `"@ + cs[n - 1] + "`"@)
        } else {
            no_diag()
        }
    }
}

pub open spec fn template_diags(
    label: Seq<char>,
    ps: Seq<SpecParam>,
    t: Seq<SpecTemplatePart>,
    n: nat,
) -> Seq<(DiagLevel, Seq<char>)>
    decreases n,
{
    if n == 0 || n > t.len() {
        no_diag()
    } else {
        template_diags(label, ps, t, (n - 1) as nat) + match t[n - 1] {
            SpecTemplatePart::Field(f) => if !has_param(ps, f) {
                error_diag("envelope "@ + label + ": `${"@ + f + "}` no es un param declarado"@)
            } else {
                no_diag()
            },
            SpecTemplatePart::Lit(_) => no_diag(),
        }
    }
}

pub open spec fn envelope_diags(rs: Seq<SpecRecord>, e: SpecEnvelope) -> Seq<
    (DiagLevel, Seq<char>),
> {
    param_diags(e.params, e.params.len()) + contains_diags(rs, e.contains, e.contains.len()) + (
    if e.contains.len() == 0 {
        error_diag("envelope `contains` no puede estar vacío"@)
    } else {
        no_diag()
    }) + template_diags("header"@, e.params, e.header, e.header.len()) + template_diags(
        "trailer"@,
        e.params,
        e.trailer,
        e.trailer.len(),
    )
}

/// Everything `validate` reports about `f`, in order.
pub open spec fn validate_spec(f: SpecBoeFile) -> Seq<(DiagLevel, Seq<char>)> {
    duplicate_record_diags(f.records, f.records.len()) + records_diags(
        f.records,
        f.records.len() > 1,
        f.records.len(),
    ) + match f.envelope {
        Some(e) => envelope_diags(f.records, e),
        None => no_diag(),
    }
}

/// The arithmetic the validator does on positions stays within `usize`.
pub open spec fn positions_in_range(f: SpecBoeFile) -> bool {
    forall|i: int|
        0 <= i < f.records.len() ==> {
            &&& #[trigger] f.records[i].record_length < usize::MAX
            &&& forall|j: int|
                0 <= j < f.records[i].fields.len() ==> #[trigger] f.records[i].fields[j].at
                    + f.records[i].fields[j].length <= usize::MAX
        }
}

} // verus!

verus! {

impl Diagnostic {
    fn error(message: String) -> (d: Self)
        ensures
            d@ == (DiagLevel::Error, message@),
    {
        Self { level: DiagLevel::Error, message }
    }

    fn warning(message: String) -> (d: Self)
        ensures
            d@ == (DiagLevel::Warning, message@),
    {
        Self { level: DiagLevel::Warning, message }
    }
}

fn push_diag(diags: &mut Vec<Diagnostic>, d: Diagnostic)
    ensures
        diags_view(final(diags)@) == diags_view(old(diags)@) + seq![d@],
{
    let ghost before = diags@;
    let ghost dv = d@;
    diags.push(d);
    assert(diags_view(diags@) =~= diags_view(before) + seq![dv]);
}

fn append_diags(dst: &mut Vec<Diagnostic>, src: Vec<Diagnostic>)
    ensures
        diags_view(final(dst)@) == diags_view(old(dst)@) + diags_view(src@),
{
    let ghost before = diags_view(dst@);
    let mut src = src;
    let ghost all = diags_view(src@);
    let mut i: usize = 0;
    let n = src.len();
    while i < n
        invariant
            n == src@.len(),
            all == diags_view(src@),
            0 <= i <= n,
            diags_view(dst@) == before + all.take(i as int),
        decreases n - i,
    {
        let d = Diagnostic { level: src[i].level, message: src[i].message.clone() };
        let ghost prev = diags_view(dst@);
        dst.push(d);
        assert(diags_view(dst@) =~= prev.push(all[i as int]));
        assert(all.take(i + 1) =~= all.take(i as int).push(all[i as int]));
        i = i + 1;
    }
    assert(all.take(n as int) =~= all);
}

fn push_text(out: &mut Vec<String>, s: &String)
    ensures
        texts(final(out)@) == texts(old(out)@).push(s@),
{
    let ghost before = out@;
    out.push(s.clone());
    assert(texts(out@) =~= texts(before).push(s@));
}

fn walk_expr(e: &Expr, out: &mut Vec<String>)
    ensures
        texts(final(out)@) == texts(old(out)@) + expr_idents(e@),
    decreases e,
{
    match e {
        Expr::Ident(n) => {
            push_text(out, n);
            assert(expr_idents(e@) =~= seq![n@]);
        },
        Expr::Int(_) => {
            assert(texts(out@) =~= texts(out@) + expr_idents(e@));
        },
        Expr::Str(_) => {
            assert(texts(out@) =~= texts(out@) + expr_idents(e@));
        },
        Expr::Bin(a, _, b) => {
            let ghost before = texts(out@);
            walk_expr(a, out);
            walk_expr(b, out);
            assert(texts(out@) =~= before + expr_idents(e@));
        },
        Expr::Call(_, args) => {
            let ghost before = texts(out@);
            let ghost sargs = match e@ {
                SpecExpr::Call(_, s) => s,
                _ => Seq::empty(),
            };
            assert(expr_idents(e@) == args_idents(sargs, sargs.len()));
            let mut i: usize = 0;
            #[verifier::loop_isolation(false)]
            while i < args.len()
                invariant
                    0 <= i <= args@.len(),
                    sargs.len() == args@.len(),
                    forall|k: int| 0 <= k < args@.len() ==> #[trigger] sargs[k] == args@[k]@,
                    texts(out@) == before + args_idents(sargs, i as nat),
                decreases args@.len() - i,
            {
                proof {
                    assert(decreases_to!(*e => *args));
                    assert(decreases_to!(*args => args@));
                    assert(decreases_to!(args@ => args@[i as int]));
                }
                walk_expr(&args[i], out);
                assert(sargs[i as int] == args@[i as int]@);
                assert(texts(out@) =~= before + args_idents(sargs, (i + 1) as nat));
                i = i + 1;
            }
        },
    }
}

fn collect_idents(e: &Expr) -> (res: Vec<String>)
    ensures
        texts(res@) == expr_idents(e@),
{
    let mut out: Vec<String> = Vec::new();
    walk_expr(e, &mut out);
    assert(texts(out@) =~= expr_idents(e@));
    out
}

fn walk_bool(b: &BoolExpr, out: &mut Vec<String>)
    ensures
        texts(final(out)@) == texts(old(out)@) + bool_idents(b@),
    decreases b,
{
    let ghost before = texts(out@);
    match b {
        BoolExpr::Cmp(x, _, y) => {
            walk_expr(x, out);
            walk_expr(y, out);
        },
        BoolExpr::Implies(l, r) => {
            walk_bool(l, out);
            walk_bool(r, out);
        },
    }
    assert(texts(out@) =~= before + bool_idents(b@));
}

fn collect_bool_idents(b: &BoolExpr) -> (res: Vec<String>)
    ensures
        texts(res@) == bool_idents(b@),
{
    let mut out: Vec<String> = Vec::new();
    walk_bool(b, &mut out);
    assert(texts(out@) =~= bool_idents(b@));
    out
}

} // verus!

verus! {

pub open spec fn fields_view(v: Seq<Field>) -> Seq<SpecField> {
    v.map_values(|f: Field| f@)
}

fn find_last_field(fields: &Vec<Field>, name: &String) -> (res: Option<usize>)
    ensures
        match res {
            Some(i) => last_index(fields_view(fields@), name@) == Some(i as nat),
            None => last_index(fields_view(fields@), name@) is None,
        },
{
    let ghost fs = fields_view(fields@);
    let mut n = fields.len();
    while n > 0
        invariant
            n <= fields@.len(),
            fs == fields_view(fields@),
            last_index(fs, name@) == last_index_in(fs, name@, n as nat),
        decreases n,
    {
        if fields[n - 1].name == *name {
            return Some(n - 1);
        }
        n = n - 1;
    }
    None
}

fn field_diags_exec(r: &Record, p: &String, i: usize) -> (res: Vec<Diagnostic>)
    requires
        i < r.fields@.len(),
    ensures
        diags_view(res@) == field_diags(r@, p@, i as int),
{
    let ghost rv = r@;
    let ghost f = rv.fields[i as int];
    assert(f == r.fields@[i as int]@);
    let fe = &r.fields[i];
    let mut local: Vec<Diagnostic> = Vec::new();
    assert(diags_view(local@) =~= no_diag());
    // duplicate name
    let mut j: usize = 0;
    let mut dup = false;
    while j < i
        invariant
            j <= i < r.fields@.len(),
            rv == r@,
            fe == r.fields@[i as int],
            !dup ==> forall|k: int| 0 <= k < j ==> #[trigger] rv.fields[k].name != rv.fields[i as int].name,
            dup ==> field_named_before(rv.fields, i as int),
        decreases i - j,
    {
        if !dup && r.fields[j].name == fe.name {
            assert(rv.fields[j as int].name == rv.fields[i as int].name);
            dup = true;
        }
        j = j + 1;
    }
    if dup {
        let mut m = p.clone();
        m.append("duplicate field name `");
        m.append(fe.name.as_str());
        m.append("`");
        push_diag(&mut local, Diagnostic::error(m));
    }
    assert(diags_view(local@) =~= field_dup_diag(rv, p@, i as int));
    let ghost acc1 = diags_view(local@);
    if fe.at == 0 {
        let mut m = p.clone();
        m.append("field `");
        m.append(fe.name.as_str());
        m.append("`: `at` is 1-indexed, got 0");
        push_diag(&mut local, Diagnostic::error(m));
    }
    assert(diags_view(local@) =~= acc1 + field_at_diag(p@, f));
    let ghost acc2 = diags_view(local@);
    if fe.length == 0 {
        let mut m = p.clone();
        m.append("field `");
        m.append(fe.name.as_str());
        m.append("`: `length` must be > 0");
        push_diag(&mut local, Diagnostic::error(m));
    }
    assert(diags_view(local@) =~= acc2 + field_len_diag(p@, f));
    let ghost acc3 = diags_view(local@);
    let end = fe.at.saturating_add(fe.length).saturating_sub(1);
    assert(end == end_position(f));
    if end > r.record_length {
        let mut m = p.clone();
        m.append("field `");
        m.append(fe.name.as_str());
        m.append("`: end position ");
        m.append(usize_string(end).as_str());
        m.append(" exceeds record_length ");
        m.append(usize_string(r.record_length).as_str());
        push_diag(&mut local, Diagnostic::error(m));
    }
    assert(diags_view(local@) =~= acc3 + field_end_diag(p@, f, rv.record_length));
    let ghost acc4 = diags_view(local@);
    match &fe.fixed {
        Some(x) => {
            let fixed_len = chars_of(x.as_str()).len();
            if fixed_len != fe.length {
                let mut m = p.clone();
                m.append("field `");
                m.append(fe.name.as_str());
                m.append("`: fixed value length ");
                m.append(usize_string(fixed_len).as_str());
                m.append(" does not match declared length ");
                m.append(usize_string(fe.length).as_str());
                push_diag(&mut local, Diagnostic::error(m));
            }
        },
        None => {},
    }
    assert(diags_view(local@) =~= acc4 + field_fixed_diag(p@, f));
    let ghost acc5 = diags_view(local@);
    let allowed = match fe.ty {
        FieldType::SignedAmount | FieldType::SignedAmountN | FieldType::UnsignedAmount => true,
        _ => false,
    };
    if fe.decimals.is_some() && !allowed {
        let mut m = p.clone();
        m.append("field `");
        m.append(fe.name.as_str());
        m.append("`: `decimals` only allowed on signed_amount or unsigned_amount");
        push_diag(&mut local, Diagnostic::error(m));
    }
    assert(diags_view(local@) =~= acc5 + field_decimals_diag(p@, f));
    local
}

fn record_fields_diags(r: &Record, p: &String, diags: &mut Vec<Diagnostic>)
    ensures
        diags_view(final(diags)@) == diags_view(old(diags)@) + fields_diags(r@, p@, r@.fields.len()),
{
    let ghost before = diags_view(diags@);
    let mut i: usize = 0;
    while i < r.fields.len()
        invariant
            0 <= i <= r.fields@.len(),
            diags_view(diags@) == before + fields_diags(r@, p@, i as nat),
        decreases r.fields@.len() - i,
    {
        let local = field_diags_exec(r, p, i);
        append_diags(diags, local);
        i = i + 1;
        assert(diags_view(diags@) =~= before + fields_diags(r@, p@, i as nat));
    }
}

} // verus!

verus! {

pub open spec fn index_view(v: Seq<usize>) -> Seq<int> {
    v.map_values(|x: usize| x as int)
}

proof fn lemma_insert_by_at_split(fs: Seq<SpecField>, s: Seq<int>, i: int, j: int)
    requires
        0 <= j <= s.len(),
        forall|m: int| 0 <= m < s.len() ==> 0 <= #[trigger] s[m] < fs.len(),
        0 <= i < fs.len(),
        forall|m: int| j <= m < s.len() ==> fs[#[trigger] s[m]].at > fs[i].at,
        j == 0 || fs[s[j - 1]].at <= fs[i].at,
    ensures
        insert_by_at(fs, s, i) == s.take(j) + seq![i] + s.skip(j),
    decreases s.len(),
{
    if s.len() == 0 {
        assert(s.take(j) + seq![i] + s.skip(j) =~= seq![i]);
    } else if j == s.len() {
        assert(s.take(j) + seq![i] + s.skip(j) =~= s.push(i));
    } else {
        let t = s.drop_last();
        assert(fs[s[s.len() - 1]].at > fs[i].at);
        lemma_insert_by_at_split(fs, t, i, j);
        assert(t.take(j) =~= s.take(j));
        assert(t.skip(j).push(s.last()) =~= s.skip(j));
        assert((t.take(j) + seq![i] + t.skip(j)).push(s.last()) =~= s.take(j) + seq![i] + s.skip(j));
    }
}

proof fn lemma_insert_by_at_bounds(fs: Seq<SpecField>, s: Seq<int>, i: int, bound: int)
    requires
        forall|m: int| 0 <= m < s.len() ==> 0 <= #[trigger] s[m] < bound,
        0 <= i < bound,
    ensures
        insert_by_at(fs, s, i).len() == s.len() + 1,
        forall|m: int|
            0 <= m < s.len() + 1 ==> 0 <= #[trigger] insert_by_at(fs, s, i)[m] < bound,
    decreases s.len(),
{
    if s.len() > 0 && fs[s.last()].at > fs[i].at {
        let t = s.drop_last();
        lemma_insert_by_at_bounds(fs, t, i, bound);
        let r = insert_by_at(fs, s, i);
        assert forall|m: int| 0 <= m < s.len() + 1 implies 0 <= #[trigger] r[m] < bound by {
            if m < s.len() {
                assert(r[m] == insert_by_at(fs, t, i)[m]);
            } else {
                assert(r[m] == s.last());
            }
        }
    }
}

pub(crate) proof fn lemma_order_by_at_bounds(fs: Seq<SpecField>, n: nat)
    ensures
        order_by_at(fs, n).len() == n,
        forall|m: int| 0 <= m < n ==> 0 <= #[trigger] order_by_at(fs, n)[m] < n,
    decreases n,
{
    if n > 0 {
        let s = order_by_at(fs, (n - 1) as nat);
        lemma_order_by_at_bounds(fs, (n - 1) as nat);
        lemma_insert_by_at_bounds(fs, s, n - 1, n as int);
    }
}

fn order_fields_by_at(fields: &Vec<Field>) -> (res: Vec<usize>)
    ensures
        index_view(res@) == order_by_at(fields_view(fields@), fields@.len()),
{
    let ghost fs = fields_view(fields@);
    let n = fields.len();
    let mut v: Vec<usize> = Vec::new();
    let mut i: usize = 0;
    assert(index_view(v@) =~= order_by_at(fs, 0));
    while i < n
        invariant
            n == fields@.len(),
            fs == fields_view(fields@),
            0 <= i <= n,
            index_view(v@) == order_by_at(fs, i as nat),
        decreases n - i,
    {
        let ghost s = order_by_at(fs, i as nat);
        proof {
            lemma_order_by_at_bounds(fs, i as nat);
        }
        let key = fields[i].at;
        v.push(i);
        let mut j: usize = v.len() - 1;
        assert(index_view(v@) =~= s.take(j as int) + seq![i as int] + s.skip(j as int));
        assert forall|m: int| 0 <= m < v@.len() implies #[trigger] v@[m] < n by {
            if m < j {
                assert(index_view(v@)[m] == s[m]);
            }
        }
        while j > 0 && fields[v[j - 1]].at > key
            invariant
                n == fields@.len(),
                fs == fields_view(fields@),
                i < n,
                key == fs[i as int].at,
                s == order_by_at(fs, i as nat),
                s.len() == i,
                forall|m: int| 0 <= m < i ==> 0 <= #[trigger] s[m] < i,
                0 <= j <= i,
                v@.len() == i + 1,
                forall|m: int| 0 <= m < v@.len() ==> #[trigger] v@[m] < n,
                index_view(v@) == s.take(j as int) + seq![i as int] + s.skip(j as int),
                forall|m: int| j <= m < s.len() ==> fs[#[trigger] s[m]].at > fs[i as int].at,
            decreases j,
        {
            let ghost old_v = index_view(v@);
            assert(old_v[j - 1] == s[j - 1]);
            assert(v@[j - 1] as int == s[j - 1]);
            let prev = v[j - 1];
            v.set(j, prev);
            v.set(j - 1, i);
            j = j - 1;
            let ghost target = s.take(j as int) + seq![i as int] + s.skip(j as int);
            assert forall|m: int| 0 <= m < v@.len() implies #[trigger] index_view(v@)[m] == target[m] by {
                if m < j {
                    assert(index_view(v@)[m] == old_v[m]);
                } else if m == j {
                } else if m == j + 1 {
                    assert(index_view(v@)[m] == old_v[m - 1]);
                } else {
                    assert(index_view(v@)[m] == old_v[m]);
                }
            }
            assert(index_view(v@) =~= target);
        }
        proof {
            if j > 0 {
                assert(index_view(v@)[j - 1] == s[j - 1]);
            }
            lemma_insert_by_at_split(fs, s, i as int, j as int);
        }
        i = i + 1;
    }
    v
}

} // verus!

verus! {

pub open spec fn record_positions_in_range(r: SpecRecord) -> bool {
    &&& r.record_length < usize::MAX
    &&& forall|j: int| 0 <= j < r.fields.len() ==> #[trigger] r.fields[j].at + r.fields[j].length <= usize::MAX
}

fn record_layout_exec(r: &Record, p: &String, diags: &mut Vec<Diagnostic>)
    requires
        record_positions_in_range(r@),
    ensures
        diags_view(final(diags)@) == diags_view(old(diags)@) + record_layout_diags(r@, p@),
{
    let ghost rv = r@;
    let ghost fs = rv.fields;
    let order = order_fields_by_at(&r.fields);
    let ghost ord = index_view(order@);
    proof {
        lemma_order_by_at_bounds(fs, fs.len());
    }
    let mut local: Vec<Diagnostic> = Vec::new();
    let mut cursor: usize = 1;
    let mut k: usize = 0;
    assert(diags_view(local@) =~= no_diag());
    while k < order.len()
        invariant
            rv == r@,
            fs == rv.fields,
            ord == index_view(order@),
            ord == order_by_at(fs, fs.len()),
            order@.len() == fs.len(),
            forall|m: int| 0 <= m < fs.len() ==> 0 <= #[trigger] ord[m] < fs.len(),
            record_positions_in_range(rv),
            0 <= k <= order@.len(),
            layout_diags(fs, ord, p@, k as nat) == (diags_view(local@), cursor as nat),
        decreases order@.len() - k,
    {
        let ghost prev = diags_view(local@);
        assert(ord[k as int] == order@[k as int] as int);
        let idx = order[k];
        let f = &r.fields[idx];
        assert(fs[idx as int] == f@);
        if f.at < cursor {
            let mut m = p.clone();
            m.append("field `");
            m.append(f.name.as_str());
            m.append("` at position ");
            m.append(usize_string(f.at).as_str());
            m.append(" overlaps previous field (expected >= ");
            m.append(usize_string(cursor).as_str());
            m.append(")");
            push_diag(&mut local, Diagnostic::error(m));
        } else if f.at > cursor {
            let mut m = p.clone();
            m.append("gap between positions ");
            m.append(usize_string(cursor).as_str());
            m.append(" and ");
            m.append(usize_string(f.at - 1).as_str());
            m.append(" (before field `");
            m.append(f.name.as_str());
            m.append("`)");
            push_diag(&mut local, Diagnostic::warning(m));
        }
        assert(fs[idx as int].at + fs[idx as int].length <= usize::MAX);
        cursor = f.at + f.length;
        k = k + 1;
        assert(layout_diags(fs, ord, p@, k as nat) == (diags_view(local@), cursor as nat));
    }
    let expected = r.record_length + 1;
    let ghost before_trailing = diags_view(local@);
    if order.len() > 0 && cursor < expected {
        let mut m = p.clone();
        m.append("trailing gap: positions ");
        m.append(usize_string(cursor).as_str());
        m.append("..");
        m.append(usize_string(r.record_length).as_str());
        m.append(" are not covered");
        push_diag(&mut local, Diagnostic::warning(m));
    }
    assert(diags_view(local@) =~= record_layout_diags(rv, p@));
    append_diags(diags, local);
}

} // verus!

verus! {

fn derive_diags_exec(r: &Record, p: &String, d: &crate::ast::Derive, diags: &mut Vec<Diagnostic>)
    ensures
        diags_view(final(diags)@) == diags_view(old(diags)@) + derive_diags(r@, p@, d@),
{
    let ghost fs = r@.fields;
    assert(fields_view(r.fields@) =~= fs);
    let ghost before = diags_view(diags@);
    match find_last_field(&r.fields, &d.target) {
        None => {
            let mut m = p.clone();
            m.append("derive: unknown target field `");
            m.append(d.target.as_str());
            m.append("`");
            push_diag(diags, Diagnostic::error(m));
        },
        Some(t) => {
            let names = collect_idents(&d.expr);
            let ghost ns = texts(names@);
            let mut k: usize = 0;
            assert(diags_view(diags@) =~= before + derive_ref_diags(fs, p@, d.target@, t as nat, ns, 0));
            while k < names.len()
                invariant
                    fs == r@.fields,
                    fields_view(r.fields@) == fs,
                    ns == texts(names@),
                    last_index(fs, d.target@) == Some(t as nat),
                    0 <= k <= names@.len(),
                    diags_view(diags@) == before + derive_ref_diags(fs, p@, d.target@, t as nat, ns, k as nat),
                decreases names@.len() - k,
            {
                assert(ns[k as int] == names@[k as int]@);
                match find_last_field(&r.fields, &names[k]) {
                    None => {
                        let mut m = p.clone();
                        m.append("derive `");
                        m.append(d.target.as_str());
                        m.append("`: unknown field `");
                        m.append(names[k].as_str());
                        m.append("`");
                        push_diag(diags, Diagnostic::error(m));
                    },
                    Some(idx) => {
                        if idx >= t {
                            let mut m = p.clone();
                            m.append("derive `");
                            m.append(d.target.as_str());
                            m.append("`: forward reference to `");
                            m.append(names[k].as_str());
                            m.append("` (must be declared before target)");
                            push_diag(diags, Diagnostic::error(m));
                        }
                    },
                }
                k = k + 1;
                assert(diags_view(diags@) =~= before + derive_ref_diags(fs, p@, d.target@, t as nat, ns, k as nat));
            }
        },
    }
}

fn check_diags_exec(r: &Record, p: &String, c: &crate::ast::Check, diags: &mut Vec<Diagnostic>)
    ensures
        diags_view(final(diags)@) == diags_view(old(diags)@) + ({
            let names = bool_idents(c@.rule);
            check_ref_diags(r@.fields, p@, c@.code, names, names.len())
        }),
{
    let ghost fs = r@.fields;
    assert(fields_view(r.fields@) =~= fs);
    let ghost before = diags_view(diags@);
    let names = collect_bool_idents(&c.rule);
    let ghost ns = texts(names@);
    let mut k: usize = 0;
    assert(diags_view(diags@) =~= before + check_ref_diags(fs, p@, c.code@, ns, 0));
    while k < names.len()
        invariant
            fs == r@.fields,
            fields_view(r.fields@) == fs,
            ns == texts(names@),
            0 <= k <= names@.len(),
            diags_view(diags@) == before + check_ref_diags(fs, p@, c.code@, ns, k as nat),
        decreases names@.len() - k,
    {
        assert(ns[k as int] == names@[k as int]@);
        match find_last_field(&r.fields, &names[k]) {
            None => {
                let mut m = p.clone();
                m.append("check `");
                m.append(c.code.as_str());
                m.append("`: unknown field `");
                m.append(names[k].as_str());
                m.append("`");
                push_diag(diags, Diagnostic::error(m));
            },
            Some(_) => {},
        }
        k = k + 1;
        assert(diags_view(diags@) =~= before + check_ref_diags(fs, p@, c.code@, ns, k as nat));
    }
}

fn record_diags_exec(r: &Record, multi: bool, diags: &mut Vec<Diagnostic>)
    requires
        record_positions_in_range(r@),
    ensures
        diags_view(final(diags)@) == diags_view(old(diags)@) + record_diags(r@, multi),
{
    let ghost rv = r@;
    let ghost before = diags_view(diags@);
    let p = if multi {
        let mut m = string_from("record `");
        m.append(r.name.as_str());
        m.append("`: ");
        m
    } else {
        String::new()
    };
    assert(p@ =~= record_prefix(rv, multi));
    record_fields_diags(r, &p, diags);
    let ghost a1 = diags_view(diags@);
    record_layout_exec(r, &p, diags);
    let ghost a2 = diags_view(diags@);
    let mut i: usize = 0;
    assert(diags_view(diags@) =~= a2 + derives_diags(rv, p@, 0));
    while i < r.derives.len()
        invariant
            rv == r@,
            0 <= i <= r.derives@.len(),
            diags_view(diags@) == a2 + derives_diags(rv, p@, i as nat),
        decreases r.derives@.len() - i,
    {
        assert(rv.derives[i as int] == r.derives@[i as int]@);
        derive_diags_exec(r, &p, &r.derives[i], diags);
        i = i + 1;
        assert(diags_view(diags@) =~= a2 + derives_diags(rv, p@, i as nat));
    }
    let ghost a3 = diags_view(diags@);
    let mut i: usize = 0;
    assert(diags_view(diags@) =~= a3 + checks_diags(rv, p@, 0));
    while i < r.checks.len()
        invariant
            rv == r@,
            0 <= i <= r.checks@.len(),
            diags_view(diags@) == a3 + checks_diags(rv, p@, i as nat),
        decreases r.checks@.len() - i,
    {
        assert(rv.checks[i as int] == r.checks@[i as int]@);
        check_diags_exec(r, &p, &r.checks[i], diags);
        i = i + 1;
        assert(diags_view(diags@) =~= a3 + checks_diags(rv, p@, i as nat));
    }
    assert(diags_view(diags@) =~= before + record_diags(rv, multi));
}

} // verus!

verus! {

fn has_record_exec(records: &Vec<Record>, name: &String) -> (res: bool)
    ensures
        res == has_record(records@.map_values(|r: Record| r@), name@),
{
    let ghost rs = records@.map_values(|r: Record| r@);
    let mut j: usize = 0;
    while j < records.len()
        invariant
            rs == records@.map_values(|r: Record| r@),
            0 <= j <= records@.len(),
            forall|k: int| 0 <= k < j ==> #[trigger] rs[k].name != name@,
        decreases records@.len() - j,
    {
        assert(rs[j as int] == records@[j as int]@);
        if records[j].name == *name {
            assert(rs[j as int].name == name@);
            return true;
        }
        j = j + 1;
    }
    false
}

fn has_param_exec(params: &Vec<crate::ast::Param>, name: &String) -> (res: bool)
    ensures
        res == has_param(params@.map_values(|p: crate::ast::Param| p@), name@),
{
    let ghost ps = params@.map_values(|p: crate::ast::Param| p@);
    let mut j: usize = 0;
    while j < params.len()
        invariant
            ps == params@.map_values(|p: crate::ast::Param| p@),
            0 <= j <= params@.len(),
            forall|k: int| 0 <= k < j ==> #[trigger] ps[k].name != name@,
        decreases params@.len() - j,
    {
        assert(ps[j as int] == params@[j as int]@);
        if params[j].name == *name {
            assert(ps[j as int].name == name@);
            return true;
        }
        j = j + 1;
    }
    false
}

fn template_diags_exec(
    label: &str,
    params: &Vec<crate::ast::Param>,
    t: &crate::ast::Template,
    diags: &mut Vec<Diagnostic>,
)
    ensures
        diags_view(final(diags)@) == diags_view(old(diags)@) + template_diags(
            label@,
            params@.map_values(|p: crate::ast::Param| p@),
            t@,
            t@.len(),
        ),
{
    let ghost ps = params@.map_values(|p: crate::ast::Param| p@);
    let ghost tv = t@;
    let ghost before = diags_view(diags@);
    let mut i: usize = 0;
    assert(diags_view(diags@) =~= before + template_diags(label@, ps, tv, 0));
    while i < t.0.len()
        invariant
            ps == params@.map_values(|p: crate::ast::Param| p@),
            tv == t@,
            tv.len() == t.0@.len(),
            0 <= i <= t.0@.len(),
            diags_view(diags@) == before + template_diags(label@, ps, tv, i as nat),
        decreases t.0@.len() - i,
    {
        assert(tv[i as int] == t.0@[i as int]@);
        match &t.0[i] {
            TemplatePart::Field(f) => {
                if !has_param_exec(params, f) {
                    let mut m = string_from("envelope ");
                    m.append(label);
                    m.append(": `${");
                    m.append(f.as_str());
                    m.append("}` no es un param declarado");
                    push_diag(diags, Diagnostic::error(m));
                }
            },
            TemplatePart::Lit(_) => {},
        }
        i = i + 1;
        assert(diags_view(diags@) =~= before + template_diags(label@, ps, tv, i as nat));
    }
}

fn envelope_diags_exec(records: &Vec<Record>, e: &crate::ast::Envelope, diags: &mut Vec<Diagnostic>)
    ensures
        diags_view(final(diags)@) == diags_view(old(diags)@) + envelope_diags(
            records@.map_values(|r: Record| r@),
            e@,
        ),
{
    let ghost rs = records@.map_values(|r: Record| r@);
    let ghost ev = e@;
    let ghost before = diags_view(diags@);
    let mut i: usize = 0;
    assert(diags_view(diags@) =~= before + param_diags(ev.params, 0));
    while i < e.params.len()
        invariant
            ev == e@,
            0 <= i <= e.params@.len(),
            diags_view(diags@) == before + param_diags(ev.params, i as nat),
        decreases e.params@.len() - i,
    {
        assert(ev.params[i as int] == e.params@[i as int]@);
        if e.params[i].length == 0 {
            let mut m = string_from("envelope param `");
            m.append(e.params[i].name.as_str());
            m.append("`: `length` debe ser > 0");
            push_diag(diags, Diagnostic::error(m));
        }
        i = i + 1;
        assert(diags_view(diags@) =~= before + param_diags(ev.params, i as nat));
    }
    let ghost a1 = diags_view(diags@);
    let mut i: usize = 0;
    assert(diags_view(diags@) =~= a1 + contains_diags(rs, ev.contains, 0));
    while i < e.contains.len()
        invariant
            ev == e@,
            rs == records@.map_values(|r: Record| r@),
            0 <= i <= e.contains@.len(),
            diags_view(diags@) == a1 + contains_diags(rs, ev.contains, i as nat),
        decreases e.contains@.len() - i,
    {
        assert(ev.contains[i as int] == e.contains@[i as int]@);
        if !has_record_exec(records, &e.contains[i]) {
            let mut m = string_from("envelope `contains`: record desconocido `");
            m.append(e.contains[i].as_str());
            m.append("`");
            push_diag(diags, Diagnostic::error(m));
        }
        i = i + 1;
        assert(diags_view(diags@) =~= a1 + contains_diags(rs, ev.contains, i as nat));
    }
    let ghost a2 = diags_view(diags@);
    if e.contains.len() == 0 {
        push_diag(diags, Diagnostic::error(string_from("envelope `contains` no puede estar vacío")));
    }
    let ghost a3 = diags_view(diags@);
    template_diags_exec("header", &e.params, &e.header, diags);
    template_diags_exec("trailer", &e.params, &e.trailer, diags);
    assert(diags_view(diags@) =~= before + envelope_diags(rs, ev));
}

/// Whether every record length and field end of `file` fits a `usize`, as
/// `validate` needs.
pub fn positions_fit(file: &BoeFile) -> (r: bool)
    ensures
        r == positions_in_range(file@),
{
    let ghost fv = file@;
    let mut i: usize = 0;
    while i < file.records.len()
        invariant
            fv == file@,
            0 <= i <= file.records@.len(),
            forall|k: int| 0 <= k < i ==> record_positions_in_range(#[trigger] fv.records[k]),
        decreases file.records@.len() - i,
    {
        let r = &file.records[i];
        assert(fv.records[i as int] == r@);
        if r.record_length == usize::MAX {
            assert(!record_positions_in_range(fv.records[i as int]));
            return false;
        }
        let mut j: usize = 0;
        while j < r.fields.len()
            invariant
                fv == file@,
                i < fv.records.len(),
                fv.records[i as int] == r@,
                r@.record_length < usize::MAX,
                0 <= j <= r.fields@.len(),
                forall|k: int| 0 <= k < j ==> #[trigger] r@.fields[k].at + r@.fields[k].length <= usize::MAX,
            decreases r.fields@.len() - j,
        {
            assert(r@.fields[j as int] == r.fields@[j as int]@);
            if r.fields[j].at > usize::MAX - r.fields[j].length {
                assert(r@.fields[j as int].at + r@.fields[j as int].length > usize::MAX);
                assert(!record_positions_in_range(fv.records[i as int]));
                return false;
            }
            j = j + 1;
        }
        assert(record_positions_in_range(fv.records[i as int]));
        i = i + 1;
    }
    assert forall|k: int| 0 <= k < fv.records.len() implies {
        &&& #[trigger] fv.records[k].record_length < usize::MAX
        &&& forall|j: int|
            0 <= j < fv.records[k].fields.len() ==> #[trigger] fv.records[k].fields[j].at
                + fv.records[k].fields[j].length <= usize::MAX
    } by {
        assert(record_positions_in_range(fv.records[k]));
    }
    true
}

/// Semantic validation of a parsed file. Returns every diagnostic, in order:
/// duplicate record names, then per record (fields, layout, derives,
/// checks), then the envelope.
pub fn validate(file: &BoeFile) -> (res: Vec<Diagnostic>)
    requires
        positions_in_range(file@),
    ensures
        diags_view(res@) == validate_spec(file@),
{
    let ghost fv = file@;
    let ghost rs = fv.records;
    let mut diags: Vec<Diagnostic> = Vec::new();
    let mut i: usize = 0;
    assert(diags_view(diags@) =~= duplicate_record_diags(rs, 0));
    while i < file.records.len()
        invariant
            fv == file@,
            rs == fv.records,
            0 <= i <= file.records@.len(),
            diags_view(diags@) == duplicate_record_diags(rs, i as nat),
        decreases file.records@.len() - i,
    {
        let mut j: usize = 0;
        let mut dup = false;
        while j < i
            invariant
                fv == file@,
                rs == fv.records,
                j <= i < file.records@.len(),
                !dup ==> forall|k: int| 0 <= k < j ==> #[trigger] rs[k].name != rs[i as int].name,
                dup ==> record_named_before(rs, i as int),
            decreases i - j,
        {
            assert(rs[j as int] == file.records@[j as int]@);
            assert(rs[i as int] == file.records@[i as int]@);
            if !dup && file.records[j].name == file.records[i].name {
                assert(rs[j as int].name == rs[i as int].name);
                dup = true;
            }
            j = j + 1;
        }
        let ghost prev = diags_view(diags@);
        if dup {
            let mut m = string_from("duplicate record name `");
            m.append(file.records[i].name.as_str());
            m.append("`");
            push_diag(&mut diags, Diagnostic::error(m));
        }
        assert(rs[i as int] == file.records@[i as int]@);
        i = i + 1;
        assert(diags_view(diags@) =~= duplicate_record_diags(rs, i as nat));
    }
    let ghost a1 = diags_view(diags@);
    let multi = file.records.len() > 1;
    let mut i: usize = 0;
    assert(diags_view(diags@) =~= a1 + records_diags(rs, multi, 0));
    while i < file.records.len()
        invariant
            fv == file@,
            rs == fv.records,
            positions_in_range(fv),
            multi == (rs.len() > 1),
            0 <= i <= file.records@.len(),
            diags_view(diags@) == a1 + records_diags(rs, multi, i as nat),
        decreases file.records@.len() - i,
    {
        assert(rs[i as int] == file.records@[i as int]@);
        assert(record_positions_in_range(rs[i as int]));
        record_diags_exec(&file.records[i], multi, &mut diags);
        i = i + 1;
        assert(diags_view(diags@) =~= a1 + records_diags(rs, multi, i as nat));
    }
    let ghost a2 = diags_view(diags@);
    match &file.envelope {
        Some(e) => {
            envelope_diags_exec(&file.records, e, &mut diags);
        },
        None => {},
    }
    assert(diags_view(diags@) =~= validate_spec(fv));
    diags
}

} // verus!
