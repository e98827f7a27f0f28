//! What validation says about a model, both ways: a model without errors has
//! a sound layout, resolved references and a consistent envelope; an error is
//! reported exactly when the model has a problem, each problem with its own
//! message; and the layout check reports an overlap exactly when two fields
//! share a position, and a gap exactly when a position is covered by none.
use vstd::prelude::*;

use crate::ast::{
    FieldType, SpecBoeFile, SpecBoolExpr, SpecExpr, SpecCheck, SpecDerive, SpecEnvelope, SpecField, SpecParam, SpecRecord,
    SpecTemplatePart,
};
use crate::text::nat_text;
use crate::validator::{
    allows_decimals, args_idents, bool_idents, check_ref_diags, checks_diags, contains_diags, derive_diags, derive_ref_diags,
    derives_diags, duplicate_record_diags, end_position, envelope_diags, error_diag, expr_idents,
    field_at_diag, field_decimals_diag, field_diags, field_dup_diag, field_end_diag,
    field_fixed_diag, field_head, field_len_diag, field_named_before, fields_diags, has_error, has_param,
    has_record, insert_by_at, last_index, layout_diags, lemma_order_by_at_bounds, no_diag,
    order_by_at, param_diags, positions_in_range, record_diags, record_layout_diags,
    record_named_before, record_prefix, records_diags, template_diags, validate_spec,
    warning_diag, DiagLevel,
};

verus! {

proof fn lemma_has_error_concat(a: Seq<(DiagLevel, Seq<char>)>, b: Seq<(DiagLevel, Seq<char>)>)
    ensures
        has_error(a + b) == (has_error(a) || has_error(b)),
{
    let c = a + b;
    if has_error(c) {
        let k = choose|k: int| 0 <= k < c.len() && (#[trigger] c[k]).0 == DiagLevel::Error;
        if k < a.len() {
            assert(a[k] == c[k]);
        } else {
            assert(b[k - a.len()] == c[k]);
        }
    }
    if has_error(a) {
        let k = choose|k: int| 0 <= k < a.len() && (#[trigger] a[k]).0 == DiagLevel::Error;
        assert(c[k] == a[k]);
    }
    if has_error(b) {
        let k = choose|k: int| 0 <= k < b.len() && (#[trigger] b[k]).0 == DiagLevel::Error;
        assert(c[k + a.len()] == b[k]);
    }
}

proof fn lemma_record_without_error(rs: Seq<SpecRecord>, multi: bool, n: nat, r: int)
    requires
        n <= rs.len(),
        0 <= r < n,
        !has_error(records_diags(rs, multi, n)),
    ensures
        !has_error(record_diags(rs[r], multi)),
    decreases n,
{
    lemma_has_error_concat(
        records_diags(rs, multi, (n - 1) as nat),
        record_diags(rs[n - 1], multi),
    );
    if r < n - 1 {
        lemma_record_without_error(rs, multi, (n - 1) as nat, r);
    }
}

proof fn lemma_field_without_error(rec: SpecRecord, p: Seq<char>, n: nat, i: int)
    requires
        n <= rec.fields.len(),
        0 <= i < n,
        !has_error(fields_diags(rec, p, n)),
    ensures
        !has_error(field_diags(rec, p, i)),
    decreases n,
{
    lemma_has_error_concat(fields_diags(rec, p, (n - 1) as nat), field_diags(rec, p, n - 1));
    if i < n - 1 {
        lemma_field_without_error(rec, p, (n - 1) as nat, i);
    }
}

/// Without an error in the whole file, none of the parts of a record's
/// diagnostics has one.
proof fn lemma_record_parts_without_error(f: SpecBoeFile, r: int)
    requires
        !has_error(validate_spec(f)),
        0 <= r < f.records.len(),
    ensures
        !has_error(duplicate_record_diags(f.records, f.records.len())),
        ({
            let rec = f.records[r];
            let p = record_prefix(rec, f.records.len() > 1);
            &&& !has_error(fields_diags(rec, p, rec.fields.len()))
            &&& !has_error(record_layout_diags(rec, p))
            &&& !has_error(derives_diags(rec, p, rec.derives.len()))
            &&& !has_error(checks_diags(rec, p, rec.checks.len()))
        }),
{
    let rs = f.records;
    let multi = rs.len() > 1;
    let dup = duplicate_record_diags(rs, rs.len());
    let recs = records_diags(rs, multi, rs.len());
    let env = match f.envelope {
        Some(e) => envelope_diags(rs, e),
        None => no_diag(),
    };
    lemma_has_error_concat(dup, recs);
    lemma_has_error_concat(dup + recs, env);
    lemma_record_without_error(rs, multi, rs.len(), r);
    let rec = rs[r];
    let p = record_prefix(rec, multi);
    let fd = fields_diags(rec, p, rec.fields.len());
    let ld = record_layout_diags(rec, p);
    let dd = derives_diags(rec, p, rec.derives.len());
    let cd = checks_diags(rec, p, rec.checks.len());
    lemma_has_error_concat(fd, ld);
    lemma_has_error_concat(fd + ld, dd);
    lemma_has_error_concat(fd + ld + dd, cd);
}

/// Without an overlap error among the first `k` fields in `order`, each of
/// them starts after the end of every one before it, and the cursor is past
/// all of them.
proof fn lemma_layout_chain(fs: Seq<SpecField>, order: Seq<int>, p: Seq<char>, k: nat)
    requires
        k <= order.len(),
        forall|m: int| 0 <= m < order.len() ==> 0 <= #[trigger] order[m] < fs.len(),
        !has_error(layout_diags(fs, order, p, k).0),
    ensures
        forall|a: int|
            0 <= a < k ==> #[trigger] fs[order[a]].at + fs[order[a]].length <= layout_diags(
                fs,
                order,
                p,
                k,
            ).1,
        forall|a: int, b: int|
            0 <= a < b < k ==> fs[#[trigger] order[a]].at + fs[order[a]].length <= fs[
                #[trigger] order[b]
            ].at,
    decreases k,
{
    if k > 0 {
        let (d, cursor) = layout_diags(fs, order, p, (k - 1) as nat);
        let f = fs[order[k - 1]];
        let (d2, c2) = layout_diags(fs, order, p, k);
        if f.at < cursor {
            let e = seq![
                (
                    DiagLevel::Error,
                    p + "field `"@ + f.name + "` at position "@ + nat_text(f.at as nat)
                        + " overlaps previous field (expected >= "@ + nat_text(cursor)
                        + ")"@,
                ),
            ];
            assert(d2 == d + e);
            assert(e[0].0 == DiagLevel::Error);
            lemma_has_error_concat(d, e);
            assert(false);
        }
        if f.at > cursor {
            lemma_has_error_concat(d, d2.skip(d.len() as int));
            assert(d2 =~= d + d2.skip(d.len() as int));
        } else {
            assert(d2 == d);
        }
        lemma_layout_chain(fs, order, p, (k - 1) as nat);
    }
}

proof fn lemma_insert_by_at_contains(fs: Seq<SpecField>, s: Seq<int>, i: int)
    ensures
        insert_by_at(fs, s, i).contains(i),
        forall|x: int| s.contains(x) ==> #[trigger] insert_by_at(fs, s, i).contains(x),
    decreases s.len(),
{
    let r = insert_by_at(fs, s, i);
    if s.len() == 0 {
        assert(r[0] == i);
    } else if fs[s.last()].at <= fs[i].at {
        assert(r[s.len() as int] == i);
        assert forall|x: int| s.contains(x) implies #[trigger] r.contains(x) by {
            let m = choose|m: int| 0 <= m < s.len() && s[m] == x;
            assert(r[m] == x);
        }
    } else {
        let t = s.drop_last();
        lemma_insert_by_at_contains(fs, t, i);
        let q = insert_by_at(fs, t, i);
        assert(r == q.push(s.last()));
        let mi = choose|m: int| 0 <= m < q.len() && q[m] == i;
        assert(r[mi] == i);
        assert forall|x: int| s.contains(x) implies #[trigger] r.contains(x) by {
            let m = choose|m: int| 0 <= m < s.len() && s[m] == x;
            if m == s.len() - 1 {
                assert(r[q.len() as int] == x);
            } else {
                assert(t[m] == x);
                assert(t.contains(x));
                assert(q.contains(x));
                let mq = choose|mq: int| 0 <= mq < q.len() && q[mq] == x;
                assert(r[mq] == x);
            }
        }
    }
}

/// The order of fields by position holds every field.
proof fn lemma_order_by_at_covers(fs: Seq<SpecField>, n: nat)
    ensures
        forall|x: int| 0 <= x < n ==> #[trigger] order_by_at(fs, n).contains(x),
    decreases n,
{
    if n > 0 {
        let s = order_by_at(fs, (n - 1) as nat);
        lemma_order_by_at_covers(fs, (n - 1) as nat);
        lemma_insert_by_at_contains(fs, s, n - 1);
        assert forall|x: int| 0 <= x < n implies #[trigger] order_by_at(fs, n).contains(x) by {
            if x < n - 1 {
                assert(s.contains(x));
            }
        }
    }
}

/// A model whose validation reports no error has a sound layout: every field
/// of every record starts at position 1 or later, is at least one position
/// long and ends within its record, and no two fields of a record share a
/// position.
pub proof fn law_valid_layout(f: SpecBoeFile, r: int, i: int, j: int)
    requires
        positions_in_range(f),
        !has_error(validate_spec(f)),
        0 <= r < f.records.len(),
        0 <= i < f.records[r].fields.len(),
        0 <= j < f.records[r].fields.len(),
        i != j,
    ensures
        f.records[r].fields[i].at >= 1,
        f.records[r].fields[i].length >= 1,
        f.records[r].fields[i].at + f.records[r].fields[i].length - 1
            <= f.records[r].record_length,
        f.records[r].fields[i].at + f.records[r].fields[i].length <= f.records[r].fields[j].at
            || f.records[r].fields[j].at + f.records[r].fields[j].length
            <= f.records[r].fields[i].at,
{
    let rs = f.records;
    let multi = rs.len() > 1;
    lemma_record_parts_without_error(f, r);
    let rec = rs[r];
    let p = record_prefix(rec, multi);
    let ld = record_layout_diags(rec, p);
    lemma_field_without_error(rec, p, rec.fields.len(), i);
    let fi = rec.fields[i];
    assert(rs[r].fields[i].at + rs[r].fields[i].length <= usize::MAX);
    let d1 = field_dup_diag(rec, p, i);
    let d2 = field_at_diag(p, fi);
    let d3 = field_len_diag(p, fi);
    let d4 = field_end_diag(p, fi, rec.record_length);
    let d5 = field_fixed_diag(p, fi);
    let d6 = field_decimals_diag(p, fi);
    lemma_has_error_concat(d1, d2);
    lemma_has_error_concat(d1 + d2, d3);
    lemma_has_error_concat(d1 + d2 + d3, d4);
    lemma_has_error_concat(d1 + d2 + d3 + d4, d5);
    lemma_has_error_concat(d1 + d2 + d3 + d4 + d5, d6);
    if fi.at == 0 {
        assert(d2[0].0 == DiagLevel::Error);
    }
    if fi.length == 0 {
        assert(d3[0].0 == DiagLevel::Error);
    }
    if end_position(fi) > rec.record_length {
        assert(d4[0].0 == DiagLevel::Error);
    }
    // The layout: no overlap along the fields ordered by position.
    let n = rec.fields.len();
    let order = order_by_at(rec.fields, n);
    lemma_order_by_at_bounds(rec.fields, n);
    lemma_order_by_at_covers(rec.fields, n);
    let (ldd, cursor) = layout_diags(rec.fields, order, p, n);
    let tail = if n > 0 && cursor < rec.record_length + 1 {
        warning_diag(
            p + "trailing gap: positions "@ + nat_text(cursor) + ".."@
                + nat_text(rec.record_length as nat) + " are not covered"@,
        )
    } else {
        no_diag()
    };
    assert(ld == ldd + tail);
    lemma_has_error_concat(ldd, tail);
    lemma_layout_chain(rec.fields, order, p, n);
    assert(order.contains(i));
    assert(order.contains(j));
    let a = choose|a: int| 0 <= a < order.len() && order[a] == i;
    let b = choose|b: int| 0 <= b < order.len() && order[b] == j;
    if a < b {
        assert(rec.fields[order[a]].at + rec.fields[order[a]].length <= rec.fields[order[b]].at);
    } else {
        assert(rec.fields[order[b]].at + rec.fields[order[b]].length <= rec.fields[order[a]].at);
    }
}

proof fn lemma_error_diag_is_error(m: Seq<char>)
    ensures
        has_error(error_diag(m)),
{
    assert(error_diag(m)[0].0 == DiagLevel::Error);
}

proof fn lemma_contains_without_error(rs: Seq<SpecRecord>, cs: Seq<Seq<char>>, n: nat, k: int)
    requires
        n <= cs.len(),
        0 <= k < n,
        !has_error(contains_diags(rs, cs, n)),
    ensures
        has_record(rs, cs[k]),
    decreases n,
{
    let last = if !has_record(rs, cs[n - 1]) {
        error_diag(
            "envelope `contains`: record desconocido `"@ + cs[n - 1] + "`"@,
        )
    } else {
        no_diag()
    };
    lemma_has_error_concat(contains_diags(rs, cs, (n - 1) as nat), last);
    if k < n - 1 {
        lemma_contains_without_error(rs, cs, (n - 1) as nat, k);
    } else if !has_record(rs, cs[n - 1]) {
        lemma_error_diag_is_error("envelope `contains`: record desconocido `"@ + cs[n - 1] + "`"@);
    }
}

proof fn lemma_params_without_error(ps: Seq<SpecParam>, n: nat, k: int)
    requires
        n <= ps.len(),
        0 <= k < n,
        !has_error(param_diags(ps, n)),
    ensures
        ps[k].length > 0,
    decreases n,
{
    let m = "envelope param `"@ + ps[n - 1].name + "`: `length` debe ser > 0"@;
    let last = if ps[n - 1].length == 0 {
        error_diag(m)
    } else {
        no_diag()
    };
    lemma_has_error_concat(param_diags(ps, (n - 1) as nat), last);
    if k < n - 1 {
        lemma_params_without_error(ps, (n - 1) as nat, k);
    } else if ps[n - 1].length == 0 {
        lemma_error_diag_is_error(m);
    }
}

proof fn lemma_template_without_error(
    label: Seq<char>,
    ps: Seq<SpecParam>,
    t: Seq<SpecTemplatePart>,
    n: nat,
    k: int,
)
    requires
        n <= t.len(),
        0 <= k < n,
        !has_error(template_diags(label, ps, t, n)),
    ensures
        t[k] matches SpecTemplatePart::Field(name) ==> has_param(ps, name),
    decreases n,
{
    let last = match t[n - 1] {
        SpecTemplatePart::Field(x) => if !has_param(ps, x) {
            error_diag(
                "envelope "@ + label + ": `${"@ + x + "}` no es un param declarado"@,
            )
        } else {
            no_diag()
        },
        SpecTemplatePart::Lit(_) => no_diag(),
    };
    lemma_has_error_concat(template_diags(label, ps, t, (n - 1) as nat), last);
    if k < n - 1 {
        lemma_template_without_error(label, ps, t, (n - 1) as nat, k);
    } else {
        match t[n - 1] {
            SpecTemplatePart::Field(x) => if !has_param(ps, x) {
                lemma_error_diag_is_error(
                    "envelope "@ + label + ": `${"@ + x + "}` no es un param declarado"@,
                );
            },
            SpecTemplatePart::Lit(_) => {},
        }
    }
}

/// A model whose validation reports no error has a consistent envelope: it
/// contains at least one record, every record it contains is declared, every
/// param has a positive length, and every placeholder of the header and the
/// trailer names a declared param.
pub proof fn law_valid_envelope(f: SpecBoeFile, e: SpecEnvelope)
    requires
        !has_error(validate_spec(f)),
        f.envelope == Some(e),
    ensures
        e.contains.len() > 0,
        forall|k: int| 0 <= k < e.contains.len() ==> has_record(f.records, #[trigger] e.contains[k]),
        forall|k: int| 0 <= k < e.params.len() ==> (#[trigger] e.params[k]).length > 0,
        forall|k: int|
            0 <= k < e.header.len() ==> (#[trigger] e.header[k] matches SpecTemplatePart::Field(
                name,
            ) ==> has_param(e.params, name)),
        forall|k: int|
            0 <= k < e.trailer.len() ==> (#[trigger] e.trailer[k] matches SpecTemplatePart::Field(
                name,
            ) ==> has_param(e.params, name)),
{
    let rs = f.records;
    let dup = duplicate_record_diags(rs, rs.len());
    let recs = records_diags(rs, rs.len() > 1, rs.len());
    let env = envelope_diags(rs, e);
    lemma_has_error_concat(dup, recs);
    lemma_has_error_concat(dup + recs, env);
    let a = param_diags(e.params, e.params.len());
    let b = contains_diags(rs, e.contains, e.contains.len());
    let empty_msg = "envelope `contains` no puede estar vacío"@;
    let c = if e.contains.len() == 0 {
        error_diag(empty_msg)
    } else {
        no_diag()
    };
    let h = template_diags("header"@, e.params, e.header, e.header.len());
    let t = template_diags("trailer"@, e.params, e.trailer, e.trailer.len());
    assert(env == a + b + c + h + t);
    lemma_has_error_concat(a, b);
    lemma_has_error_concat(a + b, c);
    lemma_has_error_concat(a + b + c, h);
    lemma_has_error_concat(a + b + c + h, t);
    if e.contains.len() == 0 {
        lemma_error_diag_is_error(empty_msg);
    }
    assert forall|k: int| 0 <= k < e.contains.len() implies has_record(
        f.records,
        #[trigger] e.contains[k],
    ) by {
        lemma_contains_without_error(rs, e.contains, e.contains.len(), k);
    }
    assert forall|k: int| 0 <= k < e.params.len() implies (#[trigger] e.params[k]).length > 0 by {
        lemma_params_without_error(e.params, e.params.len(), k);
    }
    assert forall|k: int| 0 <= k < e.header.len() implies (#[trigger] e.header[k] matches SpecTemplatePart::Field(
        name,
    ) ==> has_param(e.params, name)) by {
        lemma_template_without_error("header"@, e.params, e.header, e.header.len(), k);
    }
    assert forall|k: int| 0 <= k < e.trailer.len() implies (#[trigger] e.trailer[k] matches SpecTemplatePart::Field(
        name,
    ) ==> has_param(e.params, name)) by {
        lemma_template_without_error("trailer"@, e.params, e.trailer, e.trailer.len(), k);
    }
}

proof fn lemma_records_distinct(rs: Seq<SpecRecord>, n: nat, m: int)
    requires
        n <= rs.len(),
        0 <= m < n,
        !has_error(duplicate_record_diags(rs, n)),
    ensures
        !record_named_before(rs, m),
    decreases n,
{
    let msg = "duplicate record name `"@ + rs[n - 1].name + "`"@;
    let last = if record_named_before(rs, n - 1) {
        error_diag(msg)
    } else {
        no_diag()
    };
    lemma_has_error_concat(duplicate_record_diags(rs, (n - 1) as nat), last);
    if m < n - 1 {
        lemma_records_distinct(rs, (n - 1) as nat, m);
    } else if record_named_before(rs, n - 1) {
        lemma_error_diag_is_error(msg);
    }
}

proof fn lemma_derive_refs_without_error(
    fs: Seq<SpecField>,
    p: Seq<char>,
    target: Seq<char>,
    t: nat,
    names: Seq<Seq<char>>,
    n: nat,
    k: int,
)
    requires
        n <= names.len(),
        0 <= k < n,
        !has_error(derive_ref_diags(fs, p, target, t, names, n)),
    ensures
        last_index(fs, names[k]) matches Some(x) && x < t,
    decreases n,
{
    let unknown = p + "derive `"@ + target + "`: unknown field `"@ + names[n - 1] + "`"@;
    let forward = p + "derive `"@ + target + "`: forward reference to `"@ + names[n - 1]
        + "` (must be declared before target)"@;
    let last = match last_index(fs, names[n - 1]) {
        None => error_diag(unknown),
        Some(idx) => if idx >= t {
            error_diag(forward)
        } else {
            no_diag()
        },
    };
    lemma_has_error_concat(derive_ref_diags(fs, p, target, t, names, (n - 1) as nat), last);
    if k < n - 1 {
        lemma_derive_refs_without_error(fs, p, target, t, names, (n - 1) as nat, k);
    } else {
        match last_index(fs, names[n - 1]) {
            None => lemma_error_diag_is_error(unknown),
            Some(idx) => if idx >= t {
                lemma_error_diag_is_error(forward);
            },
        }
    }
}

proof fn lemma_derives_without_error(rec: SpecRecord, p: Seq<char>, n: nat, d: int)
    requires
        n <= rec.derives.len(),
        0 <= d < n,
        !has_error(derives_diags(rec, p, n)),
    ensures
        !has_error(derive_diags(rec, p, rec.derives[d])),
    decreases n,
{
    lemma_has_error_concat(derives_diags(rec, p, (n - 1) as nat), derive_diags(rec, p, rec.derives[n - 1]));
    if d < n - 1 {
        lemma_derives_without_error(rec, p, (n - 1) as nat, d);
    }
}

proof fn lemma_check_refs_without_error(
    fs: Seq<SpecField>,
    p: Seq<char>,
    code: Seq<char>,
    names: Seq<Seq<char>>,
    n: nat,
    k: int,
)
    requires
        n <= names.len(),
        0 <= k < n,
        !has_error(check_ref_diags(fs, p, code, names, n)),
    ensures
        last_index(fs, names[k]) is Some,
    decreases n,
{
    let msg = p + "check `"@ + code + "`: unknown field `"@ + names[n - 1] + "`"@;
    let last = if last_index(fs, names[n - 1]) is None {
        error_diag(msg)
    } else {
        no_diag()
    };
    lemma_has_error_concat(check_ref_diags(fs, p, code, names, (n - 1) as nat), last);
    if k < n - 1 {
        lemma_check_refs_without_error(fs, p, code, names, (n - 1) as nat, k);
    } else if last_index(fs, names[n - 1]) is None {
        lemma_error_diag_is_error(msg);
    }
}

proof fn lemma_checks_without_error(rec: SpecRecord, p: Seq<char>, n: nat, c: int)
    requires
        n <= rec.checks.len(),
        0 <= c < n,
        !has_error(checks_diags(rec, p, n)),
    ensures
        !has_error(
            check_ref_diags(
                rec.fields,
                p,
                rec.checks[c].code,
                bool_idents(rec.checks[c].rule),
                bool_idents(rec.checks[c].rule).len(),
            ),
        ),
    decreases n,
{
    let cc = rec.checks[n - 1];
    let names = bool_idents(cc.rule);
    lemma_has_error_concat(
        checks_diags(rec, p, (n - 1) as nat),
        check_ref_diags(rec.fields, p, cc.code, names, names.len()),
    );
    if c < n - 1 {
        lemma_checks_without_error(rec, p, (n - 1) as nat, c);
    }
}

/// A model whose validation reports no error has consistent names and
/// references: no two records share a name, no two fields of a record share
/// a name, every derive's target is a field of its record and every field it
/// reads is declared before that target, and every field a check reads is
/// declared.
pub proof fn law_valid_references(f: SpecBoeFile, r: int)
    requires
        !has_error(validate_spec(f)),
        0 <= r < f.records.len(),
    ensures
        forall|q: int|
            0 <= q < f.records.len() && q != r ==> (#[trigger] f.records[q]).name
                != f.records[r].name,
        forall|i: int, j: int|
            0 <= i < j < f.records[r].fields.len() ==> (#[trigger] f.records[r].fields[i]).name
                != (#[trigger] f.records[r].fields[j]).name,
        forall|d: int|
            0 <= d < f.records[r].derives.len() ==> (last_index(
                f.records[r].fields,
                (#[trigger] f.records[r].derives[d]).target,
            ) matches Some(t) && forall|k: int|
                0 <= k < expr_idents(f.records[r].derives[d].expr).len() ==> (last_index(
                    f.records[r].fields,
                    #[trigger] expr_idents(f.records[r].derives[d].expr)[k],
                ) matches Some(x) && x < t)),
        forall|c: int|
            0 <= c < f.records[r].checks.len() ==> forall|k: int|
                0 <= k < bool_idents((#[trigger] f.records[r].checks[c]).rule).len() ==> last_index(
                    f.records[r].fields,
                    #[trigger] bool_idents(f.records[r].checks[c].rule)[k],
                ) is Some,
{
    let rs = f.records;
    let multi = rs.len() > 1;
    lemma_record_parts_without_error(f, r);
    assert forall|q: int| 0 <= q < rs.len() && q != r implies (#[trigger] rs[q]).name != rs[r].name by {
        if q < r {
            lemma_records_distinct(rs, rs.len(), r);
        } else {
            lemma_records_distinct(rs, rs.len(), q);
        }
    }
    let rec = rs[r];
    let p = record_prefix(rec, multi);
    assert forall|i: int, j: int| 0 <= i < j < rec.fields.len() implies (#[trigger] rec.fields[i]).name
        != (#[trigger] rec.fields[j]).name by {
        lemma_field_without_error(rec, p, rec.fields.len(), j);
        let d1 = field_dup_diag(rec, p, j);
        let rest = field_at_diag(p, rec.fields[j]) + field_len_diag(
            p,
            rec.fields[j],
        ) + field_end_diag(p, rec.fields[j], rec.record_length)
            + field_fixed_diag(p, rec.fields[j])
            + field_decimals_diag(p, rec.fields[j]);
        assert(field_diags(rec, p, j) =~= d1 + rest);
        lemma_has_error_concat(d1, rest);
        if field_named_before(rec.fields, j) {
            lemma_error_diag_is_error(p + "duplicate field name `"@ + rec.fields[j].name + "`"@);
        }
    }
    assert forall|d: int| 0 <= d < rec.derives.len() implies (last_index(
        rec.fields,
        (#[trigger] rec.derives[d]).target,
    ) matches Some(t) && forall|k: int|
        0 <= k < expr_idents(rec.derives[d].expr).len() ==> (last_index(
            rec.fields,
            #[trigger] expr_idents(rec.derives[d].expr)[k],
        ) matches Some(x) && x < t)) by {
        lemma_derives_without_error(rec, p, rec.derives.len(), d);
        let dv = rec.derives[d];
        match last_index(rec.fields, dv.target) {
            None => {
                lemma_error_diag_is_error(p + "derive: unknown target field `"@ + dv.target + "`"@);
            },
            Some(t) => {
                let names = expr_idents(dv.expr);
                assert forall|k: int| 0 <= k < names.len() implies (last_index(
                    rec.fields,
                    #[trigger] names[k],
                ) matches Some(x) && x < t) by {
                    lemma_derive_refs_without_error(rec.fields, p, dv.target, t, names, names.len(), k);
                }
            },
        }
    }
    assert forall|c: int| 0 <= c < rec.checks.len() implies forall|k: int|
        0 <= k < bool_idents((#[trigger] rec.checks[c]).rule).len() ==> last_index(
            rec.fields,
            #[trigger] bool_idents(rec.checks[c].rule)[k],
        ) is Some by {
        lemma_checks_without_error(rec, p, rec.checks.len(), c);
        let names = bool_idents(rec.checks[c].rule);
        assert forall|k: int| 0 <= k < names.len() implies last_index(rec.fields, #[trigger] names[k]) is Some by {
            lemma_check_refs_without_error(rec.fields, p, rec.checks[c].code, names, names.len(), k);
        }
    }
}

} // verus!

verus! {

// ── the order of fields by position ────────────────────────────────────────
/// Every entry of `insert_by_at(fs, s, i)` is `i` or an entry of `s`.
proof fn lemma_insert_by_at_content(fs: Seq<SpecField>, s: Seq<int>, i: int)
    ensures
        forall|m: int|
            0 <= m < insert_by_at(fs, s, i).len() ==> #[trigger] insert_by_at(fs, s, i)[m] == i
                || s.contains(insert_by_at(fs, s, i)[m]),
        insert_by_at(fs, s, i).len() == s.len() + 1,
    decreases s.len(),
{
    let r = insert_by_at(fs, s, i);
    if s.len() == 0 {
    } else if fs[s.last()].at <= fs[i].at {
        assert forall|m: int| 0 <= m < r.len() implies #[trigger] r[m] == i || s.contains(r[m]) by {
            if m < s.len() {
                assert(r[m] == s[m]);
            }
        }
    } else {
        let t = s.drop_last();
        lemma_insert_by_at_content(fs, t, i);
        let q = insert_by_at(fs, t, i);
        assert forall|m: int| 0 <= m < r.len() implies #[trigger] r[m] == i || s.contains(r[m]) by {
            if m < q.len() {
                assert(r[m] == q[m]);
                if q[m] != i {
                    let w = choose|w: int| 0 <= w < t.len() && t[w] == q[m];
                    assert(s[w] == t[w]);
                }
            } else {
                assert(r[m] == s[s.len() - 1]);
            }
        }
    }
}

pub open spec fn sorted_by_at(fs: Seq<SpecField>, s: Seq<int>) -> bool {
    forall|a: int, b: int| 0 <= a < b < s.len() ==> fs[#[trigger] s[a]].at <= fs[#[trigger] s[b]].at
}

pub open spec fn distinct(s: Seq<int>) -> bool {
    forall|a: int, b: int| 0 <= a < s.len() && 0 <= b < s.len() && a != b ==> #[trigger] s[a] != #[trigger] s[b]
}

proof fn lemma_insert_by_at_sorted(fs: Seq<SpecField>, s: Seq<int>, i: int)
    requires
        sorted_by_at(fs, s),
        distinct(s),
        !s.contains(i),
    ensures
        sorted_by_at(fs, insert_by_at(fs, s, i)),
        distinct(insert_by_at(fs, s, i)),
    decreases s.len(),
{
    let r = insert_by_at(fs, s, i);
    lemma_insert_by_at_content(fs, s, i);
    if s.len() == 0 {
    } else if fs[s.last()].at <= fs[i].at {
        assert forall|a: int, b: int| 0 <= a < b < r.len() implies fs[#[trigger] r[a]].at
            <= fs[#[trigger] r[b]].at by {
            if b == s.len() {
                if a < s.len() - 1 {
                    assert(fs[s[a]].at <= fs[s[s.len() - 1]].at);
                }
            }
        }
        assert forall|a: int, b: int|
            0 <= a < r.len() && 0 <= b < r.len() && a != b implies #[trigger] r[a] != #[trigger] r[b] by {
            if a == s.len() {
                assert(r[b] == s[b]);
                if s[b] == i {
                    assert(s.contains(i));
                }
            } else if b == s.len() {
                assert(r[a] == s[a]);
                if s[a] == i {
                    assert(s.contains(i));
                }
            } else {
                assert(r[a] == s[a] && r[b] == s[b]);
            }
        }
    } else {
        let t = s.drop_last();
        let last = s.last();
        assert(sorted_by_at(fs, t));
        assert(distinct(t));
        assert(!t.contains(i)) by {
            if t.contains(i) {
                let w = choose|w: int| 0 <= w < t.len() && t[w] == i;
                assert(s[w] == i);
            }
        }
        lemma_insert_by_at_sorted(fs, t, i);
        lemma_insert_by_at_content(fs, t, i);
        let q = insert_by_at(fs, t, i);
        assert(r == q.push(last));
        assert forall|m: int| 0 <= m < q.len() implies fs[#[trigger] q[m]].at <= fs[last].at && q[m]
            != last by {
            if q[m] == i {
                assert(s[s.len() - 1] == last);
            } else {
                let w = choose|w: int| 0 <= w < t.len() && t[w] == q[m];
                assert(s[w] == t[w]);
                assert(fs[s[w]].at <= fs[s[s.len() - 1]].at);
            }
        }
        assert forall|a: int, b: int| 0 <= a < b < r.len() implies fs[#[trigger] r[a]].at
            <= fs[#[trigger] r[b]].at by {
            if b == q.len() {
                assert(r[a] == q[a]);
            } else {
                assert(r[a] == q[a] && r[b] == q[b]);
            }
        }
        assert forall|a: int, b: int|
            0 <= a < r.len() && 0 <= b < r.len() && a != b implies #[trigger] r[a] != #[trigger] r[b] by {
            if a == q.len() {
                assert(r[b] == q[b]);
            } else if b == q.len() {
                assert(r[a] == q[a]);
            } else {
                assert(r[a] == q[a] && r[b] == q[b]);
            }
        }
    }
}

/// The fields ordered by position: each index once, in non-decreasing `at`.
proof fn lemma_order_by_at_sorted(fs: Seq<SpecField>, n: nat)
    ensures
        sorted_by_at(fs, order_by_at(fs, n)),
        distinct(order_by_at(fs, n)),
    decreases n,
{
    if n > 0 {
        let s = order_by_at(fs, (n - 1) as nat);
        lemma_order_by_at_sorted(fs, (n - 1) as nat);
        lemma_order_by_at_bounds(fs, (n - 1) as nat);
        assert(!s.contains(n - 1)) by {
            if s.contains(n - 1) {
                let w = choose|w: int| 0 <= w < s.len() && s[w] == n - 1;
                assert(s[w] < n - 1);
            }
        }
        lemma_insert_by_at_sorted(fs, s, n - 1);
    }
}

// ── the layout check, both ways ──────────────────────────────────────────
/// Two fields share at least one position.
pub open spec fn fields_intersect(f: SpecField, g: SpecField) -> bool {
    f.at < g.at + g.length && g.at < f.at + f.length
}

/// Every field of `r` starts at position 1 or later and is at least one position long.
pub open spec fn positions_positive(r: SpecRecord) -> bool {
    forall|i: int| 0 <= i < r.fields.len() ==> (#[trigger] r.fields[i]).at >= 1 && r.fields[i].length >= 1
}

proof fn lemma_no_error_in_warning(m: Seq<char>)
    ensures
        !has_error(warning_diag(m)),
        !has_error(no_diag()),
{
    assert(warning_diag(m)[0].0 == DiagLevel::Warning);
}

/// An overlap error among the first `k` fields in position order comes from
/// two of them that share a position.
proof fn lemma_error_means_intersect(fs: Seq<SpecField>, order: Seq<int>, p: Seq<char>, k: nat)
    requires
        k <= order.len(),
        forall|m: int| 0 <= m < order.len() ==> 0 <= #[trigger] order[m] < fs.len(),
        sorted_by_at(fs, order),
        forall|m: int| 0 <= m < fs.len() ==> (#[trigger] fs[m]).at >= 1 && fs[m].length >= 1,
        has_error(layout_diags(fs, order, p, k).0),
    ensures
        exists|a: int, b: int|
            0 <= a < b < k && fields_intersect(#[trigger] fs[order[a]], #[trigger] fs[order[b]]),
    decreases k,
{
    let (d, cursor) = layout_diags(fs, order, p, (k - 1) as nat);
    let f = fs[order[k - 1]];
    let d2 = layout_diags(fs, order, p, k).0;
    if has_error(d) {
        lemma_error_means_intersect(fs, order, p, (k - 1) as nat);
        let (a, b) = choose|a: int, b: int|
            0 <= a < b < k - 1 && fields_intersect(#[trigger] fs[order[a]], #[trigger] fs[order[b]]);
        assert(0 <= a < b < k && fields_intersect(fs[order[a]], fs[order[b]]));
    } else if f.at < cursor {
        if k == 1 {
            assert(cursor == 1);
            assert(fs[order[0]].at >= 1);
        } else {
            let g = fs[order[k - 2]];
            assert(cursor == g.at + g.length);
            assert(fs[order[k - 2]].at <= fs[order[k - 1]].at);
            assert(fields_intersect(fs[order[k - 2]], fs[order[k - 1]]));
        }
    } else if f.at > cursor {
        let w = warning_diag(
            p + "gap between positions "@ + nat_text(cursor) + " and "@ + nat_text(
                (f.at - 1) as nat,
            ) + " (before field `"@ + f.name + "`)"@,
        );
        assert(d2 == d + w);
        lemma_no_error_in_warning(
            p + "gap between positions "@ + nat_text(cursor) + " and "@ + nat_text(
                (f.at - 1) as nat,
            ) + " (before field `"@ + f.name + "`)"@,
        );
        lemma_has_error_concat(d, w);
    } else {
        assert(d2 == d);
    }
}

/// In a record whose fields all start at position 1 or later and are at
/// least one position long, the layout check reports an error (an overlap)
/// exactly when two distinct fields share a position.
pub proof fn law_overlap_iff_intersect(r: SpecRecord, p: Seq<char>)
    requires
        positions_positive(r),
    ensures
        has_error(record_layout_diags(r, p)) <==> exists|i: int, j: int|
            0 <= i < r.fields.len() && 0 <= j < r.fields.len() && i != j && fields_intersect(
                #[trigger] r.fields[i],
                #[trigger] r.fields[j],
            ),
{
    let fs = r.fields;
    let n = fs.len();
    let order = order_by_at(fs, n);
    lemma_order_by_at_bounds(fs, n);
    lemma_order_by_at_covers(fs, n);
    lemma_order_by_at_sorted(fs, n);
    let (ldd, cursor) = layout_diags(fs, order, p, n);
    let tail_msg = p + "trailing gap: positions "@ + nat_text(cursor) + ".."@ + nat_text(
        r.record_length as nat,
    ) + " are not covered"@;
    let tail = if n > 0 && cursor < r.record_length + 1 {
        warning_diag(tail_msg)
    } else {
        no_diag()
    };
    assert(record_layout_diags(r, p) == ldd + tail);
    lemma_no_error_in_warning(tail_msg);
    lemma_has_error_concat(ldd, tail);
    if has_error(ldd) {
        lemma_error_means_intersect(fs, order, p, n);
        let (a, b) = choose|a: int, b: int|
            0 <= a < b < n && fields_intersect(#[trigger] fs[order[a]], #[trigger] fs[order[b]]);
        assert(order[a] != order[b]);
        assert(0 <= order[a] < n && 0 <= order[b] < n && fields_intersect(
            fs[order[a]],
            fs[order[b]],
        ));
    } else {
        lemma_layout_chain(fs, order, p, n);
        assert forall|i: int, j: int|
            0 <= i < n && 0 <= j < n && i != j implies !fields_intersect(
                #[trigger] fs[i],
                #[trigger] fs[j],
            ) by {
            assert(order.contains(i));
            assert(order.contains(j));
            let a = choose|a: int| 0 <= a < order.len() && order[a] == i;
            let b = choose|b: int| 0 <= b < order.len() && order[b] == j;
            if a < b {
                assert(fs[order[a]].at + fs[order[a]].length <= fs[order[b]].at);
            } else {
                assert(fs[order[b]].at + fs[order[b]].length <= fs[order[a]].at);
            }
        }
    }
}

/// The layout check's cursor after the first `k` fields in position order.
#[verifier::opaque]
pub open spec fn cursor_of(fs: Seq<SpecField>, order: Seq<int>, p: Seq<char>, k: nat) -> nat {
    layout_diags(fs, order, p, k).1
}

/// Whether any diagnostic is a warning.
pub open spec fn has_warning(ds: Seq<(DiagLevel, Seq<char>)>) -> bool {
    exists|i: int| 0 <= i < ds.len() && (#[trigger] ds[i]).0 == DiagLevel::Warning
}

/// Whether some field of `fs` covers position `pos`.
pub open spec fn position_covered(fs: Seq<SpecField>, pos: int) -> bool {
    exists|i: int| 0 <= i < fs.len() && (#[trigger] fs[i]).at <= pos < fs[i].at + fs[i].length
}

proof fn lemma_has_warning_concat(a: Seq<(DiagLevel, Seq<char>)>, b: Seq<(DiagLevel, Seq<char>)>)
    ensures
        has_warning(a + b) == (has_warning(a) || has_warning(b)),
{
    let c = a + b;
    if has_warning(c) {
        let k = choose|k: int| 0 <= k < c.len() && (#[trigger] c[k]).0 == DiagLevel::Warning;
        if k < a.len() {
            assert(a[k] == c[k]);
        } else {
            assert(b[k - a.len()] == c[k]);
        }
    }
    if has_warning(a) {
        let k = choose|k: int| 0 <= k < a.len() && (#[trigger] a[k]).0 == DiagLevel::Warning;
        assert(c[k] == a[k]);
    }
    if has_warning(b) {
        let k = choose|k: int| 0 <= k < b.len() && (#[trigger] b[k]).0 == DiagLevel::Warning;
        assert(c[k + a.len()] == b[k]);
    }
}

/// Without an error among the first `k` fields in position order, each of them
/// starts at or after the cursor before it, and a warning was reported exactly
/// when one of them starts after it.
proof fn lemma_gap_steps(fs: Seq<SpecField>, order: Seq<int>, p: Seq<char>, k: nat)
    requires
        k <= order.len(),
        !has_error(layout_diags(fs, order, p, k).0),
    ensures
        forall|a: int| 0 <= a < k ==> fs[#[trigger] order[a]].at >= cursor_of(fs, order, p, a as nat),
        has_warning(layout_diags(fs, order, p, k).0) <==> exists|a: int|
            0 <= a < k && fs[#[trigger] order[a]].at > cursor_of(fs, order, p, a as nat),
    decreases k,
{
    if k > 0 {
        let (d, cursor) = layout_diags(fs, order, p, (k - 1) as nat);
        let f = fs[order[k - 1]];
        let d2 = layout_diags(fs, order, p, k).0;
        let om = p + "field `"@ + f.name + "` at position "@ + nat_text(f.at as nat)
            + " overlaps previous field (expected >= "@ + nat_text(cursor) + ")"@;
        let gm = p + "gap between positions "@ + nat_text(cursor) + " and "@ + nat_text(
            (f.at - 1) as nat,
        ) + " (before field `"@ + f.name + "`)"@;
        if f.at < cursor {
            assert(d2 == d + error_diag(om));
            lemma_error_diag_is_error(om);
            lemma_has_error_concat(d, error_diag(om));
        } else if f.at > cursor {
            assert(d2 == d + warning_diag(gm));
            lemma_no_error_in_warning(gm);
            lemma_has_error_concat(d, warning_diag(gm));
            lemma_has_warning_concat(d, warning_diag(gm));
            assert(warning_diag(gm)[0].0 == DiagLevel::Warning);
        } else {
            assert(d2 == d);
        }
        assert(cursor_of(fs, order, p, (k - 1) as nat) == cursor) by {
            reveal(cursor_of);
        }
        lemma_gap_steps(fs, order, p, (k - 1) as nat);
        if f.at > cursor {
            assert(fs[order[k - 1]].at > cursor_of(fs, order, p, (k - 1) as nat));
        }
        if f.at == cursor && has_warning(d2) {
            let a = choose|a: int|
                0 <= a < k - 1 && fs[#[trigger] order[a]].at > cursor_of(fs, order, p, a as nat);
            assert(0 <= a < k);
        }
        if f.at == cursor && (exists|a: int|
            0 <= a < k && fs[#[trigger] order[a]].at > cursor_of(fs, order, p, a as nat)) {
            let a = choose|a: int|
                0 <= a < k && fs[#[trigger] order[a]].at > cursor_of(fs, order, p, a as nat);
            assert(a < k - 1);
        }
    }
}

/// The cursor is at least 1 and, after a field, is the position after it.
proof fn lemma_cursor(fs: Seq<SpecField>, order: Seq<int>, p: Seq<char>, k: nat)
    requires
        k <= order.len(),
        forall|m: int| 0 <= m < order.len() ==> 0 <= #[trigger] order[m] < fs.len(),
        forall|m: int| 0 <= m < fs.len() ==> (#[trigger] fs[m]).at >= 1,
    ensures
        layout_diags(fs, order, p, k).1 >= 1,
        k >= 1 ==> layout_diags(fs, order, p, k).1 == fs[order[k - 1]].at + fs[order[k - 1]].length,
        cursor_of(fs, order, p, k) == layout_diags(fs, order, p, k).1,
{
    reveal(cursor_of);
    if k >= 1 {
        assert(fs[order[k - 1]].at >= 1);
    }
}

/// Without gaps, the first `k` fields in position order cover every position
/// from 1 up to the cursor.
proof fn lemma_covered_prefix(fs: Seq<SpecField>, order: Seq<int>, p: Seq<char>, k: nat)
    requires
        k <= order.len(),
        forall|m: int| 0 <= m < order.len() ==> 0 <= #[trigger] order[m] < fs.len(),
        forall|m: int| 0 <= m < fs.len() ==> (#[trigger] fs[m]).at >= 1,
        forall|a: int| 0 <= a < k ==> fs[#[trigger] order[a]].at == cursor_of(fs, order, p, a as nat),
    ensures
        forall|pos: int| 1 <= pos < layout_diags(fs, order, p, k).1 ==> position_covered(fs, pos),
    decreases k,
{
    if k > 0 {
        lemma_covered_prefix(fs, order, p, (k - 1) as nat);
        lemma_cursor(fs, order, p, k);
        lemma_cursor(fs, order, p, (k - 1) as nat);
        let i = order[k - 1];
        assert(fs[order[k - 1]].at == cursor_of(fs, order, p, (k - 1) as nat));
        assert forall|pos: int| 1 <= pos < layout_diags(fs, order, p, k).1 implies position_covered(
            fs,
            pos,
        ) by {
            if pos >= layout_diags(fs, order, p, (k - 1) as nat).1 {
                assert(fs[i].at <= pos < fs[i].at + fs[i].length);
            }
        }
    }
}

/// In a record with at least one field, whose fields lie within the record
/// and share no position, the layout check reports no error, and it reports
/// a warning (a gap) exactly when some position of the record is covered by
/// no field.
pub proof fn law_gap_iff_uncovered(r: SpecRecord, p: Seq<char>)
    requires
        r.fields.len() > 0,
        positions_positive(r),
        forall|i: int|
            0 <= i < r.fields.len() ==> (#[trigger] r.fields[i]).at + r.fields[i].length - 1
                <= r.record_length,
        forall|i: int, j: int|
            0 <= i < r.fields.len() && 0 <= j < r.fields.len() && i != j ==> !fields_intersect(
                #[trigger] r.fields[i],
                #[trigger] r.fields[j],
            ),
    ensures
        !has_error(record_layout_diags(r, p)),
        has_warning(record_layout_diags(r, p)) <==> exists|pos: int|
            1 <= pos <= r.record_length && !position_covered(r.fields, pos),
{
    law_overlap_iff_intersect(r, p);
    let fs = r.fields;
    let n = fs.len();
    let order = order_by_at(fs, n);
    lemma_order_by_at_bounds(fs, n);
    lemma_order_by_at_covers(fs, n);
    lemma_order_by_at_sorted(fs, n);
    let (ldd, cursor) = layout_diags(fs, order, p, n);
    let tail_msg = p + "trailing gap: positions "@ + nat_text(cursor) + ".."@ + nat_text(
        r.record_length as nat,
    ) + " are not covered"@;
    let trailing = cursor < r.record_length + 1;
    let tail = if n > 0 && trailing {
        warning_diag(tail_msg)
    } else {
        no_diag()
    };
    assert(record_layout_diags(r, p) == ldd + tail);
    lemma_no_error_in_warning(tail_msg);
    lemma_has_error_concat(ldd, tail);
    lemma_has_warning_concat(ldd, tail);
    assert(warning_diag(tail_msg)[0].0 == DiagLevel::Warning);
    assert(!has_warning(no_diag()));
    lemma_gap_steps(fs, order, p, n);
    lemma_layout_chain(fs, order, p, n);
    lemma_cursor(fs, order, p, n);
    if has_warning(record_layout_diags(r, p)) {
        if has_warning(ldd) {
            let a = choose|a: int|
                0 <= a < n && fs[#[trigger] order[a]].at > cursor_of(fs, order, p, a as nat);
            let c: int = cursor_of(fs, order, p, a as nat) as int;
            lemma_cursor(fs, order, p, a as nat);
            // The prefix up to `a` has no error either.
            lemma_prefix_no_error(fs, order, p, a as nat, n);
            lemma_layout_chain(fs, order, p, a as nat);
            assert(!position_covered(fs, c)) by {
                if position_covered(fs, c) {
                    let i = choose|i: int| 0 <= i < fs.len() && (#[trigger] fs[i]).at <= c < fs[i].at + fs[i].length;
                    assert(order.contains(i));
                    let b = choose|b: int| 0 <= b < n && order[b] == i;
                    if b < a {
                        assert(fs[order[b]].at + fs[order[b]].length <= c);
                    } else if b > a {
                        assert(fs[order[a]].at <= fs[order[b]].at);
                    }
                }
            }
            assert(fs[order[a]].at + fs[order[a]].length - 1 <= r.record_length);
            assert(1 <= c <= r.record_length && !position_covered(fs, c));
        } else {
            assert(trailing);
            assert(!position_covered(fs, cursor as int)) by {
                if position_covered(fs, cursor as int) {
                    let i = choose|i: int| 0 <= i < fs.len() && (#[trigger] fs[i]).at <= cursor < fs[i].at + fs[i].length;
                    assert(order.contains(i));
                    let b = choose|b: int| 0 <= b < n && order[b] == i;
                    assert(fs[order[b]].at + fs[order[b]].length <= cursor);
                }
            }
        }
    } else {
        assert forall|a: int| 0 <= a < n implies fs[#[trigger] order[a]].at == cursor_of(fs, order, p, a as nat) by {
            assert(fs[order[a]].at >= cursor_of(fs, order, p, a as nat));
            if fs[order[a]].at > cursor_of(fs, order, p, a as nat) {
                assert(has_warning(ldd));
            }
        }
        lemma_covered_prefix(fs, order, p, n);
        assert(!trailing);
    }
}

/// A prefix of a layout without errors has no errors.
proof fn lemma_prefix_no_error(fs: Seq<SpecField>, order: Seq<int>, p: Seq<char>, k: nat, n: nat)
    requires
        k <= n <= order.len(),
        !has_error(layout_diags(fs, order, p, n).0),
    ensures
        !has_error(layout_diags(fs, order, p, k).0),
    decreases n - k,
{
    if k < n {
        let d = layout_diags(fs, order, p, (n - 1) as nat).0;
        let d2 = layout_diags(fs, order, p, n).0;
        assert(d2 =~= d + d2.skip(d.len() as int));
        lemma_has_error_concat(d, d2.skip(d.len() as int));
        lemma_prefix_no_error(fs, order, p, k, (n - 1) as nat);
    }
}

// ── every error has its cause ─────────────────────────────────────────────
/// What is wrong with field `i` of `r` taken on its own: a name used by an
/// earlier field, position 0, length 0, an end past the record, a `fixed`
/// value of another length, or `decimals` on a type without decimals.
pub open spec fn field_problem(r: SpecRecord, i: int) -> bool {
    let f = r.fields[i];
    ||| field_named_before(r.fields, i)
    ||| f.at == 0
    ||| f.length == 0
    ||| f.at + f.length - 1 > r.record_length
    ||| (f.fixed matches Some(x) && x.len() != f.length)
    ||| (f.decimals is Some && !allows_decimals(f.ty))
}

/// What is wrong with a derive: its target is no field, or it reads a field
/// that does not exist or is not declared before the target (the last field
/// of a name counts).
pub open spec fn derive_problem(r: SpecRecord, d: SpecDerive) -> bool {
    match last_index(r.fields, d.target) {
        None => true,
        Some(t) => exists|k: int|
            0 <= k < expr_idents(d.expr).len() && match last_index(
                r.fields,
                #[trigger] expr_idents(d.expr)[k],
            ) {
                None => true,
                Some(x) => x >= t,
            },
    }
}

/// What is wrong with a check: it reads a field that does not exist.
pub open spec fn check_problem(r: SpecRecord, c: SpecCheck) -> bool {
    exists|k: int|
        0 <= k < bool_idents(c.rule).len() && last_index(r.fields, #[trigger] bool_idents(c.rule)[k])
            is None
}

proof fn lemma_opt_diag(b: bool, m: Seq<char>)
    ensures
        has_error(if b { error_diag(m) } else { no_diag() }) == b,
{
    if b {
        lemma_error_diag_is_error(m);
    }
}

proof fn lemma_field_diags_iff(r: SpecRecord, p: Seq<char>, i: int)
    requires
        0 <= i < r.fields.len(),
        positions_in_range_record(r),
    ensures
        has_error(field_diags(r, p, i)) == field_problem(r, i),
{
    let f = r.fields[i];
    let d1 = field_dup_diag(r, p, i);
    let d2 = field_at_diag(p, f);
    let d3 = field_len_diag(p, f);
    let d4 = field_end_diag(p, f, r.record_length);
    let d5 = field_fixed_diag(p, f);
    let d6 = field_decimals_diag(p, f);
    lemma_opt_diag(field_named_before(r.fields, i), p + "duplicate field name `"@ + f.name + "`"@);
    lemma_opt_diag(f.at == 0, field_head(p, f) + "`: `at` is 1-indexed, got 0"@);
    lemma_opt_diag(f.length == 0, field_head(p, f) + "`: `length` must be > 0"@);
    lemma_opt_diag(
        end_position(f) > r.record_length,
        field_head(p, f) + "`: end position "@ + nat_text(end_position(f))
            + " exceeds record_length "@ + nat_text(r.record_length as nat),
    );
    match f.fixed {
        Some(x) => lemma_opt_diag(
            x.len() != f.length,
            field_head(p, f) + "`: fixed value length "@ + nat_text(x.len())
                + " does not match declared length "@ + nat_text(f.length as nat),
        ),
        None => {},
    }
    lemma_opt_diag(
        f.decimals is Some && !allows_decimals(f.ty),
        field_head(p, f) + "`: `decimals` only allowed on signed_amount or unsigned_amount"@,
    );
    assert(r.fields[i].at + r.fields[i].length <= usize::MAX);
    assert((end_position(f) > r.record_length) == (f.at + f.length - 1 > r.record_length));
    lemma_has_error_concat(d1, d2);
    lemma_has_error_concat(d1 + d2, d3);
    lemma_has_error_concat(d1 + d2 + d3, d4);
    lemma_has_error_concat(d1 + d2 + d3 + d4, d5);
    lemma_has_error_concat(d1 + d2 + d3 + d4 + d5, d6);
}

/// The positions of one record fit a `usize`.
pub open spec fn positions_in_range_record(r: SpecRecord) -> bool {
    &&& r.record_length < usize::MAX
    &&& forall|j: int| 0 <= j < r.fields.len() ==> #[trigger] r.fields[j].at + r.fields[j].length <= usize::MAX
}

proof fn lemma_fields_diags_iff(r: SpecRecord, p: Seq<char>, n: nat)
    requires
        n <= r.fields.len(),
        positions_in_range_record(r),
    ensures
        has_error(fields_diags(r, p, n)) == exists|i: int| 0 <= i < n && #[trigger] field_problem(r, i),
    decreases n,
{
    if n > 0 {
        lemma_fields_diags_iff(r, p, (n - 1) as nat);
        lemma_field_diags_iff(r, p, n - 1);
        lemma_has_error_concat(fields_diags(r, p, (n - 1) as nat), field_diags(r, p, n - 1));
        if exists|i: int| 0 <= i < n && #[trigger] field_problem(r, i) {
            let i = choose|i: int| 0 <= i < n && #[trigger] field_problem(r, i);
            if i < n - 1 {
                assert(0 <= i < n - 1 && field_problem(r, i));
            }
        }
    }
}

proof fn lemma_derive_refs_iff(
    fs: Seq<SpecField>,
    p: Seq<char>,
    target: Seq<char>,
    t: nat,
    names: Seq<Seq<char>>,
    n: nat,
)
    requires
        n <= names.len(),
    ensures
        has_error(derive_ref_diags(fs, p, target, t, names, n)) == exists|k: int|
            0 <= k < n && match last_index(fs, #[trigger] names[k]) {
                None => true,
                Some(x) => x >= t,
            },
    decreases n,
{
    if n > 0 {
        lemma_derive_refs_iff(fs, p, target, t, names, (n - 1) as nat);
        let unknown = p + "derive `"@ + target + "`: unknown field `"@ + names[n - 1] + "`"@;
        let forward = p + "derive `"@ + target + "`: forward reference to `"@ + names[n - 1]
            + "` (must be declared before target)"@;
        let last = match last_index(fs, names[n - 1]) {
            None => error_diag(unknown),
            Some(idx) => if idx >= t {
                error_diag(forward)
            } else {
                no_diag()
            },
        };
        lemma_has_error_concat(derive_ref_diags(fs, p, target, t, names, (n - 1) as nat), last);
        match last_index(fs, names[n - 1]) {
            None => lemma_error_diag_is_error(unknown),
            Some(idx) => lemma_opt_diag(idx >= t, forward),
        }
        let bad = |k: int| match last_index(fs, names[k]) {
            None => true,
            Some(x) => x >= t,
        };
        if exists|k: int| 0 <= k < n && match last_index(fs, #[trigger] names[k]) {
            None => true,
            Some(x) => x >= t,
        } {
            let k = choose|k: int| 0 <= k < n && match last_index(fs, #[trigger] names[k]) {
                None => true,
                Some(x) => x >= t,
            };
            if k < n - 1 {
                assert(0 <= k < n - 1 && bad(k));
            }
        }
    }
}

proof fn lemma_derive_diags_iff(r: SpecRecord, p: Seq<char>, d: SpecDerive)
    ensures
        has_error(derive_diags(r, p, d)) == derive_problem(r, d),
{
    match last_index(r.fields, d.target) {
        None => lemma_error_diag_is_error(p + "derive: unknown target field `"@ + d.target + "`"@),
        Some(t) => {
            let names = expr_idents(d.expr);
            lemma_derive_refs_iff(r.fields, p, d.target, t, names, names.len());
        },
    }
}

proof fn lemma_derives_diags_iff(r: SpecRecord, p: Seq<char>, n: nat)
    requires
        n <= r.derives.len(),
    ensures
        has_error(derives_diags(r, p, n)) == exists|d: int| 0 <= d < n && derive_problem(r, #[trigger] r.derives[d]),
    decreases n,
{
    if n > 0 {
        lemma_derives_diags_iff(r, p, (n - 1) as nat);
        lemma_derive_diags_iff(r, p, r.derives[n - 1]);
        lemma_has_error_concat(derives_diags(r, p, (n - 1) as nat), derive_diags(r, p, r.derives[n - 1]));
        if exists|d: int| 0 <= d < n && derive_problem(r, #[trigger] r.derives[d]) {
            let d = choose|d: int| 0 <= d < n && derive_problem(r, #[trigger] r.derives[d]);
            if d < n - 1 {
                assert(0 <= d < n - 1 && derive_problem(r, r.derives[d]));
            }
        }
    }
}

proof fn lemma_check_refs_iff(
    fs: Seq<SpecField>,
    p: Seq<char>,
    code: Seq<char>,
    names: Seq<Seq<char>>,
    n: nat,
)
    requires
        n <= names.len(),
    ensures
        has_error(check_ref_diags(fs, p, code, names, n)) == exists|k: int|
            0 <= k < n && last_index(fs, #[trigger] names[k]) is None,
    decreases n,
{
    if n > 0 {
        lemma_check_refs_iff(fs, p, code, names, (n - 1) as nat);
        let msg = p + "check `"@ + code + "`: unknown field `"@ + names[n - 1] + "`"@;
        lemma_opt_diag(last_index(fs, names[n - 1]) is None, msg);
        let last = if last_index(fs, names[n - 1]) is None {
            error_diag(msg)
        } else {
            no_diag()
        };
        lemma_has_error_concat(check_ref_diags(fs, p, code, names, (n - 1) as nat), last);
        if exists|k: int| 0 <= k < n && last_index(fs, #[trigger] names[k]) is None {
            let k = choose|k: int| 0 <= k < n && last_index(fs, #[trigger] names[k]) is None;
            if k < n - 1 {
                assert(0 <= k < n - 1 && last_index(fs, names[k]) is None);
            }
        }
    }
}

proof fn lemma_checks_diags_iff(r: SpecRecord, p: Seq<char>, n: nat)
    requires
        n <= r.checks.len(),
    ensures
        has_error(checks_diags(r, p, n)) == exists|c: int| 0 <= c < n && check_problem(r, #[trigger] r.checks[c]),
    decreases n,
{
    if n > 0 {
        lemma_checks_diags_iff(r, p, (n - 1) as nat);
        let c = r.checks[n - 1];
        let names = bool_idents(c.rule);
        lemma_check_refs_iff(r.fields, p, c.code, names, names.len());
        lemma_has_error_concat(
            checks_diags(r, p, (n - 1) as nat),
            check_ref_diags(r.fields, p, c.code, names, names.len()),
        );
        if exists|c: int| 0 <= c < n && check_problem(r, #[trigger] r.checks[c]) {
            let c = choose|c: int| 0 <= c < n && check_problem(r, #[trigger] r.checks[c]);
            if c < n - 1 {
                assert(0 <= c < n - 1 && check_problem(r, r.checks[c]));
            }
        }
    }
}

/// What is wrong with a record: a field on its own, two fields sharing a
/// position, a derive or a check.
pub open spec fn record_problem(r: SpecRecord) -> bool {
    ||| exists|i: int| 0 <= i < r.fields.len() && #[trigger] field_problem(r, i)
    ||| exists|i: int, j: int|
        0 <= i < r.fields.len() && 0 <= j < r.fields.len() && i != j && fields_intersect(
            #[trigger] r.fields[i],
            #[trigger] r.fields[j],
        )
    ||| exists|d: int| 0 <= d < r.derives.len() && derive_problem(r, #[trigger] r.derives[d])
    ||| exists|c: int| 0 <= c < r.checks.len() && check_problem(r, #[trigger] r.checks[c])
}

/// What is wrong with an envelope: a param of length 0, a contained record
/// that does not exist, nothing contained, or a placeholder of the header or
/// the trailer that names no param.
pub open spec fn envelope_problem(rs: Seq<SpecRecord>, e: SpecEnvelope) -> bool {
    ||| exists|k: int| 0 <= k < e.params.len() && (#[trigger] e.params[k]).length == 0
    ||| exists|k: int| 0 <= k < e.contains.len() && !has_record(rs, #[trigger] e.contains[k])
    ||| e.contains.len() == 0
    ||| exists|k: int|
        0 <= k < e.header.len() && (#[trigger] e.header[k] matches SpecTemplatePart::Field(n)
            && !has_param(e.params, n))
    ||| exists|k: int|
        0 <= k < e.trailer.len() && (#[trigger] e.trailer[k] matches SpecTemplatePart::Field(n)
            && !has_param(e.params, n))
}

/// What is wrong with a model: two records sharing a name, a record with a
/// problem, or an envelope with one.
pub open spec fn model_problem(f: SpecBoeFile) -> bool {
    ||| exists|r: int| 0 <= r < f.records.len() && #[trigger] record_named_before(f.records, r)
    ||| exists|r: int| 0 <= r < f.records.len() && record_problem(#[trigger] f.records[r])
    ||| (f.envelope matches Some(e) && envelope_problem(f.records, e))
}

proof fn lemma_record_diags_iff(r: SpecRecord, multi: bool)
    requires
        positions_in_range_record(r),
    ensures
        has_error(record_diags(r, multi)) == record_problem(r),
{
    let p = record_prefix(r, multi);
    let fd = fields_diags(r, p, r.fields.len());
    let ld = record_layout_diags(r, p);
    let dd = derives_diags(r, p, r.derives.len());
    let cd = checks_diags(r, p, r.checks.len());
    lemma_has_error_concat(fd, ld);
    lemma_has_error_concat(fd + ld, dd);
    lemma_has_error_concat(fd + ld + dd, cd);
    lemma_fields_diags_iff(r, p, r.fields.len());
    lemma_derives_diags_iff(r, p, r.derives.len());
    lemma_checks_diags_iff(r, p, r.checks.len());
    if positions_positive(r) {
        law_overlap_iff_intersect(r, p);
    } else {
        let i = choose|i: int|
            0 <= i < r.fields.len() && !((#[trigger] r.fields[i]).at >= 1 && r.fields[i].length >= 1);
        assert(field_problem(r, i));
    }
}

proof fn lemma_records_diags_iff(rs: Seq<SpecRecord>, multi: bool, n: nat)
    requires
        n <= rs.len(),
        forall|r: int| 0 <= r < rs.len() ==> positions_in_range_record(#[trigger] rs[r]),
    ensures
        has_error(records_diags(rs, multi, n)) == exists|r: int| 0 <= r < n && record_problem(#[trigger] rs[r]),
    decreases n,
{
    if n > 0 {
        lemma_records_diags_iff(rs, multi, (n - 1) as nat);
        lemma_record_diags_iff(rs[n - 1], multi);
        lemma_has_error_concat(records_diags(rs, multi, (n - 1) as nat), record_diags(rs[n - 1], multi));
        if exists|r: int| 0 <= r < n && record_problem(#[trigger] rs[r]) {
            let r = choose|r: int| 0 <= r < n && record_problem(#[trigger] rs[r]);
            if r < n - 1 {
                assert(0 <= r < n - 1 && record_problem(rs[r]));
            }
        }
    }
}

proof fn lemma_duplicate_records_iff(rs: Seq<SpecRecord>, n: nat)
    requires
        n <= rs.len(),
    ensures
        has_error(duplicate_record_diags(rs, n)) == exists|r: int| 0 <= r < n && #[trigger] record_named_before(rs, r),
    decreases n,
{
    if n > 0 {
        lemma_duplicate_records_iff(rs, (n - 1) as nat);
        let msg = "duplicate record name `"@ + rs[n - 1].name + "`"@;
        lemma_opt_diag(record_named_before(rs, n - 1), msg);
        let last = if record_named_before(rs, n - 1) {
            error_diag(msg)
        } else {
            no_diag()
        };
        lemma_has_error_concat(duplicate_record_diags(rs, (n - 1) as nat), last);
        if exists|r: int| 0 <= r < n && #[trigger] record_named_before(rs, r) {
            let r = choose|r: int| 0 <= r < n && #[trigger] record_named_before(rs, r);
            if r < n - 1 {
                assert(0 <= r < n - 1 && record_named_before(rs, r));
            }
        }
    }
}

proof fn lemma_params_iff(ps: Seq<SpecParam>, n: nat)
    requires
        n <= ps.len(),
    ensures
        has_error(param_diags(ps, n)) == exists|k: int| 0 <= k < n && (#[trigger] ps[k]).length == 0,
    decreases n,
{
    if n > 0 {
        lemma_params_iff(ps, (n - 1) as nat);
        let m = "envelope param `"@ + ps[n - 1].name + "`: `length` debe ser > 0"@;
        lemma_opt_diag(ps[n - 1].length == 0, m);
        let last = if ps[n - 1].length == 0 {
            error_diag(m)
        } else {
            no_diag()
        };
        lemma_has_error_concat(param_diags(ps, (n - 1) as nat), last);
        if exists|k: int| 0 <= k < n && (#[trigger] ps[k]).length == 0 {
            let k = choose|k: int| 0 <= k < n && (#[trigger] ps[k]).length == 0;
            if k < n - 1 {
                assert(0 <= k < n - 1 && ps[k].length == 0);
            }
        }
    }
}

proof fn lemma_contains_iff(rs: Seq<SpecRecord>, cs: Seq<Seq<char>>, n: nat)
    requires
        n <= cs.len(),
    ensures
        has_error(contains_diags(rs, cs, n)) == exists|k: int| 0 <= k < n && !has_record(rs, #[trigger] cs[k]),
    decreases n,
{
    if n > 0 {
        lemma_contains_iff(rs, cs, (n - 1) as nat);
        let m = "envelope `contains`: record desconocido `"@ + cs[n - 1] + "`"@;
        lemma_opt_diag(!has_record(rs, cs[n - 1]), m);
        let last = if !has_record(rs, cs[n - 1]) {
            error_diag(m)
        } else {
            no_diag()
        };
        lemma_has_error_concat(contains_diags(rs, cs, (n - 1) as nat), last);
        if exists|k: int| 0 <= k < n && !has_record(rs, #[trigger] cs[k]) {
            let k = choose|k: int| 0 <= k < n && !has_record(rs, #[trigger] cs[k]);
            if k < n - 1 {
                assert(0 <= k < n - 1 && !has_record(rs, cs[k]));
            }
        }
    }
}

proof fn lemma_template_iff(label: Seq<char>, ps: Seq<SpecParam>, t: Seq<SpecTemplatePart>, n: nat)
    requires
        n <= t.len(),
    ensures
        has_error(template_diags(label, ps, t, n)) == exists|k: int|
            0 <= k < n && (#[trigger] t[k] matches SpecTemplatePart::Field(x) && !has_param(ps, x)),
    decreases n,
{
    if n > 0 {
        lemma_template_iff(label, ps, t, (n - 1) as nat);
        let last = match t[n - 1] {
            SpecTemplatePart::Field(x) => if !has_param(ps, x) {
                error_diag("envelope "@ + label + ": `${"@ + x + "}` no es un param declarado"@)
            } else {
                no_diag()
            },
            SpecTemplatePart::Lit(_) => no_diag(),
        };
        match t[n - 1] {
            SpecTemplatePart::Field(x) => lemma_opt_diag(
                !has_param(ps, x),
                "envelope "@ + label + ": `${"@ + x + "}` no es un param declarado"@,
            ),
            SpecTemplatePart::Lit(_) => {},
        }
        lemma_has_error_concat(template_diags(label, ps, t, (n - 1) as nat), last);
        if exists|k: int|
            0 <= k < n && (#[trigger] t[k] matches SpecTemplatePart::Field(x) && !has_param(ps, x)) {
            let k = choose|k: int|
                0 <= k < n && (#[trigger] t[k] matches SpecTemplatePart::Field(x) && !has_param(ps, x));
            if k < n - 1 {
                assert(0 <= k < n - 1 && (t[k] matches SpecTemplatePart::Field(x) && !has_param(ps, x)));
            }
        }
    }
}

proof fn lemma_envelope_iff(rs: Seq<SpecRecord>, e: SpecEnvelope)
    ensures
        has_error(envelope_diags(rs, e)) == envelope_problem(rs, e),
{
    let a = param_diags(e.params, e.params.len());
    let b = contains_diags(rs, e.contains, e.contains.len());
    let empty_msg = "envelope `contains` no puede estar vacío"@;
    let c = if e.contains.len() == 0 {
        error_diag(empty_msg)
    } else {
        no_diag()
    };
    let h = template_diags("header"@, e.params, e.header, e.header.len());
    let t = template_diags("trailer"@, e.params, e.trailer, e.trailer.len());
    assert(envelope_diags(rs, e) == a + b + c + h + t);
    lemma_has_error_concat(a, b);
    lemma_has_error_concat(a + b, c);
    lemma_has_error_concat(a + b + c, h);
    lemma_has_error_concat(a + b + c + h, t);
    lemma_opt_diag(e.contains.len() == 0, empty_msg);
    lemma_params_iff(e.params, e.params.len());
    lemma_contains_iff(rs, e.contains, e.contains.len());
    lemma_template_iff("header"@, e.params, e.header, e.header.len());
    lemma_template_iff("trailer"@, e.params, e.trailer, e.trailer.len());
}

/// `validate` reports an error exactly when the model has a problem: two
/// records share a name; a field reuses an earlier field's name, starts at
/// position 0, has length 0, ends past its record, has a `fixed` value of
/// another length or `decimals` on a type without them; two fields of a
/// record share a position; a derive's target is no field, or it reads a
/// missing field or one not declared before the target; a check reads a
/// missing field; or the envelope has a param of length 0, contains nothing
/// or a record that does not exist, or a placeholder that names no param.
pub proof fn law_errors_iff_problem(f: SpecBoeFile)
    requires
        positions_in_range(f),
    ensures
        has_error(validate_spec(f)) == model_problem(f),
{
    let rs = f.records;
    let multi = rs.len() > 1;
    let dup = duplicate_record_diags(rs, rs.len());
    let recs = records_diags(rs, multi, rs.len());
    let env = match f.envelope {
        Some(e) => envelope_diags(rs, e),
        None => no_diag(),
    };
    lemma_has_error_concat(dup, recs);
    lemma_has_error_concat(dup + recs, env);
    lemma_duplicate_records_iff(rs, rs.len());
    assert forall|r: int| 0 <= r < rs.len() implies positions_in_range_record(#[trigger] rs[r]) by {
        assert(rs[r].record_length < usize::MAX);
    }
    lemma_records_diags_iff(rs, multi, rs.len());
    match f.envelope {
        Some(e) => lemma_envelope_iff(rs, e),
        None => {},
    }
}

// ── each problem is reported with its message ─────────────────────────────
/// `validate` reports the error `m` about `f`.
proof fn lemma_quiet_single(m: Seq<char>)
    ensures
        !has_warning(error_diag(m)),
        !has_warning(no_diag()),
{
    assert(error_diag(m)[0].0 == DiagLevel::Error);
}

proof fn lemma_fields_quiet(r: SpecRecord, p: Seq<char>, n: nat)
    ensures
        !has_warning(fields_diags(r, p, n)),
    decreases n,
{
    if n > 0 && n <= r.fields.len() {
        lemma_fields_quiet(r, p, (n - 1) as nat);
        let i = n - 1;
        let fl = r.fields[i];
        let d1 = field_dup_diag(r, p, i);
        let d2 = field_at_diag(p, fl);
        let d3 = field_len_diag(p, fl);
        let d4 = field_end_diag(p, fl, r.record_length);
        let d5 = field_fixed_diag(p, fl);
        let d6 = field_decimals_diag(p, fl);
        lemma_quiet_single(p + "duplicate field name `"@ + fl.name + "`"@);
        lemma_quiet_single(field_head(p, fl) + "`: `at` is 1-indexed, got 0"@);
        lemma_quiet_single(field_head(p, fl) + "`: `length` must be > 0"@);
        lemma_quiet_single(
            field_head(p, fl) + "`: end position "@ + nat_text(end_position(fl))
                + " exceeds record_length "@ + nat_text(r.record_length as nat),
        );
        if fl.fixed is Some {
            lemma_quiet_single(
                field_head(p, fl) + "`: fixed value length "@ + nat_text(fl.fixed.unwrap().len())
                    + " does not match declared length "@ + nat_text(fl.length as nat),
            );
        }
        lemma_quiet_single(
            field_head(p, fl) + "`: `decimals` only allowed on signed_amount or unsigned_amount"@,
        );
        lemma_has_warning_concat(d1, d2);
        lemma_has_warning_concat(d1 + d2, d3);
        lemma_has_warning_concat(d1 + d2 + d3, d4);
        lemma_has_warning_concat(d1 + d2 + d3 + d4, d5);
        lemma_has_warning_concat(d1 + d2 + d3 + d4 + d5, d6);
        lemma_has_warning_concat(fields_diags(r, p, (n - 1) as nat), field_diags(r, p, i));
    }
}

proof fn lemma_derive_refs_quiet(
    fs: Seq<SpecField>,
    p: Seq<char>,
    target: Seq<char>,
    t: nat,
    names: Seq<Seq<char>>,
    n: nat,
)
    ensures
        !has_warning(derive_ref_diags(fs, p, target, t, names, n)),
    decreases n,
{
    if n > 0 && n <= names.len() {
        lemma_derive_refs_quiet(fs, p, target, t, names, (n - 1) as nat);
        let unknown = p + "derive `"@ + target + "`: unknown field `"@ + names[n - 1] + "`"@;
        let forward = p + "derive `"@ + target + "`: forward reference to `"@ + names[n - 1]
            + "` (must be declared before target)"@;
        let last = match last_index(fs, names[n - 1]) {
            None => error_diag(unknown),
            Some(idx) => if idx >= t {
                error_diag(forward)
            } else {
                no_diag()
            },
        };
        lemma_quiet_single(unknown);
        lemma_quiet_single(forward);
        lemma_has_warning_concat(derive_ref_diags(fs, p, target, t, names, (n - 1) as nat), last);
    }
}

proof fn lemma_derives_quiet(r: SpecRecord, p: Seq<char>, n: nat)
    ensures
        !has_warning(derives_diags(r, p, n)),
    decreases n,
{
    if n > 0 && n <= r.derives.len() {
        lemma_derives_quiet(r, p, (n - 1) as nat);
        let d = r.derives[n - 1];
        lemma_quiet_single(p + "derive: unknown target field `"@ + d.target + "`"@);
        if last_index(r.fields, d.target) is Some {
            let names = expr_idents(d.expr);
            lemma_derive_refs_quiet(
                r.fields,
                p,
                d.target,
                last_index(r.fields, d.target).unwrap(),
                names,
                names.len(),
            );
        }
        lemma_has_warning_concat(derives_diags(r, p, (n - 1) as nat), derive_diags(r, p, d));
    }
}

proof fn lemma_check_refs_quiet(fs: Seq<SpecField>, p: Seq<char>, code: Seq<char>, names: Seq<Seq<char>>, n: nat)
    ensures
        !has_warning(check_ref_diags(fs, p, code, names, n)),
    decreases n,
{
    if n > 0 && n <= names.len() {
        lemma_check_refs_quiet(fs, p, code, names, (n - 1) as nat);
        let m = p + "check `"@ + code + "`: unknown field `"@ + names[n - 1] + "`"@;
        let last = if last_index(fs, names[n - 1]) is None {
            error_diag(m)
        } else {
            no_diag()
        };
        lemma_quiet_single(m);
        lemma_has_warning_concat(check_ref_diags(fs, p, code, names, (n - 1) as nat), last);
    }
}

proof fn lemma_checks_quiet(r: SpecRecord, p: Seq<char>, n: nat)
    ensures
        !has_warning(checks_diags(r, p, n)),
    decreases n,
{
    if n > 0 && n <= r.checks.len() {
        lemma_checks_quiet(r, p, (n - 1) as nat);
        let c = r.checks[n - 1];
        let names = bool_idents(c.rule);
        lemma_check_refs_quiet(r.fields, p, c.code, names, names.len());
        lemma_has_warning_concat(
            checks_diags(r, p, (n - 1) as nat),
            check_ref_diags(r.fields, p, c.code, names, names.len()),
        );
    }
}

proof fn lemma_dup_records_quiet(rs: Seq<SpecRecord>, n: nat)
    ensures
        !has_warning(duplicate_record_diags(rs, n)),
    decreases n,
{
    if n > 0 && n <= rs.len() {
        lemma_dup_records_quiet(rs, (n - 1) as nat);
        let m = "duplicate record name `"@ + rs[n - 1].name + "`"@;
        let last = if record_named_before(rs, n - 1) {
            error_diag(m)
        } else {
            no_diag()
        };
        lemma_quiet_single(m);
        lemma_has_warning_concat(duplicate_record_diags(rs, (n - 1) as nat), last);
    }
}

proof fn lemma_params_quiet(ps: Seq<SpecParam>, n: nat)
    ensures
        !has_warning(param_diags(ps, n)),
    decreases n,
{
    if n > 0 && n <= ps.len() {
        lemma_params_quiet(ps, (n - 1) as nat);
        let m = "envelope param `"@ + ps[n - 1].name + "`: `length` debe ser > 0"@;
        let last = if ps[n - 1].length == 0 {
            error_diag(m)
        } else {
            no_diag()
        };
        lemma_quiet_single(m);
        lemma_has_warning_concat(param_diags(ps, (n - 1) as nat), last);
    }
}

proof fn lemma_contains_quiet(rs: Seq<SpecRecord>, cs: Seq<Seq<char>>, n: nat)
    ensures
        !has_warning(contains_diags(rs, cs, n)),
    decreases n,
{
    if n > 0 && n <= cs.len() {
        lemma_contains_quiet(rs, cs, (n - 1) as nat);
        let m = "envelope `contains`: record desconocido `"@ + cs[n - 1] + "`"@;
        let last = if !has_record(rs, cs[n - 1]) {
            error_diag(m)
        } else {
            no_diag()
        };
        lemma_quiet_single(m);
        lemma_has_warning_concat(contains_diags(rs, cs, (n - 1) as nat), last);
    }
}

proof fn lemma_template_quiet(label: Seq<char>, ps: Seq<SpecParam>, t: Seq<SpecTemplatePart>, n: nat)
    ensures
        !has_warning(template_diags(label, ps, t, n)),
    decreases n,
{
    if n > 0 && n <= t.len() {
        lemma_template_quiet(label, ps, t, (n - 1) as nat);
        let last = match t[n - 1] {
            SpecTemplatePart::Field(y) => if !has_param(ps, y) {
                error_diag("envelope "@ + label + ": `${"@ + y + "}` no es un param declarado"@)
            } else {
                no_diag()
            },
            SpecTemplatePart::Lit(_) => no_diag(),
        };
        if t[n - 1] is Field {
            lemma_quiet_single(
                "envelope "@ + label + ": `${"@ + t[n - 1]->Field_0 + "}` no es un param declarado"@,
            );
        }
        lemma_quiet_single(Seq::empty());
        lemma_has_warning_concat(template_diags(label, ps, t, (n - 1) as nat), last);
    }
}

proof fn lemma_envelope_quiet(rs: Seq<SpecRecord>, e: SpecEnvelope)
    ensures
        !has_warning(envelope_diags(rs, e)),
{
    let a = param_diags(e.params, e.params.len());
    let b = contains_diags(rs, e.contains, e.contains.len());
    let empty_msg = "envelope `contains` no puede estar vacío"@;
    let c = if e.contains.len() == 0 {
        error_diag(empty_msg)
    } else {
        no_diag()
    };
    let h = template_diags("header"@, e.params, e.header, e.header.len());
    let t = template_diags("trailer"@, e.params, e.trailer, e.trailer.len());
    lemma_params_quiet(e.params, e.params.len());
    lemma_contains_quiet(rs, e.contains, e.contains.len());
    lemma_quiet_single(empty_msg);
    lemma_template_quiet("header"@, e.params, e.header, e.header.len());
    lemma_template_quiet("trailer"@, e.params, e.trailer, e.trailer.len());
    lemma_has_warning_concat(a, b);
    lemma_has_warning_concat(a + b, c);
    lemma_has_warning_concat(a + b + c, h);
    lemma_has_warning_concat(a + b + c + h, t);
}

/// In a model of one record with at least one field, whose fields lie within
/// the record and share no position, `validate` warns exactly when some
/// position of the record is covered by no field; the gap is no error.
pub proof fn law_gap_warned_iff_uncovered(f: SpecBoeFile)
    requires
        f.records.len() == 1,
        f.records[0].fields.len() > 0,
        positions_positive(f.records[0]),
        forall|i: int|
            0 <= i < f.records[0].fields.len() ==> (#[trigger] f.records[0].fields[i]).at
                + f.records[0].fields[i].length - 1 <= f.records[0].record_length,
        forall|i: int, j: int|
            0 <= i < f.records[0].fields.len() && 0 <= j < f.records[0].fields.len() && i != j
                ==> !fields_intersect(#[trigger] f.records[0].fields[i], #[trigger] f.records[0].fields[j]),
    ensures
        has_warning(validate_spec(f)) <==> exists|pos: int|
            1 <= pos <= f.records[0].record_length && !position_covered(f.records[0].fields, pos),
        !has_error(record_layout_diags(f.records[0], record_prefix(f.records[0], false))),
{
    let rs = f.records;
    let rec = rs[0];
    let p = record_prefix(rec, false);
    law_gap_iff_uncovered(rec, p);
    let fd = fields_diags(rec, p, rec.fields.len());
    let ld = record_layout_diags(rec, p);
    let dd = derives_diags(rec, p, rec.derives.len());
    let cd = checks_diags(rec, p, rec.checks.len());
    lemma_fields_quiet(rec, p, rec.fields.len());
    lemma_derives_quiet(rec, p, rec.derives.len());
    lemma_checks_quiet(rec, p, rec.checks.len());
    lemma_has_warning_concat(fd, ld);
    lemma_has_warning_concat(fd + ld, dd);
    lemma_has_warning_concat(fd + ld + dd, cd);
    assert(record_diags(rec, false) == fd + ld + dd + cd);
    assert(records_diags(rs, false, 1) == records_diags(rs, false, 0) + record_diags(rec, false));
    lemma_quiet_single(Seq::empty());
    lemma_has_warning_concat(records_diags(rs, false, 0), record_diags(rec, false));
    let dup = duplicate_record_diags(rs, rs.len());
    let recs = records_diags(rs, false, rs.len());
    let env = match f.envelope {
        Some(e) => envelope_diags(rs, e),
        None => no_diag(),
    };
    lemma_dup_records_quiet(rs, rs.len());
    if f.envelope is Some {
        lemma_envelope_quiet(rs, f.envelope.unwrap());
    }
    lemma_has_warning_concat(dup, recs);
    lemma_has_warning_concat(dup + recs, env);
}

pub open spec fn reported(f: SpecBoeFile, m: Seq<char>) -> bool {
    validate_spec(f).contains((DiagLevel::Error, m))
}

pub(crate) proof fn lemma_contains_concat<A>(a: Seq<A>, b: Seq<A>, x: A)
    ensures
        a.contains(x) ==> (a + b).contains(x),
        b.contains(x) ==> (a + b).contains(x),
{
    if a.contains(x) {
        let k = choose|k: int| 0 <= k < a.len() && a[k] == x;
        assert((a + b)[k] == x);
    }
    if b.contains(x) {
        let k = choose|k: int| 0 <= k < b.len() && b[k] == x;
        assert((a + b)[k + a.len()] == x);
    }
}

pub(crate) proof fn lemma_error_diag_contains(m: Seq<char>)
    ensures
        error_diag(m).contains((DiagLevel::Error, m)),
{
    assert(error_diag(m)[0] == (DiagLevel::Error, m));
}

pub(crate) proof fn lemma_in_fields_diags(r: SpecRecord, p: Seq<char>, n: nat, i: int, x: (DiagLevel, Seq<char>))
    requires
        0 <= i < n <= r.fields.len(),
        field_diags(r, p, i).contains(x),
    ensures
        fields_diags(r, p, n).contains(x),
    decreases n,
{
    lemma_contains_concat(fields_diags(r, p, (n - 1) as nat), field_diags(r, p, n - 1), x);
    if i < n - 1 {
        lemma_in_fields_diags(r, p, (n - 1) as nat, i, x);
    }
}

pub(crate) proof fn lemma_in_derives_diags(r: SpecRecord, p: Seq<char>, n: nat, d: int, x: (DiagLevel, Seq<char>))
    requires
        0 <= d < n <= r.derives.len(),
        derive_diags(r, p, r.derives[d]).contains(x),
    ensures
        derives_diags(r, p, n).contains(x),
    decreases n,
{
    lemma_contains_concat(derives_diags(r, p, (n - 1) as nat), derive_diags(r, p, r.derives[n - 1]), x);
    if d < n - 1 {
        lemma_in_derives_diags(r, p, (n - 1) as nat, d, x);
    }
}

pub(crate) proof fn lemma_in_checks_diags(r: SpecRecord, p: Seq<char>, n: nat, c: int, x: (DiagLevel, Seq<char>))
    requires
        0 <= c < n <= r.checks.len(),
        check_ref_diags(
            r.fields,
            p,
            r.checks[c].code,
            bool_idents(r.checks[c].rule),
            bool_idents(r.checks[c].rule).len(),
        ).contains(x),
    ensures
        checks_diags(r, p, n).contains(x),
    decreases n,
{
    let cc = r.checks[n - 1];
    lemma_contains_concat(
        checks_diags(r, p, (n - 1) as nat),
        check_ref_diags(r.fields, p, cc.code, bool_idents(cc.rule), bool_idents(cc.rule).len()),
        x,
    );
    if c < n - 1 {
        lemma_in_checks_diags(r, p, (n - 1) as nat, c, x);
    }
}

pub(crate) proof fn lemma_in_records_diags(rs: Seq<SpecRecord>, multi: bool, n: nat, r: int, x: (DiagLevel, Seq<char>))
    requires
        0 <= r < n <= rs.len(),
        record_diags(rs[r], multi).contains(x),
    ensures
        records_diags(rs, multi, n).contains(x),
    decreases n,
{
    lemma_contains_concat(records_diags(rs, multi, (n - 1) as nat), record_diags(rs[n - 1], multi), x);
    if r < n - 1 {
        lemma_in_records_diags(rs, multi, (n - 1) as nat, r, x);
    }
}

/// A diagnostic of one part of record `r` is among `validate`'s.
pub(crate) proof fn lemma_record_part_reported(f: SpecBoeFile, r: int, x: (DiagLevel, Seq<char>))
    requires
        0 <= r < f.records.len(),
        ({
            let rec = f.records[r];
            let p = record_prefix(rec, f.records.len() > 1);
            ||| fields_diags(rec, p, rec.fields.len()).contains(x)
            ||| record_layout_diags(rec, p).contains(x)
            ||| derives_diags(rec, p, rec.derives.len()).contains(x)
            ||| checks_diags(rec, p, rec.checks.len()).contains(x)
        }),
    ensures
        validate_spec(f).contains(x),
{
    let rs = f.records;
    let multi = rs.len() > 1;
    let rec = rs[r];
    let p = record_prefix(rec, multi);
    let fd = fields_diags(rec, p, rec.fields.len());
    let ld = record_layout_diags(rec, p);
    let dd = derives_diags(rec, p, rec.derives.len());
    let cd = checks_diags(rec, p, rec.checks.len());
    lemma_contains_concat(fd, ld, x);
    lemma_contains_concat(fd + ld, dd, x);
    lemma_contains_concat(fd + ld + dd, cd, x);
    lemma_in_records_diags(rs, multi, rs.len(), r, x);
    let dup = duplicate_record_diags(rs, rs.len());
    let recs = records_diags(rs, multi, rs.len());
    let env = match f.envelope {
        Some(e) => envelope_diags(rs, e),
        None => no_diag(),
    };
    lemma_contains_concat(dup, recs, x);
    lemma_contains_concat(dup + recs, env, x);
}

/// Each problem of a field is reported with its own message: a reused
/// name, position 0, length 0, an end past the record, a `fixed` value of
/// another length, `decimals` on a type without them.
pub proof fn law_field_problems_reported(f: SpecBoeFile, r: int, i: int)
    requires
        positions_in_range(f),
        0 <= r < f.records.len(),
        0 <= i < f.records[r].fields.len(),
    ensures
        ({
            let rec = f.records[r];
            let p = record_prefix(rec, f.records.len() > 1);
            let fl = rec.fields[i];
            &&& field_named_before(rec.fields, i) ==> reported(
                f,
                p + "duplicate field name `"@ + fl.name + "`"@,
            )
            &&& fl.at == 0 ==> reported(f, p + "field `"@ + fl.name + "`: `at` is 1-indexed, got 0"@)
            &&& fl.length == 0 ==> reported(f, p + "field `"@ + fl.name + "`: `length` must be > 0"@)
            &&& fl.at + fl.length - 1 > rec.record_length ==> reported(
                f,
                p + "field `"@ + fl.name + "`: end position "@ + nat_text(
                    (fl.at + fl.length - 1) as nat,
                ) + " exceeds record_length "@ + nat_text(rec.record_length as nat),
            )
            &&& (fl.fixed matches Some(x) && x.len() != fl.length) ==> reported(
                f,
                p + "field `"@ + fl.name + "`: fixed value length "@ + nat_text(fl.fixed.unwrap().len())
                    + " does not match declared length "@ + nat_text(fl.length as nat),
            )
            &&& (fl.decimals is Some && !allows_decimals(fl.ty)) ==> reported(
                f,
                p + "field `"@ + fl.name
                    + "`: `decimals` only allowed on signed_amount or unsigned_amount"@,
            )
        }),
{
    let rs = f.records;
    let rec = rs[r];
    let p = record_prefix(rec, rs.len() > 1);
    let fl = rec.fields[i];
    assert(rs[r].fields[i].at + rs[r].fields[i].length <= usize::MAX);
    let d1 = field_dup_diag(rec, p, i);
    let d2 = field_at_diag(p, fl);
    let d3 = field_len_diag(p, fl);
    let d4 = field_end_diag(p, fl, rec.record_length);
    let d5 = field_fixed_diag(p, fl);
    let d6 = field_decimals_diag(p, fl);
    assert forall|x: (DiagLevel, Seq<char>)|
        d1.contains(x) || d2.contains(x) || d3.contains(x) || d4.contains(x) || d5.contains(x)
            || d6.contains(x) implies #[trigger] validate_spec(f).contains(x) by {
        lemma_contains_concat(d1, d2, x);
        lemma_contains_concat(d1 + d2, d3, x);
        lemma_contains_concat(d1 + d2 + d3, d4, x);
        lemma_contains_concat(d1 + d2 + d3 + d4, d5, x);
        lemma_contains_concat(d1 + d2 + d3 + d4 + d5, d6, x);
        lemma_in_fields_diags(rec, p, rec.fields.len(), i, x);
        lemma_record_part_reported(f, r, x);
    }
    lemma_error_diag_contains(p + "duplicate field name `"@ + fl.name + "`"@);
    lemma_error_diag_contains(field_head(p, fl) + "`: `at` is 1-indexed, got 0"@);
    lemma_error_diag_contains(field_head(p, fl) + "`: `length` must be > 0"@);
    lemma_error_diag_contains(
        field_head(p, fl) + "`: end position "@ + nat_text(end_position(fl))
            + " exceeds record_length "@ + nat_text(rec.record_length as nat),
    );
    if fl.fixed is Some {
        lemma_error_diag_contains(
            field_head(p, fl) + "`: fixed value length "@ + nat_text(fl.fixed.unwrap().len())
                + " does not match declared length "@ + nat_text(fl.length as nat),
        );
    }
    lemma_error_diag_contains(
        field_head(p, fl) + "`: `decimals` only allowed on signed_amount or unsigned_amount"@,
    );
    assert(field_head(p, fl) == p + "field `"@ + fl.name);
    assert(p + "field `"@ + fl.name + "`: `at` is 1-indexed, got 0"@ =~= field_head(p, fl)
        + "`: `at` is 1-indexed, got 0"@);
    assert(p + "field `"@ + fl.name + "`: `length` must be > 0"@ =~= field_head(p, fl)
        + "`: `length` must be > 0"@);
    if fl.at + fl.length - 1 > rec.record_length {
        assert(end_position(fl) == (fl.at + fl.length - 1) as nat);
        assert(p + "field `"@ + fl.name + "`: end position "@ + nat_text(
            (fl.at + fl.length - 1) as nat,
        ) + " exceeds record_length "@ + nat_text(rec.record_length as nat) =~= field_head(p, fl)
            + "`: end position "@ + nat_text(end_position(fl)) + " exceeds record_length "@
            + nat_text(rec.record_length as nat));
    }
    if fl.fixed is Some {
        assert(p + "field `"@ + fl.name + "`: fixed value length "@ + nat_text(fl.fixed.unwrap().len())
            + " does not match declared length "@ + nat_text(fl.length as nat) =~= field_head(p, fl)
            + "`: fixed value length "@ + nat_text(fl.fixed.unwrap().len())
            + " does not match declared length "@ + nat_text(fl.length as nat));
    }
    assert(p + "field `"@ + fl.name + "`: `decimals` only allowed on signed_amount or unsigned_amount"@
        =~= field_head(p, fl) + "`: `decimals` only allowed on signed_amount or unsigned_amount"@);
}

/// The errors about derive `dv` reading field `n`: a missing field, or one
/// not declared before the target, are reported with their messages.
pub open spec fn derive_ref_reported(
    f: SpecBoeFile,
    p: Seq<char>,
    rec: SpecRecord,
    dv: SpecDerive,
    n: Seq<char>,
) -> bool {
    &&& last_index(rec.fields, n) is None ==> reported(
        f,
        p + "derive `"@ + dv.target + "`: unknown field `"@ + n + "`"@,
    )
    &&& (last_index(rec.fields, n) matches Some(x) && x >= last_index(rec.fields, dv.target).unwrap())
        ==> reported(
        f,
        p + "derive `"@ + dv.target + "`: forward reference to `"@ + n
            + "` (must be declared before target)"@,
    )
}

pub(crate) proof fn lemma_in_derive_refs(
    fs: Seq<SpecField>,
    p: Seq<char>,
    target: Seq<char>,
    t: nat,
    names: Seq<Seq<char>>,
    n: nat,
    k: int,
)
    requires
        0 <= k < n <= names.len(),
    ensures
        last_index(fs, names[k]) is None ==> derive_ref_diags(fs, p, target, t, names, n).contains(
            (DiagLevel::Error, p + "derive `"@ + target + "`: unknown field `"@ + names[k] + "`"@),
        ),
        (last_index(fs, names[k]) matches Some(x) && x >= t) ==> derive_ref_diags(
            fs,
            p,
            target,
            t,
            names,
            n,
        ).contains(
            (
                DiagLevel::Error,
                p + "derive `"@ + target + "`: forward reference to `"@ + names[k]
                    + "` (must be declared before target)"@,
            ),
        ),
    decreases n,
{
    let unknown = p + "derive `"@ + target + "`: unknown field `"@ + names[n - 1] + "`"@;
    let forward = p + "derive `"@ + target + "`: forward reference to `"@ + names[n - 1]
        + "` (must be declared before target)"@;
    let last = match last_index(fs, names[n - 1]) {
        None => error_diag(unknown),
        Some(idx) => if idx >= t {
            error_diag(forward)
        } else {
            no_diag()
        },
    };
    let prev = derive_ref_diags(fs, p, target, t, names, (n - 1) as nat);
    let ku = (DiagLevel::Error, p + "derive `"@ + target + "`: unknown field `"@ + names[k] + "`"@);
    let kf = (
        DiagLevel::Error,
        p + "derive `"@ + target + "`: forward reference to `"@ + names[k]
            + "` (must be declared before target)"@,
    );
    lemma_contains_concat(prev, last, ku);
    lemma_contains_concat(prev, last, kf);
    if k < n - 1 {
        lemma_in_derive_refs(fs, p, target, t, names, (n - 1) as nat, k);
    } else {
        lemma_error_diag_contains(unknown);
        lemma_error_diag_contains(forward);
    }
}

pub(crate) proof fn lemma_in_check_refs(
    fs: Seq<SpecField>,
    p: Seq<char>,
    code: Seq<char>,
    names: Seq<Seq<char>>,
    n: nat,
    k: int,
)
    requires
        0 <= k < n <= names.len(),
        last_index(fs, names[k]) is None,
    ensures
        check_ref_diags(fs, p, code, names, n).contains(
            (DiagLevel::Error, p + "check `"@ + code + "`: unknown field `"@ + names[k] + "`"@),
        ),
    decreases n,
{
    let msg = p + "check `"@ + code + "`: unknown field `"@ + names[n - 1] + "`"@;
    let last = if last_index(fs, names[n - 1]) is None {
        error_diag(msg)
    } else {
        no_diag()
    };
    let x = (DiagLevel::Error, p + "check `"@ + code + "`: unknown field `"@ + names[k] + "`"@);
    lemma_contains_concat(check_ref_diags(fs, p, code, names, (n - 1) as nat), last, x);
    if k < n - 1 {
        lemma_in_check_refs(fs, p, code, names, (n - 1) as nat, k);
    } else {
        lemma_error_diag_contains(msg);
    }
}

pub(crate) proof fn lemma_in_duplicate_records(rs: Seq<SpecRecord>, n: nat, r: int)
    requires
        0 <= r < n <= rs.len(),
        record_named_before(rs, r),
    ensures
        duplicate_record_diags(rs, n).contains(
            (DiagLevel::Error, "duplicate record name `"@ + rs[r].name + "`"@),
        ),
    decreases n,
{
    let msg = "duplicate record name `"@ + rs[n - 1].name + "`"@;
    let last = if record_named_before(rs, n - 1) {
        error_diag(msg)
    } else {
        no_diag()
    };
    let x = (DiagLevel::Error, "duplicate record name `"@ + rs[r].name + "`"@);
    lemma_contains_concat(duplicate_record_diags(rs, (n - 1) as nat), last, x);
    if r < n - 1 {
        lemma_in_duplicate_records(rs, (n - 1) as nat, r);
    } else {
        lemma_error_diag_contains(msg);
    }
}

/// Each problem of a record's names and references is reported with its own
/// message: a record name used by an earlier record, a derive whose target
/// is no field, a derive reading a missing field or one not declared before
/// its target, and a check reading a missing field.
pub proof fn law_reference_problems_reported(f: SpecBoeFile, r: int)
    requires
        0 <= r < f.records.len(),
    ensures
        ({
            let rec = f.records[r];
            let p = record_prefix(rec, f.records.len() > 1);
            &&& record_named_before(f.records, r) ==> reported(
                f,
                "duplicate record name `"@ + rec.name + "`"@,
            )
            &&& forall|d: int|
                0 <= d < rec.derives.len() && last_index(rec.fields, (#[trigger] rec.derives[d]).target)
                    is None ==> reported(
                    f,
                    p + "derive: unknown target field `"@ + rec.derives[d].target + "`"@,
                )
            &&& forall|d: int, k: int|
                0 <= d < rec.derives.len() && 0 <= k < expr_idents(rec.derives[d].expr).len()
                    && last_index(rec.fields, rec.derives[d].target) is Some ==> derive_ref_reported(f, p, rec, #[trigger] rec.derives[d], #[trigger] expr_idents(rec.derives[d].expr)[k])
            &&& forall|c: int, k: int|
                0 <= c < rec.checks.len() && 0 <= k < bool_idents(rec.checks[c].rule).len()
                    && last_index(rec.fields, #[trigger] bool_idents((#[trigger] rec.checks[c]).rule)[k])
                    is None ==> reported(
                    f,
                    p + "check `"@ + rec.checks[c].code + "`: unknown field `"@ + bool_idents(
                        rec.checks[c].rule,
                    )[k] + "`"@,
                )
        }),
{
    let rs = f.records;
    let rec = rs[r];
    let multi = rs.len() > 1;
    let p = record_prefix(rec, multi);
    if record_named_before(rs, r) {
        let x = (DiagLevel::Error, "duplicate record name `"@ + rec.name + "`"@);
        lemma_in_duplicate_records(rs, rs.len(), r);
        let dup = duplicate_record_diags(rs, rs.len());
        let recs = records_diags(rs, multi, rs.len());
        let env = match f.envelope {
            Some(e) => envelope_diags(rs, e),
            None => no_diag(),
        };
        lemma_contains_concat(dup, recs, x);
        lemma_contains_concat(dup + recs, env, x);
    }
    assert forall|d: int|
        0 <= d < rec.derives.len() && last_index(rec.fields, (#[trigger] rec.derives[d]).target)
            is None implies reported(
        f,
        p + "derive: unknown target field `"@ + rec.derives[d].target + "`"@,
    ) by {
        let x = (DiagLevel::Error, p + "derive: unknown target field `"@ + rec.derives[d].target + "`"@);
        lemma_error_diag_contains(p + "derive: unknown target field `"@ + rec.derives[d].target + "`"@);
        lemma_in_derives_diags(rec, p, rec.derives.len(), d, x);
        lemma_record_part_reported(f, r, x);
    }
    assert forall|d: int, k: int|
        0 <= d < rec.derives.len() && 0 <= k < expr_idents(rec.derives[d].expr).len()
            && last_index(rec.fields, rec.derives[d].target) is Some implies derive_ref_reported(f, p, rec, #[trigger] rec.derives[d], #[trigger] expr_idents(rec.derives[d].expr)[k]) by {
        let dv = rec.derives[d];
        let t = last_index(rec.fields, dv.target).unwrap();
        let names = expr_idents(dv.expr);
        lemma_in_derive_refs(rec.fields, p, dv.target, t, names, names.len(), k);
        let xu = (DiagLevel::Error, p + "derive `"@ + dv.target + "`: unknown field `"@ + names[k] + "`"@);
        let xf = (
            DiagLevel::Error,
            p + "derive `"@ + dv.target + "`: forward reference to `"@ + names[k]
                + "` (must be declared before target)"@,
        );
        if last_index(rec.fields, names[k]) is None {
            lemma_in_derives_diags(rec, p, rec.derives.len(), d, xu);
            lemma_record_part_reported(f, r, xu);
        }
        if last_index(rec.fields, names[k]) matches Some(x) && x >= t {
            lemma_in_derives_diags(rec, p, rec.derives.len(), d, xf);
            lemma_record_part_reported(f, r, xf);
        }
    }
    assert forall|c: int, k: int|
        0 <= c < rec.checks.len() && 0 <= k < bool_idents(rec.checks[c].rule).len() && last_index(
            rec.fields,
            #[trigger] bool_idents((#[trigger] rec.checks[c]).rule)[k],
        ) is None implies reported(
        f,
        p + "check `"@ + rec.checks[c].code + "`: unknown field `"@ + bool_idents(
            rec.checks[c].rule,
        )[k] + "`"@,
    ) by {
        let names = bool_idents(rec.checks[c].rule);
        let x = (
            DiagLevel::Error,
            p + "check `"@ + rec.checks[c].code + "`: unknown field `"@ + names[k] + "`"@,
        );
        lemma_in_check_refs(rec.fields, p, rec.checks[c].code, names, names.len(), k);
        lemma_in_checks_diags(rec, p, rec.checks.len(), c, x);
        lemma_record_part_reported(f, r, x);
    }
}

pub(crate) proof fn lemma_in_params(ps: Seq<SpecParam>, n: nat, k: int)
    requires
        0 <= k < n <= ps.len(),
        ps[k].length == 0,
    ensures
        param_diags(ps, n).contains(
            (DiagLevel::Error, "envelope param `"@ + ps[k].name + "`: `length` debe ser > 0"@),
        ),
    decreases n,
{
    let m = "envelope param `"@ + ps[n - 1].name + "`: `length` debe ser > 0"@;
    let last = if ps[n - 1].length == 0 {
        error_diag(m)
    } else {
        no_diag()
    };
    let x = (DiagLevel::Error, "envelope param `"@ + ps[k].name + "`: `length` debe ser > 0"@);
    lemma_contains_concat(param_diags(ps, (n - 1) as nat), last, x);
    if k < n - 1 {
        lemma_in_params(ps, (n - 1) as nat, k);
    } else {
        lemma_error_diag_contains(m);
    }
}

pub(crate) proof fn lemma_in_contains(rs: Seq<SpecRecord>, cs: Seq<Seq<char>>, n: nat, k: int)
    requires
        0 <= k < n <= cs.len(),
        !has_record(rs, cs[k]),
    ensures
        contains_diags(rs, cs, n).contains(
            (DiagLevel::Error, "envelope `contains`: record desconocido `"@ + cs[k] + "`"@),
        ),
    decreases n,
{
    let m = "envelope `contains`: record desconocido `"@ + cs[n - 1] + "`"@;
    let last = if !has_record(rs, cs[n - 1]) {
        error_diag(m)
    } else {
        no_diag()
    };
    let x = (DiagLevel::Error, "envelope `contains`: record desconocido `"@ + cs[k] + "`"@);
    lemma_contains_concat(contains_diags(rs, cs, (n - 1) as nat), last, x);
    if k < n - 1 {
        lemma_in_contains(rs, cs, (n - 1) as nat, k);
    } else {
        lemma_error_diag_contains(m);
    }
}

pub(crate) proof fn lemma_in_template(label: Seq<char>, ps: Seq<SpecParam>, t: Seq<SpecTemplatePart>, n: nat, k: int, x: Seq<char>)
    requires
        0 <= k < n <= t.len(),
        t[k] == SpecTemplatePart::Field(x),
        !has_param(ps, x),
    ensures
        template_diags(label, ps, t, n).contains(
            (DiagLevel::Error, "envelope "@ + label + ": `${"@ + x + "}` no es un param declarado"@),
        ),
    decreases n,
{
    let last = match t[n - 1] {
        SpecTemplatePart::Field(y) => if !has_param(ps, y) {
            error_diag("envelope "@ + label + ": `${"@ + y + "}` no es un param declarado"@)
        } else {
            no_diag()
        },
        SpecTemplatePart::Lit(_) => no_diag(),
    };
    let e = (DiagLevel::Error, "envelope "@ + label + ": `${"@ + x + "}` no es un param declarado"@);
    lemma_contains_concat(template_diags(label, ps, t, (n - 1) as nat), last, e);
    if k < n - 1 {
        lemma_in_template(label, ps, t, (n - 1) as nat, k, x);
    } else {
        lemma_error_diag_contains("envelope "@ + label + ": `${"@ + x + "}` no es un param declarado"@);
    }
}

/// Each problem of the envelope is reported with its own message: a param
/// of length 0, a contained record that does not exist, nothing contained,
/// and a placeholder of the header or the trailer that names no param.
pub proof fn law_envelope_problems_reported(f: SpecBoeFile, e: SpecEnvelope)
    requires
        f.envelope == Some(e),
    ensures
        forall|k: int|
            0 <= k < e.params.len() && (#[trigger] e.params[k]).length == 0 ==> reported(
                f,
                "envelope param `"@ + e.params[k].name + "`: `length` debe ser > 0"@,
            ),
        forall|k: int|
            0 <= k < e.contains.len() && !has_record(f.records, #[trigger] e.contains[k]) ==> reported(
                f,
                "envelope `contains`: record desconocido `"@ + e.contains[k] + "`"@,
            ),
        e.contains.len() == 0 ==> reported(f, "envelope `contains` no puede estar vacío"@),
        forall|k: int|
            0 <= k < e.header.len() && (#[trigger] e.header[k]) is Field && !has_param(
                e.params,
                e.header[k]->Field_0,
            ) ==> reported(f, "envelope header: `${"@ + e.header[k]->Field_0 + "}` no es un param declarado"@),
        forall|k: int|
            0 <= k < e.trailer.len() && (#[trigger] e.trailer[k]) is Field && !has_param(
                e.params,
                e.trailer[k]->Field_0,
            ) ==> reported(f, "envelope trailer: `${"@ + e.trailer[k]->Field_0 + "}` no es un param declarado"@),
{
    let rs = f.records;
    let a = param_diags(e.params, e.params.len());
    let b = contains_diags(rs, e.contains, e.contains.len());
    let empty_msg = "envelope `contains` no puede estar vacío"@;
    let c = if e.contains.len() == 0 {
        error_diag(empty_msg)
    } else {
        no_diag()
    };
    let h = template_diags("header"@, e.params, e.header, e.header.len());
    let t = template_diags("trailer"@, e.params, e.trailer, e.trailer.len());
    let env = envelope_diags(rs, e);
    assert(env == a + b + c + h + t);
    let dup = duplicate_record_diags(rs, rs.len());
    let recs = records_diags(rs, rs.len() > 1, rs.len());
    assert forall|x: (DiagLevel, Seq<char>)|
        a.contains(x) || b.contains(x) || c.contains(x) || h.contains(x) || t.contains(x) implies #[trigger] validate_spec(f).contains(x) by {
        lemma_contains_concat(a, b, x);
        lemma_contains_concat(a + b, c, x);
        lemma_contains_concat(a + b + c, h, x);
        lemma_contains_concat(a + b + c + h, t, x);
        lemma_contains_concat(dup + recs, env, x);
    }
    assert forall|k: int|
        0 <= k < e.params.len() && (#[trigger] e.params[k]).length == 0 implies reported(
        f,
        "envelope param `"@ + e.params[k].name + "`: `length` debe ser > 0"@,
    ) by {
        lemma_in_params(e.params, e.params.len(), k);
    }
    assert forall|k: int|
        0 <= k < e.contains.len() && !has_record(f.records, #[trigger] e.contains[k]) implies reported(
        f,
        "envelope `contains`: record desconocido `"@ + e.contains[k] + "`"@,
    ) by {
        lemma_in_contains(rs, e.contains, e.contains.len(), k);
    }
    if e.contains.len() == 0 {
        lemma_error_diag_contains(empty_msg);
    }
    assert forall|k: int|
        0 <= k < e.header.len() && (#[trigger] e.header[k]) is Field && !has_param(
            e.params,
            e.header[k]->Field_0,
        ) implies reported(f, "envelope header: `${"@ + e.header[k]->Field_0 + "}` no es un param declarado"@) by {
        let x = e.header[k]->Field_0;
        assert(e.header[k] == SpecTemplatePart::Field(x));
        lemma_in_template("header"@, e.params, e.header, e.header.len(), k, x);
        assert("envelope "@ + "header"@ + ": `${"@ + x + "}` no es un param declarado"@
            =~= "envelope header: `${"@ + x + "}` no es un param declarado"@) by {
            reveal_strlit("envelope ");
            reveal_strlit("header");
            reveal_strlit("envelope header: `${");
            reveal_strlit(": `${");
        }
    }
    assert forall|k: int|
        0 <= k < e.trailer.len() && (#[trigger] e.trailer[k]) is Field && !has_param(
            e.params,
            e.trailer[k]->Field_0,
        ) implies reported(f, "envelope trailer: `${"@ + e.trailer[k]->Field_0 + "}` no es un param declarado"@) by {
        let x = e.trailer[k]->Field_0;
        assert(e.trailer[k] == SpecTemplatePart::Field(x));
        lemma_in_template("trailer"@, e.params, e.trailer, e.trailer.len(), k, x);
        assert("envelope "@ + "trailer"@ + ": `${"@ + x + "}` no es un param declarado"@
            =~= "envelope trailer: `${"@ + x + "}` no es un param declarado"@) by {
            reveal_strlit("envelope ");
            reveal_strlit("trailer");
            reveal_strlit("envelope trailer: `${");
            reveal_strlit(": `${");
        }
    }
}

// ── names an expression mentions ────────────────────────────────────────
/// Whether expression `e` mentions field `n` anywhere in its tree: as an
/// operand, under an operator, or in an argument of a builtin call.
pub open spec fn mentions(e: SpecExpr, n: Seq<char>) -> bool
    decreases e, 0nat,
{
    match e {
        SpecExpr::Ident(m) => m == n,
        SpecExpr::Int(_) => false,
        SpecExpr::Str(_) => false,
        SpecExpr::Bin(a, _, b) => mentions(*a, n) || mentions(*b, n),
        SpecExpr::Call(_, args) => mentions_some(args, n, args.len()),
    }
}

/// Whether one of the first `k` arguments mentions `n`.
pub open spec fn mentions_some(args: Seq<SpecExpr>, n: Seq<char>, k: nat) -> bool
    decreases args, k,
{
    if k == 0 || k > args.len() {
        false
    } else {
        mentions_some(args, n, (k - 1) as nat) || mentions(args[k - 1], n)
    }
}

/// Whether a check rule mentions `n` on either side of any of its comparisons.
pub open spec fn rule_mentions(b: SpecBoolExpr, n: Seq<char>) -> bool
    decreases b,
{
    match b {
        SpecBoolExpr::Cmp(x, _, y) => mentions(x, n) || mentions(y, n),
        SpecBoolExpr::Implies(l, r) => rule_mentions(*l, n) || rule_mentions(*r, n),
    }
}

proof fn lemma_concat_contains_iff<A>(a: Seq<A>, b: Seq<A>, x: A)
    ensures
        (a + b).contains(x) <==> (a.contains(x) || b.contains(x)),
{
    lemma_contains_concat(a, b, x);
    if (a + b).contains(x) {
        let k = choose|k: int| 0 <= k < (a + b).len() && (a + b)[k] == x;
        if k < a.len() {
            assert(a[k] == x);
        } else {
            assert(b[k - a.len()] == x);
        }
    }
}

proof fn lemma_mentions(e: SpecExpr, n: Seq<char>)
    ensures
        expr_idents(e).contains(n) <==> mentions(e, n),
    decreases e, 0nat,
{
    match e {
        SpecExpr::Ident(m) => {
            assert(expr_idents(e)[0] == m);
        },
        SpecExpr::Int(_) => {},
        SpecExpr::Str(_) => {},
        SpecExpr::Bin(a, _, b) => {
            lemma_mentions(*a, n);
            lemma_mentions(*b, n);
            lemma_concat_contains_iff(expr_idents(*a), expr_idents(*b), n);
        },
        SpecExpr::Call(_, args) => {
            lemma_mentions_some(args, n, args.len());
        },
    }
}

proof fn lemma_mentions_some(args: Seq<SpecExpr>, n: Seq<char>, k: nat)
    ensures
        args_idents(args, k).contains(n) <==> mentions_some(args, n, k),
    decreases args, k,
{
    if k == 0 || k > args.len() {
    } else {
        lemma_mentions_some(args, n, (k - 1) as nat);
        lemma_mentions(args[k - 1], n);
        lemma_concat_contains_iff(args_idents(args, (k - 1) as nat), expr_idents(args[k - 1]), n);
    }
}

proof fn lemma_rule_mentions(b: SpecBoolExpr, n: Seq<char>)
    ensures
        bool_idents(b).contains(n) <==> rule_mentions(b, n),
    decreases b,
{
    match b {
        SpecBoolExpr::Cmp(x, _, y) => {
            lemma_mentions(x, n);
            lemma_mentions(y, n);
            lemma_concat_contains_iff(expr_idents(x), expr_idents(y), n);
        },
        SpecBoolExpr::Implies(l, r) => {
            lemma_rule_mentions(*l, n);
            lemma_rule_mentions(*r, n);
            lemma_concat_contains_iff(bool_idents(*l), bool_idents(*r), n);
        },
    }
}

/// Every field a derive mentions, at any depth of its expression (inside
/// `max`/`min` arguments too), is checked: when the target exists, a
/// mentioned field that does not exist is reported as unknown, and one not
/// declared before the target as a forward reference.
pub proof fn law_derive_mentions_checked(f: SpecBoeFile, r: int, d: int, n: Seq<char>)
    requires
        0 <= r < f.records.len(),
        0 <= d < f.records[r].derives.len(),
        last_index(f.records[r].fields, f.records[r].derives[d].target) is Some,
        mentions(f.records[r].derives[d].expr, n),
    ensures
        ({
            let rec = f.records[r];
            let p = record_prefix(rec, f.records.len() > 1);
            let dv = rec.derives[d];
            &&& last_index(rec.fields, n) is None ==> reported(
                f,
                p + "derive `"@ + dv.target + "`: unknown field `"@ + n + "`"@,
            )
            &&& (last_index(rec.fields, n) matches Some(x) && x >= last_index(rec.fields, dv.target).unwrap())
                ==> reported(
                f,
                p + "derive `"@ + dv.target + "`: forward reference to `"@ + n
                    + "` (must be declared before target)"@,
            )
        }),
{
    let rec = f.records[r];
    let dv = rec.derives[d];
    lemma_mentions(dv.expr, n);
    let k = choose|k: int| 0 <= k < expr_idents(dv.expr).len() && expr_idents(dv.expr)[k] == n;
    law_reference_problems_reported(f, r);
    assert(derive_ref_reported(
        f,
        record_prefix(rec, f.records.len() > 1),
        rec,
        rec.derives[d],
        expr_idents(rec.derives[d].expr)[k],
    ));
}

/// Every field a check rule mentions, on either side of any comparison and
/// at any depth, is checked: one that does not exist is reported as unknown.
pub proof fn law_check_mentions_checked(f: SpecBoeFile, r: int, c: int, n: Seq<char>)
    requires
        0 <= r < f.records.len(),
        0 <= c < f.records[r].checks.len(),
        rule_mentions(f.records[r].checks[c].rule, n),
        last_index(f.records[r].fields, n) is None,
    ensures
        reported(
            f,
            record_prefix(f.records[r], f.records.len() > 1) + "check `"@ + f.records[r].checks[c].code
                + "`: unknown field `"@ + n + "`"@,
        ),
{
    let rec = f.records[r];
    lemma_rule_mentions(rec.checks[c].rule, n);
    let k = choose|k: int|
        0 <= k < bool_idents(rec.checks[c].rule).len() && bool_idents(rec.checks[c].rule)[k] == n;
    law_reference_problems_reported(f, r);
    assert(last_index(rec.fields, bool_idents(rec.checks[c].rule)[k]) is None);
}

/// Decimals are accepted on the amount types only: on an alpha, alphanumeric
/// or number field they are an error with its message, on a signed, envelope
/// or unsigned amount (or when absent) they are no diagnostic at all.
pub proof fn law_decimals_only_on_amounts(p: Seq<char>, fl: SpecField)
    ensures
        (fl.decimals is Some && (fl.ty == FieldType::Alpha || fl.ty == FieldType::Alphanumeric || fl.ty
            == FieldType::Number)) ==> field_decimals_diag(p, fl) == error_diag(
            p + "field `"@ + fl.name + "`: `decimals` only allowed on signed_amount or unsigned_amount"@,
        ),
        (fl.decimals is None || fl.ty == FieldType::SignedAmount || fl.ty == FieldType::SignedAmountN
            || fl.ty == FieldType::UnsignedAmount) ==> field_decimals_diag(p, fl) == no_diag(),
{
    assert(p + "field `"@ + fl.name + "`: `decimals` only allowed on signed_amount or unsigned_amount"@
        =~= field_head(p, fl) + "`: `decimals` only allowed on signed_amount or unsigned_amount"@);
}

} // verus!
