//! Parser for the .boe DSL: text → tokens → `BoeFile`.
//!
//! Every parsing function is specified by a spec function over the token
//! sequence; together they are the grammar of the language.
use vstd::prelude::*;

use crate::ast::{
    Align, BinOp, BoeFile, BoolExpr, BuiltinFn, Check, CmpOp, Derive, Encoding, Envelope, Expr,
    Field, FieldType, LineEnding, Model, Pad, Param, Record, Severity, SpecBoeFile, SpecBoolExpr,
    SpecCheck, SpecDerive, SpecEnvelope, SpecExpr, SpecField, SpecModel, SpecParam, SpecRecord,
    SpecTemplatePart, Template, TemplatePart, Usage,
};
use crate::lexer::{ident_end, is_ident_char, is_ident_start, lemma_ident_end, lex};
use crate::lexer::{toks_view, SpecTok, Sym, Tok};
use crate::text::{
    all_digits, digits_value, chars_of, digits_number, number_of_digits, string_from, string_of, string_of_range, texts,
};

verus! {

#[derive(Debug)]
pub struct ParseError(pub String);

impl ParseError {
    /// The error message.
    pub fn to_string(&self) -> (res: String)
        ensures
            res@ == self.0@,
    {
        self.0.clone()
    }
}

fn perr(msg: &str) -> (e: ParseError)
    ensures
        e.0@ == msg@,
{
    ParseError(string_from(msg))
}

// ── token tests ─────────────────────────────────────────────────────────

pub open spec fn sym_is(t: Seq<SpecTok>, p: int, s: Sym) -> bool {
    0 <= p < t.len() && t[p] == SpecTok::Sym(s)
}

pub open spec fn word_is(t: Seq<SpecTok>, p: int, w: Seq<char>) -> bool {
    0 <= p < t.len() && t[p] == SpecTok::Ident(w)
}

/// A parse step that did not move forward, or moved past the end.
pub open spec fn bad_step(t: Seq<SpecTok>, p: int, q: int) -> bool {
    q <= p || q > t.len()
}

fn ident_is(n: &Vec<char>, w: &str) -> (b: bool)
    ensures
        b == (n@ == w@),
{
    let wc = chars_of(w);
    if n.len() != wc.len() {
        return false;
    }
    let mut i: usize = 0;
    while i < n.len()
        invariant
            n@.len() == wc@.len(),
            wc@ == w@,
            0 <= i <= n@.len(),
            forall|k: int| 0 <= k < i ==> n@[k] == wc@[k],
        decreases n@.len() - i,
    {
        if n[i] != wc[i] {
            return false;
        }
        i = i + 1;
    }
    assert(n@ =~= w@);
    true
}

fn sym_at(toks: &Vec<Tok>, p: usize, s: Sym) -> (b: bool)
    ensures
        b == sym_is(toks_view(toks@), p as int, s),
{
    if p < toks.len() {
        match &toks[p] {
            Tok::Sym(x) => *x == s,
            _ => false,
        }
    } else {
        false
    }
}

fn word_at(toks: &Vec<Tok>, p: usize, w: &str) -> (b: bool)
    ensures
        b == word_is(toks_view(toks@), p as int, w@),
{
    if p < toks.len() {
        match &toks[p] {
            Tok::Ident(n) => ident_is(n, w),
            _ => false,
        }
    } else {
        false
    }
}

// ── expressions ─────────────────────────────────────────────────────────

pub open spec fn add_op(t: Seq<SpecTok>, p: int) -> Option<BinOp> {
    if sym_is(t, p, Sym::Plus) {
        Some(BinOp::Add)
    } else if sym_is(t, p, Sym::Minus) {
        Some(BinOp::Sub)
    } else {
        None
    }
}

pub open spec fn mul_op(t: Seq<SpecTok>, p: int) -> Option<BinOp> {
    if sym_is(t, p, Sym::Star) {
        Some(BinOp::Mul)
    } else if sym_is(t, p, Sym::Slash) {
        Some(BinOp::Div)
    } else {
        None
    }
}

pub open spec fn comparison_op(t: Seq<SpecTok>, p: int) -> Option<CmpOp> {
    if sym_is(t, p, Sym::EqEq) {
        Some(CmpOp::Eq)
    } else if sym_is(t, p, Sym::NotEq) {
        Some(CmpOp::Ne)
    } else if sym_is(t, p, Sym::GtEq) {
        Some(CmpOp::Ge)
    } else if sym_is(t, p, Sym::LtEq) {
        Some(CmpOp::Le)
    } else if sym_is(t, p, Sym::Gt) {
        Some(CmpOp::Gt)
    } else if sym_is(t, p, Sym::Lt) {
        Some(CmpOp::Lt)
    } else {
        None
    }
}

/// What a parse step gives: the value and the position after it, or the
/// error message.
pub type Parsed<X> = Result<(X, int), Seq<char>>;

/// The message of a step that would not move forward; parse steps always
/// consume input, so no parse reaches it.
pub open spec fn no_progress() -> Seq<char> {
    "parser: no progress"@
}

/// `expr = add_expr`
pub open spec fn p_expr(t: Seq<SpecTok>, p: int) -> Parsed<SpecExpr>
    decreases t.len() - p, 3nat,
{
    p_add(t, p)
}

/// `add_expr = mul_expr (("+" | "-") mul_expr)*`, left-associative.
pub open spec fn p_add(t: Seq<SpecTok>, p: int) -> Parsed<SpecExpr>
    decreases t.len() - p, 2nat,
{
    match p_mul(t, p) {
        Err(m) => Err(m),
        Ok((e, q)) => if bad_step(t, p, q) {
            Err(no_progress())
        } else {
            p_add_rest(t, e, q)
        },
    }
}

pub open spec fn p_add_rest(t: Seq<SpecTok>, acc: SpecExpr, p: int) -> Parsed<SpecExpr>
    decreases t.len() - p, 2nat,
{
    match add_op(t, p) {
        None => Ok((acc, p)),
        Some(op) => match p_mul(t, p + 1) {
            Err(m) => Err(m),
            Ok((rhs, q)) => if bad_step(t, p, q) {
                Err(no_progress())
            } else {
                p_add_rest(t, SpecExpr::Bin(Box::new(acc), op, Box::new(rhs)), q)
            },
        },
    }
}

/// `mul_expr = atom (("*" | "/") atom)*`, left-associative.
pub open spec fn p_mul(t: Seq<SpecTok>, p: int) -> Parsed<SpecExpr>
    decreases t.len() - p, 1nat,
{
    match p_atom(t, p) {
        Err(m) => Err(m),
        Ok((e, q)) => if bad_step(t, p, q) {
            Err(no_progress())
        } else {
            p_mul_rest(t, e, q)
        },
    }
}

pub open spec fn p_mul_rest(t: Seq<SpecTok>, acc: SpecExpr, p: int) -> Parsed<SpecExpr>
    decreases t.len() - p, 1nat,
{
    match mul_op(t, p) {
        None => Ok((acc, p)),
        Some(op) => match p_atom(t, p + 1) {
            Err(m) => Err(m),
            Ok((rhs, q)) => if bad_step(t, p, q) {
                Err(no_progress())
            } else {
                p_mul_rest(t, SpecExpr::Bin(Box::new(acc), op, Box::new(rhs)), q)
            },
        },
    }
}

pub open spec fn builtin_named(n: Seq<char>) -> Option<BuiltinFn> {
    if n == "max"@ {
        Some(BuiltinFn::Max)
    } else if n == "min"@ {
        Some(BuiltinFn::Min)
    } else {
        None
    }
}

/// `atom = int | string | ident "(" args | ident | "(" expr ")"`
pub open spec fn p_atom(t: Seq<SpecTok>, p: int) -> Parsed<SpecExpr>
    decreases t.len() - p, 0nat,
{
    if p < 0 || p >= t.len() {
        Err("expression: unexpected end of input"@)
    } else {
        match t[p] {
            SpecTok::Int(d) => match number_of_digits(d, i64::MAX as nat) {
                Some(v) => Ok((SpecExpr::Int(v as i64), p + 1)),
                None => Err("int: invalid or out of range"@),
            },
            SpecTok::Str(s) => Ok((SpecExpr::Str(s), p + 1)),
            SpecTok::Ident(n) => if sym_is(t, p + 1, Sym::LParen) {
                match builtin_named(n) {
                    None => Err("unknown function: "@ + n),
                    Some(f) => match p_args(t, p + 2) {
                        Err(m) => Err(m),
                        Ok((args, q)) => if bad_step(t, p, q) {
                            Err(no_progress())
                        } else {
                            Ok((SpecExpr::Call(f, args), q))
                        },
                    },
                }
            } else {
                Ok((SpecExpr::Ident(n), p + 1))
            },
            SpecTok::Sym(Sym::LParen) => match p_expr(t, p + 1) {
                Err(m) => Err(m),
                Ok((e, q)) => if bad_step(t, p, q) {
                    Err(no_progress())
                } else if sym_is(t, q, Sym::RParen) {
                    Ok((e, q + 1))
                } else {
                    Err("expected `)`"@)
                },
            },
            _ => Err("expression: unexpected token"@),
        }
    }
}

/// `args = expr ("," expr)* ")"`
pub open spec fn p_args(t: Seq<SpecTok>, p: int) -> Parsed<Seq<SpecExpr>>
    decreases t.len() - p, 4nat,
{
    match p_expr(t, p) {
        Err(m) => Err(m),
        Ok((e, q)) => if bad_step(t, p, q) {
            Err(no_progress())
        } else {
            p_args_rest(t, seq![e], q)
        },
    }
}

pub open spec fn p_args_rest(t: Seq<SpecTok>, acc: Seq<SpecExpr>, p: int) -> Parsed<Seq<SpecExpr>>
    decreases t.len() - p, 4nat,
{
    if sym_is(t, p, Sym::Comma) {
        match p_expr(t, p + 1) {
            Err(m) => Err(m),
            Ok((e, q)) => if bad_step(t, p, q) {
                Err(no_progress())
            } else {
                p_args_rest(t, acc.push(e), q)
            },
        }
    } else if sym_is(t, p, Sym::RParen) {
        Ok((acc, p + 1))
    } else {
        Err("function call: expected `,` or `)`"@)
    }
}

/// `comparison = expr comparison_op expr`
pub open spec fn p_comparison(t: Seq<SpecTok>, p: int) -> Parsed<SpecBoolExpr>
    decreases t.len() - p, 5nat,
{
    match p_expr(t, p) {
        Err(m) => Err(m),
        Ok((l, q)) => if bad_step(t, p, q) {
            Err(no_progress())
        } else {
            match comparison_op(t, q) {
                None => Err("comparison: missing op"@),
                Some(op) => match p_expr(t, q + 1) {
                    Err(m) => Err(m),
                    Ok((r, q2)) => if bad_step(t, q, q2) {
                        Err(no_progress())
                    } else {
                        Ok((SpecBoolExpr::Cmp(l, op, r), q2))
                    },
                },
            }
        },
    }
}

/// `bool_expr = comparison ("implies" bool_expr)?`: `implies` associates to the right.
pub open spec fn p_bool(t: Seq<SpecTok>, p: int) -> Parsed<SpecBoolExpr>
    decreases t.len() - p, 6nat,
{
    match p_comparison(t, p) {
        Err(m) => Err(m),
        Ok((c, q)) => if bad_step(t, p, q) {
            Err(no_progress())
        } else if word_is(t, q, "implies"@) {
            match p_bool(t, q + 1) {
                Err(m) => Err(m),
                Ok((r, q2)) => if bad_step(t, q, q2) {
                    Err(no_progress())
                } else {
                    Ok((SpecBoolExpr::Implies(Box::new(c), Box::new(r)), q2))
                },
            }
        } else {
            Ok((c, q))
        }
    }
}

pub open spec fn expr_res(
    r: Result<(Expr, usize), ParseError>,
    s: Parsed<SpecExpr>,
    t: Seq<SpecTok>,
    p: int,
) -> bool {
    match r {
        Ok((e, q)) => s == Ok::<(SpecExpr, int), Seq<char>>((e@, q as int)) && p < q <= t.len(),
        Err(e) => s == Err::<(SpecExpr, int), Seq<char>>(e.0@),
    }
}

pub open spec fn bool_res(
    r: Result<(BoolExpr, usize), ParseError>,
    s: Parsed<SpecBoolExpr>,
    t: Seq<SpecTok>,
    p: int,
) -> bool {
    match r {
        Ok((e, q)) => s == Ok::<(SpecBoolExpr, int), Seq<char>>((e@, q as int)) && p < q <= t.len(),
        Err(e) => s == Err::<(SpecBoolExpr, int), Seq<char>>(e.0@),
    }
}

pub open spec fn exprs_view(v: Seq<Expr>) -> Seq<SpecExpr> {
    v.map_values(|e: Expr| e@)
}

fn parse_expr(toks: &Vec<Tok>, p: usize) -> (res: Result<(Expr, usize), ParseError>)
    ensures
        expr_res(res, p_expr(toks_view(toks@), p as int), toks_view(toks@), p as int),
    decreases toks@.len() - p, 3nat,
{
    parse_add(toks, p)
}

fn parse_add(toks: &Vec<Tok>, p: usize) -> (res: Result<(Expr, usize), ParseError>)
    ensures
        expr_res(res, p_add(toks_view(toks@), p as int), toks_view(toks@), p as int),
    decreases toks@.len() - p, 2nat,
{
    let ghost t = toks_view(toks@);
    let (mut acc, mut q) = match parse_mul(toks, p) {
        Ok(x) => x,
        Err(e) => return Err(e),
    };
    while q < toks.len() && (sym_at(toks, q, Sym::Plus) || sym_at(toks, q, Sym::Minus))
        invariant
            t == toks_view(toks@),
            t.len() == toks@.len(),
            p < q <= toks@.len(),
            p_add(t, p as int) == p_add_rest(t, acc@, q as int),
        decreases toks@.len() - q,
    {
        let op = if sym_at(toks, q, Sym::Plus) {
            BinOp::Add
        } else {
            BinOp::Sub
        };
        match parse_mul(toks, q + 1) {
            Ok((rhs, q2)) => {
                acc = Expr::Bin(Box::new(acc), op, Box::new(rhs));
                q = q2;
            },
            Err(e) => return Err(e),
        }
    }
    Ok((acc, q))
}

fn parse_mul(toks: &Vec<Tok>, p: usize) -> (res: Result<(Expr, usize), ParseError>)
    ensures
        expr_res(res, p_mul(toks_view(toks@), p as int), toks_view(toks@), p as int),
    decreases toks@.len() - p, 1nat,
{
    let ghost t = toks_view(toks@);
    let (mut acc, mut q) = match parse_atom(toks, p) {
        Ok(x) => x,
        Err(e) => return Err(e),
    };
    while q < toks.len() && (sym_at(toks, q, Sym::Star) || sym_at(toks, q, Sym::Slash))
        invariant
            t == toks_view(toks@),
            t.len() == toks@.len(),
            p < q <= toks@.len(),
            p_mul(t, p as int) == p_mul_rest(t, acc@, q as int),
        decreases toks@.len() - q,
    {
        let op = if sym_at(toks, q, Sym::Star) {
            BinOp::Mul
        } else {
            BinOp::Div
        };
        match parse_atom(toks, q + 1) {
            Ok((rhs, q2)) => {
                acc = Expr::Bin(Box::new(acc), op, Box::new(rhs));
                q = q2;
            },
            Err(e) => return Err(e),
        }
    }
    Ok((acc, q))
}

fn parse_atom(toks: &Vec<Tok>, p: usize) -> (res: Result<(Expr, usize), ParseError>)
    ensures
        expr_res(res, p_atom(toks_view(toks@), p as int), toks_view(toks@), p as int),
    decreases toks@.len() - p, 0nat,
{
    let ghost t = toks_view(toks@);
    if p >= toks.len() {
        return Err(perr("expression: unexpected end of input"));
    }
    assert(t[p as int] == toks@[p as int]@);
    match &toks[p] {
        Tok::Int(d) => match digits_number(d, 9223372036854775807u64) {
            Some(v) => Ok((Expr::Int(v as i64), p + 1)),
            None => Err(perr("int: invalid or out of range")),
        },
        Tok::Str(s) => Ok((Expr::Str(string_of(s)), p + 1)),
        Tok::Ident(n) => {
            if sym_at(toks, p + 1, Sym::LParen) {
                let f = if ident_is(n, "max") {
                    BuiltinFn::Max
                } else if ident_is(n, "min") {
                    BuiltinFn::Min
                } else {
                    let mut m = string_from("unknown function: ");
                    m.append(string_of(n).as_str());
                    return Err(ParseError(m));
                };
                match parse_args(toks, p + 2) {
                    Ok((args, q)) => {
                        let ghost sa = exprs_view(args@);
                        let e = Expr::Call(f, args);
                        assert(e@ == SpecExpr::Call(f, sa)) by {
                            match e@ {
                                SpecExpr::Call(_, s) => {
                                    assert(s =~= sa);
                                },
                                _ => {},
                            }
                        }
                        Ok((e, q))
                    },
                    Err(e) => Err(e),
                }
            } else {
                Ok((Expr::Ident(string_of(n)), p + 1))
            }
        },
        Tok::Sym(Sym::LParen) => match parse_expr(toks, p + 1) {
            Ok((e, q)) => {
                if sym_at(toks, q, Sym::RParen) {
                    Ok((e, q + 1))
                } else {
                    Err(perr("expected `)`"))
                }
            },
            Err(e) => Err(e),
        },
        _ => Err(perr("expression: unexpected token")),
    }
}

fn parse_args(toks: &Vec<Tok>, p: usize) -> (res: Result<(Vec<Expr>, usize), ParseError>)
    ensures
        match res {
            Ok((v, q)) => p_args(toks_view(toks@), p as int) == Ok::<(Seq<SpecExpr>, int), Seq<char>>(
                (exprs_view(v@), q as int),
            ) && p < q <= toks@.len(),
            Err(e) => p_args(toks_view(toks@), p as int) == Err::<(Seq<SpecExpr>, int), Seq<char>>(
                e.0@,
            ),
        },
    decreases toks@.len() - p, 4nat,
{
    let ghost t = toks_view(toks@);
    let (first, mut q) = match parse_expr(toks, p) {
        Ok(x) => x,
        Err(e) => return Err(e),
    };
    let mut args: Vec<Expr> = Vec::new();
    args.push(first);
    assert(exprs_view(args@) =~= seq![first@]);
    while q < toks.len() && sym_at(toks, q, Sym::Comma)
        invariant
            t == toks_view(toks@),
            t.len() == toks@.len(),
            p < q <= toks@.len(),
            p_args(t, p as int) == p_args_rest(t, exprs_view(args@), q as int),
        decreases toks@.len() - q,
    {
        match parse_expr(toks, q + 1) {
            Ok((e, q2)) => {
                let ghost before = exprs_view(args@);
                args.push(e);
                assert(exprs_view(args@) =~= before.push(e@));
                q = q2;
            },
            Err(e) => return Err(e),
        }
    }
    if sym_at(toks, q, Sym::RParen) {
        Ok((args, q + 1))
    } else {
        Err(perr("function call: expected `,` or `)`"))
    }
}

fn parse_comparison(toks: &Vec<Tok>, p: usize) -> (res: Result<(BoolExpr, usize), ParseError>)
    ensures
        bool_res(res, p_comparison(toks_view(toks@), p as int), toks_view(toks@), p as int),
{
    assert(toks_view(toks@).len() == toks@.len());
    let n = toks.len();
    let (lhs, q) = match parse_expr(toks, p) {
        Ok(x) => x,
        Err(e) => return Err(e),
    };
    let op = if sym_at(toks, q, Sym::EqEq) {
        CmpOp::Eq
    } else if sym_at(toks, q, Sym::NotEq) {
        CmpOp::Ne
    } else if sym_at(toks, q, Sym::GtEq) {
        CmpOp::Ge
    } else if sym_at(toks, q, Sym::LtEq) {
        CmpOp::Le
    } else if sym_at(toks, q, Sym::Gt) {
        CmpOp::Gt
    } else if sym_at(toks, q, Sym::Lt) {
        CmpOp::Lt
    } else {
        return Err(perr("comparison: missing op"));
    };
    match parse_expr(toks, q + 1) {
        Ok((rhs, q2)) => Ok((BoolExpr::Cmp(lhs, op, rhs), q2)),
        Err(e) => Err(e),
    }
}

fn parse_bool(toks: &Vec<Tok>, p: usize) -> (res: Result<(BoolExpr, usize), ParseError>)
    ensures
        bool_res(res, p_bool(toks_view(toks@), p as int), toks_view(toks@), p as int),
    decreases toks@.len() - p,
{
    assert(toks_view(toks@).len() == toks@.len());
    let n = toks.len();
    let (c, q) = match parse_comparison(toks, p) {
        Ok(x) => x,
        Err(e) => return Err(e),
    };
    if word_at(toks, q, "implies") {
        match parse_bool(toks, q + 1) {
            Ok((r, q2)) => Ok((BoolExpr::Implies(Box::new(c), Box::new(r)), q2)),
            Err(e) => Err(e),
        }
    } else {
        Ok((c, q))
    }
}

} // verus!

verus! {

// ── attributes ──────────────────────────────────────────────────────────

/// `key = value` where the value is an identifier, an integer or a string.
pub open spec fn p_attr(t: Seq<SpecTok>, p: int) -> Option<(Seq<char>, SpecTok, int)> {
    if 0 <= p && p + 2 < t.len() && sym_is(t, p + 1, Sym::Assign) {
        match (t[p], t[p + 2]) {
            (SpecTok::Ident(k), SpecTok::Sym(_)) => None,
            (SpecTok::Ident(k), v) => Some((k, v, p + 3)),
            _ => None,
        }
    } else {
        None
    }
}

/// The text of a value token (string contents without the quotes).
pub open spec fn tok_text(v: SpecTok) -> Seq<char> {
    match v {
        SpecTok::Ident(x) => x,
        SpecTok::Int(x) => x,
        SpecTok::Str(x) => x,
        SpecTok::Sym(_) => Seq::empty(),
    }
}

pub open spec fn usize_value(v: SpecTok) -> Option<usize> {
    match v {
        SpecTok::Int(d) => match number_of_digits(d, usize::MAX as nat) {
            Some(n) => Some(n as usize),
            None => None,
        },
        _ => None,
    }
}

/// A keyword given as an identifier value.
pub open spec fn ident_value(v: SpecTok) -> Option<Seq<char>> {
    match v {
        SpecTok::Ident(x) => Some(x),
        _ => None,
    }
}

pub open spec fn str_value(v: SpecTok) -> Option<Seq<char>> {
    match v {
        SpecTok::Str(x) => Some(x),
        _ => None,
    }
}

// ── model ───────────────────────────────────────────────────────────────

#[derive(Clone, Copy)]
pub struct ModelAttrs {
    pub encoding: Option<Encoding>,
    pub line_ending: Option<LineEnding>,
    pub record_length: Option<usize>,
}

pub open spec fn model_attr(a: ModelAttrs, k: Seq<char>, v: SpecTok) -> Result<ModelAttrs, Seq<char>> {
    if k == "encoding"@ {
        if tok_text(v) == "ISO-8859-1"@ {
            Ok(ModelAttrs { encoding: Some(Encoding::Iso8859_1), ..a })
        } else if tok_text(v) == "ASCII"@ {
            Ok(ModelAttrs { encoding: Some(Encoding::Ascii), ..a })
        } else {
            Err("unknown encoding: "@ + tok_text(v))
        }
    } else if k == "line_ending"@ {
        if tok_text(v) == "CRLF"@ {
            Ok(ModelAttrs { line_ending: Some(LineEnding::Crlf), ..a })
        } else if tok_text(v) == "LF"@ {
            Ok(ModelAttrs { line_ending: Some(LineEnding::Lf), ..a })
        } else {
            Err("unknown line_ending: "@ + tok_text(v))
        }
    } else if k == "record_length"@ {
        match usize_value(v) {
            Some(n) => Ok(ModelAttrs { record_length: Some(n), ..a }),
            None => Err(
                if v is Int {
                    "invalid record_length: number too large to fit in target type"@
                } else {
                    "invalid record_length: invalid digit found in string"@
                },
            ),
        }
    } else {
        Err("unknown model attribute: "@ + k)
    }
}

pub open spec fn p_model_attrs(t: Seq<SpecTok>, p: int, a: ModelAttrs) -> Parsed<ModelAttrs>
    decreases t.len() - p,
{
    if p < 0 || p >= t.len() {
        Err("model: unterminated block"@)
    } else if sym_is(t, p, Sym::RBrace) {
        Ok((a, p + 1))
    } else {
        match p_attr(t, p) {
            None => Err("model: expected `key = value`"@),
            Some((k, v, q)) => match model_attr(a, k, v) {
                Err(m) => Err(m),
                Ok(a2) => p_model_attrs(t, q, a2),
            },
        }
    }
}

pub open spec fn no_model_attrs() -> ModelAttrs {
    ModelAttrs { encoding: None, line_ending: None, record_length: None }
}

/// `"model" string "version" string "{" attr* "}"`; `encoding`,
/// `line_ending` and `record_length` are mandatory.
pub open spec fn p_model(t: Seq<SpecTok>, p: int) -> Parsed<SpecModel> {
    if 0 <= p && p + 4 < t.len() && word_is(t, p + 2, "version"@) && sym_is(t, p + 4, Sym::LBrace) {
        match t[p + 1] {
            SpecTok::Str(number) => match t[p + 3] {
                SpecTok::Str(version) => match p_model_attrs(t, p + 5, no_model_attrs()) {
                    Err(m) => Err(m),
                    Ok((a, q)) => match a.encoding {
                        None => Err("model: missing `encoding`"@),
                        Some(e) => match a.line_ending {
                            None => Err("model: missing `line_ending`"@),
                            Some(l) => match a.record_length {
                                None => Err("model: missing `record_length`"@),
                                Some(r) => Ok(
                                    (
                                        SpecModel {
                                            number,
                                            version,
                                            encoding: e,
                                            line_ending: l,
                                            record_length: r,
                                        },
                                        q,
                                    ),
                                ),
                            },
                        },
                    },
                },
                _ => Err("model: missing version"@),
            },
            _ => Err("model: missing number"@),
        }
    } else {
        Err("model: expected `model \"<number>\" version \"<version>\" {`"@)
    }
}

// ── field ───────────────────────────────────────────────────────────────

pub struct FieldAttrs {
    pub at: Option<usize>,
    pub length: Option<usize>,
    pub ty: Option<FieldType>,
    pub decimals: Option<usize>,
    pub align: Option<Align>,
    pub pad: Option<Pad>,
    pub required: bool,
    pub fixed: Option<String>,
    pub domain: Option<String>,
    pub usage: Usage,
    pub description: Option<String>,
}

pub struct SpecFieldAttrs {
    pub at: Option<usize>,
    pub length: Option<usize>,
    pub ty: Option<FieldType>,
    pub decimals: Option<usize>,
    pub align: Option<Align>,
    pub pad: Option<Pad>,
    pub required: bool,
    pub fixed: Option<Seq<char>>,
    pub domain: Option<Seq<char>>,
    pub usage: Usage,
    pub description: Option<Seq<char>>,
}

impl View for FieldAttrs {
    type V = SpecFieldAttrs;

    open spec fn view(&self) -> SpecFieldAttrs {
        SpecFieldAttrs {
            at: self.at,
            length: self.length,
            ty: self.ty,
            decimals: self.decimals,
            align: self.align,
            pad: self.pad,
            required: self.required,
            fixed: crate::ast::opt_text(self.fixed),
            domain: crate::ast::opt_text(self.domain),
            usage: self.usage,
            description: crate::ast::opt_text(self.description),
        }
    }
}

pub open spec fn no_field_attrs() -> SpecFieldAttrs {
    SpecFieldAttrs {
        at: None,
        length: None,
        ty: None,
        decimals: None,
        align: None,
        pad: None,
        required: false,
        fixed: None,
        domain: None,
        usage: Usage::All,
        description: None,
    }
}

pub open spec fn field_type_named(x: Seq<char>) -> Option<FieldType> {
    if x == "alpha"@ {
        Some(FieldType::Alpha)
    } else if x == "alphanumeric"@ {
        Some(FieldType::Alphanumeric)
    } else if x == "number"@ {
        Some(FieldType::Number)
    } else if x == "signed_amount"@ {
        Some(FieldType::SignedAmount)
    } else if x == "signed_n"@ {
        Some(FieldType::SignedAmountN)
    } else if x == "unsigned_amount"@ {
        Some(FieldType::UnsignedAmount)
    } else {
        None
    }
}

pub open spec fn bool_named(x: Seq<char>) -> Option<bool> {
    if x == "true"@ {
        Some(true)
    } else if x == "false"@ {
        Some(false)
    } else {
        None
    }
}

/// The name of the grammar rule a value token matches.
pub open spec fn rule_name(v: SpecTok) -> Seq<char> {
    match v {
        SpecTok::Ident(_) => "ident"@,
        SpecTok::Int(_) => "int"@,
        SpecTok::Str(_) => "string"@,
        SpecTok::Sym(_) => Seq::empty(),
    }
}

/// The message for an attribute that a block does not take, or whose value
/// has the wrong kind (`kind` is "field `" or "param `").
pub open spec fn unsupported_attr(kind: Seq<char>, name: Seq<char>, k: Seq<char>, v: SpecTok) -> Seq<char> {
    kind + name + "`: unsupported attribute `"@ + k + "` (value rule "@ + rule_name(v) + ")"@
}

/// The message for a number attribute whose value is no number that fits a
/// `usize`: an integer too large, or a value of another kind.
pub open spec fn number_error(kind: Seq<char>, name: Seq<char>, k: Seq<char>, v: SpecTok) -> Seq<char> {
    match v {
        SpecTok::Int(_) => k + ": number too large to fit in target type"@,
        _ => unsupported_attr(kind, name, k, v),
    }
}

pub open spec fn field_attr(a: SpecFieldAttrs, k: Seq<char>, v: SpecTok, name: Seq<char>) -> Result<
    SpecFieldAttrs,
    Seq<char>,
> {
    let unsupported = unsupported_attr("field `"@, name, k, v);
    if k == "at"@ {
        match usize_value(v) {
            Some(n) => Ok(SpecFieldAttrs { at: Some(n), ..a }),
            None => Err(number_error("field `"@, name, k, v)),
        }
    } else if k == "length"@ {
        match usize_value(v) {
            Some(n) => Ok(SpecFieldAttrs { length: Some(n), ..a }),
            None => Err(number_error("field `"@, name, k, v)),
        }
    } else if k == "decimals"@ {
        match usize_value(v) {
            Some(n) => Ok(SpecFieldAttrs { decimals: Some(n), ..a }),
            None => Err(number_error("field `"@, name, k, v)),
        }
    } else if k == "type"@ {
        match ident_value(v) {
            Some(x) => match field_type_named(x) {
                Some(ty) => Ok(SpecFieldAttrs { ty: Some(ty), ..a }),
                None => Err("unknown field type: "@ + x),
            },
            None => Err(unsupported),
        }
    } else if k == "align"@ {
        match ident_value(v) {
            Some(x) => if x == "left"@ {
                Ok(SpecFieldAttrs { align: Some(Align::Left), ..a })
            } else if x == "right"@ {
                Ok(SpecFieldAttrs { align: Some(Align::Right), ..a })
            } else {
                Err("unknown align: "@ + x)
            },
            None => Err(unsupported),
        }
    } else if k == "pad"@ {
        match ident_value(v) {
            Some(x) => if x == "space"@ {
                Ok(SpecFieldAttrs { pad: Some(Pad::Space), ..a })
            } else if x == "zero"@ {
                Ok(SpecFieldAttrs { pad: Some(Pad::Zero), ..a })
            } else {
                Err("unknown pad: "@ + x)
            },
            None => Err(unsupported),
        }
    } else if k == "required"@ {
        match ident_value(v) {
            Some(x) => match bool_named(x) {
                Some(b) => Ok(SpecFieldAttrs { required: b, ..a }),
                None => Err("required must be true/false, got "@ + x),
            },
            None => Err(unsupported),
        }
    } else if k == "fixed"@ {
        match str_value(v) {
            Some(x) => Ok(SpecFieldAttrs { fixed: Some(x), ..a }),
            None => Err(unsupported),
        }
    } else if k == "domain"@ {
        match str_value(v) {
            Some(x) => Ok(SpecFieldAttrs { domain: Some(x), ..a }),
            None => Err(unsupported),
        }
    } else if k == "usage"@ {
        match ident_value(v) {
            Some(x) => if x == "all"@ {
                Ok(SpecFieldAttrs { usage: Usage::All, ..a })
            } else if x == "print_only"@ {
                Ok(SpecFieldAttrs { usage: Usage::PrintOnly, ..a })
            } else if x == "internet_only"@ {
                Ok(SpecFieldAttrs { usage: Usage::InternetOnly, ..a })
            } else {
                Err("unknown usage: "@ + x)
            },
            None => Err(unsupported),
        }
    } else if k == "description"@ {
        match str_value(v) {
            Some(x) => Ok(SpecFieldAttrs { description: Some(x), ..a }),
            None => Err(unsupported),
        }
    } else {
        Err(unsupported)
    }
}

pub open spec fn p_field_attrs(t: Seq<SpecTok>, p: int, a: SpecFieldAttrs, name: Seq<char>) -> Parsed<
    SpecFieldAttrs,
>
    decreases t.len() - p,
{
    if p < 0 || p >= t.len() {
        Err("field: unterminated block"@)
    } else if sym_is(t, p, Sym::RBrace) {
        Ok((a, p + 1))
    } else {
        match p_attr(t, p) {
            None => Err("field: expected `key = value`"@),
            Some((k, v, q)) => match field_attr(a, k, v, name) {
                Err(m) => Err(m),
                Ok(a2) => p_field_attrs(t, q, a2, name),
            },
        }
    }
}

/// `"field" ident "{" attr* "}"`; `at`, `length` and `type` are mandatory.
pub open spec fn p_field(t: Seq<SpecTok>, p: int) -> Parsed<SpecField> {
    if 0 <= p && p + 2 < t.len() && sym_is(t, p + 2, Sym::LBrace) {
        match t[p + 1] {
            SpecTok::Ident(name) => match p_field_attrs(t, p + 3, no_field_attrs(), name) {
                Err(m) => Err(m),
                Ok((a, q)) => match a.at {
                    None => Err("field: missing `at`"@),
                    Some(at) => match a.length {
                        None => Err("field: missing `length`"@),
                        Some(length) => match a.ty {
                            None => Err("field: missing `type`"@),
                            Some(ty) => Ok(
                                (
                                    SpecField {
                                        name,
                                        at,
                                        length,
                                        ty,
                                        decimals: a.decimals,
                                        align: a.align,
                                        pad: a.pad,
                                        required: a.required,
                                        fixed: a.fixed,
                                        domain: a.domain,
                                        usage: a.usage,
                                        description: a.description,
                                    },
                                    q,
                                ),
                            ),
                        },
                    },
                },
            },
            _ => Err("field: missing name"@),
        }
    } else {
        Err("field: expected `field <name> {`"@)
    }
}

// ── derive / check ──────────────────────────────────────────────────────

/// `"derive" ident "=" expr`
pub open spec fn p_derive(t: Seq<SpecTok>, p: int) -> Parsed<SpecDerive> {
    if 0 <= p && p + 2 < t.len() && sym_is(t, p + 2, Sym::Assign) {
        match t[p + 1] {
            SpecTok::Ident(target) => match p_expr(t, p + 3) {
                Err(m) => Err(m),
                Ok((e, q)) => if bad_step(t, p, q) {
                    Err(no_progress())
                } else {
                    Ok((SpecDerive { target, expr: e }, q))
                },
            },
            _ => Err("derive: missing target"@),
        }
    } else {
        Err("derive: expected `derive <field> = <expr>`"@)
    }
}

pub struct CheckAttrs {
    pub rule: Option<BoolExpr>,
    pub severity: Option<Severity>,
    pub message: Option<String>,
}

pub struct SpecCheckAttrs {
    pub rule: Option<SpecBoolExpr>,
    pub severity: Option<Severity>,
    pub message: Option<Seq<char>>,
}

impl View for CheckAttrs {
    type V = SpecCheckAttrs;

    open spec fn view(&self) -> SpecCheckAttrs {
        SpecCheckAttrs {
            rule: match self.rule {
                Some(b) => Some(b@),
                None => None,
            },
            severity: self.severity,
            message: crate::ast::opt_text(self.message),
        }
    }
}

/// Check attributes: `rule = bool_expr`, `severity = error|warning`, `message = string`.
pub open spec fn p_check_attrs(t: Seq<SpecTok>, p: int, a: SpecCheckAttrs, code: Seq<char>) -> Parsed<
    SpecCheckAttrs,
>
    decreases t.len() - p,
{
    if p < 0 || p >= t.len() {
        Err("check: unterminated block"@)
    } else if sym_is(t, p, Sym::RBrace) {
        Ok((a, p + 1))
    } else if word_is(t, p, "rule"@) && sym_is(t, p + 1, Sym::Assign) {
        match p_bool(t, p + 2) {
            Err(m) => Err(m),
            Ok((b, q)) => if bad_step(t, p, q) {
                Err(no_progress())
            } else {
                p_check_attrs(t, q, SpecCheckAttrs { rule: Some(b), ..a }, code)
            },
        }
    } else {
        match p_attr(t, p) {
            None => Err("check: expected `key = value`"@),
            Some((k, v, q)) => if k == "severity"@ {
                if ident_value(v) == Some("error"@) {
                    p_check_attrs(t, q, SpecCheckAttrs { severity: Some(Severity::Error), ..a }, code)
                } else if ident_value(v) == Some("warning"@) {
                    p_check_attrs(
                        t,
                        q,
                        SpecCheckAttrs { severity: Some(Severity::Warning), ..a },
                        code,
                    )
                } else {
                    match ident_value(v) {
                        Some(x) => Err("unknown severity: "@ + x),
                        None => Err(
                            "check `"@ + code + "`: unsupported attr `"@ + k + "` (rule "@ + rule_name(v)
                                + ")"@,
                        ),
                    }
                }
            } else if k == "message"@ {
                match str_value(v) {
                    Some(x) => p_check_attrs(t, q, SpecCheckAttrs { message: Some(x), ..a }, code),
                    None => Err(
                        "check `"@ + code + "`: unsupported attr `"@ + k + "` (rule "@ + rule_name(v)
                            + ")"@,
                    ),
                }
            } else {
                Err("check `"@ + code + "`: unsupported attr `"@ + k + "` (rule "@ + rule_name(v) + ")"@)
            },
        }
    }
}

/// `"check" ident "{" check_attr* "}"`; all three attributes are mandatory.
pub open spec fn p_check(t: Seq<SpecTok>, p: int) -> Parsed<SpecCheck> {
    if 0 <= p && p + 2 < t.len() && sym_is(t, p + 2, Sym::LBrace) {
        match t[p + 1] {
            SpecTok::Ident(code) => match p_check_attrs(
                t,
                p + 3,
                SpecCheckAttrs { rule: None, severity: None, message: None },
                code,
            ) {
                Err(m) => Err(m),
                Ok((a, q)) => match a.rule {
                    None => Err("check: missing `rule`"@),
                    Some(rule) => match a.severity {
                        None => Err("check: missing `severity`"@),
                        Some(severity) => match a.message {
                            None => Err("check: missing `message`"@),
                            Some(message) => Ok((SpecCheck { code, rule, severity, message }, q)),
                        },
                    },
                },
            },
            _ => Err("check: missing code"@),
        }
    } else {
        Err("check: expected `check <code> {`"@)
    }
}

// ── record ──────────────────────────────────────────────────────────────

pub struct SpecRecordItems {
    pub record_length: Option<usize>,
    pub fields: Seq<SpecField>,
    pub derives: Seq<SpecDerive>,
    pub checks: Seq<SpecCheck>,
}

pub open spec fn p_record_items(t: Seq<SpecTok>, p: int, a: SpecRecordItems) -> Parsed<
    SpecRecordItems,
>
    decreases t.len() - p,
{
    if p < 0 || p >= t.len() {
        Err("record: unterminated block"@)
    } else if sym_is(t, p, Sym::RBrace) {
        Ok((a, p + 1))
    } else if word_is(t, p, "record_length"@) {
        if p + 2 < t.len() && sym_is(t, p + 1, Sym::Assign) {
            match t[p + 2] {
                SpecTok::Int(_) => match usize_value(t[p + 2]) {
                    Some(n) => p_record_items(
                        t,
                        p + 3,
                        SpecRecordItems { record_length: Some(n), ..a },
                    ),
                    None => Err("record_length: number too large to fit in target type"@),
                },
                _ => Err("record_length: missing value"@),
            }
        } else {
            Err("record_length: missing value"@)
        }
    } else if word_is(t, p, "field"@) {
        match p_field(t, p) {
            Err(m) => Err(m),
            Ok((f, q)) => if bad_step(t, p, q) {
                Err(no_progress())
            } else {
                p_record_items(t, q, SpecRecordItems { fields: a.fields.push(f), ..a })
            },
        }
    } else if word_is(t, p, "derive"@) {
        match p_derive(t, p) {
            Err(m) => Err(m),
            Ok((d, q)) => if bad_step(t, p, q) {
                Err(no_progress())
            } else {
                p_record_items(t, q, SpecRecordItems { derives: a.derives.push(d), ..a })
            },
        }
    } else if word_is(t, p, "check"@) {
        match p_check(t, p) {
            Err(m) => Err(m),
            Ok((c, q)) => if bad_step(t, p, q) {
                Err(no_progress())
            } else {
                p_record_items(t, q, SpecRecordItems { checks: a.checks.push(c), ..a })
            },
        }
    } else {
        Err("unexpected item in record block"@)
    }
}

/// `"record" string "{" (record_length | field | derive | check)* "}"`;
/// `record_length` is mandatory.
pub open spec fn p_record(t: Seq<SpecTok>, p: int) -> Parsed<SpecRecord> {
    if 0 <= p && p + 2 < t.len() && sym_is(t, p + 2, Sym::LBrace) {
        match t[p + 1] {
            SpecTok::Str(name) => match p_record_items(
                t,
                p + 3,
                SpecRecordItems {
                    record_length: None,
                    fields: Seq::empty(),
                    derives: Seq::empty(),
                    checks: Seq::empty(),
                },
            ) {
                Err(m) => Err(m),
                Ok((a, q)) => match a.record_length {
                    Some(rl) => Ok(
                        (
                            SpecRecord {
                                name,
                                record_length: rl,
                                fields: a.fields,
                                derives: a.derives,
                                checks: a.checks,
                            },
                            q,
                        ),
                    ),
                    None => Err("record `"@ + name + "`: missing `record_length`"@),
                },
            },
            _ => Err("record: missing name"@),
        }
    } else {
        Err("record: expected `record \"<name>\" {`"@)
    }
}

} // verus!

verus! {

// ── templates ───────────────────────────────────────────────────────────

pub open spec fn ref_start(s: Seq<char>, i: int) -> bool {
    0 <= i && i + 1 < s.len() && s[i] == '$' && s[i + 1] == '{'
}

/// End of the literal text starting at `i`: the next `${` or the end of `s`.
pub open spec fn text_end(s: Seq<char>, i: int) -> int
    decreases s.len() - i,
{
    if 0 <= i < s.len() && !ref_start(s, i) {
        text_end(s, i + 1)
    } else {
        i
    }
}

pub proof fn lemma_text_end(s: Seq<char>, i: int)
    requires
        0 <= i <= s.len(),
    ensures
        i <= text_end(s, i) <= s.len(),
    decreases s.len() - i,
{
    if i < s.len() && !ref_start(s, i) {
        lemma_text_end(s, i + 1);
    }
}

pub open spec fn cons_part(x: SpecTemplatePart, rest: Option<Seq<SpecTemplatePart>>) -> Option<
    Seq<SpecTemplatePart>,
> {
    match rest {
        Some(r) => Some(seq![x] + r),
        None => None,
    }
}

/// The parts of the template text `s[i..]`: literal runs and `${ident}` references.
pub open spec fn template_from(s: Seq<char>, i: int) -> Option<Seq<SpecTemplatePart>>
    decreases s.len() - i,
{
    if i < 0 || i >= s.len() {
        Some(Seq::empty())
    } else if ref_start(s, i) {
        if i + 2 < s.len() && is_ident_start(s[i + 2]) {
            let e = ident_end(s, i + 3);
            proof {
                lemma_ident_end(s, i + 3);
            }
            if e < s.len() && s[e] == '}' {
                cons_part(SpecTemplatePart::Field(s.subrange(i + 2, e)), template_from(s, e + 1))
            } else {
                None
            }
        } else {
            None
        }
    } else {
        let e = text_end(s, i + 1);
        proof {
            lemma_text_end(s, i + 1);
        }
        cons_part(SpecTemplatePart::Lit(s.subrange(i, e)), template_from(s, e))
    }
}

// ── envelope ────────────────────────────────────────────────────────────

pub struct ParamAttrs {
    pub length: Option<usize>,
    pub ty: Option<FieldType>,
    pub required: bool,
    pub description: Option<String>,
}

pub struct SpecParamAttrs {
    pub length: Option<usize>,
    pub ty: Option<FieldType>,
    pub required: bool,
    pub description: Option<Seq<char>>,
}

impl View for ParamAttrs {
    type V = SpecParamAttrs;

    open spec fn view(&self) -> SpecParamAttrs {
        SpecParamAttrs {
            length: self.length,
            ty: self.ty,
            required: self.required,
            description: crate::ast::opt_text(self.description),
        }
    }
}

/// Params take `length`, `type` (alpha, alphanumeric or number), `required` and `description`.
pub open spec fn param_attr(a: SpecParamAttrs, k: Seq<char>, v: SpecTok, name: Seq<char>) -> Result<
    SpecParamAttrs,
    Seq<char>,
> {
    let unsupported = unsupported_attr("param `"@, name, k, v);
    if k == "length"@ {
        match usize_value(v) {
            Some(n) => Ok(SpecParamAttrs { length: Some(n), ..a }),
            None => Err(number_error("param `"@, name, k, v)),
        }
    } else if k == "type"@ {
        match ident_value(v) {
            Some(x) => if x == "alpha"@ {
                Ok(SpecParamAttrs { ty: Some(FieldType::Alpha), ..a })
            } else if x == "alphanumeric"@ {
                Ok(SpecParamAttrs { ty: Some(FieldType::Alphanumeric), ..a })
            } else if x == "number"@ {
                Ok(SpecParamAttrs { ty: Some(FieldType::Number), ..a })
            } else {
                Err("unknown param type: "@ + x)
            },
            None => Err(unsupported),
        }
    } else if k == "required"@ {
        match ident_value(v) {
            Some(x) => match bool_named(x) {
                Some(b) => Ok(SpecParamAttrs { required: b, ..a }),
                None => Err("required must be true/false, got "@ + x),
            },
            None => Err(unsupported),
        }
    } else if k == "description"@ {
        match str_value(v) {
            Some(x) => Ok(SpecParamAttrs { description: Some(x), ..a }),
            None => Err(unsupported),
        }
    } else {
        Err(unsupported)
    }
}

pub open spec fn p_param_attrs(t: Seq<SpecTok>, p: int, a: SpecParamAttrs, name: Seq<char>) -> Parsed<
    SpecParamAttrs,
>
    decreases t.len() - p,
{
    if p < 0 || p >= t.len() {
        Err("param: unterminated block"@)
    } else if sym_is(t, p, Sym::RBrace) {
        Ok((a, p + 1))
    } else {
        match p_attr(t, p) {
            None => Err("param: expected `key = value`"@),
            Some((k, v, q)) => match param_attr(a, k, v, name) {
                Err(m) => Err(m),
                Ok(a2) => p_param_attrs(t, q, a2, name),
            },
        }
    }
}

/// `"param" ident "{" attr* "}"`; `length` and `type` are mandatory.
pub open spec fn p_param(t: Seq<SpecTok>, p: int) -> Parsed<SpecParam> {
    if 0 <= p && p + 2 < t.len() && sym_is(t, p + 2, Sym::LBrace) {
        match t[p + 1] {
            SpecTok::Ident(name) => match p_param_attrs(
                t,
                p + 3,
                SpecParamAttrs { length: None, ty: None, required: false, description: None },
                name,
            ) {
                Err(m) => Err(m),
                Ok((a, q)) => match a.length {
                    None => Err("param: missing `length`"@),
                    Some(length) => match a.ty {
                        None => Err("param: missing `type`"@),
                        Some(ty) => Ok(
                            (
                                SpecParam {
                                    name,
                                    length,
                                    ty,
                                    required: a.required,
                                    description: a.description,
                                },
                                q,
                            ),
                        ),
                    },
                },
            },
            _ => Err("param: missing name"@),
        }
    } else {
        Err("param: expected `param <name> {`"@)
    }
}

/// `ident ("," ident)* "]"`, appended to `acc`.
pub open spec fn p_names(t: Seq<SpecTok>, p: int, acc: Seq<Seq<char>>) -> Parsed<Seq<Seq<char>>>
    decreases t.len() - p,
{
    if 0 <= p && p + 1 < t.len() && (sym_is(t, p + 1, Sym::Comma) || sym_is(t, p + 1, Sym::RBrack)) {
        match t[p] {
            SpecTok::Ident(n) => if sym_is(t, p + 1, Sym::Comma) {
                p_names(t, p + 2, acc.push(n))
            } else {
                Ok((acc.push(n), p + 2))
            },
            _ => Err("contains: expected a record name"@),
        }
    } else {
        Err("contains: expected `,` or `]`"@)
    }
}

pub struct SpecEnvelopeItems {
    pub params: Seq<SpecParam>,
    pub header: Option<Seq<SpecTemplatePart>>,
    pub trailer: Option<Seq<SpecTemplatePart>>,
    pub contains: Seq<Seq<char>>,
}

/// `header = string` / `trailer = string`: the template in the string.
pub open spec fn p_template_kv(t: Seq<SpecTok>, p: int) -> Result<Seq<SpecTemplatePart>, Seq<char>> {
    if 0 <= p && p + 2 < t.len() && sym_is(t, p + 1, Sym::Assign) {
        match t[p + 2] {
            SpecTok::Str(x) => match template_from(x, 0) {
                Some(parts) => Ok(parts),
                None => Err("envelope: malformed template"@),
            },
            _ => Err("envelope: a template must be a string"@),
        }
    } else {
        Err("envelope: expected `header = \"...\"` or `trailer = \"...\"`"@)
    }
}

pub open spec fn p_envelope_items(t: Seq<SpecTok>, p: int, a: SpecEnvelopeItems) -> Parsed<
    SpecEnvelopeItems,
>
    decreases t.len() - p,
{
    if p < 0 || p >= t.len() {
        Err("envelope: unterminated block"@)
    } else if sym_is(t, p, Sym::RBrace) {
        Ok((a, p + 1))
    } else if word_is(t, p, "param"@) {
        match p_param(t, p) {
            Err(m) => Err(m),
            Ok((x, q)) => if bad_step(t, p, q) {
                Err(no_progress())
            } else {
                p_envelope_items(t, q, SpecEnvelopeItems { params: a.params.push(x), ..a })
            },
        }
    } else if word_is(t, p, "header"@) {
        match p_template_kv(t, p) {
            Err(m) => Err(m),
            Ok(x) => p_envelope_items(t, p + 3, SpecEnvelopeItems { header: Some(x), ..a }),
        }
    } else if word_is(t, p, "trailer"@) {
        match p_template_kv(t, p) {
            Err(m) => Err(m),
            Ok(x) => p_envelope_items(t, p + 3, SpecEnvelopeItems { trailer: Some(x), ..a }),
        }
    } else if word_is(t, p, "contains"@) {
        if sym_is(t, p + 1, Sym::Assign) && sym_is(t, p + 2, Sym::LBrack) {
            match p_names(t, p + 3, a.contains) {
                Err(m) => Err(m),
                Ok((c, q)) => if bad_step(t, p, q) {
                    Err(no_progress())
                } else {
                    p_envelope_items(t, q, SpecEnvelopeItems { contains: c, ..a })
                },
            }
        } else {
            Err("contains: expected `contains = [`"@)
        }
    } else {
        Err("unexpected item in envelope block"@)
    }
}

/// `"envelope" "{" (param | header | trailer | contains)* "}"`; header and trailer are mandatory.
pub open spec fn p_envelope(t: Seq<SpecTok>, p: int) -> Parsed<SpecEnvelope> {
    if 0 <= p && p + 1 < t.len() && sym_is(t, p + 1, Sym::LBrace) {
        match p_envelope_items(
            t,
            p + 2,
            SpecEnvelopeItems {
                params: Seq::empty(),
                header: None,
                trailer: None,
                contains: Seq::empty(),
            },
        ) {
            Err(m) => Err(m),
            Ok((a, q)) => match a.header {
                None => Err("envelope: missing `header`"@),
                Some(h) => match a.trailer {
                    None => Err("envelope: missing `trailer`"@),
                    Some(tr) => Ok(
                        (
                            SpecEnvelope {
                                params: a.params,
                                header: h,
                                trailer: tr,
                                contains: a.contains,
                            },
                            q,
                        ),
                    ),
                },
            },
        }
    } else {
        Err("envelope: expected `envelope {`"@)
    }
}

// ── file ────────────────────────────────────────────────────────────────

pub struct SpecItems {
    pub model: Option<SpecModel>,
    pub fields: Seq<SpecField>,
    pub derives: Seq<SpecDerive>,
    pub checks: Seq<SpecCheck>,
    pub records: Seq<SpecRecord>,
    pub envelope: Option<SpecEnvelope>,
    /// A field, derive or check was declared outside any record block.
    pub loose: bool,
}

pub open spec fn no_items() -> SpecItems {
    SpecItems {
        model: None,
        fields: Seq::empty(),
        derives: Seq::empty(),
        checks: Seq::empty(),
        records: Seq::empty(),
        envelope: None,
        loose: false,
    }
}

/// The top-level items from `p` to the end: `model`, `record`, `envelope`
/// (at most one), and loose `field` / `derive` / `check` items.
pub open spec fn p_items(t: Seq<SpecTok>, p: int, a: SpecItems) -> Result<SpecItems, Seq<char>>
    decreases t.len() - p,
{
    if p < 0 || p >= t.len() {
        Ok(a)
    } else if word_is(t, p, "model"@) {
        match p_model(t, p) {
            Err(m) => Err(m),
            Ok((m, q)) => if bad_step(t, p, q) {
                Err(no_progress())
            } else {
                p_items(t, q, SpecItems { model: Some(m), ..a })
            },
        }
    } else if word_is(t, p, "field"@) {
        match p_field(t, p) {
            Err(m) => Err(m),
            Ok((f, q)) => if bad_step(t, p, q) {
                Err(no_progress())
            } else {
                p_items(t, q, SpecItems { fields: a.fields.push(f), loose: true, ..a })
            },
        }
    } else if word_is(t, p, "derive"@) {
        match p_derive(t, p) {
            Err(m) => Err(m),
            Ok((d, q)) => if bad_step(t, p, q) {
                Err(no_progress())
            } else {
                p_items(t, q, SpecItems { derives: a.derives.push(d), loose: true, ..a })
            },
        }
    } else if word_is(t, p, "check"@) {
        match p_check(t, p) {
            Err(m) => Err(m),
            Ok((c, q)) => if bad_step(t, p, q) {
                Err(no_progress())
            } else {
                p_items(t, q, SpecItems { checks: a.checks.push(c), loose: true, ..a })
            },
        }
    } else if word_is(t, p, "record"@) {
        match p_record(t, p) {
            Err(m) => Err(m),
            Ok((r, q)) => if bad_step(t, p, q) {
                Err(no_progress())
            } else {
                p_items(t, q, SpecItems { records: a.records.push(r), ..a })
            },
        }
    } else if word_is(t, p, "envelope"@) {
        if a.envelope is Some {
            Err("only one `envelope` block is allowed per file"@)
        } else {
            match p_envelope(t, p) {
                Err(m) => Err(m),
                Ok((e, q)) => if bad_step(t, p, q) {
                    Err(no_progress())
                } else {
                    p_items(t, q, SpecItems { envelope: Some(e), ..a })
                },
            }
        }
    } else {
        Err("unexpected item at top level"@)
    }
}

/// Assembles the file: the model block is mandatory; loose items and record
/// blocks cannot be mixed; loose items form one record named `mod<number>`.
pub open spec fn assemble(a: SpecItems) -> Result<SpecBoeFile, Seq<char>> {
    match a.model {
        None => Err("missing `model` block"@),
        Some(m) => if a.records.len() > 0 && a.loose {
            Err("cannot mix top-level fields with record blocks"@)
        } else if a.records.len() > 0 {
            Ok(SpecBoeFile { model: m, records: a.records, envelope: a.envelope })
        } else {
            Ok(
                SpecBoeFile {
                    model: m,
                    records: seq![
                        SpecRecord {
                            name: "mod"@ + m.number,
                            record_length: m.record_length,
                            fields: a.fields,
                            derives: a.derives,
                            checks: a.checks,
                        },
                    ],
                    envelope: a.envelope,
                },
            )
        },
    }
}

/// What `parse` gives for the source text `src`: the file, or the message
/// of the first error.
pub open spec fn parse_spec(src: Seq<char>) -> Result<SpecBoeFile, Seq<char>> {
    match lex(src) {
        None => Err("syntax error: unexpected character or unterminated string"@),
        Some(t) => match p_items(t, 0, no_items()) {
            Err(m) => Err(m),
            Ok(a) => assemble(a),
        },
    }
}

} // verus!

verus! {

pub open spec fn step_res<X: View>(
    r: Result<(X, usize), ParseError>,
    s: Parsed<X::V>,
    t: Seq<SpecTok>,
    p: int,
) -> bool {
    match r {
        Ok((x, q)) => s == Ok::<(X::V, int), Seq<char>>((x@, q as int)) && p < q <= t.len(),
        Err(e) => s == Err::<(X::V, int), Seq<char>>(e.0@),
    }
}

fn attr_at<'a>(toks: &'a Vec<Tok>, p: usize) -> (res: Option<(&'a Vec<char>, &'a Tok)>)
    ensures
        match res {
            Some((k, v)) => p_attr(toks_view(toks@), p as int) == Some((k@, v@, p + 3)),
            None => p_attr(toks_view(toks@), p as int) is None,
        },
{
    let ghost t = toks_view(toks@);
    let n = toks.len();
    if p >= n || n - p <= 2 || !sym_at(toks, p + 1, Sym::Assign) {
        return None;
    }
    assert(t[p as int] == toks@[p as int]@);
    assert(t[p + 2] == toks@[p + 2]@);
    match &toks[p] {
        Tok::Ident(k) => match &toks[p + 2] {
            Tok::Sym(_) => None,
            v => Some((k, v)),
        },
        _ => None,
    }
}

fn tok_text_of(v: &Tok) -> (res: Option<&Vec<char>>)
    ensures
        match res {
            Some(x) => x@ == tok_text(v@),
            None => v@ is Sym,
        },
{
    match v {
        Tok::Ident(x) => Some(x),
        Tok::Int(x) => Some(x),
        Tok::Str(x) => Some(x),
        Tok::Sym(_) => None,
    }
}

fn usize_of(v: &Tok) -> (res: Option<usize>)
    ensures
        res == usize_value(v@),
{
    match v {
        Tok::Int(d) => match digits_number(d, usize::MAX as u64) {
            Some(n) => Some(n as usize),
            None => None,
        },
        _ => None,
    }
}

fn text_is(v: &Tok, w: &str) -> (b: bool)
    ensures
        b == (tok_text(v@) == w@),
{
    match tok_text_of(v) {
        Some(x) => ident_is(x, w),
        None => {
            let wc = chars_of(w);
            if wc.len() == 0 {
                assert(wc@ =~= Seq::<char>::empty());
                true
            } else {
                false
            }
        },
    }
}

fn ident_word_is(v: &Tok, w: &str) -> (b: bool)
    ensures
        b == (ident_value(v@) == Some(w@)),
{
    match v {
        Tok::Ident(x) => ident_is(x, w),
        _ => false,
    }
}

fn tok_text_string(v: &Tok) -> (res: String)
    ensures
        res@ == tok_text(v@),
{
    match v {
        Tok::Ident(x) => string_of(x),
        Tok::Int(x) => string_of(x),
        Tok::Str(x) => string_of(x),
        Tok::Sym(_) => String::new(),
    }
}

fn text_msg(prefix: &str, x: String) -> (e: ParseError)
    ensures
        e.0@ == prefix@ + x@,
{
    let mut m = string_from(prefix);
    m.append(x.as_str());
    ParseError(m)
}

fn rule_name_string(v: &Tok) -> (res: String)
    ensures
        res@ == rule_name(v@),
{
    match v {
        Tok::Ident(_) => string_from("ident"),
        Tok::Int(_) => string_from("int"),
        Tok::Str(_) => string_from("string"),
        Tok::Sym(_) => String::new(),
    }
}

fn unsupported_msg(kind: &str, name: &String, k: &Vec<char>, v: &Tok) -> (e: ParseError)
    ensures
        e.0@ == unsupported_attr(kind@, name@, k@, v@),
{
    let mut m = string_from(kind);
    m.append(name.as_str());
    m.append("`: unsupported attribute `");
    m.append(string_of(k).as_str());
    m.append("` (value rule ");
    m.append(rule_name_string(v).as_str());
    m.append(")");
    ParseError(m)
}

fn number_msg(kind: &str, name: &String, k: &Vec<char>, v: &Tok) -> (e: ParseError)
    ensures
        e.0@ == number_error(kind@, name@, k@, v@),
{
    match v {
        Tok::Int(_) => {
            let mut m = string_of(k);
            m.append(": number too large to fit in target type");
            ParseError(m)
        },
        _ => unsupported_msg(kind, name, k, v),
    }
}

fn check_attr_msg(code: &String, k: &Vec<char>, v: &Tok) -> (e: ParseError)
    ensures
        e.0@ == "check `"@ + code@ + "`: unsupported attr `"@ + k@ + "` (rule "@ + rule_name(v@) + ")"@,
{
    let mut m = string_from("check `");
    m.append(code.as_str());
    m.append("`: unsupported attr `");
    m.append(string_of(k).as_str());
    m.append("` (rule ");
    m.append(rule_name_string(v).as_str());
    m.append(")");
    ParseError(m)
}

fn apply_model_attr(a: ModelAttrs, k: &Vec<char>, v: &Tok) -> (res: Result<ModelAttrs, ParseError>)
    ensures
        match res {
            Ok(a2) => model_attr(a, k@, v@) == Ok::<ModelAttrs, Seq<char>>(a2),
            Err(e) => model_attr(a, k@, v@) == Err::<ModelAttrs, Seq<char>>(e.0@),
        },
{
    if ident_is(k, "encoding") {
        if text_is(v, "ISO-8859-1") {
            Ok(ModelAttrs { encoding: Some(Encoding::Iso8859_1), ..a })
        } else if text_is(v, "ASCII") {
            Ok(ModelAttrs { encoding: Some(Encoding::Ascii), ..a })
        } else {
            Err(text_msg("unknown encoding: ", tok_text_string(v)))
        }
    } else if ident_is(k, "line_ending") {
        if text_is(v, "CRLF") {
            Ok(ModelAttrs { line_ending: Some(LineEnding::Crlf), ..a })
        } else if text_is(v, "LF") {
            Ok(ModelAttrs { line_ending: Some(LineEnding::Lf), ..a })
        } else {
            Err(text_msg("unknown line_ending: ", tok_text_string(v)))
        }
    } else if ident_is(k, "record_length") {
        match usize_of(v) {
            Some(n) => Ok(ModelAttrs { record_length: Some(n), ..a }),
            None => match v {
                Tok::Int(_) => Err(perr("invalid record_length: number too large to fit in target type")),
                _ => Err(perr("invalid record_length: invalid digit found in string")),
            },
        }
    } else {
        let mut m = string_from("unknown model attribute: ");
        m.append(string_of(k).as_str());
        Err(ParseError(m))
    }
}

fn parse_model(toks: &Vec<Tok>, p: usize) -> (res: Result<(Model, usize), ParseError>)
    ensures
        step_res(res, p_model(toks_view(toks@), p as int), toks_view(toks@), p as int),
{
    let ghost t = toks_view(toks@);
    let n = toks.len();
    if p >= n || n - p <= 4 || !word_at(toks, p + 2, "version") || !sym_at(toks, p + 4, Sym::LBrace) {
        return Err(perr("model: expected `model \"<number>\" version \"<version>\" {`"));
    }
    assert(t[p + 1] == toks@[p + 1]@);
    assert(t[p + 3] == toks@[p + 3]@);
    let number = match &toks[p + 1] {
        Tok::Str(x) => string_of(x),
        _ => return Err(perr("model: missing number")),
    };
    let version = match &toks[p + 3] {
        Tok::Str(x) => string_of(x),
        _ => return Err(perr("model: missing version")),
    };
    let mut a = ModelAttrs { encoding: None, line_ending: None, record_length: None };
    let mut q = p + 5;
    while !(q < n && sym_at(toks, q, Sym::RBrace))
        invariant
            t == toks_view(toks@),
            n == toks@.len(),
            t.len() == n,
            p + 5 <= q,
            p_model_attrs(t, p + 5, no_model_attrs()) == p_model_attrs(t, q as int, a),
            p + 4 < n,
            word_is(t, p + 2, "version"@),
            sym_is(t, p + 4, Sym::LBrace),
            t[p + 1] == SpecTok::Str(number@),
            t[p + 3] == SpecTok::Str(version@),
        decreases n - q,
    {
        if q >= n {
            return Err(perr("model: unterminated block"));
        }
        match attr_at(toks, q) {
            None => return Err(perr("model: expected `key = value`")),
            Some((k, v)) => match apply_model_attr(a, k, v) {
                Ok(a2) => {
                    a = a2;
                },
                Err(e) => return Err(e),
            },
        }
        q = q + 3;
    }
    let encoding = match a.encoding {
        Some(e) => e,
        None => return Err(perr("model: missing `encoding`")),
    };
    let line_ending = match a.line_ending {
        Some(l) => l,
        None => return Err(perr("model: missing `line_ending`")),
    };
    let record_length = match a.record_length {
        Some(r) => r,
        None => return Err(perr("model: missing `record_length`")),
    };
    Ok((Model { number, version, encoding, line_ending, record_length }, q + 1))
}

fn field_type_of(x: &Vec<char>) -> (res: Option<FieldType>)
    ensures
        res == field_type_named(x@),
{
    if ident_is(x, "alpha") {
        Some(FieldType::Alpha)
    } else if ident_is(x, "alphanumeric") {
        Some(FieldType::Alphanumeric)
    } else if ident_is(x, "number") {
        Some(FieldType::Number)
    } else if ident_is(x, "signed_amount") {
        Some(FieldType::SignedAmount)
    } else if ident_is(x, "signed_n") {
        Some(FieldType::SignedAmountN)
    } else if ident_is(x, "unsigned_amount") {
        Some(FieldType::UnsignedAmount)
    } else {
        None
    }
}

fn bool_of(x: &Vec<char>) -> (res: Option<bool>)
    ensures
        res == bool_named(x@),
{
    if ident_is(x, "true") {
        Some(true)
    } else if ident_is(x, "false") {
        Some(false)
    } else {
        None
    }
}

fn apply_field_attr(a: &mut FieldAttrs, k: &Vec<char>, v: &Tok, name: &String) -> (res: Result<
    (),
    ParseError,
>)
    ensures
        match field_attr(old(a)@, k@, v@, name@) {
            Ok(a2) => res is Ok && final(a)@ == a2,
            Err(m) => res matches Err(e) && e.0@ == m,
        },
{
    if ident_is(k, "at") {
        match usize_of(v) {
            Some(n) => {
                a.at = Some(n);
                Ok(())
            },
            None => Err(number_msg("field `", name, k, v)),
        }
    } else if ident_is(k, "length") {
        match usize_of(v) {
            Some(n) => {
                a.length = Some(n);
                Ok(())
            },
            None => Err(number_msg("field `", name, k, v)),
        }
    } else if ident_is(k, "decimals") {
        match usize_of(v) {
            Some(n) => {
                a.decimals = Some(n);
                Ok(())
            },
            None => Err(number_msg("field `", name, k, v)),
        }
    } else if ident_is(k, "type") {
        match v {
            Tok::Ident(x) => match field_type_of(x) {
                Some(ty) => {
                    a.ty = Some(ty);
                    Ok(())
                },
                None => Err(text_msg("unknown field type: ", string_of(x))),
            },
            _ => Err(unsupported_msg("field `", name, k, v)),
        }
    } else if ident_is(k, "align") {
        match v {
            Tok::Ident(x) => if ident_is(x, "left") {
                a.align = Some(Align::Left);
                Ok(())
            } else if ident_is(x, "right") {
                a.align = Some(Align::Right);
                Ok(())
            } else {
                Err(text_msg("unknown align: ", string_of(x)))
            },
            _ => Err(unsupported_msg("field `", name, k, v)),
        }
    } else if ident_is(k, "pad") {
        match v {
            Tok::Ident(x) => if ident_is(x, "space") {
                a.pad = Some(Pad::Space);
                Ok(())
            } else if ident_is(x, "zero") {
                a.pad = Some(Pad::Zero);
                Ok(())
            } else {
                Err(text_msg("unknown pad: ", string_of(x)))
            },
            _ => Err(unsupported_msg("field `", name, k, v)),
        }
    } else if ident_is(k, "required") {
        match v {
            Tok::Ident(x) => match bool_of(x) {
                Some(b) => {
                    a.required = b;
                    Ok(())
                },
                None => Err(text_msg("required must be true/false, got ", string_of(x))),
            },
            _ => Err(unsupported_msg("field `", name, k, v)),
        }
    } else if ident_is(k, "fixed") {
        match v {
            Tok::Str(x) => {
                a.fixed = Some(string_of(x));
                Ok(())
            },
            _ => Err(unsupported_msg("field `", name, k, v)),
        }
    } else if ident_is(k, "domain") {
        match v {
            Tok::Str(x) => {
                a.domain = Some(string_of(x));
                Ok(())
            },
            _ => Err(unsupported_msg("field `", name, k, v)),
        }
    } else if ident_is(k, "usage") {
        match v {
            Tok::Ident(x) => if ident_is(x, "all") {
                a.usage = Usage::All;
                Ok(())
            } else if ident_is(x, "print_only") {
                a.usage = Usage::PrintOnly;
                Ok(())
            } else if ident_is(x, "internet_only") {
                a.usage = Usage::InternetOnly;
                Ok(())
            } else {
                Err(text_msg("unknown usage: ", string_of(x)))
            },
            _ => Err(unsupported_msg("field `", name, k, v)),
        }
    } else if ident_is(k, "description") {
        match v {
            Tok::Str(x) => {
                a.description = Some(string_of(x));
                Ok(())
            },
            _ => Err(unsupported_msg("field `", name, k, v)),
        }
    } else {
        Err(unsupported_msg("field `", name, k, v))
    }
}

fn parse_field(toks: &Vec<Tok>, p: usize) -> (res: Result<(Field, usize), ParseError>)
    ensures
        step_res(res, p_field(toks_view(toks@), p as int), toks_view(toks@), p as int),
{
    let ghost t = toks_view(toks@);
    let n = toks.len();
    if p >= n || n - p <= 2 || !sym_at(toks, p + 2, Sym::LBrace) {
        return Err(perr("field: expected `field <name> {`"));
    }
    assert(t[p + 1] == toks@[p + 1]@);
    let name = match &toks[p + 1] {
        Tok::Ident(x) => string_of(x),
        _ => return Err(perr("field: missing name")),
    };
    let mut a = FieldAttrs {
        at: None,
        length: None,
        ty: None,
        decimals: None,
        align: None,
        pad: None,
        required: false,
        fixed: None,
        domain: None,
        usage: Usage::All,
        description: None,
    };
    assert(a@ == no_field_attrs());
    let mut q = p + 3;
    while !(q < n && sym_at(toks, q, Sym::RBrace))
        invariant
            t == toks_view(toks@),
            n == toks@.len(),
            t.len() == n,
            p + 3 <= q,
            p_field_attrs(t, p + 3, no_field_attrs(), name@) == p_field_attrs(t, q as int, a@, name@),
            p + 2 < n,
            sym_is(t, p + 2, Sym::LBrace),
            t[p + 1] == SpecTok::Ident(name@),
        decreases n - q,
    {
        if q >= n {
            return Err(perr("field: unterminated block"));
        }
        match attr_at(toks, q) {
            None => return Err(perr("field: expected `key = value`")),
            Some((k, v)) => {
                match apply_field_attr(&mut a, k, v, &name) {
                    Ok(()) => {},
                    Err(e) => return Err(e),
                }
            },
        }
        q = q + 3;
    }
    let at = match a.at {
        Some(x) => x,
        None => return Err(perr("field: missing `at`")),
    };
    let length = match a.length {
        Some(x) => x,
        None => return Err(perr("field: missing `length`")),
    };
    let ty = match a.ty {
        Some(x) => x,
        None => return Err(perr("field: missing `type`")),
    };
    let f = Field {
        name,
        at,
        length,
        ty,
        decimals: a.decimals,
        align: a.align,
        pad: a.pad,
        required: a.required,
        fixed: a.fixed,
        domain: a.domain,
        usage: a.usage,
        description: a.description,
    };
    Ok((f, q + 1))
}

fn parse_derive(toks: &Vec<Tok>, p: usize) -> (res: Result<(Derive, usize), ParseError>)
    ensures
        step_res(res, p_derive(toks_view(toks@), p as int), toks_view(toks@), p as int),
{
    let ghost t = toks_view(toks@);
    let n = toks.len();
    if p >= n || n - p <= 2 || !sym_at(toks, p + 2, Sym::Assign) {
        return Err(perr("derive: expected `derive <field> = <expr>`"));
    }
    assert(t[p + 1] == toks@[p + 1]@);
    let target = match &toks[p + 1] {
        Tok::Ident(x) => string_of(x),
        _ => return Err(perr("derive: missing target")),
    };
    match parse_expr(toks, p + 3) {
        Ok((expr, q)) => Ok((Derive { target, expr }, q)),
        Err(e) => Err(e),
    }
}

fn parse_check(toks: &Vec<Tok>, p: usize) -> (res: Result<(Check, usize), ParseError>)
    ensures
        step_res(res, p_check(toks_view(toks@), p as int), toks_view(toks@), p as int),
{
    let ghost t = toks_view(toks@);
    let n = toks.len();
    if p >= n || n - p <= 2 || !sym_at(toks, p + 2, Sym::LBrace) {
        return Err(perr("check: expected `check <code> {`"));
    }
    assert(t[p + 1] == toks@[p + 1]@);
    let code = match &toks[p + 1] {
        Tok::Ident(x) => string_of(x),
        _ => return Err(perr("check: missing code")),
    };
    let mut a = CheckAttrs { rule: None, severity: None, message: None };
    let ghost init = SpecCheckAttrs { rule: None, severity: None, message: None };
    assert(a@ == init);
    let mut q = p + 3;
    while !(q < n && sym_at(toks, q, Sym::RBrace))
        invariant
            t == toks_view(toks@),
            n == toks@.len(),
            t.len() == n,
            p + 3 <= q,
            init == (SpecCheckAttrs { rule: None, severity: None, message: None }),
            p_check_attrs(t, p + 3, init, code@) == p_check_attrs(t, q as int, a@, code@),
            p + 2 < n,
            sym_is(t, p + 2, Sym::LBrace),
            t[p + 1] == SpecTok::Ident(code@),
        decreases n - q,
    {
        if q >= n {
            return Err(perr("check: unterminated block"));
        }
        if word_at(toks, q, "rule") && sym_at(toks, q + 1, Sym::Assign) {
            match parse_bool(toks, q + 2) {
                Ok((b, q2)) => {
                    a.rule = Some(b);
                    q = q2;
                },
                Err(e) => return Err(e),
            }
        } else {
            match attr_at(toks, q) {
                None => return Err(perr("check: expected `key = value`")),
                Some((k, v)) => {
                    if ident_is(k, "severity") {
                        if ident_word_is(v, "error") {
                            a.severity = Some(Severity::Error);
                        } else if ident_word_is(v, "warning") {
                            a.severity = Some(Severity::Warning);
                        } else {
                            match v {
                                Tok::Ident(x) => {
                                    return Err(text_msg("unknown severity: ", string_of(x)));
                                },
                                _ => {
                                    return Err(check_attr_msg(&code, k, v));
                                },
                            }
                        }
                    } else if ident_is(k, "message") {
                        match v {
                            Tok::Str(x) => {
                                a.message = Some(string_of(x));
                            },
                            _ => return Err(check_attr_msg(&code, k, v)),
                        }
                    } else {
                        return Err(check_attr_msg(&code, k, v));
                    }
                },
            }
            q = q + 3;
        }
    }
    let rule = match a.rule {
        Some(x) => x,
        None => return Err(perr("check: missing `rule`")),
    };
    let severity = match a.severity {
        Some(x) => x,
        None => return Err(perr("check: missing `severity`")),
    };
    let message = match a.message {
        Some(x) => x,
        None => return Err(perr("check: missing `message`")),
    };
    Ok((Check { code, rule, severity, message }, q + 1))
}

} // verus!

verus! {

pub open spec fn record_items_view(
    rl: Option<usize>,
    fs: Seq<Field>,
    ds: Seq<Derive>,
    cs: Seq<Check>,
) -> SpecRecordItems {
    SpecRecordItems {
        record_length: rl,
        fields: crate::validator::fields_view(fs),
        derives: derives_view(ds),
        checks: checks_view(cs),
    }
}

pub open spec fn derives_view(ds: Seq<Derive>) -> Seq<SpecDerive> {
    ds.map_values(|d: Derive| d@)
}

pub open spec fn checks_view(cs: Seq<Check>) -> Seq<SpecCheck> {
    cs.map_values(|c: Check| c@)
}

fn parse_record(toks: &Vec<Tok>, p: usize) -> (res: Result<(Record, usize), ParseError>)
    ensures
        step_res(res, p_record(toks_view(toks@), p as int), toks_view(toks@), p as int),
{
    let ghost t = toks_view(toks@);
    let n = toks.len();
    if p >= n || n - p <= 2 || !sym_at(toks, p + 2, Sym::LBrace) {
        return Err(perr("record: expected `record \"<name>\" {`"));
    }
    assert(t[p + 1] == toks@[p + 1]@);
    let name = match &toks[p + 1] {
        Tok::Str(x) => string_of(x),
        _ => return Err(perr("record: missing name")),
    };
    let mut rl: Option<usize> = None;
    let mut fields: Vec<Field> = Vec::new();
    let mut derives: Vec<Derive> = Vec::new();
    let mut checks: Vec<Check> = Vec::new();
    let ghost init = SpecRecordItems {
        record_length: None,
        fields: Seq::empty(),
        derives: Seq::empty(),
        checks: Seq::empty(),
    };
    assert(crate::validator::fields_view(fields@) =~= Seq::<SpecField>::empty());
    assert(derives_view(derives@) =~= Seq::<SpecDerive>::empty());
    assert(checks_view(checks@) =~= Seq::<SpecCheck>::empty());
    let mut q = p + 3;
    while !(q < n && sym_at(toks, q, Sym::RBrace))
        invariant
            t == toks_view(toks@),
            n == toks@.len(),
            t.len() == n,
            p + 3 <= q,
            init == (SpecRecordItems {
                record_length: None,
                fields: Seq::empty(),
                derives: Seq::empty(),
                checks: Seq::empty(),
            }),
            p + 2 < n,
            sym_is(t, p + 2, Sym::LBrace),
            t[p + 1] == SpecTok::Str(name@),
            p_record_items(t, p + 3, init) == p_record_items(
                t,
                q as int,
                record_items_view(rl, fields@, derives@, checks@),
            ),
        decreases n - q,
    {
        if q >= n {
            return Err(perr("record: unterminated block"));
        }
        let ghost before = record_items_view(rl, fields@, derives@, checks@);
        if word_at(toks, q, "record_length") {
            if n - q <= 2 || !sym_at(toks, q + 1, Sym::Assign) {
                return Err(perr("record_length: missing value"));
            }
            assert(t[q + 2] == toks@[q + 2]@);
            match &toks[q + 2] {
                Tok::Int(_) => match usize_of(&toks[q + 2]) {
                    Some(v) => {
                        rl = Some(v);
                    },
                    None => return Err(perr("record_length: number too large to fit in target type")),
                },
                _ => return Err(perr("record_length: missing value")),
            }
            q = q + 3;
        } else if word_at(toks, q, "field") {
            match parse_field(toks, q) {
                Ok((f, q2)) => {
                    fields.push(f);
                    assert(crate::validator::fields_view(fields@) =~= before.fields.push(f@));
                    q = q2;
                },
                Err(e) => return Err(e),
            }
        } else if word_at(toks, q, "derive") {
            match parse_derive(toks, q) {
                Ok((d, q2)) => {
                    derives.push(d);
                    assert(derives_view(derives@) =~= before.derives.push(d@));
                    q = q2;
                },
                Err(e) => return Err(e),
            }
        } else if word_at(toks, q, "check") {
            match parse_check(toks, q) {
                Ok((c, q2)) => {
                    checks.push(c);
                    assert(checks_view(checks@) =~= before.checks.push(c@));
                    q = q2;
                },
                Err(e) => return Err(e),
            }
        } else {
            return Err(perr("unexpected item in record block"));
        }
    }
    let record_length = match rl {
        Some(x) => x,
        None => {
            let mut m = string_from("record `");
            m.append(name.as_str());
            m.append("`: missing `record_length`");
            return Err(ParseError(m));
        },
    };
    let r = Record { name, record_length, fields, derives, checks };
    Ok((r, q + 1))
}

} // verus!

verus! {

fn apply_param_attr(a: &mut ParamAttrs, k: &Vec<char>, v: &Tok, name: &String) -> (res: Result<
    (),
    ParseError,
>)
    ensures
        match param_attr(old(a)@, k@, v@, name@) {
            Ok(a2) => res is Ok && final(a)@ == a2,
            Err(m) => res matches Err(e) && e.0@ == m,
        },
{
    if ident_is(k, "length") {
        match usize_of(v) {
            Some(n) => {
                a.length = Some(n);
                Ok(())
            },
            None => Err(number_msg("param `", name, k, v)),
        }
    } else if ident_is(k, "type") {
        match v {
            Tok::Ident(x) => if ident_is(x, "alpha") {
                a.ty = Some(FieldType::Alpha);
                Ok(())
            } else if ident_is(x, "alphanumeric") {
                a.ty = Some(FieldType::Alphanumeric);
                Ok(())
            } else if ident_is(x, "number") {
                a.ty = Some(FieldType::Number);
                Ok(())
            } else {
                Err(text_msg("unknown param type: ", string_of(x)))
            },
            _ => Err(unsupported_msg("param `", name, k, v)),
        }
    } else if ident_is(k, "required") {
        match v {
            Tok::Ident(x) => match bool_of(x) {
                Some(b) => {
                    a.required = b;
                    Ok(())
                },
                None => Err(text_msg("required must be true/false, got ", string_of(x))),
            },
            _ => Err(unsupported_msg("param `", name, k, v)),
        }
    } else if ident_is(k, "description") {
        match v {
            Tok::Str(x) => {
                a.description = Some(string_of(x));
                Ok(())
            },
            _ => Err(unsupported_msg("param `", name, k, v)),
        }
    } else {
        Err(unsupported_msg("param `", name, k, v))
    }
}

fn parse_param(toks: &Vec<Tok>, p: usize) -> (res: Result<(Param, usize), ParseError>)
    ensures
        step_res(res, p_param(toks_view(toks@), p as int), toks_view(toks@), p as int),
{
    let ghost t = toks_view(toks@);
    let n = toks.len();
    if p >= n || n - p <= 2 || !sym_at(toks, p + 2, Sym::LBrace) {
        return Err(perr("param: expected `param <name> {`"));
    }
    assert(t[p + 1] == toks@[p + 1]@);
    let name = match &toks[p + 1] {
        Tok::Ident(x) => string_of(x),
        _ => return Err(perr("param: missing name")),
    };
    let mut a = ParamAttrs { length: None, ty: None, required: false, description: None };
    let ghost init = SpecParamAttrs { length: None, ty: None, required: false, description: None };
    let mut q = p + 3;
    while !(q < n && sym_at(toks, q, Sym::RBrace))
        invariant
            t == toks_view(toks@),
            n == toks@.len(),
            t.len() == n,
            p + 3 <= q,
            init == (SpecParamAttrs { length: None, ty: None, required: false, description: None }),
            p_param_attrs(t, p + 3, init, name@) == p_param_attrs(t, q as int, a@, name@),
            p + 2 < n,
            sym_is(t, p + 2, Sym::LBrace),
            t[p + 1] == SpecTok::Ident(name@),
        decreases n - q,
    {
        if q >= n {
            return Err(perr("param: unterminated block"));
        }
        match attr_at(toks, q) {
            None => return Err(perr("param: expected `key = value`")),
            Some((k, v)) => {
                match apply_param_attr(&mut a, k, v, &name) {
                    Ok(()) => {},
                    Err(e) => return Err(e),
                }
            },
        }
        q = q + 3;
    }
    let length = match a.length {
        Some(x) => x,
        None => return Err(perr("param: missing `length`")),
    };
    let ty = match a.ty {
        Some(x) => x,
        None => return Err(perr("param: missing `type`")),
    };
    Ok((Param { name, length, ty, required: a.required, description: a.description }, q + 1))
}

fn parse_names(toks: &Vec<Tok>, p: usize, acc: &mut Vec<String>) -> (res: Result<usize, ParseError>)
    ensures
        match res {
            Ok(q) => p_names(toks_view(toks@), p as int, texts(old(acc)@)) == Ok::<
                (Seq<Seq<char>>, int),
                Seq<char>,
            >((texts(final(acc)@), q as int)) && p < q <= toks@.len(),
            Err(e) => p_names(toks_view(toks@), p as int, texts(old(acc)@)) == Err::<
                (Seq<Seq<char>>, int),
                Seq<char>,
            >(e.0@),
        },
{
    let ghost t = toks_view(toks@);
    let ghost start = texts(acc@);
    let n = toks.len();
    let mut q = p;
    while q < n && n - q > 1 && sym_at(toks, q + 1, Sym::Comma)
        invariant
            t == toks_view(toks@),
            n == toks@.len(),
            t.len() == n,
            p <= q,
            start == texts(old(acc)@),
            p_names(t, p as int, start) == p_names(t, q as int, texts(acc@)),
        decreases n - q,
    {
        assert(t[q as int] == toks@[q as int]@);
        match &toks[q] {
            Tok::Ident(x) => {
                let ghost before = texts(acc@);
                acc.push(string_of(x));
                assert(texts(acc@) =~= before.push(x@));
            },
            _ => {
                assert(!(t[q as int] is Ident));
                return Err(perr("contains: expected a record name"));
            },
        }
        q = q + 2;
    }
    if q >= n || n - q <= 1 || !sym_at(toks, q + 1, Sym::RBrack) {
        return Err(perr("contains: expected `,` or `]`"));
    }
    assert(t[q as int] == toks@[q as int]@);
    match &toks[q] {
        Tok::Ident(x) => {
            let ghost before = texts(acc@);
            acc.push(string_of(x));
            assert(texts(acc@) =~= before.push(x@));
            Ok(q + 2)
        },
        _ => Err(perr("contains: expected a record name")),
    }
}

pub open spec fn parts_view(v: Seq<TemplatePart>) -> Seq<SpecTemplatePart> {
    v.map_values(|x: TemplatePart| x@)
}

pub open spec fn prepend_parts(out: Seq<SpecTemplatePart>, rest: Option<Seq<SpecTemplatePart>>) -> Option<
    Seq<SpecTemplatePart>,
> {
    match rest {
        Some(r) => Some(out + r),
        None => None,
    }
}

fn is_ident_start_char(c: char) -> (b: bool)
    ensures
        b == is_ident_start(c),
{
    ('a' <= c && c <= 'z') || ('A' <= c && c <= 'Z') || c == '_'
}

fn is_ident_char_char(c: char) -> (b: bool)
    ensures
        b == is_ident_char(c),
{
    is_ident_start_char(c) || ('0' <= c && c <= '9')
}

/// Splits template text into literal runs and `${ident}` references.
fn parse_template(s: &Vec<char>) -> (res: Option<Template>)
    ensures
        match res {
            Some(tp) => template_from(s@, 0) == Some(tp@),
            None => template_from(s@, 0) is None,
        },
{
    let n = s.len();
    let mut out: Vec<TemplatePart> = Vec::new();
    let mut i: usize = 0;
    assert(prepend_parts(parts_view(out@), template_from(s@, 0)) =~= template_from(s@, 0)) by {
        if let Some(r) = template_from(s@, 0) {
            assert(parts_view(out@) + r =~= r);
        }
    }
    while i < n
        invariant
            n == s@.len(),
            0 <= i <= n,
            prepend_parts(parts_view(out@), template_from(s@, i as int)) == template_from(s@, 0),
        decreases n - i,
    {
        let ghost before = parts_view(out@);
        if s[i] == '$' && n - i > 1 && s[i + 1] == '{' {
            if n - i <= 2 || !is_ident_start_char(s[i + 2]) {
                return None;
            }
            proof {
                lemma_ident_end(s@, i + 3);
            }
            let mut e = i + 3;
            while e < n && is_ident_char_char(s[e])
                invariant
                    i + 3 <= e <= n,
                    n == s@.len(),
                    ident_end(s@, i + 3) == ident_end(s@, e as int),
                decreases n - e,
            {
                e = e + 1;
            }
            if e >= n || s[e] != '}' {
                return None;
            }
            out.push(TemplatePart::Field(string_of_range(s, i + 2, e)));
            assert(parts_view(out@) =~= before.push(
                SpecTemplatePart::Field(s@.subrange(i + 2, e as int)),
            ));
            i = e + 1;
        } else {
            proof {
                lemma_text_end(s@, i + 1);
            }
            let mut e = i + 1;
            while e < n && !(s[e] == '$' && n - e > 1 && s[e + 1] == '{')
                invariant
                    i + 1 <= e <= n,
                    n == s@.len(),
                    text_end(s@, i + 1) == text_end(s@, e as int),
                decreases n - e,
            {
                e = e + 1;
            }
            out.push(TemplatePart::Lit(string_of_range(s, i, e)));
            assert(parts_view(out@) =~= before.push(SpecTemplatePart::Lit(s@.subrange(i as int, e as int))));
            i = e;
        }
        assert(prepend_parts(parts_view(out@), template_from(s@, i as int)) =~= template_from(s@, 0));
    }
    assert(template_from(s@, n as int) == Some(Seq::<SpecTemplatePart>::empty()));
    assert(parts_view(out@) + Seq::<SpecTemplatePart>::empty() =~= parts_view(out@));
    let tp = Template(out);
    assert(tp@ =~= parts_view(out@));
    Some(tp)
}

} // verus!

verus! {

pub open spec fn params_view(v: Seq<Param>) -> Seq<SpecParam> {
    v.map_values(|x: Param| x@)
}

pub open spec fn envelope_items_view(
    params: Seq<Param>,
    header: Option<Template>,
    trailer: Option<Template>,
    contains: Seq<String>,
) -> SpecEnvelopeItems {
    SpecEnvelopeItems {
        params: params_view(params),
        header: match header {
            Some(h) => Some(h@),
            None => None,
        },
        trailer: match trailer {
            Some(h) => Some(h@),
            None => None,
        },
        contains: texts(contains),
    }
}

fn parse_template_kv(toks: &Vec<Tok>, p: usize) -> (res: Result<Template, ParseError>)
    ensures
        match res {
            Ok(tp) => p_template_kv(toks_view(toks@), p as int) == Ok::<
                Seq<SpecTemplatePart>,
                Seq<char>,
            >(tp@),
            Err(e) => p_template_kv(toks_view(toks@), p as int) == Err::<
                Seq<SpecTemplatePart>,
                Seq<char>,
            >(e.0@),
        },
{
    let ghost t = toks_view(toks@);
    let n = toks.len();
    if p >= n || n - p <= 2 || !sym_at(toks, p + 1, Sym::Assign) {
        return Err(perr("envelope: expected `header = \"...\"` or `trailer = \"...\"`"));
    }
    assert(t[p + 2] == toks@[p + 2]@);
    match &toks[p + 2] {
        Tok::Str(x) => match parse_template(x) {
            Some(tp) => Ok(tp),
            None => Err(perr("envelope: malformed template")),
        },
        _ => Err(perr("envelope: a template must be a string")),
    }
}

fn parse_envelope(toks: &Vec<Tok>, p: usize) -> (res: Result<(Envelope, usize), ParseError>)
    ensures
        step_res(res, p_envelope(toks_view(toks@), p as int), toks_view(toks@), p as int),
{
    let ghost t = toks_view(toks@);
    let n = toks.len();
    if p >= n || n - p <= 1 || !sym_at(toks, p + 1, Sym::LBrace) {
        return Err(perr("envelope: expected `envelope {`"));
    }
    let mut params: Vec<Param> = Vec::new();
    let mut header: Option<Template> = None;
    let mut trailer: Option<Template> = None;
    let mut contains: Vec<String> = Vec::new();
    let ghost init = SpecEnvelopeItems {
        params: Seq::empty(),
        header: None,
        trailer: None,
        contains: Seq::empty(),
    };
    assert(params_view(params@) =~= Seq::<SpecParam>::empty());
    assert(texts(contains@) =~= Seq::<Seq<char>>::empty());
    let mut q = p + 2;
    while !(q < n && sym_at(toks, q, Sym::RBrace))
        invariant
            t == toks_view(toks@),
            n == toks@.len(),
            t.len() == n,
            p + 2 <= q,
            init == (SpecEnvelopeItems {
                params: Seq::empty(),
                header: None,
                trailer: None,
                contains: Seq::empty(),
            }),
            p + 1 < n,
            sym_is(t, p + 1, Sym::LBrace),
            p_envelope_items(t, p + 2, init) == p_envelope_items(
                t,
                q as int,
                envelope_items_view(params@, header, trailer, contains@),
            ),
        decreases n - q,
    {
        if q >= n {
            return Err(perr("envelope: unterminated block"));
        }
        let ghost before = envelope_items_view(params@, header, trailer, contains@);
        if word_at(toks, q, "param") {
            match parse_param(toks, q) {
                Ok((x, q2)) => {
                    params.push(x);
                    assert(params_view(params@) =~= before.params.push(x@));
                    q = q2;
                },
                Err(e) => return Err(e),
            }
        } else if word_at(toks, q, "header") {
            match parse_template_kv(toks, q) {
                Ok(tp) => {
                    header = Some(tp);
                    q = q + 3;
                },
                Err(e) => return Err(e),
            }
        } else if word_at(toks, q, "trailer") {
            match parse_template_kv(toks, q) {
                Ok(tp) => {
                    trailer = Some(tp);
                    q = q + 3;
                },
                Err(e) => return Err(e),
            }
        } else if word_at(toks, q, "contains") {
            if n - q <= 2 || !sym_at(toks, q + 1, Sym::Assign) || !sym_at(toks, q + 2, Sym::LBrack) {
                return Err(perr("contains: expected `contains = [`"));
            }
            match parse_names(toks, q + 3, &mut contains) {
                Ok(q2) => {
                    q = q2;
                },
                Err(e) => return Err(e),
            }
        } else {
            return Err(perr("unexpected item in envelope block"));
        }
    }
    let header = match header {
        Some(h) => h,
        None => return Err(perr("envelope: missing `header`")),
    };
    let trailer = match trailer {
        Some(h) => h,
        None => return Err(perr("envelope: missing `trailer`")),
    };
    Ok((Envelope { params, header, trailer, contains }, q + 1))
}

pub open spec fn records_view(v: Seq<Record>) -> Seq<SpecRecord> {
    v.map_values(|r: Record| r@)
}

pub open spec fn items_view(
    model: Option<Model>,
    fields: Seq<Field>,
    derives: Seq<Derive>,
    checks: Seq<Check>,
    records: Seq<Record>,
    envelope: Option<Envelope>,
    loose: bool,
) -> SpecItems {
    SpecItems {
        model: match model {
            Some(m) => Some(m@),
            None => None,
        },
        fields: crate::validator::fields_view(fields),
        derives: derives_view(derives),
        checks: checks_view(checks),
        records: records_view(records),
        envelope: match envelope {
            Some(e) => Some(e@),
            None => None,
        },
        loose,
    }
}

/// Parses `.boe` source text. Succeeds exactly when the text is in the
/// language that `parse_spec` describes, and then returns that file;
/// otherwise the error carries the message that `parse_spec` gives.
pub fn parse(src: &str) -> (res: Result<BoeFile, ParseError>)
    ensures
        match res {
            Ok(f) => parse_spec(src@) == Ok::<SpecBoeFile, Seq<char>>(f@),
            Err(e) => parse_spec(src@) == Err::<SpecBoeFile, Seq<char>>(e.0@),
        },
{
    let cs = chars_of(src);
    let toks = match crate::lexer::tokenize(&cs) {
        Some(t) => t,
        None => return Err(perr("syntax error: unexpected character or unterminated string")),
    };
    let ghost t = toks_view(toks@);
    let n = toks.len();
    let mut model: Option<Model> = None;
    let mut fields: Vec<Field> = Vec::new();
    let mut derives: Vec<Derive> = Vec::new();
    let mut checks: Vec<Check> = Vec::new();
    let mut records: Vec<Record> = Vec::new();
    let mut envelope: Option<Envelope> = None;
    let mut loose = false;
    assert(crate::validator::fields_view(fields@) =~= Seq::<SpecField>::empty());
    assert(derives_view(derives@) =~= Seq::<SpecDerive>::empty());
    assert(checks_view(checks@) =~= Seq::<SpecCheck>::empty());
    assert(records_view(records@) =~= Seq::<SpecRecord>::empty());
    let mut q: usize = 0;
    while q < n
        invariant
            t == toks_view(toks@),
            n == toks@.len(),
            t.len() == n,
            lex(src@) == Some(t),
            p_items(t, 0, no_items()) == p_items(
                t,
                q as int,
                items_view(model, fields@, derives@, checks@, records@, envelope, loose),
            ),
        decreases n - q,
    {
        let ghost before = items_view(model, fields@, derives@, checks@, records@, envelope, loose);
        if word_at(&toks, q, "model") {
            match parse_model(&toks, q) {
                Ok((m, q2)) => {
                    model = Some(m);
                    q = q2;
                },
                Err(e) => return Err(e),
            }
        } else if word_at(&toks, q, "field") {
            match parse_field(&toks, q) {
                Ok((f, q2)) => {
                    fields.push(f);
                    assert(crate::validator::fields_view(fields@) =~= before.fields.push(f@));
                    loose = true;
                    q = q2;
                },
                Err(e) => return Err(e),
            }
        } else if word_at(&toks, q, "derive") {
            match parse_derive(&toks, q) {
                Ok((d, q2)) => {
                    derives.push(d);
                    assert(derives_view(derives@) =~= before.derives.push(d@));
                    loose = true;
                    q = q2;
                },
                Err(e) => return Err(e),
            }
        } else if word_at(&toks, q, "check") {
            match parse_check(&toks, q) {
                Ok((c, q2)) => {
                    checks.push(c);
                    assert(checks_view(checks@) =~= before.checks.push(c@));
                    loose = true;
                    q = q2;
                },
                Err(e) => return Err(e),
            }
        } else if word_at(&toks, q, "record") {
            match parse_record(&toks, q) {
                Ok((r, q2)) => {
                    records.push(r);
                    assert(records_view(records@) =~= before.records.push(r@));
                    q = q2;
                },
                Err(e) => return Err(e),
            }
        } else if word_at(&toks, q, "envelope") {
            if envelope.is_some() {
                return Err(perr("only one `envelope` block is allowed per file"));
            }
            match parse_envelope(&toks, q) {
                Ok((e, q2)) => {
                    envelope = Some(e);
                    q = q2;
                },
                Err(e) => return Err(e),
            }
        } else {
            return Err(perr("unexpected item at top level"));
        }
    }
    let ghost last = items_view(model, fields@, derives@, checks@, records@, envelope, loose);
    assert(p_items(t, 0, no_items()) == Ok::<SpecItems, Seq<char>>(last));
    let model = match model {
        Some(m) => m,
        None => return Err(perr("missing `model` block")),
    };
    if records.len() > 0 && loose {
        return Err(perr("cannot mix top-level fields with record blocks"));
    }
    if records.len() > 0 {
        Ok(BoeFile { model, records, envelope })
    } else {
        let mut name = string_from("mod");
        name.append(model.number.as_str());
        let record_length = model.record_length;
        let r = Record { name, record_length, fields, derives, checks };
        let mut rs: Vec<Record> = Vec::new();
        rs.push(r);
        let f = BoeFile { model, records: rs, envelope };
        assert(f@.records =~= seq![r@]);
        Ok(f)
    }
}

} // verus!

verus! {

// ── how a file is assembled ─────────────────────────────────────────────
/// The number of loose `field`, `derive` and `check` items collected.
pub open spec fn loose_count(a: SpecItems) -> nat {
    a.fields.len() + a.derives.len() + a.checks.len()
}

/// `b` extends `a`: what `a` collected stays in front of what `b` holds, and
/// the loose flag is set exactly when a loose item was added.
pub open spec fn items_extend(a: SpecItems, b: SpecItems) -> bool {
    &&& b.records.take(a.records.len() as int) == a.records
    &&& b.records.len() >= a.records.len()
    &&& b.fields.len() >= a.fields.len()
    &&& b.derives.len() >= a.derives.len()
    &&& b.checks.len() >= a.checks.len()
    &&& b.fields.take(a.fields.len() as int) == a.fields
    &&& b.derives.take(a.derives.len() as int) == a.derives
    &&& b.checks.take(a.checks.len() as int) == a.checks
    &&& b.loose == (a.loose || loose_count(b) > loose_count(a))
}

proof fn lemma_items_extend_trans(a: SpecItems, b: SpecItems, c: SpecItems)
    requires
        items_extend(a, b),
        items_extend(b, c),
    ensures
        items_extend(a, c),
{
    assert(c.records.take(a.records.len() as int) =~= c.records.take(b.records.len() as int).take(
        a.records.len() as int,
    ));
    assert(c.fields.take(a.fields.len() as int) =~= c.fields.take(b.fields.len() as int).take(
        a.fields.len() as int,
    ));
    assert(c.derives.take(a.derives.len() as int) =~= c.derives.take(b.derives.len() as int).take(
        a.derives.len() as int,
    ));
    assert(c.checks.take(a.checks.len() as int) =~= c.checks.take(b.checks.len() as int).take(
        a.checks.len() as int,
    ));
}

proof fn lemma_items_extend_refl(a: SpecItems)
    ensures
        items_extend(a, a),
{
    assert(a.records.take(a.records.len() as int) =~= a.records);
    assert(a.fields.take(a.fields.len() as int) =~= a.fields);
    assert(a.derives.take(a.derives.len() as int) =~= a.derives);
    assert(a.checks.take(a.checks.len() as int) =~= a.checks);
}

/// One item read at `p`: the items after it, and where the next one starts.
pub open spec fn items_step(t: Seq<SpecTok>, p: int, a: SpecItems) -> Option<(SpecItems, int)> {
    if word_is(t, p, "model"@) {
        match p_model(t, p) {
            Ok((m, q)) => Some((SpecItems { model: Some(m), ..a }, q)),
            Err(_) => None,
        }
    } else if word_is(t, p, "field"@) {
        match p_field(t, p) {
            Ok((f, q)) => Some((SpecItems { fields: a.fields.push(f), loose: true, ..a }, q)),
            Err(_) => None,
        }
    } else if word_is(t, p, "derive"@) {
        match p_derive(t, p) {
            Ok((d, q)) => Some((SpecItems { derives: a.derives.push(d), loose: true, ..a }, q)),
            Err(_) => None,
        }
    } else if word_is(t, p, "check"@) {
        match p_check(t, p) {
            Ok((c, q)) => Some((SpecItems { checks: a.checks.push(c), loose: true, ..a }, q)),
            Err(_) => None,
        }
    } else if word_is(t, p, "record"@) {
        match p_record(t, p) {
            Ok((r, q)) => Some((SpecItems { records: a.records.push(r), ..a }, q)),
            Err(_) => None,
        }
    } else if word_is(t, p, "envelope"@) && a.envelope is None {
        match p_envelope(t, p) {
            Ok((e, q)) => Some((SpecItems { envelope: Some(e), ..a }, q)),
            Err(_) => None,
        }
    } else {
        None
    }
}

/// The items after a successful step continue the run; a step that fails
/// ends it.
proof fn lemma_items_unfold(t: Seq<SpecTok>, p: int, a: SpecItems)
    requires
        0 <= p < t.len(),
    ensures
        p_items(t, p, a) is Ok ==> (items_step(t, p, a) matches Some((a2, q)) && !bad_step(t, p, q)
            && p_items(t, p, a) == p_items(t, q, a2)),
{
}

proof fn lemma_step_extends(t: Seq<SpecTok>, p: int, a: SpecItems)
    ensures
        items_step(t, p, a) matches Some((a2, q)) ==> items_extend(a, a2),
{
    if let Some((a2, q)) = items_step(t, p, a) {
        assert(a2.records.take(a.records.len() as int) =~= a.records);
        assert(a2.fields.take(a.fields.len() as int) =~= a.fields);
        assert(a2.derives.take(a.derives.len() as int) =~= a.derives);
        assert(a2.checks.take(a.checks.len() as int) =~= a.checks);
    }
}

/// Reading the rest of the items only appends to what was collected.
proof fn lemma_items_extend(t: Seq<SpecTok>, p: int, a: SpecItems)
    ensures
        p_items(t, p, a) matches Ok(b) ==> items_extend(a, b),
    decreases t.len() - p,
{
    if p < 0 || p >= t.len() {
        lemma_items_extend_refl(a);
    } else if p_items(t, p, a) is Ok {
        lemma_items_unfold(t, p, a);
        let (a2, q) = items_step(t, p, a).unwrap();
        lemma_step_extends(t, p, a);
        lemma_items_extend(t, q, a2);
        if let Ok(b) = p_items(t, q, a2) {
            lemma_items_extend_trans(a, a2, b);
        }
    }
}

/// How `parse` assembles a file from the items of the source, read in
/// order: a file without record blocks has one record, named `mod<number>`
/// with the model's record length, holding the top-level fields, derives
/// and checks in source order; a file with record blocks has exactly those
/// records in source order, and top-level fields, derives or checks beside
/// them are the error "cannot mix top-level fields with record blocks".
pub proof fn law_parse_assembly(src: Seq<char>)
    ensures
        lex(src) matches Some(t) ==> (p_items(t, 0, no_items()) matches Ok(a) ==> {
            &&& a.loose == (loose_count(a) > 0)
            &&& (a.model is Some && a.records.len() > 0 && loose_count(a) > 0) ==> parse_spec(src)
                == Err::<SpecBoeFile, Seq<char>>("cannot mix top-level fields with record blocks"@)
            &&& parse_spec(src) matches Ok(f) ==> if a.records.len() == 0 {
                f.records == seq![
                    SpecRecord {
                        name: "mod"@ + f.model.number,
                        record_length: f.model.record_length,
                        fields: a.fields,
                        derives: a.derives,
                        checks: a.checks,
                    },
                ]
            } else {
                f.records == a.records
            }
        }),
{
    if let Some(t) = lex(src) {
        lemma_items_extend(t, 0, no_items());
    }
}

} // verus!

verus! {

// ── associativity ───────────────────────────────────────────────────────
/// `x0 o1 x1 o2 ... oj xj` grouped to the left: `((x0 o1 x1) o2 ...) oj xj`.
pub open spec fn fold_left(x0: SpecExpr, ops: Seq<BinOp>, xs: Seq<SpecExpr>, j: nat) -> SpecExpr
    decreases j,
{
    if j == 0 {
        x0
    } else {
        SpecExpr::Bin(Box::new(fold_left(x0, ops, xs, (j - 1) as nat)), ops[j - 1], Box::new(xs[j - 1]))
    }
}

/// The tokens from `qs[0]` on read `o1 x1 ... on xn` (operator `ops[j]` at
/// `qs[j]`, operand `xs[j]` read by `operand` after it up to `qs[j + 1]`),
/// and no operator follows.
pub open spec fn chain(
    t: Seq<SpecTok>,
    mul_level: bool,
    ops: Seq<BinOp>,
    xs: Seq<SpecExpr>,
    qs: Seq<int>,
) -> bool {
    let n = ops.len();
    &&& xs.len() == n
    &&& qs.len() == n + 1
    &&& forall|j: int|
        0 <= j < n ==> {
            &&& qs[j] < #[trigger] qs[j + 1] <= t.len()
            &&& (if mul_level { mul_op(t, qs[j]) } else { add_op(t, qs[j]) }) == Some(ops[j])
            &&& (if mul_level { p_atom(t, qs[j] + 1) } else { p_mul(t, qs[j] + 1) }) == Ok::<
                (SpecExpr, int),
                Seq<char>,
            >((xs[j], qs[j + 1]))
        }
    &&& (if mul_level { mul_op(t, qs[n as int]) } else { add_op(t, qs[n as int]) }) is None
}

proof fn lemma_add_rest_folds(
    t: Seq<SpecTok>,
    x0: SpecExpr,
    ops: Seq<BinOp>,
    xs: Seq<SpecExpr>,
    qs: Seq<int>,
    j: nat,
)
    requires
        chain(t, false, ops, xs, qs),
        j <= ops.len(),
    ensures
        p_add_rest(t, fold_left(x0, ops, xs, j), qs[j as int]) == Ok::<(SpecExpr, int), Seq<char>>(
            (fold_left(x0, ops, xs, ops.len()), qs[ops.len() as int]),
        ),
    decreases ops.len() - j,
{
    if j < ops.len() {
        assert(qs[j as int] < qs[j as int + 1]);
        lemma_add_rest_folds(t, x0, ops, xs, qs, j + 1);
        assert(fold_left(x0, ops, xs, j + 1) == SpecExpr::Bin(
            Box::new(fold_left(x0, ops, xs, j)),
            ops[j as int],
            Box::new(xs[j as int]),
        ));
    }
}

proof fn lemma_mul_rest_folds(
    t: Seq<SpecTok>,
    x0: SpecExpr,
    ops: Seq<BinOp>,
    xs: Seq<SpecExpr>,
    qs: Seq<int>,
    j: nat,
)
    requires
        chain(t, true, ops, xs, qs),
        j <= ops.len(),
    ensures
        p_mul_rest(t, fold_left(x0, ops, xs, j), qs[j as int]) == Ok::<(SpecExpr, int), Seq<char>>(
            (fold_left(x0, ops, xs, ops.len()), qs[ops.len() as int]),
        ),
    decreases ops.len() - j,
{
    if j < ops.len() {
        assert(qs[j as int] < qs[j as int + 1]);
        lemma_mul_rest_folds(t, x0, ops, xs, qs, j + 1);
        assert(fold_left(x0, ops, xs, j + 1) == SpecExpr::Bin(
            Box::new(fold_left(x0, ops, xs, j)),
            ops[j as int],
            Box::new(xs[j as int]),
        ));
    }
}

/// `+` and `-` associate to the left: a sum `x0 o1 x1 ... on xn` of any
/// length parses as `((x0 o1 x1) o2 ...) on xn`.
pub proof fn law_add_is_left_assoc(
    t: Seq<SpecTok>,
    p: int,
    x0: SpecExpr,
    ops: Seq<BinOp>,
    xs: Seq<SpecExpr>,
    qs: Seq<int>,
)
    requires
        qs.len() > 0,
        p < qs[0] <= t.len(),
        p_mul(t, p) == Ok::<(SpecExpr, int), Seq<char>>((x0, qs[0])),
        chain(t, false, ops, xs, qs),
    ensures
        p_add(t, p) == Ok::<(SpecExpr, int), Seq<char>>(
            (fold_left(x0, ops, xs, ops.len()), qs[ops.len() as int]),
        ),
{
    lemma_add_rest_folds(t, x0, ops, xs, qs, 0);
}

/// `*` and `/` associate to the left: a product `x0 o1 x1 ... on xn` of
/// any length parses as `((x0 o1 x1) o2 ...) on xn`.
pub proof fn law_mul_is_left_assoc(
    t: Seq<SpecTok>,
    p: int,
    x0: SpecExpr,
    ops: Seq<BinOp>,
    xs: Seq<SpecExpr>,
    qs: Seq<int>,
)
    requires
        qs.len() > 0,
        p < qs[0] <= t.len(),
        p_atom(t, p) == Ok::<(SpecExpr, int), Seq<char>>((x0, qs[0])),
        chain(t, true, ops, xs, qs),
    ensures
        p_mul(t, p) == Ok::<(SpecExpr, int), Seq<char>>(
            (fold_left(x0, ops, xs, ops.len()), qs[ops.len() as int]),
        ),
{
    lemma_mul_rest_folds(t, x0, ops, xs, qs, 0);
}

/// `c[j] implies c[j + 1] implies ... implies c[n - 1]` grouped to the right.
pub open spec fn fold_right(cs: Seq<SpecBoolExpr>, j: nat) -> SpecBoolExpr
    decreases cs.len() - j,
{
    if j + 1 >= cs.len() {
        cs[j as int]
    } else {
        SpecBoolExpr::Implies(Box::new(cs[j as int]), Box::new(fold_right(cs, j + 1)))
    }
}

/// The tokens read comparisons `cs[j]` from `ss[j]` up to `es[j]`, each but
/// the last followed by `implies`, and the last by no `implies`.
pub open spec fn implies_chain(t: Seq<SpecTok>, cs: Seq<SpecBoolExpr>, ss: Seq<int>, es: Seq<int>) -> bool {
    let n = cs.len();
    &&& n > 0
    &&& ss.len() == n
    &&& es.len() == n
    &&& forall|j: int|
        0 <= j < n ==> {
            &&& ss[j] < #[trigger] es[j] <= t.len()
            &&& p_comparison(t, ss[j]) == Ok::<(SpecBoolExpr, int), Seq<char>>((cs[j], es[j]))
        }
    &&& forall|j: int| 0 <= j < n - 1 ==> word_is(t, #[trigger] es[j], "implies"@) && ss[j + 1] == es[j] + 1
    &&& !word_is(t, es[n - 1], "implies"@)
}

proof fn lemma_bool_folds(t: Seq<SpecTok>, cs: Seq<SpecBoolExpr>, ss: Seq<int>, es: Seq<int>, j: nat)
    requires
        implies_chain(t, cs, ss, es),
        j < cs.len(),
    ensures
        p_bool(t, ss[j as int]) == Ok::<(SpecBoolExpr, int), Seq<char>>(
            (fold_right(cs, j), es[cs.len() - 1]),
        ),
        es[cs.len() - 1] >= es[j as int],
    decreases cs.len() - j,
{
    assert(ss[j as int] < es[j as int]);
    if j + 1 < cs.len() {
        lemma_bool_folds(t, cs, ss, es, j + 1);
        assert(word_is(t, es[j as int], "implies"@));
        assert(ss[j as int + 1] < es[j as int + 1]);
    }
}

/// `implies` associates to the right: `c0 implies c1 implies ... implies cn`
/// of any length parses as `c0 implies (c1 implies (... implies cn))`.
pub proof fn law_implies_is_right_assoc(
    t: Seq<SpecTok>,
    cs: Seq<SpecBoolExpr>,
    ss: Seq<int>,
    es: Seq<int>,
)
    requires
        implies_chain(t, cs, ss, es),
    ensures
        p_bool(t, ss[0]) == Ok::<(SpecBoolExpr, int), Seq<char>>((fold_right(cs, 0), es[cs.len() - 1])),
{
    lemma_bool_folds(t, cs, ss, es, 0);
}

/// A comparison keeps the operator that is written: `>` gives `Gt`, `<`
/// gives `Lt`, `>=` gives `Ge`, `<=` gives `Le`, `==` gives `Eq`, `!=`
/// gives `Ne`, with the left operand on the left; any other token between the
/// operands is an error.
pub proof fn law_comparison_keeps_written_op(
    t: Seq<SpecTok>,
    p: int,
    l: SpecExpr,
    q: int,
    r: SpecExpr,
    q2: int,
)
    requires
        p < q < q2 <= t.len(),
        p_expr(t, p) == Ok::<(SpecExpr, int), Seq<char>>((l, q)),
        p_expr(t, q + 1) == Ok::<(SpecExpr, int), Seq<char>>((r, q2)),
    ensures
        t[q] == SpecTok::Sym(Sym::Gt) ==> p_comparison(t, p) == Ok::<(SpecBoolExpr, int), Seq<char>>(
            (SpecBoolExpr::Cmp(l, CmpOp::Gt, r), q2),
        ),
        t[q] == SpecTok::Sym(Sym::Lt) ==> p_comparison(t, p) == Ok::<(SpecBoolExpr, int), Seq<char>>(
            (SpecBoolExpr::Cmp(l, CmpOp::Lt, r), q2),
        ),
        t[q] == SpecTok::Sym(Sym::GtEq) ==> p_comparison(t, p) == Ok::<(SpecBoolExpr, int), Seq<char>>(
            (SpecBoolExpr::Cmp(l, CmpOp::Ge, r), q2),
        ),
        t[q] == SpecTok::Sym(Sym::LtEq) ==> p_comparison(t, p) == Ok::<(SpecBoolExpr, int), Seq<char>>(
            (SpecBoolExpr::Cmp(l, CmpOp::Le, r), q2),
        ),
        t[q] == SpecTok::Sym(Sym::EqEq) ==> p_comparison(t, p) == Ok::<(SpecBoolExpr, int), Seq<char>>(
            (SpecBoolExpr::Cmp(l, CmpOp::Eq, r), q2),
        ),
        t[q] == SpecTok::Sym(Sym::NotEq) ==> p_comparison(t, p) == Ok::<(SpecBoolExpr, int), Seq<char>>(
            (SpecBoolExpr::Cmp(l, CmpOp::Ne, r), q2),
        ),
        !(t[q] == SpecTok::Sym(Sym::Gt) || t[q] == SpecTok::Sym(Sym::Lt) || t[q] == SpecTok::Sym(Sym::GtEq)
            || t[q] == SpecTok::Sym(Sym::LtEq) || t[q] == SpecTok::Sym(Sym::EqEq) || t[q] == SpecTok::Sym(
            Sym::NotEq,
        )) ==> p_comparison(t, p) is Err,
{
}

/// Each field attribute sets its own part of the field, and nothing else,
/// to the value written: a number for `at`, `length` and `decimals`, the
/// named type, alignment, padding, flag or usage, and the string for
/// `fixed`, `domain` and `description`.
pub proof fn law_field_attrs_take_written_value(a: SpecFieldAttrs, name: Seq<char>, d: Seq<char>, x: Seq<char>)
    ensures
        d.len() > 0 && all_digits(d) && digits_value(d) <= usize::MAX ==> {
            &&& field_attr(a, "at"@, SpecTok::Int(d), name) == Ok::<SpecFieldAttrs, Seq<char>>(SpecFieldAttrs { at: Some(digits_value(d) as usize), ..a })
            &&& field_attr(a, "length"@, SpecTok::Int(d), name) == Ok::<SpecFieldAttrs, Seq<char>>(SpecFieldAttrs { length: Some(digits_value(d) as usize), ..a })
            &&& field_attr(a, "decimals"@, SpecTok::Int(d), name) == Ok::<SpecFieldAttrs, Seq<char>>(SpecFieldAttrs { decimals: Some(digits_value(d) as usize), ..a })
        },
        field_attr(a, "type"@, SpecTok::Ident("alpha"@), name) == Ok::<SpecFieldAttrs, Seq<char>>(SpecFieldAttrs { ty: Some(FieldType::Alpha), ..a }),
        field_attr(a, "type"@, SpecTok::Ident("alphanumeric"@), name) == Ok::<SpecFieldAttrs, Seq<char>>(SpecFieldAttrs { ty: Some(FieldType::Alphanumeric), ..a }),
        field_attr(a, "type"@, SpecTok::Ident("number"@), name) == Ok::<SpecFieldAttrs, Seq<char>>(SpecFieldAttrs { ty: Some(FieldType::Number), ..a }),
        field_attr(a, "type"@, SpecTok::Ident("signed_amount"@), name) == Ok::<SpecFieldAttrs, Seq<char>>(SpecFieldAttrs { ty: Some(FieldType::SignedAmount), ..a }),
        field_attr(a, "type"@, SpecTok::Ident("signed_n"@), name) == Ok::<SpecFieldAttrs, Seq<char>>(SpecFieldAttrs { ty: Some(FieldType::SignedAmountN), ..a }),
        field_attr(a, "type"@, SpecTok::Ident("unsigned_amount"@), name) == Ok::<SpecFieldAttrs, Seq<char>>(SpecFieldAttrs { ty: Some(FieldType::UnsignedAmount), ..a }),
        field_attr(a, "align"@, SpecTok::Ident("left"@), name) == Ok::<SpecFieldAttrs, Seq<char>>(SpecFieldAttrs { align: Some(Align::Left), ..a }),
        field_attr(a, "align"@, SpecTok::Ident("right"@), name) == Ok::<SpecFieldAttrs, Seq<char>>(SpecFieldAttrs { align: Some(Align::Right), ..a }),
        field_attr(a, "pad"@, SpecTok::Ident("space"@), name) == Ok::<SpecFieldAttrs, Seq<char>>(SpecFieldAttrs { pad: Some(Pad::Space), ..a }),
        field_attr(a, "pad"@, SpecTok::Ident("zero"@), name) == Ok::<SpecFieldAttrs, Seq<char>>(SpecFieldAttrs { pad: Some(Pad::Zero), ..a }),
        field_attr(a, "required"@, SpecTok::Ident("true"@), name) == Ok::<SpecFieldAttrs, Seq<char>>(SpecFieldAttrs { required: true, ..a }),
        field_attr(a, "required"@, SpecTok::Ident("false"@), name) == Ok::<SpecFieldAttrs, Seq<char>>(SpecFieldAttrs { required: false, ..a }),
        field_attr(a, "usage"@, SpecTok::Ident("all"@), name) == Ok::<SpecFieldAttrs, Seq<char>>(SpecFieldAttrs { usage: Usage::All, ..a }),
        field_attr(a, "usage"@, SpecTok::Ident("print_only"@), name) == Ok::<SpecFieldAttrs, Seq<char>>(SpecFieldAttrs { usage: Usage::PrintOnly, ..a }),
        field_attr(a, "usage"@, SpecTok::Ident("internet_only"@), name) == Ok::<SpecFieldAttrs, Seq<char>>(SpecFieldAttrs { usage: Usage::InternetOnly, ..a }),
        field_attr(a, "fixed"@, SpecTok::Str(x), name) == Ok::<SpecFieldAttrs, Seq<char>>(SpecFieldAttrs { fixed: Some(x), ..a }),
        field_attr(a, "domain"@, SpecTok::Str(x), name) == Ok::<SpecFieldAttrs, Seq<char>>(SpecFieldAttrs { domain: Some(x), ..a }),
        field_attr(a, "description"@, SpecTok::Str(x), name) == Ok::<SpecFieldAttrs, Seq<char>>(SpecFieldAttrs { description: Some(x), ..a }),
{
    reveal_strlit("at");
    assert("at"@.len() == 2);
    assert("at"@[0] == 'a');
    reveal_strlit("length");
    assert("length"@.len() == 6);
    assert("length"@[0] == 'l');
    reveal_strlit("decimals");
    assert("decimals"@.len() == 8);
    assert("decimals"@[0] == 'd');
    reveal_strlit("type");
    assert("type"@.len() == 4);
    assert("type"@[0] == 't');
    reveal_strlit("align");
    assert("align"@.len() == 5);
    assert("align"@[0] == 'a');
    reveal_strlit("pad");
    assert("pad"@.len() == 3);
    assert("pad"@[0] == 'p');
    reveal_strlit("required");
    assert("required"@.len() == 8);
    assert("required"@[0] == 'r');
    reveal_strlit("fixed");
    assert("fixed"@.len() == 5);
    assert("fixed"@[0] == 'f');
    reveal_strlit("domain");
    assert("domain"@.len() == 6);
    assert("domain"@[0] == 'd');
    reveal_strlit("usage");
    assert("usage"@.len() == 5);
    assert("usage"@[0] == 'u');
    reveal_strlit("description");
    assert("description"@.len() == 11);
    assert("description"@[0] == 'd');
    reveal_strlit("alpha");
    assert("alpha"@.len() == 5);
    assert("alpha"@[0] == 'a');
    reveal_strlit("alphanumeric");
    assert("alphanumeric"@.len() == 12);
    assert("alphanumeric"@[0] == 'a');
    reveal_strlit("number");
    assert("number"@.len() == 6);
    assert("number"@[0] == 'n');
    reveal_strlit("signed_amount");
    assert("signed_amount"@.len() == 13);
    assert("signed_amount"@[0] == 's');
    reveal_strlit("signed_n");
    assert("signed_n"@.len() == 8);
    assert("signed_n"@[0] == 's');
    reveal_strlit("unsigned_amount");
    assert("unsigned_amount"@.len() == 15);
    assert("unsigned_amount"@[0] == 'u');
    reveal_strlit("left");
    assert("left"@.len() == 4);
    assert("left"@[0] == 'l');
    reveal_strlit("right");
    assert("right"@.len() == 5);
    assert("right"@[0] == 'r');
    reveal_strlit("space");
    assert("space"@.len() == 5);
    assert("space"@[0] == 's');
    reveal_strlit("zero");
    assert("zero"@.len() == 4);
    assert("zero"@[0] == 'z');
    reveal_strlit("true");
    assert("true"@.len() == 4);
    assert("true"@[0] == 't');
    reveal_strlit("false");
    assert("false"@.len() == 5);
    assert("false"@[0] == 'f');
    reveal_strlit("all");
    assert("all"@.len() == 3);
    assert("all"@[0] == 'a');
    reveal_strlit("print_only");
    assert("print_only"@.len() == 10);
    assert("print_only"@[0] == 'p');
    reveal_strlit("internet_only");
    assert("internet_only"@.len() == 13);
    assert("internet_only"@[0] == 'i');
}

/// Model attributes take the written value: `encoding` `"ISO-8859-1"` or
/// `"ASCII"`, `line_ending` `"CRLF"` or `"LF"`, and the `record_length` number.
pub proof fn law_model_attrs_take_written_value(a: ModelAttrs, d: Seq<char>)
    ensures
        model_attr(a, "encoding"@, SpecTok::Str("ISO-8859-1"@)) == Ok::<ModelAttrs, Seq<char>>(
            ModelAttrs { encoding: Some(Encoding::Iso8859_1), ..a },
        ),
        model_attr(a, "encoding"@, SpecTok::Str("ASCII"@)) == Ok::<ModelAttrs, Seq<char>>(
            ModelAttrs { encoding: Some(Encoding::Ascii), ..a },
        ),
        model_attr(a, "line_ending"@, SpecTok::Str("CRLF"@)) == Ok::<ModelAttrs, Seq<char>>(
            ModelAttrs { line_ending: Some(LineEnding::Crlf), ..a },
        ),
        model_attr(a, "line_ending"@, SpecTok::Str("LF"@)) == Ok::<ModelAttrs, Seq<char>>(
            ModelAttrs { line_ending: Some(LineEnding::Lf), ..a },
        ),
        d.len() > 0 && all_digits(d) && digits_value(d) <= usize::MAX ==> model_attr(
            a,
            "record_length"@,
            SpecTok::Int(d),
        ) == Ok::<ModelAttrs, Seq<char>>(
            ModelAttrs { record_length: Some(digits_value(d) as usize), ..a },
        ),
{
    reveal_strlit("encoding");
    assert("encoding"@.len() == 8);
    assert("encoding"@[0] == 'e');
    reveal_strlit("line_ending");
    assert("line_ending"@.len() == 11);
    assert("line_ending"@[0] == 'l');
    reveal_strlit("record_length");
    assert("record_length"@.len() == 13);
    assert("record_length"@[0] == 'r');
    reveal_strlit("ISO-8859-1");
    assert("ISO-8859-1"@.len() == 10);
    assert("ISO-8859-1"@[0] == 'I');
    reveal_strlit("ASCII");
    assert("ASCII"@.len() == 5);
    assert("ASCII"@[0] == 'A');
    reveal_strlit("CRLF");
    assert("CRLF"@.len() == 4);
    assert("CRLF"@[0] == 'C');
    reveal_strlit("LF");
    assert("LF"@.len() == 2);
    assert("LF"@[0] == 'L');
}

/// A parameter's `type` takes the written name: `alpha`, `alphanumeric` or `number`.
pub proof fn law_param_type_takes_written_name(a: SpecParamAttrs, name: Seq<char>)
    ensures
        param_attr(a, "type"@, SpecTok::Ident("alpha"@), name) == Ok::<SpecParamAttrs, Seq<char>>(
            SpecParamAttrs { ty: Some(FieldType::Alpha), ..a },
        ),
        param_attr(a, "type"@, SpecTok::Ident("alphanumeric"@), name) == Ok::<SpecParamAttrs, Seq<char>>(
            SpecParamAttrs { ty: Some(FieldType::Alphanumeric), ..a },
        ),
        param_attr(a, "type"@, SpecTok::Ident("number"@), name) == Ok::<SpecParamAttrs, Seq<char>>(
            SpecParamAttrs { ty: Some(FieldType::Number), ..a },
        ),
{
    reveal_strlit("length");
    assert("length"@.len() == 6);
    assert("length"@[0] == 'l');
    reveal_strlit("type");
    assert("type"@.len() == 4);
    assert("type"@[0] == 't');
    reveal_strlit("alpha");
    assert("alpha"@.len() == 5);
    assert("alpha"@[0] == 'a');
    reveal_strlit("alphanumeric");
    assert("alphanumeric"@.len() == 12);
    assert("alphanumeric"@[0] == 'a');
    reveal_strlit("number");
    assert("number"@.len() == 6);
    assert("number"@[0] == 'n');
}

/// `max(...)` and `min(...)` call the builtin of that name on the arguments read.
pub proof fn law_builtin_call_named(t: Seq<SpecTok>, p: int, args: Seq<SpecExpr>, q: int)
    requires
        0 <= p < q <= t.len(),
        sym_is(t, p + 1, Sym::LParen),
        p_args(t, p + 2) == Ok::<(Seq<SpecExpr>, int), Seq<char>>((args, q)),
    ensures
        t[p] == SpecTok::Ident("max"@) ==> p_atom(t, p) == Ok::<(SpecExpr, int), Seq<char>>(
            (SpecExpr::Call(BuiltinFn::Max, args), q),
        ),
        t[p] == SpecTok::Ident("min"@) ==> p_atom(t, p) == Ok::<(SpecExpr, int), Seq<char>>(
            (SpecExpr::Call(BuiltinFn::Min, args), q),
        ),
{
    reveal_strlit("max");
    reveal_strlit("min");
    assert("max"@[1] == 'a' && "min"@[1] == 'i');
}

/// A sum or a product of two operands keeps the operator that is written:
/// `+` adds, `-` subtracts, `*` multiplies and `/` divides, left operand first.
pub proof fn law_arith_keeps_written_op(t: Seq<SpecTok>, p: int, x: SpecExpr, q: int, y: SpecExpr, q2: int)
    requires
        p < q < q2 <= t.len(),
    ensures
        (p_mul(t, p) == Ok::<(SpecExpr, int), Seq<char>>((x, q)) && p_mul(t, q + 1) == Ok::<
            (SpecExpr, int),
            Seq<char>,
        >((y, q2)) && !sym_is(t, q2, Sym::Plus) && !sym_is(t, q2, Sym::Minus)) ==> {
            &&& t[q] == SpecTok::Sym(Sym::Plus) ==> p_add(t, p) == Ok::<(SpecExpr, int), Seq<char>>(
                (SpecExpr::Bin(Box::new(x), BinOp::Add, Box::new(y)), q2),
            )
            &&& t[q] == SpecTok::Sym(Sym::Minus) ==> p_add(t, p) == Ok::<(SpecExpr, int), Seq<char>>(
                (SpecExpr::Bin(Box::new(x), BinOp::Sub, Box::new(y)), q2),
            )
        },
        (p_atom(t, p) == Ok::<(SpecExpr, int), Seq<char>>((x, q)) && p_atom(t, q + 1) == Ok::<
            (SpecExpr, int),
            Seq<char>,
        >((y, q2)) && !sym_is(t, q2, Sym::Star) && !sym_is(t, q2, Sym::Slash)) ==> {
            &&& t[q] == SpecTok::Sym(Sym::Star) ==> p_mul(t, p) == Ok::<(SpecExpr, int), Seq<char>>(
                (SpecExpr::Bin(Box::new(x), BinOp::Mul, Box::new(y)), q2),
            )
            &&& t[q] == SpecTok::Sym(Sym::Slash) ==> p_mul(t, p) == Ok::<(SpecExpr, int), Seq<char>>(
                (SpecExpr::Bin(Box::new(x), BinOp::Div, Box::new(y)), q2),
            )
        },
{
    let xy_add = SpecExpr::Bin(Box::new(x), BinOp::Add, Box::new(y));
    let xy_sub = SpecExpr::Bin(Box::new(x), BinOp::Sub, Box::new(y));
    let xy_mul = SpecExpr::Bin(Box::new(x), BinOp::Mul, Box::new(y));
    let xy_div = SpecExpr::Bin(Box::new(x), BinOp::Div, Box::new(y));
    assert(!sym_is(t, q2, Sym::Plus) && !sym_is(t, q2, Sym::Minus) ==> p_add_rest(t, xy_add, q2)
        == Ok::<(SpecExpr, int), Seq<char>>((xy_add, q2)));
    assert(!sym_is(t, q2, Sym::Plus) && !sym_is(t, q2, Sym::Minus) ==> p_add_rest(t, xy_sub, q2)
        == Ok::<(SpecExpr, int), Seq<char>>((xy_sub, q2)));
    assert(!sym_is(t, q2, Sym::Star) && !sym_is(t, q2, Sym::Slash) ==> p_mul_rest(t, xy_mul, q2)
        == Ok::<(SpecExpr, int), Seq<char>>((xy_mul, q2)));
    assert(!sym_is(t, q2, Sym::Star) && !sym_is(t, q2, Sym::Slash) ==> p_mul_rest(t, xy_div, q2)
        == Ok::<(SpecExpr, int), Seq<char>>((xy_div, q2)));
}

/// The text a template part stands for: a literal itself, a placeholder
/// `${name}`.
pub open spec fn part_text(x: SpecTemplatePart) -> Seq<char> {
    match x {
        SpecTemplatePart::Lit(l) => l,
        SpecTemplatePart::Field(n) => seq!['$', '{'] + n + seq!['}'],
    }
}

pub open spec fn render(ps: Seq<SpecTemplatePart>) -> Seq<char>
    decreases ps.len(),
{
    if ps.len() == 0 {
        Seq::empty()
    } else {
        part_text(ps[0]) + render(ps.drop_first())
    }
}

/// A template reads back to its text: its literal runs and `${name}`
/// placeholders, written out in order, are the template string; every
/// placeholder names an identifier.
pub proof fn law_template_reads_back(s: Seq<char>, i: int)
    requires
        0 <= i <= s.len(),
    ensures
        template_from(s, i) matches Some(ps) ==> render(ps) == s.skip(i) && forall|k: int|
            0 <= k < ps.len() && (#[trigger] ps[k]) is Field ==> ps[k]->Field_0.len() > 0
                && is_ident_start(ps[k]->Field_0[0]),
    decreases s.len() - i,
{
    if i < s.len() {
        if ref_start(s, i) {
            if i + 2 < s.len() && is_ident_start(s[i + 2]) {
                let e = ident_end(s, i + 3);
                lemma_ident_end(s, i + 3);
                if e < s.len() && s[e] == '}' {
                    law_template_reads_back(s, e + 1);
                    if let Some(ps) = template_from(s, i) {
                        let rest = template_from(s, e + 1).unwrap();
                        let x = SpecTemplatePart::Field(s.subrange(i + 2, e));
                        assert(ps == seq![x] + rest);
                        assert(ps.drop_first() =~= rest);
                        assert(s.skip(i) =~= seq!['$', '{'] + s.subrange(i + 2, e) + seq!['}'] + s.skip(
                            e + 1,
                        ));
                        assert forall|k: int|
                            0 <= k < ps.len() && (#[trigger] ps[k]) is Field implies ps[k]->Field_0.len()
                            > 0 && is_ident_start(ps[k]->Field_0[0]) by {
                            if k > 0 {
                                assert(ps[k] == rest[k - 1]);
                            }
                        }
                    }
                }
            }
        } else {
            let e = text_end(s, i + 1);
            lemma_text_end(s, i + 1);
            law_template_reads_back(s, e);
            if let Some(ps) = template_from(s, i) {
                let rest = template_from(s, e).unwrap();
                let x = SpecTemplatePart::Lit(s.subrange(i, e));
                assert(ps == seq![x] + rest);
                assert(ps.drop_first() =~= rest);
                assert(s.skip(i) =~= s.subrange(i, e) + s.skip(e));
                assert forall|k: int|
                    0 <= k < ps.len() && (#[trigger] ps[k]) is Field implies ps[k]->Field_0.len() > 0
                    && is_ident_start(ps[k]->Field_0[0]) by {
                    if k > 0 {
                        assert(ps[k] == rest[k - 1]);
                    }
                }
            }
        }
    } else {
        assert(s.skip(i) =~= Seq::<char>::empty());
    }
}

} // verus!
