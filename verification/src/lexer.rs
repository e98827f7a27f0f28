//! Tokenizer for the .boe DSL.
//!
//! Whitespace separates tokens; `#` starts a comment that runs to the end of
//! the line. Tokens are identifiers (`[A-Za-z_][A-Za-z0-9_]*`), unsigned
//! integers (`[0-9]+`), double-quoted strings (no escapes) and the symbols
//! `{ } ( ) [ ] , = == != >= <= > < + - * /`.
use vstd::prelude::*;

use crate::text::is_digit;

verus! {

#[derive(Debug, Clone, Copy, PartialEq, Eq, Structural)]
pub enum Sym {
    LBrace,
    RBrace,
    LParen,
    RParen,
    LBrack,
    RBrack,
    Comma,
    Assign,
    EqEq,
    NotEq,
    GtEq,
    LtEq,
    Gt,
    Lt,
    Plus,
    Minus,
    Star,
    Slash,
}

#[derive(Debug)]
pub enum Tok {
    Ident(Vec<char>),
    Int(Vec<char>),
    Str(Vec<char>),
    Sym(Sym),
}

pub enum SpecTok {
    Ident(Seq<char>),
    Int(Seq<char>),
    Str(Seq<char>),
    Sym(Sym),
}

impl View for Tok {
    type V = SpecTok;

    open spec fn view(&self) -> SpecTok {
        match self {
            Tok::Ident(v) => SpecTok::Ident(v@),
            Tok::Int(v) => SpecTok::Int(v@),
            Tok::Str(v) => SpecTok::Str(v@),
            Tok::Sym(s) => SpecTok::Sym(*s),
        }
    }
}

pub open spec fn toks_view(v: Seq<Tok>) -> Seq<SpecTok> {
    v.map_values(|t: Tok| t@)
}

pub open spec fn is_space(c: char) -> bool {
    c == ' ' || c == '\t' || c == '\n' || c == '\r'
}

pub open spec fn is_ident_start(c: char) -> bool {
    ('a' <= c <= 'z') || ('A' <= c <= 'Z') || c == '_'
}

pub open spec fn is_ident_char(c: char) -> bool {
    is_ident_start(c) || is_digit(c)
}

/// End of the run of identifier characters starting at `i`.
pub open spec fn ident_end(s: Seq<char>, i: int) -> int
    decreases s.len() - i,
{
    if 0 <= i < s.len() && is_ident_char(s[i]) {
        ident_end(s, i + 1)
    } else {
        i
    }
}

/// End of the run of digits starting at `i`.
pub open spec fn digits_end(s: Seq<char>, i: int) -> int
    decreases s.len() - i,
{
    if 0 <= i < s.len() && is_digit(s[i]) {
        digits_end(s, i + 1)
    } else {
        i
    }
}

/// Position of the first newline at or after `i`, or the end of `s`.
pub open spec fn line_end(s: Seq<char>, i: int) -> int
    decreases s.len() - i,
{
    if 0 <= i < s.len() && s[i] != '\n' {
        line_end(s, i + 1)
    } else {
        i
    }
}

/// Position of the first `"` at or after `i`.
pub open spec fn quote_end(s: Seq<char>, i: int) -> Option<int>
    decreases s.len() - i,
{
    if i < 0 || i >= s.len() {
        None
    } else if s[i] == '"' {
        Some(i)
    } else {
        quote_end(s, i + 1)
    }
}

/// The symbol starting at `i`, with its length in characters.
pub open spec fn sym_at(s: Seq<char>, i: int) -> Option<(Sym, int)> {
    let c = s[i];
    let next = if i < s.len() - 1 { s[i + 1] } else { ' ' };
    if c == '=' && next == '=' {
        Some((Sym::EqEq, 2))
    } else if c == '!' && next == '=' {
        Some((Sym::NotEq, 2))
    } else if c == '>' && next == '=' {
        Some((Sym::GtEq, 2))
    } else if c == '<' && next == '=' {
        Some((Sym::LtEq, 2))
    } else if c == '{' {
        Some((Sym::LBrace, 1))
    } else if c == '}' {
        Some((Sym::RBrace, 1))
    } else if c == '(' {
        Some((Sym::LParen, 1))
    } else if c == ')' {
        Some((Sym::RParen, 1))
    } else if c == '[' {
        Some((Sym::LBrack, 1))
    } else if c == ']' {
        Some((Sym::RBrack, 1))
    } else if c == ',' {
        Some((Sym::Comma, 1))
    } else if c == '=' {
        Some((Sym::Assign, 1))
    } else if c == '>' {
        Some((Sym::Gt, 1))
    } else if c == '<' {
        Some((Sym::Lt, 1))
    } else if c == '+' {
        Some((Sym::Plus, 1))
    } else if c == '-' {
        Some((Sym::Minus, 1))
    } else if c == '*' {
        Some((Sym::Star, 1))
    } else if c == '/' {
        Some((Sym::Slash, 1))
    } else {
        None
    }
}

pub open spec fn cons_tok(t: SpecTok, rest: Option<Seq<SpecTok>>) -> Option<Seq<SpecTok>> {
    match rest {
        Some(r) => Some(seq![t] + r),
        None => None,
    }
}

pub proof fn lemma_ident_end(s: Seq<char>, i: int)
    requires
        0 <= i <= s.len(),
    ensures
        i <= ident_end(s, i) <= s.len(),
        forall|k: int| i <= k < ident_end(s, i) ==> is_ident_char(#[trigger] s[k]),
        ident_end(s, i) < s.len() ==> !is_ident_char(s[ident_end(s, i)]),
    decreases s.len() - i,
{
    if i < s.len() && is_ident_char(s[i]) {
        lemma_ident_end(s, i + 1);
    }
}

pub proof fn lemma_digits_end(s: Seq<char>, i: int)
    requires
        0 <= i <= s.len(),
    ensures
        i <= digits_end(s, i) <= s.len(),
        forall|k: int| i <= k < digits_end(s, i) ==> is_digit(#[trigger] s[k]),
        digits_end(s, i) < s.len() ==> !is_digit(s[digits_end(s, i)]),
    decreases s.len() - i,
{
    if i < s.len() && is_digit(s[i]) {
        lemma_digits_end(s, i + 1);
    }
}

pub proof fn lemma_line_end(s: Seq<char>, i: int)
    requires
        0 <= i <= s.len(),
    ensures
        i <= line_end(s, i) <= s.len(),
    decreases s.len() - i,
{
    if i < s.len() && s[i] != '\n' {
        lemma_line_end(s, i + 1);
    }
}

pub proof fn lemma_quote_end(s: Seq<char>, i: int)
    requires
        0 <= i,
    ensures
        quote_end(s, i) matches Some(e) ==> i <= e < s.len() && s[e] == '"',
    decreases s.len() - i,
{
    if i < s.len() && s[i] != '"' {
        lemma_quote_end(s, i + 1);
    }
}

/// The tokens of `s[i..]`, or `None` when it holds a character that starts no token
/// or an unterminated string.
pub open spec fn lex_from(s: Seq<char>, i: int) -> Option<Seq<SpecTok>>
    decreases s.len() - i,
{
    if i < 0 || i >= s.len() {
        Some(Seq::empty())
    } else {
        let c = s[i];
        if is_space(c) {
            lex_from(s, i + 1)
        } else if c == '#' {
            let e = line_end(s, i);
            proof {
                lemma_line_end(s, i);
            }
            if e <= i {
                None
            } else {
                lex_from(s, e)
            }
        } else if is_ident_start(c) {
            let e = ident_end(s, i + 1);
            proof {
                lemma_ident_end(s, i + 1);
            }
            cons_tok(SpecTok::Ident(s.subrange(i, e)), lex_from(s, e))
        } else if is_digit(c) {
            let e = digits_end(s, i + 1);
            proof {
                lemma_digits_end(s, i + 1);
            }
            cons_tok(SpecTok::Int(s.subrange(i, e)), lex_from(s, e))
        } else if c == '"' {
            match quote_end(s, i + 1) {
                None => None,
                Some(e) => {
                    proof {
                        lemma_quote_end(s, i + 1);
                    }
                    cons_tok(SpecTok::Str(s.subrange(i + 1, e)), lex_from(s, e + 1))
                },
            }
        } else {
            match sym_at(s, i) {
                None => None,
                Some((sym, n)) => cons_tok(SpecTok::Sym(sym), lex_from(s, i + n)),
            }
        }
    }
}

/// The tokens of the whole text `s`.
pub open spec fn lex(s: Seq<char>) -> Option<Seq<SpecTok>> {
    lex_from(s, 0)
}

pub open spec fn prepend_all(out: Seq<SpecTok>, rest: Option<Seq<SpecTok>>) -> Option<Seq<SpecTok>> {
    match rest {
        Some(r) => Some(out + r),
        None => None,
    }
}

fn is_space_exec(c: char) -> (b: bool)
    ensures
        b == is_space(c),
{
    c == ' ' || c == '\t' || c == '\n' || c == '\r'
}

fn is_ident_start_exec(c: char) -> (b: bool)
    ensures
        b == is_ident_start(c),
{
    ('a' <= c && c <= 'z') || ('A' <= c && c <= 'Z') || c == '_'
}

fn is_ident_char_exec(c: char) -> (b: bool)
    ensures
        b == is_ident_char(c),
{
    is_ident_start_exec(c) || ('0' <= c && c <= '9')
}

fn sym_at_exec(s: &Vec<char>, i: usize) -> (res: Option<(Sym, usize)>)
    requires
        i < s@.len(),
    ensures
        match res {
            Some((sym, n)) => sym_at(s@, i as int) == Some((sym, n as int)),
            None => sym_at(s@, i as int) is None,
        },
{
    let c = s[i];
    let next = if i < s.len() - 1 {
        s[i + 1]
    } else {
        ' '
    };
    if c == '=' && next == '=' {
        Some((Sym::EqEq, 2))
    } else if c == '!' && next == '=' {
        Some((Sym::NotEq, 2))
    } else if c == '>' && next == '=' {
        Some((Sym::GtEq, 2))
    } else if c == '<' && next == '=' {
        Some((Sym::LtEq, 2))
    } else if c == '{' {
        Some((Sym::LBrace, 1))
    } else if c == '}' {
        Some((Sym::RBrace, 1))
    } else if c == '(' {
        Some((Sym::LParen, 1))
    } else if c == ')' {
        Some((Sym::RParen, 1))
    } else if c == '[' {
        Some((Sym::LBrack, 1))
    } else if c == ']' {
        Some((Sym::RBrack, 1))
    } else if c == ',' {
        Some((Sym::Comma, 1))
    } else if c == '=' {
        Some((Sym::Assign, 1))
    } else if c == '>' {
        Some((Sym::Gt, 1))
    } else if c == '<' {
        Some((Sym::Lt, 1))
    } else if c == '+' {
        Some((Sym::Plus, 1))
    } else if c == '-' {
        Some((Sym::Minus, 1))
    } else if c == '*' {
        Some((Sym::Star, 1))
    } else if c == '/' {
        Some((Sym::Slash, 1))
    } else {
        None
    }
}

fn copy_range(s: &Vec<char>, from: usize, to: usize) -> (res: Vec<char>)
    requires
        from <= to <= s@.len(),
    ensures
        res@ == s@.subrange(from as int, to as int),
{
    let mut out: Vec<char> = Vec::new();
    let mut k = from;
    while k < to
        invariant
            from <= k <= to <= s@.len(),
            out@ == s@.subrange(from as int, k as int),
        decreases to - k,
    {
        out.push(s[k]);
        k = k + 1;
        assert(out@ =~= s@.subrange(from as int, k as int));
    }
    out
}

/// Splits `s` into tokens. Fails on a character that starts no token or on an
/// unterminated string.
pub fn tokenize(s: &Vec<char>) -> (res: Option<Vec<Tok>>)
    ensures
        match res {
            Some(v) => lex(s@) == Some(toks_view(v@)),
            None => lex(s@) is None,
        },
{
    let n = s.len();
    let mut out: Vec<Tok> = Vec::new();
    let mut i: usize = 0;
    assert(prepend_all(toks_view(out@), lex_from(s@, 0)) =~= lex(s@)) by {
        if let Some(r) = lex_from(s@, 0) {
            assert(toks_view(out@) + r =~= r);
        }
    }
    while i < n
        invariant
            n == s@.len(),
            0 <= i <= n,
            prepend_all(toks_view(out@), lex_from(s@, i as int)) == lex(s@),
        decreases n - i,
    {
        let ghost before = toks_view(out@);
        let c = s[i];
        if is_space_exec(c) {
            i = i + 1;
        } else if c == '#' {
            proof {
                lemma_line_end(s@, i as int);
            }
            let mut e = i;
            while e < n && s[e] != '\n'
                invariant
                    i <= e <= n,
                    n == s@.len(),
                    line_end(s@, i as int) == line_end(s@, e as int),
                decreases n - e,
            {
                e = e + 1;
            }
            assert(e > i);
            i = e;
        } else if is_ident_start_exec(c) {
            proof {
                lemma_ident_end(s@, i + 1);
            }
            let mut e = i + 1;
            while e < n && is_ident_char_exec(s[e])
                invariant
                    i < e <= n,
                    n == s@.len(),
                    ident_end(s@, i + 1) == ident_end(s@, e as int),
                decreases n - e,
            {
                e = e + 1;
            }
            let t = Tok::Ident(copy_range(s, i, e));
            out.push(t);
            assert(toks_view(out@) =~= before.push(SpecTok::Ident(s@.subrange(i as int, e as int))));
            i = e;
        } else if '0' <= c && c <= '9' {
            proof {
                lemma_digits_end(s@, i + 1);
            }
            let mut e = i + 1;
            while e < n && '0' <= s[e] && s[e] <= '9'
                invariant
                    i < e <= n,
                    n == s@.len(),
                    digits_end(s@, i + 1) == digits_end(s@, e as int),
                decreases n - e,
            {
                e = e + 1;
            }
            let t = Tok::Int(copy_range(s, i, e));
            out.push(t);
            assert(toks_view(out@) =~= before.push(SpecTok::Int(s@.subrange(i as int, e as int))));
            i = e;
        } else if c == '"' {
            let mut e = i + 1;
            while e < n && s[e] != '"'
                invariant
                    i < e <= n,
                    n == s@.len(),
                    quote_end(s@, i + 1) == quote_end(s@, e as int),
                decreases n - e,
            {
                e = e + 1;
            }
            if e >= n {
                return None;
            }
            let t = Tok::Str(copy_range(s, i + 1, e));
            out.push(t);
            assert(toks_view(out@) =~= before.push(SpecTok::Str(s@.subrange(i + 1, e as int))));
            i = e + 1;
        } else {
            match sym_at_exec(s, i) {
                None => {
                    return None;
                },
                Some((sym, len)) => {
                    out.push(Tok::Sym(sym));
                    assert(toks_view(out@) =~= before.push(SpecTok::Sym(sym)));
                    i = i + len;
                },
            }
        }
        assert(prepend_all(toks_view(out@), lex_from(s@, i as int)) =~= lex(s@));
    }
    assert(lex_from(s@, n as int) == Some(Seq::<SpecTok>::empty()));
    assert(toks_view(out@) + Seq::<SpecTok>::empty() =~= toks_view(out@));
    Some(out)
}

/// Comparison and arithmetic signs lex to their own symbols: `>` to `Gt`,
/// `<` to `Lt`, `>=` to `GtEq`, `<=` to `LtEq`, `==` to `EqEq`, `!=` to
/// `NotEq`, `+ - * /` to `Plus Minus Star Slash`, and lexing goes on after them.
pub proof fn law_lex_signs(s: Seq<char>, i: int)
    requires
        0 <= i < s.len(),
    ensures
        ({
            let two = i + 1 < s.len() && s[i + 1] == '=';
            let rest1 = lex_from(s, i + 1);
            let rest2 = lex_from(s, i + 2);
            &&& s[i] == '>' && !two ==> lex_from(s, i) == cons_tok(SpecTok::Sym(Sym::Gt), rest1)
            &&& s[i] == '<' && !two ==> lex_from(s, i) == cons_tok(SpecTok::Sym(Sym::Lt), rest1)
            &&& s[i] == '>' && two ==> lex_from(s, i) == cons_tok(SpecTok::Sym(Sym::GtEq), rest2)
            &&& s[i] == '<' && two ==> lex_from(s, i) == cons_tok(SpecTok::Sym(Sym::LtEq), rest2)
            &&& s[i] == '=' && two ==> lex_from(s, i) == cons_tok(SpecTok::Sym(Sym::EqEq), rest2)
            &&& s[i] == '!' && two ==> lex_from(s, i) == cons_tok(SpecTok::Sym(Sym::NotEq), rest2)
            &&& s[i] == '+' ==> lex_from(s, i) == cons_tok(SpecTok::Sym(Sym::Plus), rest1)
            &&& s[i] == '-' ==> lex_from(s, i) == cons_tok(SpecTok::Sym(Sym::Minus), rest1)
            &&& s[i] == '*' ==> lex_from(s, i) == cons_tok(SpecTok::Sym(Sym::Star), rest1)
            &&& s[i] == '/' ==> lex_from(s, i) == cons_tok(SpecTok::Sym(Sym::Slash), rest1)
        }),
{
}

} // verus!
