//! AST types for the .boe DSL, together with their mathematical views.
use vstd::prelude::*;

verus! {

#[derive(Debug, Clone, Copy, PartialEq, Eq, Structural)]
pub enum Encoding {
    Iso8859_1,
    Ascii,
}

#[derive(Debug, Clone, Copy, PartialEq, Eq, Structural)]
pub enum LineEnding {
    Crlf,
    Lf,
}

#[derive(Debug, Clone, Copy, PartialEq, Eq, Structural)]
pub enum FieldType {
    Alpha,
    Alphanumeric,
    Number,
    SignedAmount,
    /// Envelope-style signed amount (`numN`): positive values are digits over
    /// the full width (no sign position), negative values are `'N'` + digits.
    SignedAmountN,
    UnsignedAmount,
}

#[derive(Debug, Clone, Copy, PartialEq, Eq, Structural)]
pub enum Align {
    Left,
    Right,
}

#[derive(Debug, Clone, Copy, PartialEq, Eq, Structural)]
pub enum Pad {
    Space,
    Zero,
}

#[derive(Debug, Clone, Copy, PartialEq, Eq, Structural)]
pub enum Usage {
    All,
    PrintOnly,
    InternetOnly,
}

#[derive(Debug, Clone, Copy, PartialEq, Eq, Structural)]
pub enum Severity {
    Error,
    Warning,
}

#[derive(Debug, Clone, Copy, PartialEq, Eq, Structural)]
pub enum BinOp {
    Add,
    Sub,
    Mul,
    Div,
}

#[derive(Debug, Clone, Copy, PartialEq, Eq, Structural)]
pub enum CmpOp {
    Eq,
    Ne,
    Gt,
    Lt,
    Ge,
    Le,
}

#[derive(Debug, Clone, Copy, PartialEq, Eq, Structural)]
pub enum BuiltinFn {
    Max,
    Min,
}

#[derive(Debug, PartialEq, Eq)]
pub enum Expr {
    /// Integer literal.
    Int(i64),
    /// String literal (for comparisons against `domain`-style values).
    Str(String),
    /// Reference to a field by name.
    Ident(String),
    /// `a op b`.
    Bin(Box<Expr>, BinOp, Box<Expr>),
    /// `max(a, b)` / `min(a, b)`.
    Call(BuiltinFn, Vec<Expr>),
}

#[derive(Debug, PartialEq, Eq)]
pub enum BoolExpr {
    /// A single comparison `a <op> b`.
    Cmp(Expr, CmpOp, Expr),
    /// `a implies b`.
    Implies(Box<BoolExpr>, Box<BoolExpr>),
}

#[derive(Debug, Clone, PartialEq, Eq)]
pub struct Field {
    pub name: String,
    pub at: usize,
    pub length: usize,
    pub ty: FieldType,
    pub decimals: Option<usize>,
    pub align: Option<Align>,
    pub pad: Option<Pad>,
    pub required: bool,
    pub fixed: Option<String>,
    pub domain: Option<String>,
    pub usage: Usage,
    pub description: Option<String>,
}

#[derive(Debug, Clone, PartialEq, Eq)]
pub struct Derive {
    pub target: String,
    pub expr: Expr,
}

#[derive(Debug, Clone, PartialEq, Eq)]
pub struct Check {
    pub code: String,
    pub rule: BoolExpr,
    pub severity: Severity,
    pub message: String,
}

#[derive(Debug, Clone, PartialEq)]
pub struct Record {
    pub name: String,
    pub record_length: usize,
    pub fields: Vec<Field>,
    pub derives: Vec<Derive>,
    pub checks: Vec<Check>,
}

#[derive(Debug, Clone, PartialEq, Eq)]
pub struct Model {
    pub number: String,
    pub version: String,
    pub encoding: Encoding,
    pub line_ending: LineEnding,
    /// On single-record files this is authoritative. When the file contains
    /// explicit record blocks, each record's own record_length wins.
    pub record_length: usize,
}

/// A fixed-length text template: literals plus `${ident}` interpolations.
#[derive(Debug, Clone, PartialEq, Eq)]
pub enum TemplatePart {
    Lit(String),
    /// Reference to an envelope `param` by name.
    Field(String),
}

#[derive(Debug, Clone, PartialEq, Eq, Default)]
pub struct Template(pub Vec<TemplatePart>);

/// A file-level value that header/trailer templates can interpolate.
#[derive(Debug, Clone, PartialEq, Eq)]
pub struct Param {
    pub name: String,
    pub length: usize,
    pub ty: FieldType,
    pub required: bool,
    pub description: Option<String>,
}

/// The AEAT envelope: fixed-length header/trailer around a sequence of records.
#[derive(Debug, Clone, PartialEq, Eq)]
pub struct Envelope {
    pub params: Vec<Param>,
    pub header: Template,
    pub trailer: Template,
    /// Record names, in concatenation order.
    pub contains: Vec<String>,
}

#[derive(Debug, Clone, PartialEq)]
pub struct BoeFile {
    pub model: Model,
    pub records: Vec<Record>,
    pub envelope: Option<Envelope>,
}

// ── mathematical views ──────────────────────────────────────────────────

pub enum SpecExpr {
    Int(i64),
    Str(Seq<char>),
    Ident(Seq<char>),
    Bin(Box<SpecExpr>, BinOp, Box<SpecExpr>),
    Call(BuiltinFn, Seq<SpecExpr>),
}

pub enum SpecBoolExpr {
    Cmp(SpecExpr, CmpOp, SpecExpr),
    Implies(Box<SpecBoolExpr>, Box<SpecBoolExpr>),
}

pub struct SpecField {
    pub name: Seq<char>,
    pub at: usize,
    pub length: usize,
    pub ty: FieldType,
    pub decimals: Option<usize>,
    pub align: Option<Align>,
    pub pad: Option<Pad>,
    pub required: bool,
    pub fixed: Option<Seq<char>>,
    pub domain: Option<Seq<char>>,
    pub usage: Usage,
    pub description: Option<Seq<char>>,
}

pub struct SpecDerive {
    pub target: Seq<char>,
    pub expr: SpecExpr,
}

pub struct SpecCheck {
    pub code: Seq<char>,
    pub rule: SpecBoolExpr,
    pub severity: Severity,
    pub message: Seq<char>,
}

pub struct SpecRecord {
    pub name: Seq<char>,
    pub record_length: usize,
    pub fields: Seq<SpecField>,
    pub derives: Seq<SpecDerive>,
    pub checks: Seq<SpecCheck>,
}

pub struct SpecModel {
    pub number: Seq<char>,
    pub version: Seq<char>,
    pub encoding: Encoding,
    pub line_ending: LineEnding,
    pub record_length: usize,
}

pub enum SpecTemplatePart {
    Lit(Seq<char>),
    Field(Seq<char>),
}

pub struct SpecParam {
    pub name: Seq<char>,
    pub length: usize,
    pub ty: FieldType,
    pub required: bool,
    pub description: Option<Seq<char>>,
}

pub struct SpecEnvelope {
    pub params: Seq<SpecParam>,
    pub header: Seq<SpecTemplatePart>,
    pub trailer: Seq<SpecTemplatePart>,
    pub contains: Seq<Seq<char>>,
}

pub struct SpecBoeFile {
    pub model: SpecModel,
    pub records: Seq<SpecRecord>,
    pub envelope: Option<SpecEnvelope>,
}

pub open spec fn opt_text(o: Option<String>) -> Option<Seq<char>> {
    match o {
        Some(s) => Some(s@),
        None => None,
    }
}

impl Expr {
    pub open spec fn spec_view(self) -> SpecExpr
        decreases self,
    {
        match self {
            Expr::Int(i) => SpecExpr::Int(i),
            Expr::Str(s) => SpecExpr::Str(s@),
            Expr::Ident(s) => SpecExpr::Ident(s@),
            Expr::Bin(a, op, b) => SpecExpr::Bin(Box::new(a.spec_view()), op, Box::new(b.spec_view())),
            Expr::Call(f, args) => SpecExpr::Call(
                f,
                Seq::new(
                    args@.len(),
                    |i: int|
                        if 0 <= i < args@.len() {
                            args@[i].spec_view()
                        } else {
                            SpecExpr::Int(0)
                        },
                ),
            ),
        }
    }
}

impl Clone for Expr {
    fn clone(&self) -> (res: Self)
        ensures
            res@ == self@,
        decreases self,
    {
        match self {
            Expr::Int(v) => Expr::Int(*v),
            Expr::Str(x) => Expr::Str(crate::text::string_from(x.as_str())),
            Expr::Ident(x) => Expr::Ident(crate::text::string_from(x.as_str())),
            Expr::Bin(a, op, b) => Expr::Bin(Box::new((**a).clone()), *op, Box::new((**b).clone())),
            Expr::Call(f, args) => {
                let mut out: Vec<Expr> = Vec::new();
                let mut i: usize = 0;
                while i < args.len()
                    invariant
                        *self == Expr::Call(*f, *args),
                        0 <= i <= args@.len(),
                        out@.len() == i,
                        forall|k: int| 0 <= k < i ==> (#[trigger] out@[k])@ == args@[k]@,
                    decreases args@.len() - i,
                {
                    proof {
                        assert(decreases_to!(*self => (*self)->Call_1));
                        assert((*self)->Call_1 == *args);
                        assert(decreases_to!(*args => args@));
                        assert(decreases_to!(args@ => args@[i as int]));
                    }
                    out.push(args[i].clone());
                    i = i + 1;
                }
                let r = Expr::Call(*f, out);
                assert(r@ == self@) by {
                    match r@ {
                        SpecExpr::Call(_, s1) => match self@ {
                            SpecExpr::Call(_, s2) => {
                                assert(s1 =~= s2);
                            },
                            _ => {},
                        },
                        _ => {},
                    }
                }
                r
            },
        }
    }
}

impl View for Expr {
    type V = SpecExpr;

    open spec fn view(&self) -> SpecExpr {
        self.spec_view()
    }
}

impl BoolExpr {
    pub open spec fn spec_view(self) -> SpecBoolExpr
        decreases self,
    {
        match self {
            BoolExpr::Cmp(a, op, b) => SpecBoolExpr::Cmp(a@, op, b@),
            BoolExpr::Implies(l, r) => SpecBoolExpr::Implies(
                Box::new(l.spec_view()),
                Box::new(r.spec_view()),
            ),
        }
    }
}

impl Clone for BoolExpr {
    fn clone(&self) -> (res: Self)
        ensures
            res@ == self@,
        decreases self,
    {
        match self {
            BoolExpr::Cmp(a, op, b) => BoolExpr::Cmp(a.clone(), *op, b.clone()),
            BoolExpr::Implies(a, b) => BoolExpr::Implies(Box::new((**a).clone()), Box::new((**b).clone())),
        }
    }
}

impl View for BoolExpr {
    type V = SpecBoolExpr;

    open spec fn view(&self) -> SpecBoolExpr {
        self.spec_view()
    }
}

impl View for Field {
    type V = SpecField;

    open spec fn view(&self) -> SpecField {
        SpecField {
            name: self.name@,
            at: self.at,
            length: self.length,
            ty: self.ty,
            decimals: self.decimals,
            align: self.align,
            pad: self.pad,
            required: self.required,
            fixed: opt_text(self.fixed),
            domain: opt_text(self.domain),
            usage: self.usage,
            description: opt_text(self.description),
        }
    }
}

impl View for Derive {
    type V = SpecDerive;

    open spec fn view(&self) -> SpecDerive {
        SpecDerive { target: self.target@, expr: self.expr@ }
    }
}

impl View for Check {
    type V = SpecCheck;

    open spec fn view(&self) -> SpecCheck {
        SpecCheck {
            code: self.code@,
            rule: self.rule@,
            severity: self.severity,
            message: self.message@,
        }
    }
}

impl View for Record {
    type V = SpecRecord;

    open spec fn view(&self) -> SpecRecord {
        SpecRecord {
            name: self.name@,
            record_length: self.record_length,
            fields: self.fields@.map_values(|f: Field| f@),
            derives: self.derives@.map_values(|d: Derive| d@),
            checks: self.checks@.map_values(|c: Check| c@),
        }
    }
}

impl View for Model {
    type V = SpecModel;

    open spec fn view(&self) -> SpecModel {
        SpecModel {
            number: self.number@,
            version: self.version@,
            encoding: self.encoding,
            line_ending: self.line_ending,
            record_length: self.record_length,
        }
    }
}

impl View for TemplatePart {
    type V = SpecTemplatePart;

    open spec fn view(&self) -> SpecTemplatePart {
        match self {
            TemplatePart::Lit(s) => SpecTemplatePart::Lit(s@),
            TemplatePart::Field(s) => SpecTemplatePart::Field(s@),
        }
    }
}

impl View for Template {
    type V = Seq<SpecTemplatePart>;

    open spec fn view(&self) -> Seq<SpecTemplatePart> {
        self.0@.map_values(|p: TemplatePart| p@)
    }
}

impl View for Param {
    type V = SpecParam;

    open spec fn view(&self) -> SpecParam {
        SpecParam {
            name: self.name@,
            length: self.length,
            ty: self.ty,
            required: self.required,
            description: opt_text(self.description),
        }
    }
}

impl View for Envelope {
    type V = SpecEnvelope;

    open spec fn view(&self) -> SpecEnvelope {
        SpecEnvelope {
            params: self.params@.map_values(|p: Param| p@),
            header: self.header@,
            trailer: self.trailer@,
            contains: self.contains@.map_values(|s: String| s@),
        }
    }
}

impl View for BoeFile {
    type V = SpecBoeFile;

    open spec fn view(&self) -> SpecBoeFile {
        SpecBoeFile {
            model: self.model@,
            records: self.records@.map_values(|r: Record| r@),
            envelope: match self.envelope {
                Some(e) => Some(e@),
                None => None,
            },
        }
    }
}

} // verus!
