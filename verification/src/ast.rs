//! The parts of a parsed and resolved Volt source file that the analyses
//! of this library read: source spans, operators, and an expression
//! arena whose paths carry the definition they resolved to.

use vstd::prelude::*;

verus! {

/// A source location: file and byte range.
#[derive(Clone, Copy, PartialEq, Eq, Debug, Structural)]
pub struct Span {
    pub file: u32,
    pub start: u32,
    pub end: u32,
}

/// Active clock edge.
#[derive(Clone, Copy, PartialEq, Eq, Debug, Structural)]
pub enum ClockEdge {
    Posedge,
    Negedge,
}

/// Binary operators.
#[derive(Clone, Copy, PartialEq, Eq, Debug, Structural)]
pub enum BinOp {
    Add,
    Sub,
    Mul,
    Div,
    Rem,
    Shl,
    Shr,
    BitAnd,
    BitOr,
    BitXor,
    Eq,
    Ne,
    Lt,
    Gt,
    Le,
    Ge,
    And,
    Or,
}

/// Unary operators.
#[derive(Clone, Copy, PartialEq, Eq, Debug, Structural)]
pub enum UnOp {
    Neg,
    BitNot,
    Not,
}

/// An expression; children are indices into the same arena.
#[derive(Clone, Debug)]
pub enum ExprKind {
    IntLit(u128),
    BoolLit(bool),
    StringLit(String),
    /// A path `a::b::c`; `def` is the definition it resolved to, if any.
    Path { segments: Vec<String>, def: Option<u32> },
    Binary { op: BinOp, lhs: usize, rhs: usize },
    Unary { op: UnOp, operand: usize },
    Field { base: usize, field: String },
    Call { callee: usize, args: Vec<usize> },
    Index { base: usize, index: usize },
    /// `base[hi:lo]`.
    Range { base: usize, hi: usize, lo: usize },
    /// `base[start +: width]`.
    PartSelect { base: usize, start: usize, width: usize },
    If { cond: usize, then_expr: usize, else_expr: usize },
    /// `match scrutinee { arms }`.
    Match { scrutinee: usize, arms: Vec<MatchArm> },
    /// A struct literal, by the values written for its fields.
    StructLit(Vec<usize>),
    ArrayList(Vec<usize>),
    ArrayRepeat { value: usize, count: usize },
    Tuple(Vec<usize>),
    Cast { expr: usize },
    /// A recovered parse error.
    Error,
    /// Any other expression form.
    Other,
}

/// The body of a match arm: an expression, or a block of the enclosing
/// module's block arena.
#[derive(Clone, Copy, PartialEq, Eq, Debug, Structural)]
pub enum MatchBody {
    Expr(usize),
    Block(usize),
}

/// An arm of a match expression: its guard and body.
#[derive(Clone, Copy, PartialEq, Eq, Debug, Structural)]
pub struct MatchArm {
    pub guard: Option<usize>,
    pub body: MatchBody,
}

/// An expression with its span.
#[derive(Clone, Debug)]
pub struct Expr {
    pub kind: ExprKind,
    pub span: Span,
}

/// An argument of an attribute: positional expression or `name = value`.
#[derive(Clone, Debug)]
pub enum AttrArg {
    Positional(usize),
    Named { name: String, name_span: Span, value: usize },
}

/// An attribute `@name(args...)`.
#[derive(Clone, Debug)]
pub struct Attribute {
    pub name: String,
    /// Span of the name alone.
    pub name_span: Span,
    /// Span of the whole attribute, arguments included.
    pub span: Span,
    pub args: Vec<AttrArg>,
}

/// The sub-expressions of `k`.
pub open spec fn children(k: ExprKind) -> Seq<usize> {
    match k {
        ExprKind::Binary { lhs, rhs, .. } => seq![lhs, rhs],
        ExprKind::Unary { operand, .. } => seq![operand],
        ExprKind::Field { base, .. } => seq![base],
        ExprKind::Call { callee, args } => seq![callee] + args@,
        ExprKind::Index { base, index } => seq![base, index],
        ExprKind::Range { base, hi, lo } => seq![base, hi, lo],
        ExprKind::PartSelect { base, start, width } => seq![base, start, width],
        ExprKind::If { cond, then_expr, else_expr } => seq![cond, then_expr, else_expr],
        ExprKind::Match { scrutinee, .. } => seq![scrutinee],
        ExprKind::StructLit(values) => values@,
        ExprKind::ArrayList(items) => items@,
        ExprKind::ArrayRepeat { value, count } => seq![value, count],
        ExprKind::Tuple(items) => items@,
        ExprKind::Cast { expr } => seq![expr],
        _ => seq![],
    }
}

/// The guards and expression bodies of `arms` lie below `i`.
pub open spec fn arms_below(arms: Seq<MatchArm>, i: int) -> bool {
    forall|k: int|
        0 <= k < arms.len() ==> ((#[trigger] arms[k]).guard matches Some(g) ==> g < i) && (
        arms[k].body matches MatchBody::Expr(x) ==> x < i)
}

/// Every expression refers only to expressions stored before it (the
/// arena is built bottom-up, so it is acyclic).
pub open spec fn wf_exprs(exprs: Seq<Expr>) -> bool {
    &&& forall|i: int, k: int|
        0 <= i < exprs.len() && 0 <= k < children(exprs[i].kind).len() ==> #[trigger] children(
            exprs[i].kind,
        )[k] < i
    &&& forall|i: int|
        0 <= i < exprs.len() ==> match (#[trigger] exprs[i]).kind {
            ExprKind::Match { arms, .. } => arms_below(arms@, i),
            _ => true,
        }
}

/// The single segment of a one-segment path.
pub open spec fn single_name(e: Expr) -> Option<Seq<char>> {
    match e.kind {
        ExprKind::Path { segments, .. } => if segments@.len() == 1 {
            Some(segments@[0]@)
        } else {
            None
        },
        _ => None,
    }
}

/// The text of a one-segment path expression, if `e` is one.
pub fn path_name(exprs: &Vec<Expr>, e: usize) -> (r: Option<&String>)
    requires
        e < exprs@.len(),
    ensures
        match single_name(exprs@[e as int]) {
            Some(n) => r matches Some(s) && s@ == n,
            None => r is None,
        },
{
    match &exprs[e].kind {
        ExprKind::Path { segments, .. } => {
            if segments.len() == 1 {
                Some(&segments[0])
            } else {
                None
            }
        },
        _ => None,
    }
}

} // verus!
