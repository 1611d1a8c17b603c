//! The parsed file as name resolution reads it: names with their spans,
//! and arenas of expressions, types, patterns and blocks.

use vstd::prelude::*;

use crate::ast::Span;
use crate::defs::PortDir;

verus! {

/// A name as written.
#[derive(Clone, Debug)]
pub struct Name {
    pub text: String,
    pub span: Span,
}

/// A path `a::b::c`.
#[derive(Clone, Debug)]
pub struct RPath {
    pub segments: Vec<Name>,
    pub span: Span,
}

/// The body of a match arm.
#[derive(Clone, Copy, PartialEq, Eq, Debug, Structural)]
pub enum RArmBody {
    Block(usize),
    Expr(usize),
}

/// A match arm: pattern, guard and body.
#[derive(Clone, Copy, PartialEq, Eq, Debug, Structural)]
pub struct RArm {
    pub pattern: usize,
    pub guard: Option<usize>,
    pub body: RArmBody,
}

/// A generic argument.
#[derive(Clone, Copy, PartialEq, Eq, Debug, Structural)]
pub enum RGenericArg {
    Type(usize),
    Const(usize),
}

/// An expression.
#[derive(Clone, Debug)]
pub enum RExprKind {
    Path(RPath),
    IntLit(u128),
    Binary { lhs: usize, rhs: usize },
    Unary(usize),
    Index { base: usize, index: usize },
    Range { base: usize, hi: usize, lo: usize },
    PartSelect { base: usize, start: usize, width: usize },
    Field { base: usize, field: Name },
    Call { callee: usize, args: Vec<usize> },
    Cast { expr: usize, ty: usize },
    If { cond: usize, then_expr: usize, else_expr: usize },
    Match { scrutinee: usize, arms: Vec<RArm> },
    /// `Path { field: value, field }`.
    StructLit { path: RPath, fields: Vec<(Name, Option<usize>)> },
    /// An array list or a tuple.
    List(Vec<usize>),
    Repeat { value: usize, count: usize },
    /// Booleans, strings, `todo`, concatenations, recovered errors.
    Other,
}

#[derive(Clone, Debug)]
pub struct RExpr {
    pub kind: RExprKind,
    pub span: Span,
}

/// A type as written.
#[derive(Clone, Debug)]
pub enum RType {
    /// `bits<N>`, `uint<N>`, `sint<N>`.
    Sized(usize),
    Array { elem: usize, len: usize },
    Tuple(Vec<usize>),
    Path { path: RPath, args: Vec<RGenericArg> },
    /// `bool`, `clock`, `u8`, `reset`, ...
    Builtin,
}

/// A pattern.
#[derive(Clone, Debug)]
pub enum RPattern {
    Wildcard,
    Literal(usize),
    Binding(Name),
    /// `Path`, `Path(p, ...)` or `Path { field: p, field }`.
    Path { path: RPath, tuple: Vec<usize>, fields: Vec<(Name, Option<usize>)> },
    /// A tuple or an or-pattern.
    List(Vec<usize>),
}

/// An index, range or field selection on an assignment target.
#[derive(Clone, Debug)]
pub enum RSuffix {
    Index(usize),
    Range { hi: usize, lo: usize },
    PartSelect { start: usize, width: usize },
    Field(Name),
}

/// An assignment target.
#[derive(Clone, Debug)]
pub struct RLValue {
    pub base: Name,
    pub suffixes: Vec<RSuffix>,
}

/// A statement in a block; `else if` is an else block holding the
/// nested `if`.
#[derive(Clone, Debug)]
pub enum RBlockStmt {
    Assign { lhs: RLValue, rhs: usize },
    If { cond: usize, then_block: usize, else_block: Option<usize> },
    Match { scrutinee: usize, arms: Vec<RArm> },
    Let { name: Name, ty: Option<usize>, value: usize },
    For { var: Name, start: usize, end: usize, body: usize },
    Error,
}

#[derive(Clone, Debug)]
pub struct RBlock {
    pub stmts: Vec<RBlockStmt>,
    pub tail: Option<usize>,
}

/// A statement of a module body.
#[derive(Clone, Debug)]
pub enum RStmt {
    Reg { name: Name, ty: Option<usize>, domain: Option<Name>, init: usize },
    Let { name: Name, ty: Option<usize>, value: usize },
    Wire { name: Name, ty: usize },
    /// `prim` is the builtin primitive (an index into the file's
    /// primitives) the target's name is that of, if any.
    Instance { name: Name, path: RPath, prim: Option<usize>, generic_args: Vec<RGenericArg>, bindings: Vec<(Name, Option<usize>)> },
    /// `on clk { ... }`; `trigger` is the clock or reset name.
    On { trigger: Option<Name>, body: usize },
    Comb(usize),
    Assign { lhs: RLValue, rhs: usize },
    For { var: Name, start: usize, end: usize, body: usize },
    Expr(usize),
    Error,
}

/// A port.
#[derive(Clone, Debug)]
pub struct RPort {
    pub name: Name,
    pub dir: PortDir,
    pub ty: usize,
    pub domain: Option<Name>,
    /// Where a port flattened out of a bundle port comes from.
    pub bundle: Option<RBundleOrigin>,
}

/// The bundle port a flattened port comes from: the port as written
/// (`req`), the flattened field path (`data.a`) and the bundle type's
/// name.
#[derive(Clone, Debug)]
pub struct RBundleOrigin {
    pub port: String,
    pub path: String,
    pub bundle: String,
}

/// A builtin primitive: its name and its ports with their directions.
#[derive(Clone, Debug)]
pub struct RPrim {
    pub name: String,
    pub ports: Vec<(String, PortDir)>,
}

/// A generic parameter; `const_ty` for `const N: u32`.
#[derive(Clone, Debug)]
pub struct RGeneric {
    pub name: Name,
    pub const_ty: Option<usize>,
}

/// An item.
#[derive(Clone, Debug)]
pub enum RItemKind {
    Module { name: Name, generics: Vec<RGeneric>, ports: Vec<RPort>, body: Vec<RStmt>, contracts: Vec<usize> },
    Extern { name: Name, generics: Vec<RGeneric>, ports: Vec<RPort> },
    Domain { name: Name, values: Vec<usize> },
    Function { name: Name, generics: Vec<RGeneric>, params: Vec<(Name, usize)>, ret: Option<usize>, contracts: Vec<usize>, body: usize },
    Struct { name: Name, generics: Vec<RGeneric>, fields: Vec<(Name, usize)> },
    Enum { name: Name, repr: Option<usize>, variants: Vec<(Name, Option<usize>)> },
    Const { name: Name, ty: usize, value: usize },
    TypeAlias { name: Name, generics: Vec<RGeneric>, target: usize },
    /// Test blocks and recovered errors declare nothing.
    Other,
}

#[derive(Clone, Debug)]
pub struct RItem {
    pub kind: RItemKind,
    pub is_public: bool,
}

/// A parsed file.
#[derive(Clone, Debug)]
pub struct RFile {
    /// The names `use` declarations bring in, in order.
    pub imports: Vec<Name>,
    pub items: Vec<RItem>,
    pub exprs: Vec<RExpr>,
    pub types: Vec<RType>,
    pub patterns: Vec<RPattern>,
    pub blocks: Vec<RBlock>,
    /// The builtin primitives instances may name.
    pub prims: Vec<RPrim>,
}

} // verus!
