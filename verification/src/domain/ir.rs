//! The resolved and type-checked program that domain inference reads:
//! definitions with their clock-ness, the expression arena, a block
//! arena, `domain` declarations, and the modules and extern modules of
//! the file in declaration order. Every reference is an index that the
//! well-formedness predicates keep in range.

use vstd::prelude::*;

use crate::ast::{children, wf_exprs, ClockEdge, Expr, ExprKind, Span};
use crate::defs::{DefKind, PortDir};

verus! {

/// Reset synchronicity of a domain.
#[derive(Clone, Copy, PartialEq, Eq, Debug, Structural)]
pub enum ResetSync {
    /// No reset.
    NoReset,
    Sync,
    Async,
}

/// Reset polarity of a domain.
#[derive(Clone, Copy, PartialEq, Eq, Debug, Structural)]
pub enum ResetPolarity {
    ActiveHigh,
    ActiveLow,
}

/// The reset of a domain.
#[derive(Clone, Copy, PartialEq, Eq, Debug, Structural)]
pub struct ResetSpec {
    pub sync: ResetSync,
    pub polarity: ResetPolarity,
}

/// A trust level, by its rank in the trust lattice; domain inference
/// only asks whether one was written.
#[derive(Clone, Copy, PartialEq, Eq, Debug, Structural)]
pub struct TrustLevel(pub u32);

/// A field of a `domain Name { ... }` declaration.
#[derive(Clone, Copy, PartialEq, Eq, Debug, Structural)]
pub enum DomainField {
    Clock(ClockEdge),
    Reset(ResetSpec),
    Trust { level: TrustLevel, span: Span },
    /// Any other field (frequency, malformed values).
    Other,
}

/// A `domain Name { ... }` declaration.
#[derive(Clone, Debug)]
pub struct DomainDecl {
    /// The definition the name declares, if resolution recorded one.
    pub def: Option<u32>,
    pub name: String,
    pub span: Span,
    pub fields: Vec<DomainField>,
}

/// What resolution and type checking know of a definition.
#[derive(Clone, Debug)]
pub struct DefInfo {
    pub kind: DefKind,
    pub name: String,
    pub span: Span,
    /// Its type is `clock`.
    pub is_clock: bool,
}

/// An `@Name` annotation, or the clock of `reg(clk)`.
#[derive(Clone, Debug)]
pub struct Annotation {
    pub text: String,
    pub span: Span,
    /// The definition the name resolved to.
    pub def: Option<u32>,
}

/// Where a port flattened out of a bundle comes from.
#[derive(Clone, Debug)]
pub struct BundleOrigin {
    /// The bundle port as written (`bus`).
    pub port: String,
    pub port_span: Span,
    /// The flattened field path (`bus.data`).
    pub path: String,
    /// The bundle type's name.
    pub bundle: String,
}

/// A port of a module or extern module.
#[derive(Clone, Debug)]
pub struct PortIr {
    pub name: String,
    pub span: Span,
    /// The definition the port declares.
    pub def: Option<u32>,
    pub dir: PortDir,
    pub domain: Option<Annotation>,
    pub bundle: Option<BundleOrigin>,
    /// Its type is `reset(...)`.
    pub is_reset: bool,
}

/// An index, range or field selection on the left of an assignment.
#[derive(Clone, Copy, PartialEq, Eq, Debug, Structural)]
pub enum LValueSuffix {
    Index(usize),
    Range { hi: usize, lo: usize },
    PartSelect { start: usize, width: usize },
    Field,
}

/// An assignment target.
#[derive(Clone, Debug)]
pub struct LValue {
    /// The definition of the base name.
    pub def: Option<u32>,
    pub span: Span,
    pub suffixes: Vec<LValueSuffix>,
}

/// The body of a match arm in a block.
#[derive(Clone, Copy, PartialEq, Eq, Debug, Structural)]
pub enum ArmBody {
    Block(usize),
    Expr(usize),
}

/// A statement inside a block; `else if` is an else block holding the
/// nested `if`.
#[derive(Clone, Debug)]
pub enum BlockStmt {
    /// `lhs <= rhs` or `lhs = rhs`.
    Assign { lhs: LValue, rhs: usize },
    If { cond: usize, then_block: usize, else_block: Option<usize> },
    Match { scrutinee: usize, arms: Vec<ArmBody> },
    Let { def: Option<u32>, value: usize },
    For { start: usize, end: usize, body: usize },
    Error,
}

/// A block: statements and an optional tail expression.
#[derive(Clone, Debug)]
pub struct Block {
    pub stmts: Vec<BlockStmt>,
    pub tail: Option<usize>,
}

/// The trigger of an `on` block.
#[derive(Clone, Copy, PartialEq, Eq, Debug, Structural)]
pub enum OnTrigger {
    /// `on clk` or a reset trigger: the use of a signal.
    Signal { def: Option<u32>, span: Span },
    Error,
}

/// A port binding `port: value`, or the shorthand `port`.
#[derive(Clone, Debug)]
pub struct PortBinding {
    pub port_name: String,
    /// The local definition the shorthand name resolved to.
    pub port_def: Option<u32>,
    pub value: Option<usize>,
    pub span: Span,
}

/// Builtin clock-domain-crossing primitives.
#[derive(Clone, Copy, PartialEq, Eq, Debug, Structural)]
pub enum PrimKind {
    PulseSync,
    DualPortRam,
    AsyncDualPortRam,
    Other,
}

/// Which clock side of a primitive a port belongs to.
#[derive(Clone, Copy, PartialEq, Eq, Debug, Structural)]
pub enum DomainRole {
    Src,
    Dst,
}

/// A port of a builtin primitive.
#[derive(Clone, Debug)]
pub struct PrimPort {
    pub name: String,
    pub is_clock: bool,
    pub role: DomainRole,
}

/// A builtin primitive with its port table.
#[derive(Clone, Debug)]
pub struct Primitive {
    pub kind: PrimKind,
    pub ports: Vec<PrimPort>,
}

/// What an instance instantiates.
#[derive(Clone, Debug)]
pub enum InstanceTarget {
    Builtin(Primitive),
    /// A module or extern module: an index into the items.
    Item(usize),
    /// A struct literal or an unresolved target.
    Unresolved,
}

/// `let name = Target { bindings }`.
#[derive(Clone, Debug)]
pub struct InstanceIr {
    pub def: Option<u32>,
    pub name_span: Span,
    pub target: InstanceTarget,
    pub bindings: Vec<PortBinding>,
}

/// `reg(clk) name : T = init` or `reg name : T = init`.
#[derive(Clone, Debug)]
pub struct RegIr {
    pub def: Option<u32>,
    pub name: String,
    pub span: Span,
    pub domain: Option<Annotation>,
    pub init: usize,
}

/// A statement of a module body.
#[derive(Clone, Debug)]
pub enum Stmt {
    Reg(RegIr),
    Let { def: Option<u32>, value: usize },
    Wire { def: Option<u32> },
    Instance(InstanceIr),
    On { trigger: OnTrigger, body: usize },
    Comb(usize),
    Assign { lhs: LValue, rhs: usize },
    For { start: usize, end: usize, body: usize },
    Expr(usize),
    Error,
}

/// A module.
#[derive(Clone, Debug)]
pub struct ModuleIr {
    pub name: String,
    pub span: Span,
    pub ports: Vec<PortIr>,
    pub body: Vec<Stmt>,
    /// The expressions of its contracts.
    pub contracts: Vec<usize>,
}

/// An extern module.
#[derive(Clone, Debug)]
pub struct ExternIr {
    pub name: String,
    pub span: Span,
    pub ports: Vec<PortIr>,
}

/// An item of the file.
#[derive(Clone, Debug)]
pub enum UnitItem {
    Module(ModuleIr),
    Extern(ExternIr),
    Other,
}

/// The whole input of domain inference.
#[derive(Clone, Debug)]
pub struct DomainInput {
    pub defs: Vec<DefInfo>,
    /// Expressions; a path's `def` is its resolution.
    pub exprs: Vec<Expr>,
    /// The bit width of each expression's type, where it has one.
    pub expr_widths: Vec<Option<u32>>,
    pub blocks: Vec<Block>,
    pub domain_decls: Vec<DomainDecl>,
    pub items: Vec<UnitItem>,
}

impl DomainInput {
    pub open spec fn def_ok(&self, d: Option<u32>) -> bool {
        d matches Some(x) ==> x < self.defs@.len()
    }

    pub open spec fn expr_ok(&self, e: usize) -> bool {
        e < self.exprs@.len()
    }

    pub open spec fn ann_ok(&self, a: Option<Annotation>) -> bool {
        a matches Some(x) ==> self.def_ok(x.def)
    }

    pub open spec fn lvalue_ok(&self, l: LValue) -> bool {
        &&& self.def_ok(l.def)
        &&& forall|k: int|
            0 <= k < l.suffixes@.len() ==> match #[trigger] l.suffixes@[k] {
                LValueSuffix::Index(e) => self.expr_ok(e),
                LValueSuffix::Range { hi, lo } => self.expr_ok(hi) && self.expr_ok(lo),
                LValueSuffix::PartSelect { start, width } => self.expr_ok(start) && self.expr_ok(
                    width,
                ),
                LValueSuffix::Field => true,
            }
    }

    /// A statement of block `b`: expressions in range, nested blocks
    /// stored before `b`.
    pub open spec fn block_stmt_ok(&self, s: BlockStmt, b: int) -> bool {
        match s {
            BlockStmt::Assign { lhs, rhs } => self.lvalue_ok(lhs) && self.expr_ok(rhs),
            BlockStmt::If { cond, then_block, else_block } => self.expr_ok(cond) && then_block < b
                && (else_block matches Some(x) ==> x < b),
            BlockStmt::Match { scrutinee, arms } => self.expr_ok(scrutinee) && forall|k: int|
                0 <= k < arms@.len() ==> match #[trigger] arms@[k] {
                    ArmBody::Block(x) => x < b,
                    ArmBody::Expr(e) => self.expr_ok(e),
                },
            BlockStmt::Let { def, value } => self.def_ok(def) && self.expr_ok(value),
            BlockStmt::For { start, end, body } => self.expr_ok(start) && self.expr_ok(end) && body
                < b,
            BlockStmt::Error => true,
        }
    }

    pub open spec fn block_ok(&self, b: int) -> bool {
        let blk = self.blocks@[b];
        &&& forall|k: int|
            0 <= k < blk.stmts@.len() ==> self.block_stmt_ok(#[trigger] blk.stmts@[k], b)
        &&& (blk.tail matches Some(t) ==> self.expr_ok(t))
    }

    pub open spec fn block_ref_ok(&self, b: usize) -> bool {
        b < self.blocks@.len()
    }

    pub open spec fn binding_ok(&self, pb: PortBinding) -> bool {
        self.def_ok(pb.port_def) && (pb.value matches Some(e) ==> self.expr_ok(e))
    }

    pub open spec fn instance_ok(&self, i: InstanceIr) -> bool {
        &&& self.def_ok(i.def)
        &&& forall|k: int| 0 <= k < i.bindings@.len() ==> self.binding_ok(#[trigger] i.bindings@[k])
    }

    pub open spec fn stmt_ok(&self, s: Stmt) -> bool {
        match s {
            Stmt::Reg(r) => self.def_ok(r.def) && self.ann_ok(r.domain) && self.expr_ok(r.init),
            Stmt::Let { def, value } => self.def_ok(def) && self.expr_ok(value),
            Stmt::Wire { def } => self.def_ok(def),
            Stmt::Instance(i) => self.instance_ok(i),
            Stmt::On { trigger, body } => (trigger matches OnTrigger::Signal { def, .. }
                ==> self.def_ok(def)) && self.block_ref_ok(body),
            Stmt::Comb(b) => self.block_ref_ok(b),
            Stmt::Assign { lhs, rhs } => self.lvalue_ok(lhs) && self.expr_ok(rhs),
            Stmt::For { start, end, body } => self.expr_ok(start) && self.expr_ok(end)
                && self.block_ref_ok(body),
            Stmt::Expr(e) => self.expr_ok(e),
            Stmt::Error => true,
        }
    }

    pub open spec fn port_ok(&self, p: PortIr) -> bool {
        self.def_ok(p.def) && self.ann_ok(p.domain)
    }

    /// Ports in range, each declaring its own definition.
    pub open spec fn ports_ok(&self, ports: Seq<PortIr>) -> bool {
        &&& forall|k: int| 0 <= k < ports.len() ==> self.port_ok(#[trigger] ports[k])
        &&& forall|i: int, j: int|
            0 <= i < j < ports.len() && (#[trigger] ports[i]).def is Some ==> (#[trigger] ports[
                j
            ]).def != ports[i].def
    }

    pub open spec fn module_ok(&self, m: ModuleIr) -> bool {
        &&& self.ports_ok(m.ports@)
        &&& forall|k: int| 0 <= k < m.body@.len() ==> self.stmt_ok(#[trigger] m.body@[k])
        &&& forall|k: int| 0 <= k < m.contracts@.len() ==> self.expr_ok(#[trigger] m.contracts@[k])
    }

    pub open spec fn item_ok(&self, it: UnitItem) -> bool {
        match it {
            UnitItem::Module(m) => self.module_ok(m),
            UnitItem::Extern(x) => self.ports_ok(x.ports@),
            UnitItem::Other => true,
        }
    }

    /// Every reference of the input is in range; expressions and blocks
    /// refer only to ones stored before them.
    pub open spec fn wf(&self) -> bool {
        &&& wf_exprs(self.exprs@)
        &&& forall|i: int|
            0 <= i < self.exprs@.len() ==> match (#[trigger] self.exprs@[i]).kind {
                ExprKind::Path { def, .. } => self.def_ok(def),
                _ => true,
            }
        &&& self.expr_widths@.len() == self.exprs@.len()
        &&& forall|b: int| 0 <= b < self.blocks@.len() ==> #[trigger] self.block_ok(b)
        &&& forall|k: int|
            0 <= k < self.domain_decls@.len() ==> self.def_ok((#[trigger] self.domain_decls@[k]).def)
        &&& forall|k: int| 0 <= k < self.items@.len() ==> self.item_ok(#[trigger] self.items@[k])
        &&& self.defs@.len() < u32::MAX
        &&& self.domain_decls@.len() < u32::MAX
    }
}

} // verus!
