//! The `Handshake<T>` protocol rule (E4007): on the producer side
//! (`out tx : Handshake<T>`), `tx.valid` must not depend combinationally
//! on `tx.ready`. A producer that waits for ready before raising valid
//! deadlocks against a consumer that waits for valid; the consumer may
//! derive ready from valid, so only producer ports are checked.
//!
//! Continuous assignments, `let` bindings and `comb` blocks (their
//! conditions included) form a dependency graph; `on` blocks are
//! registers and cut paths, and instance outputs are opaque.

use vstd::prelude::*;

use crate::ast::{arms_below, children, wf_exprs, Expr, ExprKind, MatchArm, MatchBody, Span};
use crate::defs::PortDir;
use crate::domain::ir::PortIr;
use crate::text::eq_str;

verus! {

/// A combinational dependency: on which definition, where it is read,
/// and the statement that drives the dependent signal.
#[derive(Clone, Copy, PartialEq, Eq, Debug, Structural)]
pub struct Dep {
    pub def: u32,
    /// Where the definition is read.
    pub site: Span,
    /// The driving statement.
    pub stmt: Span,
}

/// A statement of a module body, as far as the rule reads it.
#[derive(Clone, Debug)]
pub enum HsStmt {
    /// `x = e`; `target` is the definition of `x`.
    Assign { target: Option<u32>, rhs: usize, span: Span },
    /// `let x = e`.
    Let { def: Option<u32>, value: usize, span: Span },
    /// `comb { ... }`.
    Comb(usize),
    /// Registers, `on` blocks, instances and everything else cut paths.
    Other,
}

/// A statement inside a block; `else if` is an else block holding the
/// nested `if`.
#[derive(Clone, Debug)]
pub enum HsBlockStmt {
    Assign { target: Option<u32>, rhs: usize, span: Span },
    Let { def: Option<u32>, value: usize },
    If { cond: usize, then_block: usize, else_block: Option<usize> },
    Match { scrutinee: usize, arms: Vec<MatchArm> },
    For { body: usize },
    Error,
}

/// A block.
#[derive(Clone, Debug)]
pub struct HsBlock {
    pub stmts: Vec<HsBlockStmt>,
    pub tail: Option<usize>,
}

/// A module: its ports (with their bundle origins) and body.
#[derive(Clone, Debug)]
pub struct HsModule {
    pub ports: Vec<PortIr>,
    pub body: Vec<HsStmt>,
}

/// The resolved file as the rule reads it.
#[derive(Clone, Debug)]
pub struct HsInput {
    /// By definition index: the name.
    pub names: Vec<String>,
    pub exprs: Vec<Expr>,
    pub blocks: Vec<HsBlock>,
    pub modules: Vec<HsModule>,
}

/// The expressions block `b` reads lie below `e`, and so do those of the
/// blocks nested in it.
pub open spec fn block_below(inp: HsInput, b: int, e: int) -> bool
    decreases b,
{
    0 <= b < inp.blocks@.len() && {
        let blk = inp.blocks@[b];
        &&& (blk.tail matches Some(t) ==> t < e)
        &&& forall|k: int|
            0 <= k < blk.stmts@.len() ==> match #[trigger] blk.stmts@[k] {
                HsBlockStmt::Assign { rhs, .. } => rhs < e,
                HsBlockStmt::Let { value, .. } => value < e,
                HsBlockStmt::If { cond, then_block, else_block } => cond < e && then_block < b
                    && block_below(inp, then_block as int, e) && (else_block matches Some(x) ==> x
                    < b && block_below(inp, x as int, e)),
                HsBlockStmt::Match { scrutinee, arms } => scrutinee < e && arms_below(arms@, e)
                    && forall|j: int|
                    0 <= j < arms@.len() ==> ((#[trigger] arms@[j]).body matches MatchBody::Block(x)
                        ==> x < b && block_below(inp, x as int, e)),
                HsBlockStmt::For { body } => body < b && block_below(inp, body as int, e),
                HsBlockStmt::Error => true,
            }
    }
}

impl HsInput {
    pub open spec fn def_ok(&self, d: Option<u32>) -> bool {
        d matches Some(x) ==> x < self.names@.len()
    }

    /// A statement of block `b`: references in range, nested blocks
    /// stored before `b`.
    pub open spec fn block_stmt_ok(&self, s: HsBlockStmt, b: int) -> bool {
        match s {
            HsBlockStmt::Assign { target, rhs, .. } => self.def_ok(target) && rhs < self.exprs@.len(),
            HsBlockStmt::Let { def, value } => self.def_ok(def) && value < self.exprs@.len(),
            HsBlockStmt::If { cond, then_block, else_block } => cond < self.exprs@.len()
                && then_block < b && (else_block matches Some(x) ==> x < b),
            HsBlockStmt::Match { scrutinee, arms } => scrutinee < self.exprs@.len() && arms_below(
                arms@,
                self.exprs@.len() as int,
            ) && forall|j: int|
                0 <= j < arms@.len() ==> ((#[trigger] arms@[j]).body matches MatchBody::Block(x) ==> x
                    < b),
            HsBlockStmt::For { body } => body < b,
            HsBlockStmt::Error => true,
        }
    }

    pub open spec fn stmt_ok(&self, s: HsStmt) -> bool {
        match s {
            HsStmt::Assign { target, rhs, .. } => self.def_ok(target) && rhs < self.exprs@.len(),
            HsStmt::Let { def, value, .. } => self.def_ok(def) && value < self.exprs@.len(),
            HsStmt::Comb(b) => b < self.blocks@.len(),
            HsStmt::Other => true,
        }
    }

    /// References are in range; a match expression's block arms read only
    /// expressions stored before it.
    pub open spec fn wf(&self) -> bool {
        &&& wf_exprs(self.exprs@)
        &&& self.names@.len() < u32::MAX
        &&& forall|i: int|
            0 <= i < self.exprs@.len() ==> match (#[trigger] self.exprs@[i]).kind {
                ExprKind::Path { def, .. } => self.def_ok(def),
                ExprKind::Match { arms, .. } => forall|j: int|
                    0 <= j < arms@.len() ==> ((#[trigger] arms@[j]).body matches MatchBody::Block(x)
                        ==> block_below(*self, x as int, i)),
                _ => true,
            }
        &&& forall|b: int|
            0 <= b < self.blocks@.len() ==> {
                let blk = #[trigger] self.blocks@[b];
                &&& (blk.tail matches Some(t) ==> t < self.exprs@.len())
                &&& forall|k: int|
                    0 <= k < blk.stmts@.len() ==> self.block_stmt_ok(#[trigger] blk.stmts@[k], b)
            }
        &&& forall|m: int|
            0 <= m < self.modules@.len() ==> {
                let md = #[trigger] self.modules@[m];
                &&& forall|k: int| 0 <= k < md.body@.len() ==> self.stmt_ok(#[trigger] md.body@[k])
                &&& forall|k: int| 0 <= k < md.ports@.len() ==> self.def_ok((#[trigger] md.ports@[k]).def)
            }
    }
}

/// The reads of operand `x` of expression `e`, which is stored before it.
pub open spec fn sub_reads(inp: HsInput, x: int, e: int) -> Seq<(u32, Span)>
    decreases e, 0int, 0int, 0int, 0int,
{
    if 0 <= x < e {
        reads_spec(inp, x)
    } else {
        Seq::empty()
    }
}

/// The resolved names expression `e` reads, with where it reads them, in
/// the order the walk meets them: a match its selector, then each arm's
/// guard and body; a call its callee, then its arguments; other forms
/// their operands in order.
pub open spec fn reads_spec(inp: HsInput, e: int) -> Seq<(u32, Span)>
    decreases e, 2int, 0int, 0int, 0int,
{
    if !(0 <= e < inp.exprs@.len()) {
        Seq::empty()
    } else {
        let ex = inp.exprs@[e];
        match ex.kind {
            ExprKind::Path { def, .. } => match def {
                Some(d) => seq![(d, ex.span)],
                None => Seq::empty(),
            },
            ExprKind::Match { scrutinee, arms } => sub_reads(inp, scrutinee as int, e) + arms_reads(
                inp,
                arms@,
                e,
            ),
            ExprKind::Call { callee, args } => sub_reads(inp, callee as int, e) + list_reads(inp, args@, e),
            ExprKind::StructLit(v) => list_reads(inp, v@, e),
            ExprKind::ArrayList(v) => list_reads(inp, v@, e),
            ExprKind::Tuple(v) => list_reads(inp, v@, e),
            _ => fixed_reads(inp, children(ex.kind), fixed_arity_spec(ex.kind), e),
        }
    }
}

/// The reads of each expression of `items`, operands of `e`, in order.
pub open spec fn list_reads(inp: HsInput, items: Seq<usize>, e: int) -> Seq<(u32, Span)>
    decreases e, 1int, 0int, items.len(), 0int,
{
    if items.len() == 0 {
        Seq::empty()
    } else {
        list_reads(inp, items.drop_last(), e) + sub_reads(inp, items.last() as int, e)
    }
}

/// The reads of the first `n` of `kids`, operands of `e`.
pub open spec fn fixed_reads(inp: HsInput, kids: Seq<usize>, n: nat, e: int) -> Seq<(u32, Span)>
    decreases e, 1int, 0int, n, 0int,
{
    if n == 0 || n > kids.len() {
        Seq::empty()
    } else {
        fixed_reads(inp, kids, (n - 1) as nat, e) + sub_reads(inp, kids[n - 1] as int, e)
    }
}

/// The reads of the arms of a match expression `e`: guard, then body.
pub open spec fn arms_reads(inp: HsInput, arms: Seq<MatchArm>, e: int) -> Seq<(u32, Span)>
    decreases e, 1int, 0int, arms.len(), 0int,
{
    if arms.len() == 0 {
        Seq::empty()
    } else {
        let a = arms.last();
        arms_reads(inp, arms.drop_last(), e) + match a.guard {
            Some(g) => sub_reads(inp, g as int, e),
            None => Seq::empty(),
        } + match a.body {
            MatchBody::Expr(x) => sub_reads(inp, x as int, e),
            MatchBody::Block(b) => blk_reads(inp, b as int, e),
        }
    }
}

/// The reads of block `b` in expression position below `e`: statement
/// right-hand sides, conditions, selectors, guards and the tail, in order.
pub open spec fn blk_reads(inp: HsInput, b: int, e: int) -> Seq<(u32, Span)>
    decreases e, 0int, b, inp.blocks@[b].stmts@.len() + 1, 0int,
{
    if !(0 <= b < inp.blocks@.len()) {
        Seq::empty()
    } else {
        let blk = inp.blocks@[b];
        stmts_reads(inp, b, e, blk.stmts@.len() as int) + match blk.tail {
            Some(t) => sub_reads(inp, t as int, e),
            None => Seq::empty(),
        }
    }
}

/// A nested block of block `b`, stored before it.
pub open spec fn inner_reads(inp: HsInput, x: int, b: int, e: int) -> Seq<(u32, Span)>
    decreases e, 0int, b, 0int, 0int,
{
    if 0 <= x < b {
        blk_reads(inp, x, e)
    } else {
        Seq::empty()
    }
}

/// The reads of the first `n` statements of block `b`.
pub open spec fn stmts_reads(inp: HsInput, b: int, e: int, n: int) -> Seq<(u32, Span)>
    decreases e, 0int, b, n, 1int,
{
    if !(0 <= b < inp.blocks@.len()) || n <= 0 || n > inp.blocks@[b].stmts@.len() {
        Seq::empty()
    } else {
        stmts_reads(inp, b, e, n - 1) + match inp.blocks@[b].stmts@[n - 1] {
            HsBlockStmt::Assign { rhs, .. } => sub_reads(inp, rhs as int, e),
            HsBlockStmt::Let { value, .. } => sub_reads(inp, value as int, e),
            HsBlockStmt::If { cond, then_block, else_block } => sub_reads(inp, cond as int, e) + inner_reads(
                inp,
                then_block as int,
                b,
                e,
            ) + match else_block {
                Some(x) => inner_reads(inp, x as int, b, e),
                None => Seq::empty(),
            },
            HsBlockStmt::Match { scrutinee, arms } => sub_reads(inp, scrutinee as int, e) + blk_arms_reads(
                inp,
                arms@,
                b,
                e,
                n - 1,
            ),
            HsBlockStmt::For { body } => inner_reads(inp, body as int, b, e),
            HsBlockStmt::Error => Seq::empty(),
        }
    }
}

/// The reads of the arms of a match statement (statement `n` of block
/// `b`): guard, then body.
pub open spec fn blk_arms_reads(inp: HsInput, arms: Seq<MatchArm>, b: int, e: int, n: int) -> Seq<(u32, Span)>
    decreases e, 0int, b, n, 2int + arms.len(),
{
    if arms.len() == 0 || n < 0 || b < 0 {
        Seq::empty()
    } else {
        let a = arms.last();
        blk_arms_reads(inp, arms.drop_last(), b, e, n) + match a.guard {
            Some(g) => sub_reads(inp, g as int, e),
            None => Seq::empty(),
        } + match a.body {
            MatchBody::Expr(x) => sub_reads(inp, x as int, e),
            MatchBody::Block(x) => inner_reads(inp, x as int, b, e),
        }
    }
}

/// Every definition in `out[from..]` is a definition of `inp`.
pub open spec fn reads_ok(inp: HsInput, out: Seq<(u32, Span)>, from: int) -> bool {
    forall|k: int| from <= k < out.len() ==> (#[trigger] out[k]).0 < inp.names@.len()
}

/// The resolved names expression `e` reads, with where it reads them;
/// instance outputs read only the instance.
pub fn reads(inp: &HsInput, e: usize, out: &mut Vec<(u32, Span)>)
    requires
        inp.wf(),
        e < inp.exprs@.len(),
    ensures
        reads_ok(*inp, final(out)@, old(out)@.len() as int),
        forall|from: int| 0 <= from && reads_ok(*inp, old(out)@, from) ==> reads_ok(*inp, final(out)@, from),
        final(out)@ == old(out)@ + reads_spec(*inp, e as int),
    decreases e, 1int, 0int,
{
    let ghost kids = children(inp.exprs@[e as int].kind);
    assert(forall|k: int| 0 <= k < kids.len() ==> #[trigger] kids[k] < e);
    let ghost o0 = out@;
    match &inp.exprs[e].kind {
        ExprKind::Path { def, .. } => {
            match def {
                Some(d) => {
                    out.push((*d, inp.exprs[e].span));
                },
                None => {},
            }
            assert(out@ =~= o0 + reads_spec(*inp, e as int));
        },
        ExprKind::Match { scrutinee, arms } => {
            assert(kids[0] == *scrutinee);
            reads(inp, *scrutinee, out);
            assert(arms_below(arms@, e as int));
            let ghost o1 = out@;
            assert(o1 == o0 + sub_reads(*inp, *scrutinee as int, e as int));
            let mut j: usize = 0;
            while j < arms.len()
                invariant
                    inp.wf(),
                    e < inp.exprs@.len(),
                    inp.exprs@[e as int].kind == (ExprKind::Match { scrutinee: *scrutinee, arms: *arms }),
                    arms_below(arms@, e as int),
                    j <= arms@.len(),
                    reads_ok(*inp, out@, o0.len() as int),
                    out@ == o1 + arms_reads(*inp, arms@.subrange(0, j as int), e as int),
                decreases arms@.len() - j,
            {
                let arm = arms[j];
                proof {
                    assert(arms@.subrange(0, j + 1).drop_last() =~= arms@.subrange(0, j as int));
                    assert(arms@.subrange(0, j + 1).last() == arm);
                }
                let ghost o2 = out@;
                proof {
                    assert(arms_reads(*inp, arms@.subrange(0, j + 1), e as int) == arms_reads(
                        *inp,
                        arms@.subrange(0, j as int),
                        e as int,
                    ) + match arm.guard {
                        Some(g) => sub_reads(*inp, g as int, e as int),
                        None => Seq::empty(),
                    } + match arm.body {
                        MatchBody::Expr(x) => sub_reads(*inp, x as int, e as int),
                        MatchBody::Block(b) => blk_reads(*inp, b as int, e as int),
                    });
                    assert(arms@[j as int] == arm);
                }
                match arm.guard {
                    Some(g) => {
                        assert(sub_reads(*inp, g as int, e as int) == reads_spec(*inp, g as int));
                        reads(inp, g, out);
                    },
                    None => {},
                }
                let ghost o3 = out@;
                match arm.body {
                    MatchBody::Expr(x) => {
                        assert(sub_reads(*inp, x as int, e as int) == reads_spec(*inp, x as int));
                        reads(inp, x, out);
                    },
                    MatchBody::Block(b) => {
                        assert(block_below(*inp, b as int, e as int));
                        block_reads(inp, b, out, Ghost(e as int));
                    },
                }
                j = j + 1;
                proof {
                    assert(out@ =~= o1 + arms_reads(*inp, arms@.subrange(0, j as int), e as int));
                }
            }
            assert(arms@.subrange(0, arms@.len() as int) =~= arms@);
            assert(out@ =~= o0 + reads_spec(*inp, e as int));
        },
        ExprKind::Call { callee, args } => {
            assert(kids[0] == *callee);
            reads(inp, *callee, out);
            let ghost o1 = out@;
            assert forall|m: int| 0 <= m < args@.len() implies #[trigger] args@[m] < e by {
                assert(kids[m + 1] == args@[m]);
            }
            reads_list(inp, args, out, Ghost(e as int));
            assert(out@ =~= o0 + reads_spec(*inp, e as int));
        },
        ExprKind::StructLit(v) => {
            assert forall|m: int| 0 <= m < v@.len() implies #[trigger] v@[m] < e by {
                assert(kids[m] == v@[m]);
            }
            reads_list(inp, v, out, Ghost(e as int));
        },
        ExprKind::ArrayList(v) => {
            assert forall|m: int| 0 <= m < v@.len() implies #[trigger] v@[m] < e by {
                assert(kids[m] == v@[m]);
            }
            reads_list(inp, v, out, Ghost(e as int));
        },
        ExprKind::Tuple(v) => {
            assert forall|m: int| 0 <= m < v@.len() implies #[trigger] v@[m] < e by {
                assert(kids[m] == v@[m]);
            }
            reads_list(inp, v, out, Ghost(e as int));
        },
        _ => {
            let mut k: usize = 0;
            let n = fixed_arity(&inp.exprs[e].kind);
            while k < n
                invariant
                    inp.wf(),
                    e < inp.exprs@.len(),
                    kids == children(inp.exprs@[e as int].kind),
                    n <= kids.len(),
                    n == fixed_arity_spec(inp.exprs@[e as int].kind),
                    forall|m: int| 0 <= m < kids.len() ==> #[trigger] kids[m] < e,
                    k <= n,
                    reads_ok(*inp, out@, o0.len() as int),
                    out@ == o0 + fixed_reads(*inp, kids, k as nat, e as int),
                decreases n - k,
            {
                let c = child_at(&inp.exprs[e].kind, k);
                proof {
                    assert(fixed_reads(*inp, kids, (k + 1) as nat, e as int) == fixed_reads(*inp, kids, k as nat, e as int)
                        + sub_reads(*inp, kids[k as int] as int, e as int));
                    assert(sub_reads(*inp, c as int, e as int) == reads_spec(*inp, c as int));
                }
                reads(inp, c, out);
                k = k + 1;
                proof {
                    assert(out@ =~= o0 + fixed_reads(*inp, kids, k as nat, e as int));
                }
            }
            assert(out@ =~= o0 + reads_spec(*inp, e as int));
        },
    }
}

/// Appends the reads of each expression of `items`, in order.
fn reads_list(inp: &HsInput, items: &Vec<usize>, out: &mut Vec<(u32, Span)>, Ghost(bound): Ghost<int>)
    requires
        inp.wf(),
        forall|m: int| 0 <= m < items@.len() ==> #[trigger] items@[m] < bound,
        bound <= inp.exprs@.len(),
    ensures
        reads_ok(*inp, final(out)@, old(out)@.len() as int),
        forall|from: int| 0 <= from && reads_ok(*inp, old(out)@, from) ==> reads_ok(*inp, final(out)@, from),
        final(out)@ == old(out)@ + list_reads(*inp, items@, bound),
    decreases bound, 0int, 0int,
{
    let ghost o0 = out@;
    let mut k: usize = 0;
    while k < items.len()
        invariant
            inp.wf(),
            forall|m: int| 0 <= m < items@.len() ==> #[trigger] items@[m] < bound,
            bound <= inp.exprs@.len(),
            k <= items@.len(),
            reads_ok(*inp, out@, o0.len() as int),
            out@ == o0 + list_reads(*inp, items@.subrange(0, k as int), bound),
        decreases items@.len() - k,
    {
        proof {
            assert(items@.subrange(0, k + 1).drop_last() =~= items@.subrange(0, k as int));
            assert(items@.subrange(0, k + 1).last() == items@[k as int]);
        }
        proof {
            assert(list_reads(*inp, items@.subrange(0, k + 1), bound) == list_reads(
                *inp,
                items@.subrange(0, k as int),
                bound,
            ) + sub_reads(*inp, items@[k as int] as int, bound));
            assert(sub_reads(*inp, items@[k as int] as int, bound) == reads_spec(*inp, items@[k as int] as int));
        }
        reads(inp, items[k], out);
        k = k + 1;
        proof {
            assert(out@ =~= o0 + list_reads(*inp, items@.subrange(0, k as int), bound));
        }
    }
    assert(items@.subrange(0, items@.len() as int) =~= items@);
}

/// The number of sub-expressions of a kind with a fixed number of them
/// (zero for the kinds holding a list).
fn fixed_arity(k: &ExprKind) -> (r: usize)
    ensures
        r == fixed_arity_spec(*k),
        r <= children(*k).len(),
        match *k {
            ExprKind::Call { .. } => r == 0,
            ExprKind::StructLit(_) => r == 0,
            ExprKind::ArrayList(_) => r == 0,
            ExprKind::Tuple(_) => r == 0,
            _ => r == children(*k).len(),
        },
{
    match k {
        ExprKind::Binary { .. } => 2,
        ExprKind::Unary { .. } => 1,
        ExprKind::Field { .. } => 1,
        ExprKind::Index { .. } => 2,
        ExprKind::Range { .. } => 3,
        ExprKind::PartSelect { .. } => 3,
        ExprKind::If { .. } => 3,
        ExprKind::Match { .. } => 1,
        ExprKind::ArrayRepeat { .. } => 2,
        ExprKind::Cast { .. } => 1,
        _ => 0,
    }
}

/// The `i`-th sub-expression of a kind with a fixed number of them.
fn child_at(k: &ExprKind, i: usize) -> (r: usize)
    requires
        i < fixed_arity_spec(*k),
    ensures
        r == children(*k)[i as int],
{
    match k {
        ExprKind::Binary { lhs, rhs, .. } => if i == 0 { *lhs } else { *rhs },
        ExprKind::Unary { operand, .. } => *operand,
        ExprKind::Field { base, .. } => *base,
        ExprKind::Index { base, index } => if i == 0 { *base } else { *index },
        ExprKind::Range { base, hi, lo } => if i == 0 { *base } else if i == 1 { *hi } else { *lo },
        ExprKind::PartSelect { base, start, width } => if i == 0 { *base } else if i == 1 { *start } else { *width },
        ExprKind::If { cond, then_expr, else_expr } => if i == 0 { *cond } else if i == 1 { *then_expr } else { *else_expr },
        ExprKind::Match { scrutinee, .. } => *scrutinee,
        ExprKind::ArrayRepeat { value, count } => if i == 0 { *value } else { *count },
        ExprKind::Cast { expr } => *expr,
        _ => 0,
    }
}

pub open spec fn fixed_arity_spec(k: ExprKind) -> nat {
    match k {
        ExprKind::Binary { .. } => 2,
        ExprKind::Unary { .. } => 1,
        ExprKind::Field { .. } => 1,
        ExprKind::Index { .. } => 2,
        ExprKind::Range { .. } => 3,
        ExprKind::PartSelect { .. } => 3,
        ExprKind::If { .. } => 3,
        ExprKind::Match { .. } => 1,
        ExprKind::ArrayRepeat { .. } => 2,
        ExprKind::Cast { .. } => 1,
        _ => 0,
    }
}

/// Appends the reads of a block in expression position (a match arm
/// body): statement right-hand sides, conditions, selectors, guards and
/// the tail, in order.
fn block_reads(inp: &HsInput, b: usize, out: &mut Vec<(u32, Span)>, Ghost(e): Ghost<int>)
    requires
        inp.wf(),
        block_below(*inp, b as int, e),
        e <= inp.exprs@.len(),
    ensures
        reads_ok(*inp, final(out)@, old(out)@.len() as int),
        forall|from: int| 0 <= from && reads_ok(*inp, old(out)@, from) ==> reads_ok(*inp, final(out)@, from),
        final(out)@ == old(out)@ + blk_reads(*inp, b as int, e),
    decreases e, 0int, b,
{
    let ghost o0 = out@;
    let blk = &inp.blocks[b];
    let mut k: usize = 0;
    while k < blk.stmts.len()
        invariant
            inp.wf(),
            block_below(*inp, b as int, e),
            e <= inp.exprs@.len(),
            *blk == inp.blocks@[b as int],
            k <= blk.stmts@.len(),
            reads_ok(*inp, out@, o0.len() as int),
            out@ == o0 + stmts_reads(*inp, b as int, e, k as int),
        decreases blk.stmts@.len() - k,
    {
        let ghost o1 = out@;
        let st = &blk.stmts[k];
        proof {
            let bi = b as int;
            let ki = k as int;
            assert(stmts_reads(*inp, bi, e, ki + 1) == stmts_reads(*inp, bi, e, ki) + match inp.blocks@[bi].stmts@[ki] {
                HsBlockStmt::Assign { rhs, .. } => sub_reads(*inp, rhs as int, e),
                HsBlockStmt::Let { value, .. } => sub_reads(*inp, value as int, e),
                HsBlockStmt::If { cond, then_block, else_block } => sub_reads(*inp, cond as int, e) + inner_reads(
                    *inp,
                    then_block as int,
                    bi,
                    e,
                ) + match else_block {
                    Some(x) => inner_reads(*inp, x as int, bi, e),
                    None => Seq::empty(),
                },
                HsBlockStmt::Match { scrutinee, arms } => sub_reads(*inp, scrutinee as int, e) + blk_arms_reads(
                    *inp,
                    arms@,
                    bi,
                    e,
                    ki,
                ),
                HsBlockStmt::For { body } => inner_reads(*inp, body as int, bi, e),
                HsBlockStmt::Error => Seq::empty(),
            });
            assert(blk.stmts@[ki] == *st);
        }
        match st {
            HsBlockStmt::Assign { rhs, .. } => {
                assert(sub_reads(*inp, *rhs as int, e) == reads_spec(*inp, *rhs as int));
                reads(inp, *rhs, out);
            },
            HsBlockStmt::Let { value, .. } => {
                assert(sub_reads(*inp, *value as int, e) == reads_spec(*inp, *value as int));
                reads(inp, *value, out);
            },
            HsBlockStmt::If { cond, then_block, else_block } => {
                assert(sub_reads(*inp, *cond as int, e) == reads_spec(*inp, *cond as int));
                assert(inner_reads(*inp, *then_block as int, b as int, e) == blk_reads(*inp, *then_block as int, e));
                match else_block {
                    Some(x) => {
                        assert(inner_reads(*inp, *x as int, b as int, e) == blk_reads(*inp, *x as int, e));
                    },
                    None => {},
                }
                reads(inp, *cond, out);
                block_reads(inp, *then_block, out, Ghost(e));
                match else_block {
                    Some(x) => {
                        block_reads(inp, *x, out, Ghost(e));
                    },
                    None => {},
                }
            },
            HsBlockStmt::Match { scrutinee, arms } => {
                assert(sub_reads(*inp, *scrutinee as int, e) == reads_spec(*inp, *scrutinee as int));
                reads(inp, *scrutinee, out);
                let ghost o2 = out@;
                let mut j: usize = 0;
                while j < arms.len()
                    invariant
                        inp.wf(),
                        block_below(*inp, b as int, e),
                        e <= inp.exprs@.len(),
                        *blk == inp.blocks@[b as int],
                        k < blk.stmts@.len(),
                        *st == blk.stmts@[k as int],
                        *st == (HsBlockStmt::Match { scrutinee: *scrutinee, arms: *arms }),
                        j <= arms@.len(),
                        reads_ok(*inp, out@, o0.len() as int),
                        out@ == o2 + blk_arms_reads(*inp, arms@.subrange(0, j as int), b as int, e, k as int),
                    decreases arms@.len() - j,
                {
                    let arm = arms[j];
                    proof {
                        assert(arms@.subrange(0, j + 1).drop_last() =~= arms@.subrange(0, j as int));
                        assert(arms@.subrange(0, j + 1).last() == arm);
                        assert(arms_below(arms@, e));
                        assert(arms@[j as int] == arm);
                        assert(blk_arms_reads(*inp, arms@.subrange(0, j + 1), b as int, e, k as int) == blk_arms_reads(
                            *inp,
                            arms@.subrange(0, j as int),
                            b as int,
                            e,
                            k as int,
                        ) + match arm.guard {
                            Some(g) => sub_reads(*inp, g as int, e),
                            None => Seq::empty(),
                        } + match arm.body {
                            MatchBody::Expr(x) => sub_reads(*inp, x as int, e),
                            MatchBody::Block(x) => inner_reads(*inp, x as int, b as int, e),
                        });
                    }
                    match arm.guard {
                        Some(g) => {
                            assert(sub_reads(*inp, g as int, e) == reads_spec(*inp, g as int));
                            reads(inp, g, out);
                        },
                        None => {},
                    }
                    match arm.body {
                        MatchBody::Expr(x) => {
                            assert(sub_reads(*inp, x as int, e) == reads_spec(*inp, x as int));
                            reads(inp, x, out);
                        },
                        MatchBody::Block(ab) => {
                            assert(inner_reads(*inp, ab as int, b as int, e) == blk_reads(*inp, ab as int, e));
                            block_reads(inp, ab, out, Ghost(e));
                        },
                    }
                    j = j + 1;
                    proof {
                        assert(out@ =~= o2 + blk_arms_reads(*inp, arms@.subrange(0, j as int), b as int, e, k as int));
                    }
                }
                assert(arms@.subrange(0, arms@.len() as int) =~= arms@);
            },
            HsBlockStmt::For { body } => {
                assert(inner_reads(*inp, *body as int, b as int, e) == blk_reads(*inp, *body as int, e));
                block_reads(inp, *body, out, Ghost(e));
            },
            HsBlockStmt::Error => {},
        }
        k = k + 1;
        proof {
            assert(out@ =~= o0 + stmts_reads(*inp, b as int, e, k as int));
        }
    }
    match blk.tail {
        Some(t) => {
            reads(inp, t, out);
        },
        None => {},
    }
    assert(out@ =~= o0 + blk_reads(*inp, b as int, e));
}

/// The dependency graph: `(x, d)` says that `x` depends on `d.def`.
#[derive(Clone, Debug)]
pub struct CombGraph {
    pub edges: Vec<(u32, Dep)>,
}

/// `d` is a dependency of `u` in `edges`.
pub open spec fn edge_in(edges: Seq<(u32, Dep)>, u: u32, d: Dep) -> bool {
    exists|j: int| 0 <= j < edges.len() && edges[j] == (u, d)
}

/// `chain` is a path of dependencies from `from` to `to`: its first link
/// leaves `from`, each next link leaves the definition the previous one
/// reached, and the last reaches `to`.
pub open spec fn is_walk(edges: Seq<(u32, Dep)>, from: u32, to: u32, chain: Seq<Dep>) -> bool {
    &&& chain.len() >= 1
    &&& edge_in(edges, from, chain[0])
    &&& forall|k: int| 0 <= k < chain.len() - 1 ==> edge_in(edges, (#[trigger] chain[k]).def, chain[k + 1])
    &&& chain.last().def == to
}

/// Every edge names definitions of `inp`.
pub open spec fn edges_ok(inp: HsInput, edges: Seq<(u32, Dep)>) -> bool {
    forall|j: int|
        0 <= j < edges.len() ==> (#[trigger] edges[j]).0 < inp.names@.len() && edges[j].1.def
            < inp.names@.len()
}

/// Every dependency of `v` is visited and none of them is `to`.
pub open spec fn closed(edges: Seq<(u32, Dep)>, visited: Seq<bool>, v: u32, to: u32) -> bool {
    forall|j: int|
        0 <= j < edges.len() && (#[trigger] edges[j]).0 == v ==> edges[j].1.def != to
            && edges[j].1.def < visited.len() && visited[edges[j].1.def as int]
}

/// Every visited definition off the search stack is closed.
pub open spec fn settled(edges: Seq<(u32, Dep)>, visited: Seq<bool>, stack: Seq<u32>, to: u32) -> bool {
    forall|v: u32|
        (v as int) < visited.len() && #[trigger] visited[v as int] && !stack.contains(v) ==> closed(
            edges,
            visited,
            v,
            to,
        )
}

/// A closed set of definitions that holds `from` holds no walk to `to`.
pub proof fn lemma_no_walk(edges: Seq<(u32, Dep)>, visited: Seq<bool>, from: u32, to: u32, chain: Seq<Dep>)
    requires
        (from as int) < visited.len(),
        visited[from as int],
        settled(edges, visited, Seq::empty(), to),
    ensures
        !is_walk(edges, from, to, chain),
{
    if is_walk(edges, from, to, chain) {
        assert forall|k: int| 0 <= k < chain.len() implies (#[trigger] chain[k]).def != to
            && (chain[k].def as int) < visited.len() && visited[chain[k].def as int] by {
            lemma_walk_step(edges, visited, from, to, chain, k);
        }
        assert(chain[chain.len() - 1].def != to);
    }
}

proof fn lemma_walk_step(edges: Seq<(u32, Dep)>, visited: Seq<bool>, from: u32, to: u32, chain: Seq<Dep>, k: int)
    requires
        (from as int) < visited.len(),
        visited[from as int],
        settled(edges, visited, Seq::empty(), to),
        is_walk(edges, from, to, chain),
        0 <= k < chain.len(),
    ensures
        chain[k].def != to && (chain[k].def as int) < visited.len() && visited[chain[k].def as int],
    decreases k,
{
    let u = if k == 0 {
        from
    } else {
        lemma_walk_step(edges, visited, from, to, chain, k - 1);
        chain[k - 1].def
    };
    assert(edge_in(edges, u, chain[k]));
    let j = choose|j: int| 0 <= j < edges.len() && edges[j] == (u, chain[k]);
    assert(!Seq::<u32>::empty().contains(u));
    assert(closed(edges, visited, u, to));
    assert(edges[j].0 == u);
}

/// `t` depends on each read of `rd`, through the statement at `stmt`.
pub open spec fn edge_list(t: u32, rd: Seq<(u32, Span)>, stmt: Span) -> Seq<(u32, Dep)> {
    rd.map_values(|p: (u32, Span)| (t, Dep { def: p.0, site: p.1, stmt }))
}

/// The dependencies a `comb` block `b` adds under the enclosing
/// conditions and selectors `conds`.
pub open spec fn comb_edges(inp: HsInput, b: int, conds: Seq<(u32, Span)>) -> Seq<(u32, Dep)>
    decreases b, inp.blocks@[b].stmts@.len() + 1, 0int,
{
    if !(0 <= b < inp.blocks@.len()) {
        Seq::empty()
    } else {
        comb_stmts(inp, b, conds, inp.blocks@[b].stmts@.len() as int)
    }
}

/// A nested block of block `b`, stored before it.
pub open spec fn comb_inner(inp: HsInput, x: int, b: int, conds: Seq<(u32, Span)>) -> Seq<(u32, Dep)>
    decreases b, 0int, 0int,
{
    if 0 <= x < b {
        comb_edges(inp, x, conds)
    } else {
        Seq::empty()
    }
}

/// The dependencies of the first `n` statements of block `b`.
pub open spec fn comb_stmts(inp: HsInput, b: int, conds: Seq<(u32, Span)>, n: int) -> Seq<(u32, Dep)>
    decreases b, n, 0int,
{
    if !(0 <= b < inp.blocks@.len()) || n <= 0 || n > inp.blocks@[b].stmts@.len() {
        Seq::empty()
    } else {
        comb_stmts(inp, b, conds, n - 1) + match inp.blocks@[b].stmts@[n - 1] {
            HsBlockStmt::Assign { target, rhs, span } => match target {
                Some(t) => edge_list(t, reads_spec(inp, rhs as int) + conds, span),
                None => Seq::empty(),
            },
            HsBlockStmt::Let { def, value } => match def {
                Some(d) => edge_list(d, reads_spec(inp, value as int) + conds, inp.exprs@[value as int].span),
                None => Seq::empty(),
            },
            HsBlockStmt::If { cond, then_block, else_block } => {
                let c2 = conds + reads_spec(inp, cond as int);
                comb_inner(inp, then_block as int, b, c2) + match else_block {
                    Some(x) => comb_inner(inp, x as int, b, c2),
                    None => Seq::empty(),
                }
            },
            HsBlockStmt::Match { scrutinee, arms } => comb_arms(
                inp,
                arms@,
                b,
                conds + reads_spec(inp, scrutinee as int),
                n - 1,
            ),
            HsBlockStmt::For { body } => comb_inner(inp, body as int, b, conds),
            HsBlockStmt::Error => Seq::empty(),
        }
    }
}

/// The dependencies of the block arms of a match statement (statement
/// `n` of block `b`), each under the selector and its own guard.
pub open spec fn comb_arms(inp: HsInput, arms: Seq<MatchArm>, b: int, conds: Seq<(u32, Span)>, n: int) -> Seq<
    (u32, Dep),
>
    decreases b, n, 1 + arms.len(),
{
    if arms.len() == 0 || n < 0 || b < 0 {
        Seq::empty()
    } else {
        let a = arms.last();
        let c3 = conds + match a.guard {
            Some(g) => reads_spec(inp, g as int),
            None => Seq::empty(),
        };
        comb_arms(inp, arms.drop_last(), b, conds, n) + match a.body {
            MatchBody::Block(x) => comb_inner(inp, x as int, b, c3),
            MatchBody::Expr(_) => Seq::empty(),
        }
    }
}

/// The dependency graph of a module body: continuous assignments and
/// `let` bindings depend on what they read, `comb` blocks as above.
pub open spec fn module_edges(inp: HsInput, body: Seq<HsStmt>) -> Seq<(u32, Dep)>
    decreases body.len(),
{
    if body.len() == 0 {
        Seq::empty()
    } else {
        module_edges(inp, body.drop_last()) + match body.last() {
            HsStmt::Assign { target: Some(t), rhs, span } => edge_list(t, reads_spec(inp, rhs as int), span),
            HsStmt::Let { def: Some(d), value, span } => edge_list(d, reads_spec(inp, value as int), span),
            HsStmt::Comb(b) => comb_edges(inp, b as int, Seq::empty()),
            _ => Seq::empty(),
        }
    }
}

/// The number of unvisited entries.
pub open spec fn num_unvisited(s: Seq<bool>) -> nat
    decreases s.len(),
{
    if s.len() == 0 {
        0
    } else {
        num_unvisited(s.drop_last()) + if s.last() {
            0nat
        } else {
            1nat
        }
    }
}

pub proof fn lemma_mark(s: Seq<bool>, i: int)
    requires
        0 <= i < s.len(),
        !s[i],
    ensures
        num_unvisited(s.update(i, true)) + 1 == num_unvisited(s),
    decreases s.len(),
{
    if i == s.len() - 1 {
        assert(s.update(i, true).drop_last() =~= s.drop_last());
    } else {
        assert(s.update(i, true).drop_last() =~= s.drop_last().update(i, true));
        lemma_mark(s.drop_last(), i);
    }
}

pub proof fn lemma_mono(a: Seq<bool>, b: Seq<bool>)
    requires
        a.len() == b.len(),
        forall|i: int| 0 <= i < a.len() && a[i] ==> b[i],
    ensures
        num_unvisited(b) <= num_unvisited(a),
    decreases a.len(),
{
    if a.len() > 0 {
        lemma_mono(a.drop_last(), b.drop_last());
    }
}

impl CombGraph {
    /// The graph of module `m`: continuous assignments, `let` bindings
    /// and `comb` blocks (where assignments also depend on the enclosing
    /// conditions and selectors).
    pub fn build(inp: &HsInput, m: &HsModule) -> (g: CombGraph)
        requires
            inp.wf(),
            forall|k: int| 0 <= k < m.body@.len() ==> inp.stmt_ok(#[trigger] m.body@[k]),
        ensures
            edges_ok(*inp, g.edges@),
            g.edges@ == module_edges(*inp, m.body@),
    {
        let mut g = CombGraph { edges: Vec::new() };
        let mut k: usize = 0;
        while k < m.body.len()
            invariant
                inp.wf(),
                forall|j: int| 0 <= j < m.body@.len() ==> inp.stmt_ok(#[trigger] m.body@[j]),
                edges_ok(*inp, g.edges@),
                k <= m.body@.len(),
                g.edges@ == module_edges(*inp, m.body@.subrange(0, k as int)),
            decreases m.body@.len() - k,
        {
            assert(inp.stmt_ok(m.body@[k as int]));
            proof {
                assert(m.body@.subrange(0, k + 1).drop_last() =~= m.body@.subrange(0, k as int));
                assert(m.body@.subrange(0, k + 1).last() == m.body@[k as int]);
            }
            let ghost e0 = g.edges@;
            match &m.body[k] {
                HsStmt::Assign { target: Some(t), rhs, span } => {
                    let conds: Vec<(u32, Span)> = Vec::new();
                    g.add(inp, *t, *rhs, &conds, *span);
                    assert(reads_spec(*inp, *rhs as int) + conds@ =~= reads_spec(*inp, *rhs as int));
                },
                HsStmt::Let { def: Some(d), value, span } => {
                    let conds: Vec<(u32, Span)> = Vec::new();
                    g.add(inp, *d, *value, &conds, *span);
                    assert(reads_spec(*inp, *value as int) + conds@ =~= reads_spec(*inp, *value as int));
                },
                HsStmt::Comb(b) => {
                    let mut conds: Vec<(u32, Span)> = Vec::new();
                    g.block(inp, *b, &mut conds);
                },
                _ => {},
            }
            k = k + 1;
            proof {
                assert(g.edges@ =~= module_edges(*inp, m.body@.subrange(0, k as int)));
            }
        }
        assert(m.body@.subrange(0, m.body@.len() as int) =~= m.body@);
        g
    }

    /// `target` is driven by `rhs` (and the enclosing conditions).
    fn add(&mut self, inp: &HsInput, target: u32, rhs: usize, conds: &Vec<(u32, Span)>, stmt: Span)
        requires
            inp.wf(),
            target < inp.names@.len(),
            rhs < inp.exprs@.len(),
            reads_ok(*inp, conds@, 0),
            edges_ok(*inp, old(self).edges@),
        ensures
            edges_ok(*inp, final(self).edges@),
            final(self).edges@ == old(self).edges@ + edge_list(target, reads_spec(*inp, rhs as int) + conds@, stmt),
    {
        let ghost e0 = self.edges@;
        let mut rd: Vec<(u32, Span)> = Vec::new();
        reads(inp, rhs, &mut rd);
        assert(rd@ =~= reads_spec(*inp, rhs as int));
        let ghost all = rd@ + conds@;
        let mut k: usize = 0;
        while k < rd.len()
            invariant
                inp.wf(),
                target < inp.names@.len(),
                reads_ok(*inp, rd@, 0),
                edges_ok(*inp, self.edges@),
                k <= rd@.len(),
                all == rd@ + conds@,
                self.edges@ == e0 + edge_list(target, all.subrange(0, k as int), stmt),
            decreases rd@.len() - k,
        {
            let (def, site) = rd[k];
            self.edges.push((target, Dep { def, site, stmt }));
            k = k + 1;
            proof {
                assert(all[k - 1] == (def, site));
                assert(self.edges@ =~= e0 + edge_list(target, all.subrange(0, k as int), stmt));
            }
        }
        let mut c: usize = 0;
        while c < conds.len()
            invariant
                inp.wf(),
                target < inp.names@.len(),
                reads_ok(*inp, conds@, 0),
                edges_ok(*inp, self.edges@),
                c <= conds@.len(),
                all == rd@ + conds@,
                self.edges@ == e0 + edge_list(target, all.subrange(0, rd@.len() + c), stmt),
            decreases conds@.len() - c,
        {
            let (def, site) = conds[c];
            self.edges.push((target, Dep { def, site, stmt }));
            c = c + 1;
            proof {
                assert(all[rd@.len() + c - 1] == (def, site));
                assert(self.edges@ =~= e0 + edge_list(target, all.subrange(0, rd@.len() + c), stmt));
            }
        }
        assert(all.subrange(0, all.len() as int) =~= all);
    }

    /// A `comb` block: each assignment also depends on the conditions
    /// and selectors around it (`conds`).
    fn block(&mut self, inp: &HsInput, b: usize, conds: &mut Vec<(u32, Span)>)
        requires
            inp.wf(),
            b < inp.blocks@.len(),
            reads_ok(*inp, old(conds)@, 0),
            edges_ok(*inp, old(self).edges@),
        ensures
            edges_ok(*inp, final(self).edges@),
            final(conds)@ == old(conds)@,
            final(self).edges@ == old(self).edges@ + comb_edges(*inp, b as int, old(conds)@),
        decreases b,
    {
        let ghost e0 = self.edges@;
        let ghost c0 = conds@;
        let blk = &inp.blocks[b];
        let mut k: usize = 0;
        while k < blk.stmts.len()
            invariant
                inp.wf(),
                b < inp.blocks@.len(),
                *blk == inp.blocks@[b as int],
                reads_ok(*inp, conds@, 0),
                conds@ == c0,
                edges_ok(*inp, self.edges@),
                k <= blk.stmts@.len(),
                self.edges@ == e0 + comb_stmts(*inp, b as int, c0, k as int),
            decreases blk.stmts@.len() - k,
        {
            let st = &blk.stmts[k];
            assert(inp.block_stmt_ok(*st, b as int));
            let ghost e1 = self.edges@;
            proof {
                let bi = b as int;
                let ki = k as int;
                assert(blk.stmts@[ki] == *st);
                assert(comb_stmts(*inp, bi, c0, ki + 1) == comb_stmts(*inp, bi, c0, ki) + match *st {
                    HsBlockStmt::Assign { target, rhs, span } => match target {
                        Some(t) => edge_list(t, reads_spec(*inp, rhs as int) + c0, span),
                        None => Seq::empty(),
                    },
                    HsBlockStmt::Let { def, value } => match def {
                        Some(d) => edge_list(d, reads_spec(*inp, value as int) + c0, inp.exprs@[value as int].span),
                        None => Seq::empty(),
                    },
                    HsBlockStmt::If { cond, then_block, else_block } => {
                        let c2 = c0 + reads_spec(*inp, cond as int);
                        comb_inner(*inp, then_block as int, bi, c2) + match else_block {
                            Some(x) => comb_inner(*inp, x as int, bi, c2),
                            None => Seq::empty(),
                        }
                    },
                    HsBlockStmt::Match { scrutinee, arms } => comb_arms(
                        *inp,
                        arms@,
                        bi,
                        c0 + reads_spec(*inp, scrutinee as int),
                        ki,
                    ),
                    HsBlockStmt::For { body } => comb_inner(*inp, body as int, bi, c0),
                    HsBlockStmt::Error => Seq::empty(),
                });
            }
            match st {
                HsBlockStmt::Assign { target: Some(t), rhs, span } => {
                    self.add(inp, *t, *rhs, conds, *span);
                },
                HsBlockStmt::Let { def: Some(d), value } => {
                    self.add(inp, *d, *value, conds, inp.exprs[*value].span);
                },
                HsBlockStmt::If { cond, then_block, else_block } => {
                    let mark = conds.len();
                    reads(inp, *cond, conds);
                    let ghost c2 = conds@;
                    assert(c2 == c0 + reads_spec(*inp, *cond as int));
                    self.block(inp, *then_block, conds);
                    assert(comb_inner(*inp, *then_block as int, b as int, c2) == comb_edges(*inp, *then_block as int, c2));
                    match else_block {
                        Some(x) => {
                            self.block(inp, *x, conds);
                            assert(comb_inner(*inp, *x as int, b as int, c2) == comb_edges(*inp, *x as int, c2));
                        },
                        None => {},
                    }
                    conds.truncate(mark);
                    assert(conds@ =~= c0);
                    assert(self.edges@ =~= e1 + (comb_inner(*inp, *then_block as int, b as int, c2) + match else_block {
                        Some(x) => comb_inner(*inp, *x as int, b as int, c2),
                        None => Seq::empty(),
                    }));
                },
                HsBlockStmt::Match { scrutinee, arms } => {
                    let mark = conds.len();
                    reads(inp, *scrutinee, conds);
                    let ghost cs = conds@;
                    assert(cs == c0 + reads_spec(*inp, *scrutinee as int));
                    let mut j: usize = 0;
                    while j < arms.len()
                        invariant
                            inp.wf(),
                            b < inp.blocks@.len(),
                            inp.block_stmt_ok(*st, b as int),
                            *st == (HsBlockStmt::Match { scrutinee: *scrutinee, arms: *arms }),
                            reads_ok(*inp, conds@, 0),
                            conds@ == cs,
                            mark as int == c0.len(),
                            cs.subrange(0, mark as int) == c0,
                            edges_ok(*inp, self.edges@),
                            j <= arms@.len(),
                            self.edges@ == e1 + comb_arms(*inp, arms@.subrange(0, j as int), b as int, cs, k as int),
                        decreases arms@.len() - j,
                    {
                        let ghost ej = self.edges@;
                        proof {
                            let a = arms@[j as int];
                            assert(arms@.subrange(0, j + 1).drop_last() =~= arms@.subrange(0, j as int));
                            assert(arms@.subrange(0, j + 1).last() == a);
                        }
                        let inner = conds.len();
                        match arms[j].guard {
                            Some(g) => {
                                reads(inp, g, conds);
                            },
                            None => {},
                        }
                        let ghost c3 = conds@;
                        assert(c3 == cs + match arms@[j as int].guard {
                            Some(g) => reads_spec(*inp, g as int),
                            None => Seq::<(u32, Span)>::empty(),
                        }) by {
                            if arms@[j as int].guard is None {
                                assert(c3 =~= cs + Seq::<(u32, Span)>::empty());
                            }
                        }
                        match arms[j].body {
                            MatchBody::Block(ab) => {
                                self.block(inp, ab, conds);
                                assert(comb_inner(*inp, ab as int, b as int, c3) == comb_edges(*inp, ab as int, c3));
                            },
                            MatchBody::Expr(_) => {},
                        }
                        conds.truncate(inner);
                        assert(conds@ =~= cs);
                        j = j + 1;
                        proof {
                            assert(self.edges@ =~= e1 + comb_arms(*inp, arms@.subrange(0, j as int), b as int, cs, k as int));
                        }
                    }
                    assert(arms@.subrange(0, arms@.len() as int) =~= arms@);
                    conds.truncate(mark);
                    assert(conds@ =~= c0);
                },
                HsBlockStmt::For { body } => {
                    self.block(inp, *body, conds);
                    assert(comb_inner(*inp, *body as int, b as int, c0) == comb_edges(*inp, *body as int, c0));
                },
                _ => {},
            }
            k = k + 1;
            proof {
                assert(self.edges@ =~= e0 + comb_stmts(*inp, b as int, c0, k as int));
            }
        }
        assert(self.edges@ =~= e0 + comb_edges(*inp, b as int, c0));
    }

    /// A path of dependencies from `from` to `to`, found depth first
    /// (each definition entered once), if there is one.
    pub fn find_path(&self, inp: &HsInput, from: u32, to: u32) -> (r: Option<Vec<Dep>>)
        requires
            inp.wf(),
            from < inp.names@.len(),
            edges_ok(*inp, self.edges@),
        ensures
            r matches Some(c) ==> is_walk(self.edges@, from, to, c@),
            r is None ==> forall|c: Seq<Dep>| !is_walk(self.edges@, from, to, c),
    {
        let mut visited: Vec<bool> = Vec::new();
        let mut i: usize = 0;
        while i < inp.names.len()
            invariant
                i <= inp.names@.len(),
                visited@.len() == i,
                forall|k: int| 0 <= k < i ==> !#[trigger] visited@[k],
            decreases inp.names@.len() - i,
        {
            visited.push(false);
            i = i + 1;
        }
        let mut chain: Vec<Dep> = Vec::new();
        let ghost fuel = num_unvisited(visited@);
        let found = self.dfs(inp, from, to, &mut visited, &mut chain, Ghost(fuel), Ghost(Seq::empty()));
        if found {
            assert(chain@.subrange(0, 0) =~= chain@.subrange(0, 0));
            assert(chain@.subrange(0, chain@.len() as int) =~= chain@);
            Some(chain)
        } else {
            proof {
                assert forall|c: Seq<Dep>| !is_walk(self.edges@, from, to, c) by {
                    lemma_no_walk(self.edges@, visited@, from, to, c);
                }
            }
            None
        }
    }

    fn dfs(
        &self,
        inp: &HsInput,
        cur: u32,
        to: u32,
        visited: &mut Vec<bool>,
        chain: &mut Vec<Dep>,
        Ghost(fuel): Ghost<nat>,
        Ghost(stack): Ghost<Seq<u32>>,
    ) -> (r: bool)
        requires
            cur < inp.names@.len(),
            old(visited)@.len() == inp.names@.len(),
            edges_ok(*inp, self.edges@),
            fuel == num_unvisited(old(visited)@),
            settled(self.edges@, old(visited)@, stack, to),
        ensures
            !r ==> settled(self.edges@, final(visited)@, stack, to) && final(visited)@[cur as int],
            final(visited)@.len() == old(visited)@.len(),
            forall|i: int| 0 <= i < old(visited)@.len() && old(visited)@[i] ==> final(visited)@[i],
            r ==> final(chain)@.len() > old(chain)@.len() && final(chain)@.subrange(
                0,
                old(chain)@.len() as int,
            ) == old(chain)@ && is_walk(
                self.edges@,
                cur,
                to,
                final(chain)@.subrange(old(chain)@.len() as int, final(chain)@.len() as int),
            ),
            !r ==> final(chain)@ == old(chain)@,
        decreases fuel,
    {
        if visited[cur as usize] {
            return false;
        }
        let ghost v0 = visited@;
        visited.set(cur as usize, true);
        let ghost stack2 = stack.push(cur);
        proof {
            lemma_mark(v0, cur as int);
            assert forall|v: u32|
                (v as int) < visited@.len() && #[trigger] visited@[v as int] && !stack2.contains(v)
                implies closed(self.edges@, visited@, v, to) by {
                assert(stack2[stack.len() as int] == cur);
                if stack.contains(v) {
                    let i = choose|i: int| 0 <= i < stack.len() && stack[i] == v;
                    assert(stack2[i] == v);
                }
                assert(v0[v as int]);
                assert(closed(self.edges@, v0, v, to));
            }
        }
        let ghost c0 = chain@;
        let mut j: usize = 0;
        while j < self.edges.len()
            invariant
                cur < inp.names@.len(),
                visited@.len() == inp.names@.len(),
                old(visited)@.len() == inp.names@.len(),
                edges_ok(*inp, self.edges@),
                num_unvisited(visited@) < fuel,
                forall|i: int| 0 <= i < old(visited)@.len() && old(visited)@[i] ==> visited@[i],
                chain@ == c0,
                c0 == old(chain)@,
                j <= self.edges@.len(),
                stack2 == stack.push(cur),
                settled(self.edges@, visited@, stack2, to),
                visited@[cur as int],
                forall|i: int|
                    0 <= i < j && (#[trigger] self.edges@[i]).0 == cur ==> self.edges@[i].1.def != to
                        && visited@[self.edges@[i].1.def as int],
            decreases self.edges@.len() - j,
        {
            let (src, dep) = self.edges[j];
            if src == cur {
                assert(edge_in(self.edges@, cur, dep)) by {
                    assert(self.edges@[j as int] == (cur, dep));
                }
                chain.push(dep);
                if dep.def == to {
                    assert(chain@.subrange(c0.len() as int, chain@.len() as int) =~= seq![dep]);
                    assert(chain@.subrange(0, c0.len() as int) =~= c0);
                    return true;
                }
                let ghost vb = visited@;
                let ghost cb = chain@;
                let ghost fuel2 = num_unvisited(visited@);
                let found = self.dfs(inp, dep.def, to, visited, chain, Ghost(fuel2), Ghost(stack2));
                if found {
                    proof {
                        let seg = chain@.subrange(c0.len() as int, chain@.len() as int);
                        let rest = chain@.subrange(cb.len() as int, chain@.len() as int);
                        assert(chain@.subrange(0, cb.len() as int) == cb);
                        assert(cb.len() == c0.len() + 1);
                        assert(cb[c0.len() as int] == dep);
                        assert(chain@.subrange(0, cb.len() as int)[c0.len() as int] == chain@[c0.len() as int]);
                        assert(seg =~= seq![dep] + rest);
                        assert(is_walk(self.edges@, dep.def, to, rest));
                        assert forall|k: int| 0 <= k < seg.len() - 1 implies edge_in(
                            self.edges@,
                            (#[trigger] seg[k]).def,
                            seg[k + 1],
                        ) by {
                            if k == 0 {
                                assert(seg[1] == rest[0]);
                            } else {
                                assert(seg[k] == rest[k - 1]);
                                assert(seg[k + 1] == rest[k]);
                            }
                        }
                        assert(chain@.subrange(0, c0.len() as int) =~= c0);
                    }
                    return true;
                }
                proof {
                    lemma_mono(vb, visited@);
                }
                chain.pop();
                assert(chain@ =~= c0);
            }
            j = j + 1;
        }
        proof {
            assert forall|v: u32|
                (v as int) < visited@.len() && #[trigger] visited@[v as int] && !stack.contains(v)
                implies closed(self.edges@, visited@, v, to) by {
                if v != cur {
                    assert(!stack2.contains(v));
                }
            }
        }
        false
    }
}

/// E4007: the valid of producer handshake port `port` depends
/// combinationally on its ready, through `chain`.
#[derive(Clone, Debug)]
pub struct ValidOnReady {
    pub port: String,
    pub port_span: Span,
    /// From valid to ready: the first link is where valid is driven, the
    /// last where ready is read.
    pub chain: Vec<Dep>,
}

impl ValidOnReady {
    /// The diagnostic code.
    pub fn code(&self) -> (r: &'static str)
        ensures
            r@ == "E4007"@,
    {
        "E4007"
    }
}

/// A port flattened from a `Handshake` bundle with the given field path
/// and direction.
pub open spec fn handshake_field(p: PortIr, path: Seq<char>, dir: PortDir) -> bool {
    p.bundle matches Some(o) && o.bundle@ == "Handshake"@ && o.path@ == path && p.dir == dir
        && p.def is Some
}

/// Port `k` of `m` is the `path` field, in direction `dir`, of handshake
/// port `name` declared at `span`, and declares `def`.
pub open spec fn field_of(m: HsModule, k: int, path: Seq<char>, dir: PortDir, name: Seq<char>, def: u32) -> bool {
    0 <= k < m.ports@.len() && handshake_field(m.ports@[k], path, dir)
        && m.ports@[k].bundle.unwrap().port@ == name && m.ports@[k].def == Some(def)
}

/// `e` (definition, port name, port span) is a producer valid port of `m`.
pub open spec fn valid_listed(m: HsModule, e: (u32, String, Span)) -> bool {
    exists|kv: int|
        #[trigger] field_of(m, kv, "valid"@, PortDir::Out, e.1@, e.0) && m.ports@[kv].bundle.unwrap().port_span
            == e.2
}

/// `e` (port name, definition) is a producer ready port of `m`.
pub open spec fn ready_listed(m: HsModule, e: (String, u32)) -> bool {
    exists|kr: int| #[trigger] field_of(m, kr, "ready"@, PortDir::In, e.0@, e.1)
}

/// `f` names a producer handshake port of a module of `inp`: its valid
/// is an output port, its ready an input port of the same module, and
/// the chain is a path of combinational dependencies of that module from
/// the valid definition to the ready definition.
pub open spec fn reported_ok(inp: HsInput, f: ValidOnReady) -> bool {
    exists|mi: int, kv: int, kr: int, valid: u32, ready: u32|
        0 <= mi < inp.modules@.len() && #[trigger] field_of(
            inp.modules@[mi],
            kv,
            "valid"@,
            PortDir::Out,
            f.port@,
            valid,
        ) && #[trigger] field_of(inp.modules@[mi], kr, "ready"@, PortDir::In, f.port@, ready)
            && inp.modules@[mi].ports@[kv].bundle.unwrap().port_span == f.port_span && is_walk(
            module_edges(inp, inp.modules@[mi].body@),
            valid,
            ready,
            f.chain@,
        )
}

/// The producer `valid` ports: definition, handshake port name and span,
/// in port order.
pub open spec fn valid_entries(ports: Seq<PortIr>) -> Seq<(u32, Seq<char>, Span)>
    decreases ports.len(),
{
    if ports.len() == 0 {
        Seq::empty()
    } else {
        let p = ports.last();
        valid_entries(ports.drop_last()) + if handshake_field(p, "valid"@, PortDir::Out) {
            seq![(p.def.unwrap(), p.bundle.unwrap().port@, p.bundle.unwrap().port_span)]
        } else {
            Seq::empty()
        }
    }
}

/// The producer `ready` ports: handshake port name and definition, in
/// port order.
pub open spec fn ready_entries(ports: Seq<PortIr>) -> Seq<(Seq<char>, u32)>
    decreases ports.len(),
{
    if ports.len() == 0 {
        Seq::empty()
    } else {
        let p = ports.last();
        ready_entries(ports.drop_last()) + if handshake_field(p, "ready"@, PortDir::In) {
            seq![(p.bundle.unwrap().port@, p.def.unwrap())]
        } else {
            Seq::empty()
        }
    }
}

/// The definition of the last ready port of handshake port `name`.
pub open spec fn last_ready(rs: Seq<(Seq<char>, u32)>, name: Seq<char>) -> Option<u32>
    decreases rs.len(),
{
    if rs.len() == 0 {
        None
    } else if rs.last().0 == name {
        Some(rs.last().1)
    } else {
        last_ready(rs.drop_last(), name)
    }
}

/// The producer ports of `vals` (of module `m`) whose valid depends
/// combinationally on their ready: name and span, in order.
pub open spec fn reports_of(inp: HsInput, m: HsModule, vals: Seq<(u32, Seq<char>, Span)>) -> Seq<(Seq<char>, Span)>
    decreases vals.len(),
{
    if vals.len() == 0 {
        Seq::empty()
    } else {
        let v = vals.last();
        reports_of(inp, m, vals.drop_last()) + match last_ready(ready_entries(m.ports@), v.1) {
            Some(r) => if exists|c: Seq<Dep>| is_walk(module_edges(inp, m.body@), v.0, r, c) {
                seq![(v.1, v.2)]
            } else {
                Seq::empty()
            },
            None => Seq::empty(),
        }
    }
}

/// The E4007 reports of the modules `ms`, module by module.
pub open spec fn hs_reports(inp: HsInput, ms: Seq<HsModule>) -> Seq<(Seq<char>, Span)>
    decreases ms.len(),
{
    if ms.len() == 0 {
        Seq::empty()
    } else {
        hs_reports(inp, ms.drop_last()) + reports_of(inp, ms.last(), valid_entries(ms.last().ports@))
    }
}

/// The E4007 check of every module: for each producer handshake port
/// (`valid` out, `ready` in), a combinational path from valid to ready
/// is reported with its chain.
pub fn check_handshakes(inp: &HsInput) -> (out: Vec<ValidOnReady>)
    requires
        inp.wf(),
    ensures
        out@.map_values(|f: ValidOnReady| (f.port@, f.port_span)) == hs_reports(*inp, inp.modules@),
        forall|i: int| 0 <= i < out@.len() ==> reported_ok(*inp, #[trigger] out@[i]),
{
    let mut out: Vec<ValidOnReady> = Vec::new();
    let mut mi: usize = 0;
    while mi < inp.modules.len()
        invariant
            inp.wf(),
            mi <= inp.modules@.len(),
            forall|i: int| 0 <= i < out@.len() ==> reported_ok(*inp, #[trigger] out@[i]),
            out@.map_values(|f: ValidOnReady| (f.port@, f.port_span)) == hs_reports(
                *inp,
                inp.modules@.subrange(0, mi as int),
            ),
        decreases inp.modules@.len() - mi,
    {
        let m = &inp.modules[mi];
        assert(inp.modules@[mi as int] == *m);
        proof {
            reveal_strlit("valid");
            reveal_strlit("ready");
            assert(inp.modules@.subrange(0, mi + 1).drop_last() =~= inp.modules@.subrange(0, mi as int));
        }
        let ghost o0 = out@.map_values(|f: ValidOnReady| (f.port@, f.port_span));
        // (valid definition, port name, port span); (port name, ready definition)
        let mut valids: Vec<(u32, String, Span)> = Vec::new();
        let mut readys: Vec<(String, u32)> = Vec::new();
        let mut k: usize = 0;
        while k < m.ports.len()
            invariant
                inp.wf(),
                mi < inp.modules@.len(),
                inp.modules@[mi as int] == *m,
                k <= m.ports@.len(),
                forall|j: int| 0 <= j < valids@.len() ==> (#[trigger] valids@[j]).0 < inp.names@.len(),
                forall|j: int| 0 <= j < valids@.len() ==> valid_listed(*m, #[trigger] valids@[j]),
                forall|j: int| 0 <= j < readys@.len() ==> ready_listed(*m, #[trigger] readys@[j]),
                valids@.map_values(|x: (u32, String, Span)| (x.0, x.1@, x.2)) == valid_entries(
                    m.ports@.subrange(0, k as int),
                ),
                readys@.map_values(|x: (String, u32)| (x.0@, x.1)) == ready_entries(m.ports@.subrange(0, k as int)),
            decreases m.ports@.len() - k,
        {
            let p = &m.ports[k];
            assert(inp.def_ok(m.ports@[k as int].def));
            proof {
                assert(m.ports@.subrange(0, k + 1).drop_last() =~= m.ports@.subrange(0, k as int));
                assert(m.ports@.subrange(0, k + 1).last() == *p);
                reveal_strlit("valid");
                reveal_strlit("ready");
                assert("valid"@ != "ready"@) by {
                    assert("valid"@[0] != "ready"@[0]);
                }
            }
            match (&p.bundle, p.def) {
                (Some(origin), Some(def)) => {
                    if eq_str(origin.bundle.as_str(), "Handshake") {
                        if eq_str(origin.path.as_str(), "valid") && p.dir == PortDir::Out {
                            let name = origin.port.clone();
                            proof {
                                assert(m.ports@[k as int].bundle.unwrap().port_span == origin.port_span);
                                let e = (def, name, origin.port_span);
                                assert(field_of(*m, k as int, "valid"@, PortDir::Out, e.1@, e.0));
                                assert(valid_listed(*m, e));
                            }
                            valids.push((def, name, origin.port_span));
                        } else if eq_str(origin.path.as_str(), "ready") && p.dir == PortDir::In {
                            let name = origin.port.clone();
                            proof {
                                let e = (name, def);
                                assert(field_of(*m, k as int, "ready"@, PortDir::In, e.0@, e.1));
                                assert(ready_listed(*m, e));
                            }
                            readys.push((name, def));
                        }
                    }
                },
                _ => {},
            }
            k = k + 1;
            proof {
                assert(valids@.map_values(|x: (u32, String, Span)| (x.0, x.1@, x.2)) =~= valid_entries(
                    m.ports@.subrange(0, k as int),
                ));
                assert(readys@.map_values(|x: (String, u32)| (x.0@, x.1)) =~= ready_entries(
                    m.ports@.subrange(0, k as int),
                ));
            }
        }
        assert(m.ports@.subrange(0, m.ports@.len() as int) =~= m.ports@);
        let ghost vv = valids@.map_values(|x: (u32, String, Span)| (x.0, x.1@, x.2));
        let ghost rv = readys@.map_values(|x: (String, u32)| (x.0@, x.1));
        if valids.len() > 0 {
            let graph = CombGraph::build(inp, m);
            let mut v: usize = 0;
            while v < valids.len()
                invariant
                    inp.wf(),
                    edges_ok(*inp, graph.edges@),
                    graph.edges@ == module_edges(*inp, m.body@),
                    forall|j: int| 0 <= j < valids@.len() ==> (#[trigger] valids@[j]).0 < inp.names@.len(),
                    v <= valids@.len(),
                    mi < inp.modules@.len(),
                    inp.modules@[mi as int] == *m,
                    forall|j: int| 0 <= j < valids@.len() ==> valid_listed(*m, #[trigger] valids@[j]),
                    forall|j: int| 0 <= j < readys@.len() ==> ready_listed(*m, #[trigger] readys@[j]),
                    forall|i: int| 0 <= i < out@.len() ==> reported_ok(*inp, #[trigger] out@[i]),
                    vv == valids@.map_values(|x: (u32, String, Span)| (x.0, x.1@, x.2)),
                    vv == valid_entries(m.ports@),
                    rv == readys@.map_values(|x: (String, u32)| (x.0@, x.1)),
                    rv == ready_entries(m.ports@),
                    out@.map_values(|f: ValidOnReady| (f.port@, f.port_span)) == o0 + reports_of(
                        *inp,
                        *m,
                        vv.subrange(0, v as int),
                    ),
                decreases valids@.len() - v,
            {
                proof {
                    assert(vv.subrange(0, v + 1).drop_last() =~= vv.subrange(0, v as int));
                    assert(vv[v as int] == (valids@[v as int].0, valids@[v as int].1@, valids@[v as int].2));
                }
                // The last `ready` of the same port wins, as a later map
                // entry replaces an earlier one.
                let mut ready: Option<u32> = None;
                let mut r: usize = 0;
                while r < readys.len()
                    invariant
                        r <= readys@.len(),
                        v < valids@.len(),
                        rv == readys@.map_values(|x: (String, u32)| (x.0@, x.1)),
                        ready == last_ready(rv.subrange(0, r as int), valids@[v as int].1@),
                        ready matches Some(rd) ==> exists|j: int|
                            0 <= j < readys@.len() && (#[trigger] readys@[j]).0@ == valids@[v as int].1@
                                && readys@[j].1 == rd,
                    decreases readys@.len() - r,
                {
                    proof {
                        assert(rv.subrange(0, r + 1).drop_last() =~= rv.subrange(0, r as int));
                        assert(rv[r as int] == (readys@[r as int].0@, readys@[r as int].1));
                    }
                    if eq_str(readys[r].0.as_str(), valids[v].1.as_str()) {
                        ready = Some(readys[r].1);
                    }
                    r = r + 1;
                }
                assert(rv.subrange(0, rv.len() as int) =~= rv);
                let ghost o1 = out@.map_values(|f: ValidOnReady| (f.port@, f.port_span));
                let ghost name = vv[v as int].1;
                let ghost step = match last_ready(ready_entries(m.ports@), name) {
                    Some(r) => if exists|c: Seq<Dep>| is_walk(module_edges(*inp, m.body@), vv[v as int].0, r, c) {
                        seq![(name, vv[v as int].2)]
                    } else {
                        Seq::empty()
                    },
                    None => Seq::empty(),
                };
                assert(reports_of(*inp, *m, vv.subrange(0, v + 1)) == reports_of(*inp, *m, vv.subrange(0, v as int))
                    + step);
                match ready {
                    Some(rd) => {
                        match graph.find_path(inp, valids[v].0, rd) {
                            Some(chain) => {
                                assert(is_walk(module_edges(*inp, m.body@), vv[v as int].0, rd, chain@));
                                assert(step == seq![(name, vv[v as int].2)]);
                                proof {
                                    let j = choose|j: int|
                                        0 <= j < readys@.len() && (#[trigger] readys@[j]).0@
                                            == valids@[v as int].1@ && readys@[j].1 == rd;
                                    assert(ready_listed(*m, readys@[j]));
                                    assert(valid_listed(*m, valids@[v as int]));
                                    let kr = choose|kr: int|
                                        #[trigger] field_of(*m, kr, "ready"@, PortDir::In, readys@[j].0@, readys@[j].1);
                                    let kv = choose|kv: int|
                                        #[trigger] field_of(*m, kv, "valid"@, PortDir::Out, valids@[v as int].1@, valids@[v as int].0)
                                            && m.ports@[kv].bundle.unwrap().port_span == valids@[v as int].2;
                                    let f = ValidOnReady {
                                        port: valids@[v as int].1,
                                        port_span: valids@[v as int].2,
                                        chain,
                                    };
                                    assert(field_of(inp.modules@[mi as int], kv, "valid"@, PortDir::Out, f.port@, valids@[v as int].0));
                                    assert(field_of(inp.modules@[mi as int], kr, "ready"@, PortDir::In, f.port@, rd));
                                    assert(reported_ok(*inp, f));
                                }
                                let f = ValidOnReady { port: valids[v].1.clone(), port_span: valids[v].2, chain };
                                let ghost ob = out@;
                                out.push(f);
                                assert(out@.map_values(|f: ValidOnReady| (f.port@, f.port_span)) =~= o1 + step) by {
                                    assert(out@ == ob.push(f));
                                }
                            },
                            None => {
                                assert(step =~= Seq::<(Seq<char>, Span)>::empty());
                                assert(out@.map_values(|f: ValidOnReady| (f.port@, f.port_span)) =~= o1 + step);
                            },
                        }
                    },
                    None => {
                        assert(step =~= Seq::<(Seq<char>, Span)>::empty());
                        assert(out@.map_values(|f: ValidOnReady| (f.port@, f.port_span)) =~= o1 + step);
                    },
                }
                v = v + 1;
                proof {
                    assert(out@.map_values(|f: ValidOnReady| (f.port@, f.port_span)) =~= o0 + reports_of(
                        *inp,
                        *m,
                        vv.subrange(0, v as int),
                    ));
                }
            }
            assert(vv.subrange(0, vv.len() as int) =~= vv);
        } else {
            assert(vv.len() == 0);
            assert(out@.map_values(|f: ValidOnReady| (f.port@, f.port_span)) =~= o0 + reports_of(*inp, *m, vv));
        }
        mi = mi + 1;
        proof {
            assert(out@.map_values(|f: ValidOnReady| (f.port@, f.port_span)) =~= hs_reports(
                *inp,
                inp.modules@.subrange(0, mi as int),
            ));
        }
    }
    assert(inp.modules@.subrange(0, inp.modules@.len() as int) =~= inp.modules@);
    out
}

} // verus!
