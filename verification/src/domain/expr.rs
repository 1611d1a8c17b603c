//! Combinational propagation (K5): the domain of an expression is the
//! join of its operands, evaluated left to right, which fixes the order
//! of the findings. `sync()` is the bridge (K9); reading a bidirectional
//! port directly warns (W3007).

use vstd::prelude::*;

use crate::ast::{arms_below, children, ExprKind, MatchArm, MatchBody, Span};
use crate::domain::annotation::pushed_one;
use crate::domain::ir::DomainInput;
use crate::domain::join::{join_outcome, join_spec, resolve_spec};
use crate::domain::tables::{builtin_of, builtin_spec, def_domain_spec};
use crate::domain::{lemma_expr_frame_trans, DomainDiag, DomainId, Inferencer};
use crate::names::BuiltinKind;
use crate::text::eq_str;

verus! {

/// Expression kinds that are independent of any clock.
pub open spec fn timeless_kind(k: ExprKind) -> bool {
    match k {
        ExprKind::IntLit(_) => true,
        ExprKind::BoolLit(_) => true,
        ExprKind::StringLit(_) => true,
        ExprKind::Error => true,
        ExprKind::Other => true,
        _ => false,
    }
}

/// Operands `l` and `rr` were given domains and then joined, that join
/// being the last step: `fin` holds the operands' domains and the
/// variables and findings the join left.
pub open spec fn pair_law(inp: DomainInput, fin: Inferencer, l: usize, rr: usize, r: DomainId) -> bool {
    &&& fin.expr_domains@[l as int] is Some
    &&& fin.expr_domains@[rr as int] is Some
    &&& exists|v: Seq<Option<DomainId>>, d: Seq<DomainDiag>|
        join_outcome(
            v,
            d,
            fin.vars@,
            fin.diagnostics@,
            fin.expr_domains@[l as int].unwrap(),
            fin.expr_domains@[rr as int].unwrap(),
            inp.exprs@[l as int].span,
            inp.exprs@[rr as int].span,
            r,
        )
}

/// `if c { t } else { f }`: the three were given domains, then `c` was
/// joined with `t`, then that with `f`, both findings at the condition.
pub open spec fn if_law(inp: DomainInput, fin: Inferencer, c: usize, t: usize, f: usize, r: DomainId) -> bool {
    &&& fin.expr_domains@[c as int] is Some
    &&& fin.expr_domains@[t as int] is Some
    &&& fin.expr_domains@[f as int] is Some
    &&& exists|v1: Seq<Option<DomainId>>, d1: Seq<DomainDiag>, v2: Seq<Option<DomainId>>, d2: Seq<DomainDiag>, ct: DomainId|
        join_outcome(
            v1,
            d1,
            v2,
            d2,
            fin.expr_domains@[c as int].unwrap(),
            fin.expr_domains@[t as int].unwrap(),
            inp.exprs@[c as int].span,
            inp.exprs@[t as int].span,
            ct,
        ) && join_outcome(
            v2,
            d2,
            fin.vars@,
            fin.diagnostics@,
            ct,
            fin.expr_domains@[f as int].unwrap(),
            inp.exprs@[c as int].span,
            inp.exprs@[f as int].span,
            r,
        )
}

/// The join, left to right from `Timeless`, of the domains `fin` holds
/// for the expressions `es`.
pub open spec fn list_join(fin: Inferencer, es: Seq<usize>) -> DomainId
    decreases es.len(),
{
    if es.len() == 0 {
        DomainId::Timeless
    } else {
        join_spec(list_join(fin, es.drop_last()), fin.expr_domains@[es.last() as int].unwrap())
    }
}

/// Every expression of `es` has a domain in `fin`.
pub open spec fn all_memo(fin: Inferencer, es: Seq<usize>) -> bool {
    forall|k: int| 0 <= k < es.len() ==> (#[trigger] fin.expr_domains@[es[k] as int]) is Some
}

/// No expression of `es` waits on a constraint variable in `fin`.
pub open spec fn all_definite(fin: Inferencer, es: Seq<usize>) -> bool {
    forall|k: int| 0 <= k < es.len() ==> !((#[trigger] fin.expr_domains@[es[k] as int]).unwrap() is Unresolved)
}

/// A list of operands joined left to right: each has a domain, and where
/// none waits on a constraint variable the result is their join.
pub open spec fn list_law(fin: Inferencer, es: Seq<usize>, r: DomainId) -> bool {
    &&& all_memo(fin, es)
    &&& all_definite(fin, es) ==> r == list_join(fin, es)
}

proof fn lemma_list_join_kept(a: Inferencer, b: Inferencer, es: Seq<usize>)
    requires
        all_memo(a, es),
        forall|k: int| 0 <= k < es.len() ==> b.expr_domains@[es[k] as int] == a.expr_domains@[es[k] as int],
    ensures
        list_join(a, es) == list_join(b, es),
    decreases es.len(),
{
    if es.len() > 0 {
        let p = es.drop_last();
        assert forall|k: int| 0 <= k < p.len() implies (#[trigger] a.expr_domains@[p[k] as int]) is Some by {
            assert(p[k] == es[k]);
        }
        assert forall|k: int| 0 <= k < p.len() implies b.expr_domains@[p[k] as int] == a.expr_domains@[p[k] as int] by {
            assert(p[k] == es[k]);
        }
        lemma_list_join_kept(a, b, p);
        assert(es.last() == es[es.len() - 1]);
    }
}

proof fn lemma_list_law_kept(a: Inferencer, b: Inferencer, es: Seq<usize>, r: DomainId)
    requires
        list_law(a, es, r),
        forall|k: int| 0 <= k < es.len() ==> b.expr_domains@[es[k] as int] == a.expr_domains@[es[k] as int],
    ensures
        list_law(b, es, r),
{
    lemma_list_join_kept(a, b, es);
    assert forall|k: int| 0 <= k < es.len() implies (#[trigger] b.expr_domains@[es[k] as int]) is Some by {
        assert(b.expr_domains@[es[k] as int] == a.expr_domains@[es[k] as int]);
    }
    if all_definite(b, es) {
        assert forall|k: int| 0 <= k < es.len() implies !((#[trigger] a.expr_domains@[es[k] as int]).unwrap() is Unresolved) by {
            assert(b.expr_domains@[es[k] as int] == a.expr_domains@[es[k] as int]);
        }
    }
}

/// The warnings of `sync()` after `found`: W3002 where source and
/// destination are the same definite domain, then W3003 where the data
/// is wider than one bit.
pub open spec fn sync_findings(found: Seq<DomainDiag>, src: DomainId, dst: DomainId, width: Option<u32>, span: Span) -> Seq<DomainDiag> {
    let d1 = match (src, dst) {
        (DomainId::Explicit(a), DomainId::Explicit(b)) => if a == b {
            found.push(DomainDiag::SameDomainSync { domain: a, span })
        } else {
            found
        },
        _ => found,
    };
    match width {
        Some(w) => if w > 1 {
            d1.push(DomainDiag::MultiBitSync { width: w, span })
        } else {
            d1
        },
        None => d1,
    }
}

/// `sync(data, clk)` after the walk: the data (and the clock, where there
/// is one) have domains, the result is the clock's domain (`Error`
/// without one), and the last findings are the `sync()` warnings on the
/// resolved source and destination.
pub open spec fn sync_law(inp: DomainInput, fin: Inferencer, args: Seq<usize>, span: Span, r: DomainId) -> bool {
    &&& args.len() >= 1 ==> fin.expr_domains@[args[0] as int] is Some
    &&& args.len() >= 2 ==> fin.expr_domains@[args[1] as int] == Some(r)
    &&& args.len() <= 1 ==> r == DomainId::Error
    &&& args.len() >= 1 ==> exists|found: Seq<DomainDiag>|
        fin.diagnostics@ == sync_findings(
            found,
            resolve_spec(fin.vars@, fin.expr_domains@[args[0] as int].unwrap()),
            resolve_spec(fin.vars@, r),
            inp.expr_widths@[args[0] as int],
            span,
        )
}

/// A call after the walk: `sync()` and `sync3()` follow `sync_law`,
/// `prev(x)` has the domain of `x`, any other call joins its arguments.
pub open spec fn call_law(inp: DomainInput, fin: Inferencer, callee: usize, args: Seq<usize>, span: Span, r: DomainId) -> bool {
    match builtin_spec(inp, callee as int) {
        Some(BuiltinKind::Sync) => sync_law(inp, fin, args, span, r),
        Some(BuiltinKind::Sync3) => sync_law(inp, fin, args, span, r),
        Some(BuiltinKind::Prev) => if args.len() > 0 {
            fin.expr_domains@[args[0] as int] == Some(r)
        } else {
            list_law(fin, args, r)
        },
        _ => list_law(fin, args, r),
    }
}

proof fn lemma_sync_law_kept(inp: DomainInput, m: Inferencer, f: Inferencer, args: Seq<usize>, span: Span, r: DomainId)
    requires
        sync_law(inp, m, args, span, r),
        f.vars == m.vars,
        f.diagnostics == m.diagnostics,
        forall|k: int| 0 <= k < args.len() ==> f.expr_domains@[args[k] as int] == m.expr_domains@[args[k] as int],
    ensures
        sync_law(inp, f, args, span, r),
{
    if args.len() >= 1 {
        assert(f.expr_domains@[args[0] as int] == m.expr_domains@[args[0] as int]);
        let found = choose|found: Seq<DomainDiag>|
            m.diagnostics@ == sync_findings(
                found,
                resolve_spec(m.vars@, m.expr_domains@[args[0] as int].unwrap()),
                resolve_spec(m.vars@, r),
                inp.expr_widths@[args[0] as int],
                span,
            );
        assert(f.diagnostics@ == sync_findings(
            found,
            resolve_spec(f.vars@, f.expr_domains@[args[0] as int].unwrap()),
            resolve_spec(f.vars@, r),
            inp.expr_widths@[args[0] as int],
            span,
        ));
    }
    if args.len() >= 2 {
        assert(f.expr_domains@[args[1] as int] == m.expr_domains@[args[1] as int]);
    }
}

proof fn lemma_call_law_kept(inp: DomainInput, m: Inferencer, f: Inferencer, callee: usize, args: Seq<usize>, span: Span, r: DomainId)
    requires
        call_law(inp, m, callee, args, span, r),
        f.vars == m.vars,
        f.diagnostics == m.diagnostics,
        forall|k: int| 0 <= k < args.len() ==> f.expr_domains@[args[k] as int] == m.expr_domains@[args[k] as int],
    ensures
        call_law(inp, f, callee, args, span, r),
{
    match builtin_spec(inp, callee as int) {
        Some(BuiltinKind::Sync) => lemma_sync_law_kept(inp, m, f, args, span, r),
        Some(BuiltinKind::Sync3) => lemma_sync_law_kept(inp, m, f, args, span, r),
        Some(BuiltinKind::Prev) => if args.len() > 0 {
            assert(f.expr_domains@[args[0] as int] == m.expr_domains@[args[0] as int]);
        } else {
            lemma_list_law_kept(m, f, args, r);
        },
        _ => lemma_list_law_kept(m, f, args, r),
    }
}

proof fn lemma_pair_law_kept(inp: DomainInput, m: Inferencer, f: Inferencer, l: usize, rr: usize, r: DomainId)
    requires
        pair_law(inp, m, l, rr, r),
        f.vars == m.vars,
        f.diagnostics == m.diagnostics,
        f.expr_domains@[l as int] == m.expr_domains@[l as int],
        f.expr_domains@[rr as int] == m.expr_domains@[rr as int],
    ensures
        pair_law(inp, f, l, rr, r),
{
    let (v, d) = choose|v: Seq<Option<DomainId>>, d: Seq<DomainDiag>|
        join_outcome(
            v,
            d,
            m.vars@,
            m.diagnostics@,
            m.expr_domains@[l as int].unwrap(),
            m.expr_domains@[rr as int].unwrap(),
            inp.exprs@[l as int].span,
            inp.exprs@[rr as int].span,
            r,
        );
    assert(join_outcome(
        v,
        d,
        f.vars@,
        f.diagnostics@,
        f.expr_domains@[l as int].unwrap(),
        f.expr_domains@[rr as int].unwrap(),
        inp.exprs@[l as int].span,
        inp.exprs@[rr as int].span,
        r,
    ));
}

proof fn lemma_if_law_kept(inp: DomainInput, m: Inferencer, f: Inferencer, c: usize, t: usize, e: usize, r: DomainId)
    requires
        if_law(inp, m, c, t, e, r),
        f.vars == m.vars,
        f.diagnostics == m.diagnostics,
        f.expr_domains@[c as int] == m.expr_domains@[c as int],
        f.expr_domains@[t as int] == m.expr_domains@[t as int],
        f.expr_domains@[e as int] == m.expr_domains@[e as int],
    ensures
        if_law(inp, f, c, t, e, r),
{
    let (v1, d1, v2, d2, ct) = choose|v1: Seq<Option<DomainId>>, d1: Seq<DomainDiag>, v2: Seq<Option<DomainId>>, d2: Seq<DomainDiag>, ct: DomainId|
        join_outcome(
            v1,
            d1,
            v2,
            d2,
            m.expr_domains@[c as int].unwrap(),
            m.expr_domains@[t as int].unwrap(),
            inp.exprs@[c as int].span,
            inp.exprs@[t as int].span,
            ct,
        ) && join_outcome(
            v2,
            d2,
            m.vars@,
            m.diagnostics@,
            ct,
            m.expr_domains@[e as int].unwrap(),
            inp.exprs@[c as int].span,
            inp.exprs@[e as int].span,
            r,
        );
    assert(join_outcome(
        v2,
        d2,
        f.vars@,
        f.diagnostics@,
        ct,
        f.expr_domains@[e as int].unwrap(),
        inp.exprs@[c as int].span,
        inp.exprs@[e as int].span,
        r,
    ));
}

/// What the domain `r` of expression `e` is: a name has the domain of
/// its definition (a bidirectional port has its own rule), an unresolved
/// name is timeless; a unary operation, a cast, a range selection and an
/// array repeat have the domain of their operand; a binary operation, an
/// index and a part-select join their two operands, an `if` its
/// condition and both branches (`fin` is the state after the walk).
pub open spec fn expr_law(inp: DomainInput, before: Inferencer, fin: Inferencer, e: int, r: DomainId) -> bool {
    let after = fin.expr_domains@;
    match inp.exprs@[e].kind {
        ExprKind::Binary { lhs, rhs, .. } => pair_law(inp, fin, lhs, rhs, r),
        ExprKind::Index { base, index } => pair_law(inp, fin, base, index, r),
        ExprKind::PartSelect { base, start, .. } => pair_law(inp, fin, base, start, r),
        ExprKind::If { cond, then_expr, else_expr } => if_law(inp, fin, cond, then_expr, else_expr, r),
        ExprKind::Call { callee, args } => call_law(inp, fin, callee, args@, inp.exprs@[e].span, r),
        ExprKind::StructLit(values) => list_law(fin, values@, r),
        ExprKind::ArrayList(items) => list_law(fin, items@, r),
        ExprKind::Tuple(items) => list_law(fin, items@, r),
        ExprKind::Path { def, .. } => match def {
            Some(d) => !before.bidir_ports@[d as int] ==> r == def_domain_spec(before.signal_domains@, d),
            None => r == DomainId::Timeless,
        },
        ExprKind::Unary { operand, .. } => after[operand as int] == Some(r),
        ExprKind::Cast { expr } => after[expr as int] == Some(r),
        ExprKind::Range { base, .. } => after[base as int] == Some(r),
        ExprKind::ArrayRepeat { value, .. } => after[value as int] == Some(r),
        _ => timeless_kind(inp.exprs@[e].kind) ==> r == DomainId::Timeless,
    }
}

/// Every index in `es` is below `bound` and in the arena.
pub open spec fn below(inp: DomainInput, es: Seq<usize>, bound: int) -> bool {
    forall|k: int| 0 <= k < es.len() ==> #[trigger] es[k] < bound && es[k] < inp.exprs@.len()
}

impl Inferencer {
    /// The domain of expression `e`, memoized.
    pub fn expr_domain(&mut self, inp: &DomainInput, e: usize) -> (r: DomainId)
        requires
            inp.wf(),
            old(self).wf(inp),
            e < inp.exprs@.len(),
        ensures
            final(self).wf(inp),
            final(self).expr_frame(old(self)),
            final(self).valid(r),
            final(self).expr_domains@[e as int] == Some(r),
            old(self).expr_domains@[e as int] matches Some(d) ==> r == d && final(self).diagnostics
                == old(self).diagnostics,
            old(self).expr_domains@[e as int] is None ==> expr_law(*inp, *old(self), *final(self), e as int, r),
        decreases e, 3int,
    {
        match self.expr_domains[e] {
            Some(d) => {
                return d;
            },
            None => {},
        }
        let d = self.compute_expr_domain(inp, e);
        let ghost mid = *self;
        self.expr_domains.set(e, Some(d));
        proof {
            let kids = children(inp.exprs@[e as int].kind);
            assert(forall|k: int| 0 <= k < kids.len() ==> #[trigger] kids[k] < e);
            match inp.exprs@[e as int].kind {
                ExprKind::Unary { operand, .. } => {
                    assert(kids[0] == operand);
                    assert(self.expr_domains@[operand as int] == mid.expr_domains@[operand as int]);
                },
                ExprKind::Cast { expr } => {
                    assert(kids[0] == expr);
                    assert(self.expr_domains@[expr as int] == mid.expr_domains@[expr as int]);
                },
                ExprKind::Range { base, .. } => {
                    assert(kids[0] == base);
                    assert(self.expr_domains@[base as int] == mid.expr_domains@[base as int]);
                },
                ExprKind::ArrayRepeat { value, .. } => {
                    assert(kids[0] == value);
                    assert(self.expr_domains@[value as int] == mid.expr_domains@[value as int]);
                },
                ExprKind::Binary { lhs, rhs, .. } => {
                    assert(kids[0] == lhs && kids[1] == rhs);
                    assert(self.expr_domains@[lhs as int] == mid.expr_domains@[lhs as int]);
                    assert(self.expr_domains@[rhs as int] == mid.expr_domains@[rhs as int]);
                    lemma_pair_law_kept(*inp, mid, *self, lhs, rhs, d);
                },
                ExprKind::Index { base, index } => {
                    assert(kids[0] == base && kids[1] == index);
                    assert(self.expr_domains@[base as int] == mid.expr_domains@[base as int]);
                    assert(self.expr_domains@[index as int] == mid.expr_domains@[index as int]);
                    lemma_pair_law_kept(*inp, mid, *self, base, index, d);
                },
                ExprKind::PartSelect { base, start, .. } => {
                    assert(kids[0] == base && kids[1] == start);
                    assert(self.expr_domains@[base as int] == mid.expr_domains@[base as int]);
                    assert(self.expr_domains@[start as int] == mid.expr_domains@[start as int]);
                    lemma_pair_law_kept(*inp, mid, *self, base, start, d);
                },
                ExprKind::If { cond, then_expr, else_expr } => {
                    assert(kids[0] == cond && kids[1] == then_expr && kids[2] == else_expr);
                    assert(self.expr_domains@[cond as int] == mid.expr_domains@[cond as int]);
                    assert(self.expr_domains@[then_expr as int] == mid.expr_domains@[then_expr as int]);
                    assert(self.expr_domains@[else_expr as int] == mid.expr_domains@[else_expr as int]);
                    lemma_if_law_kept(*inp, mid, *self, cond, then_expr, else_expr, d);
                },
                ExprKind::Call { callee, args } => {
                    assert forall|k: int| 0 <= k < args@.len() implies self.expr_domains@[args@[k] as int] == mid.expr_domains@[args@[k] as int] by {
                        assert(kids[k + 1] == args@[k]);
                    }
                    lemma_call_law_kept(*inp, mid, *self, callee, args@, inp.exprs@[e as int].span, d);
                },
                ExprKind::StructLit(values) => {
                    assert forall|k: int| 0 <= k < values@.len() implies self.expr_domains@[values@[k] as int] == mid.expr_domains@[values@[k] as int] by {
                        assert(kids[k] == values@[k]);
                    }
                    lemma_list_law_kept(mid, *self, values@, d);
                },
                ExprKind::ArrayList(items) => {
                    assert forall|k: int| 0 <= k < items@.len() implies self.expr_domains@[items@[k] as int] == mid.expr_domains@[items@[k] as int] by {
                        assert(kids[k] == items@[k]);
                    }
                    lemma_list_law_kept(mid, *self, items@, d);
                },
                ExprKind::Tuple(items) => {
                    assert forall|k: int| 0 <= k < items@.len() implies self.expr_domains@[items@[k] as int] == mid.expr_domains@[items@[k] as int] by {
                        assert(kids[k] == items@[k]);
                    }
                    lemma_list_law_kept(mid, *self, items@, d);
                },
                _ => {},
            }
            assert forall|i: int|
                0 <= i < self.expr_domains@.len() implies ((#[trigger] self.expr_domains@[i]) matches Some(
                x,
            ) ==> self.valid(x)) by {
                if i != e {
                    assert(self.expr_domains@[i] == mid.expr_domains@[i]);
                }
            }
            assert forall|i: int|
                0 <= i < old(self).expr_domains@.len() && (#[trigger] old(self).expr_domains@[i]) is Some implies self.expr_domains@[i]
                == old(self).expr_domains@[i] by {
                assert(mid.expr_domains@[i] == old(self).expr_domains@[i]);
            }
        }
        d
    }

    fn compute_expr_domain(&mut self, inp: &DomainInput, e: usize) -> (r: DomainId)
        requires
            inp.wf(),
            old(self).wf(inp),
            e < inp.exprs@.len(),
        ensures
            final(self).wf(inp),
            final(self).expr_frame(old(self)),
            final(self).valid(r),
            expr_law(*inp, *old(self), *final(self), e as int, r),
        decreases e, 2int,
    {
        let ghost kids = children(inp.exprs@[e as int].kind);
        assert(forall|k: int| 0 <= k < kids.len() ==> #[trigger] kids[k] < e);
        let span = inp.exprs[e].span;
        match &inp.exprs[e].kind {
            ExprKind::Path { def, .. } => match def {
                Some(d) => {
                    if self.bidir_ports[*d as usize] {
                        self.bidir_read(inp, *d, span)
                    } else {
                        self.def_domain(inp, *d)
                    }
                },
                None => DomainId::Timeless,
            },
            ExprKind::Binary { lhs, rhs, .. } => {
                assert(kids[0] == *lhs && kids[1] == *rhs);
                self.join_pair(inp, *lhs, *rhs, Ghost(e as int))
            },
            ExprKind::Unary { operand, .. } => {
                assert(kids[0] == *operand);
                self.expr_domain(inp, *operand)
            },
            ExprKind::Cast { expr: inner } => {
                assert(kids[0] == *inner);
                self.expr_domain(inp, *inner)
            },
            ExprKind::Index { base, index } => {
                assert(kids[0] == *base && kids[1] == *index);
                self.join_pair(inp, *base, *index, Ghost(e as int))
            },
            ExprKind::Range { base, hi, lo } => {
                assert(kids[0] == *base && kids[1] == *hi && kids[2] == *lo);
                let ghost s0 = *self;
                self.expr_domain(inp, *hi);
                let ghost s1 = *self;
                self.expr_domain(inp, *lo);
                let ghost s2 = *self;
                let d = self.expr_domain(inp, *base);
                proof {
                    lemma_expr_frame_trans(&s0, &s1, &s2);
                    lemma_expr_frame_trans(&s0, &s2, self);
                }
                d
            },
            ExprKind::PartSelect { base, start, width } => {
                assert(kids[0] == *base && kids[1] == *start && kids[2] == *width);
                let ghost s0 = *self;
                self.expr_domain(inp, *width);
                let ghost s1 = *self;
                let d = self.join_pair(inp, *base, *start, Ghost(e as int));
                proof {
                    lemma_expr_frame_trans(&s0, &s1, self);
                }
                d
            },
            ExprKind::Field { base, field } => {
                assert(kids[0] == *base);
                self.field_domain(inp, *base, field, Ghost(e as int))
            },
            ExprKind::Call { callee, args } => {
                assert(kids[0] == *callee);
                assert forall|k: int| 0 <= k < args@.len() implies #[trigger] args@[k] < e && args@[k]
                    < inp.exprs@.len() by {
                    assert(kids[k + 1] == args@[k]);
                }
                self.call_domain(inp, *callee, args, span, Ghost(e as int))
            },
            ExprKind::If { cond, then_expr, else_expr } => {
                assert(kids[0] == *cond && kids[1] == *then_expr && kids[2] == *else_expr);
                self.if_domain(inp, *cond, *then_expr, *else_expr, Ghost(e as int))
            },
            ExprKind::Match { scrutinee, arms } => {
                assert(kids[0] == *scrutinee);
                assert(inp.exprs@[e as int].kind == (ExprKind::Match { scrutinee: *scrutinee, arms: *arms }));
                assert(crate::ast::arms_below(arms@, e as int));
                self.match_domain(inp, *scrutinee, arms, Ghost(e as int))
            },
            ExprKind::StructLit(values) => {
                assert forall|k: int| 0 <= k < values@.len() implies #[trigger] values@[k] < e && values@[k]
                    < inp.exprs@.len() by {
                    assert(kids[k] == values@[k]);
                }
                self.join_list(inp, values, span, Ghost(e as int))
            },
            ExprKind::ArrayList(items) => {
                assert forall|k: int| 0 <= k < items@.len() implies #[trigger] items@[k] < e && items@[k]
                    < inp.exprs@.len() by {
                    assert(kids[k] == items@[k]);
                }
                self.join_list(inp, items, span, Ghost(e as int))
            },
            ExprKind::Tuple(items) => {
                assert forall|k: int| 0 <= k < items@.len() implies #[trigger] items@[k] < e && items@[k]
                    < inp.exprs@.len() by {
                    assert(kids[k] == items@[k]);
                }
                self.join_list(inp, items, span, Ghost(e as int))
            },
            ExprKind::ArrayRepeat { value, count } => {
                assert(kids[0] == *value && kids[1] == *count);
                let ghost s0 = *self;
                self.expr_domain(inp, *count);
                let ghost s1 = *self;
                let d = self.expr_domain(inp, *value);
                proof {
                    lemma_expr_frame_trans(&s0, &s1, self);
                }
                d
            },
            _ => DomainId::Timeless,
        }
    }

    /// A direct read of a bidirectional port: its other end is a device
    /// outside the clock domain, so outside a `sync()` source and outside
    /// contracts it warns (W3007). The read still counts in the port's
    /// domain; as a `sync()` source it is `Timeless`.
    pub fn bidir_read(&mut self, inp: &DomainInput, def: u32, span: Span) -> (r: DomainId)
        requires
            inp.wf(),
            old(self).wf(inp),
            def < inp.defs@.len(),
        ensures
            final(self).wf(inp),
            final(self).same_tables(old(self)),
            final(self).valid(r),
            old(self).in_sync_source ==> r == DomainId::Timeless && final(self).diagnostics
                == old(self).diagnostics,
            !old(self).in_sync_source ==> r == (match old(self).signal_domains@[def as int] {
                Some(d) => d,
                None => DomainId::Timeless,
            }),
            !old(self).in_sync_source && old(self).in_contract ==> final(self).diagnostics
                == old(self).diagnostics,
            !old(self).in_sync_source && !old(self).in_contract ==> pushed_one(
                final(self).diagnostics@,
                old(self).diagnostics@,
            ) && (final(self).diagnostics@.last() matches DomainDiag::BidirRead {
                name,
                span: sp,
                decl_span,
            } && name@ == inp.defs@[def as int].name@ && sp == span && decl_span
                == inp.defs@[def as int].span),
    {
        if self.in_sync_source {
            return DomainId::Timeless;
        }
        let dom = self.def_domain(inp, def);
        if self.in_contract {
            return dom;
        }
        let info = &inp.defs[def as usize];
        self.diagnostics.push(
            DomainDiag::BidirRead { name: info.name.clone(), span, decl_span: info.span },
        );
        dom
    }

    /// The join of two operands, the left one evaluated first.
    fn join_pair(&mut self, inp: &DomainInput, lhs: usize, rhs: usize, Ghost(bound): Ghost<int>) -> (r: DomainId)
        requires
            inp.wf(),
            old(self).wf(inp),
            lhs < bound,
            rhs < bound,
            lhs < inp.exprs@.len(),
            rhs < inp.exprs@.len(),
        ensures
            final(self).wf(inp),
            final(self).expr_frame(old(self)),
            final(self).valid(r),
            pair_law(*inp, *final(self), lhs, rhs, r),
        decreases bound, 0int,
    {
        let ghost s0 = *self;
        let a = self.expr_domain(inp, lhs);
        let ghost s1 = *self;
        let b = self.expr_domain(inp, rhs);
        let ghost s2 = *self;
        let d = self.join(a, b, inp.exprs[lhs].span, inp.exprs[rhs].span);
        proof {
            lemma_expr_frame_trans(&s0, &s1, &s2);
            assert(self.expr_frame(&s2));
            lemma_expr_frame_trans(&s0, &s2, self);
            assert(self.expr_domains@[lhs as int] == Some(a));
            assert(self.expr_domains@[rhs as int] == Some(b));
            assert(join_outcome(s2.vars@, s2.diagnostics@, self.vars@, self.diagnostics@, a, b,
                inp.exprs@[lhs as int].span, inp.exprs@[rhs as int].span, d));
        }
        d
    }

    /// `base.field`: the port of an instance, read from its port map;
    /// otherwise the domain of `base`.
    fn field_domain(&mut self, inp: &DomainInput, base: usize, field: &String, Ghost(bound): Ghost<int>) -> (r: DomainId)
        requires
            inp.wf(),
            old(self).wf(inp),
            base < bound,
            base < inp.exprs@.len(),
        ensures
            final(self).wf(inp),
            final(self).expr_frame(old(self)),
            final(self).valid(r),
        decreases bound, 0int,
    {
        match &inp.exprs[base].kind {
            ExprKind::Path { def: Some(bd), .. } => {
                match &self.instance_ports[*bd as usize] {
                    Some(ports) => {
                        assert(forall|j: int| 0 <= j < ports@.len() ==> self.valid(#[trigger] ports@[j].1));
                        let mut k: usize = 0;
                        while k < ports.len()
                            invariant
                                self.wf(inp),
                                *bd < inp.defs@.len(),
                                self.instance_ports@[*bd as int] == Some(*ports),
                                k <= ports@.len(),
                                forall|j: int| 0 <= j < ports@.len() ==> self.valid(#[trigger] ports@[j].1),
                            decreases ports@.len() - k,
                        {
                            if eq_str(ports[k].0.as_str(), field.as_str()) {
                                assert(self.valid(ports@[k as int].1));
                                return ports[k].1;
                            }
                            k = k + 1;
                        }
                        return DomainId::Timeless;
                    },
                    None => {},
                }
            },
            _ => {},
        }
        self.expr_domain(inp, base)
    }

    /// A call: `sync()` is the bridge (K9), `prev(x)` is in the domain of
    /// `x`, any other call joins its arguments.
    fn call_domain(
        &mut self,
        inp: &DomainInput,
        callee: usize,
        args: &Vec<usize>,
        span: Span,
        Ghost(bound): Ghost<int>,
    ) -> (r: DomainId)
        requires
            inp.wf(),
            old(self).wf(inp),
            callee < inp.exprs@.len(),
            below(*inp, args@, bound),
        ensures
            final(self).wf(inp),
            final(self).expr_frame(old(self)),
            final(self).valid(r),
            call_law(*inp, *final(self), callee, args@, span, r),
        decreases bound, 1int,
    {
        match builtin_of(inp, callee) {
            Some(kind) => {
                if kind == BuiltinKind::Sync || kind == BuiltinKind::Sync3 {
                    self.in_sync_source = true;
                    let d = self.sync_domain(inp, args, span, Ghost(bound));
                    self.in_sync_source = false;
                    return d;
                }
                if kind == BuiltinKind::Prev && args.len() > 0 {
                    return self.expr_domain(inp, args[0]);
                }
            },
            None => {},
        }
        self.join_list(inp, args, span, Ghost(bound))
    }

    /// `sync(data, clk)`: the output is in the destination clock's domain;
    /// within one domain it warns W3002, and for data wider than one bit
    /// W3003, in that order.
    fn sync_domain(&mut self, inp: &DomainInput, args: &Vec<usize>, span: Span, Ghost(bound): Ghost<int>) -> (r: DomainId)
        requires
            inp.wf(),
            old(self).wf(inp),
            below(*inp, args@, bound),
        ensures
            final(self).wf(inp),
            final(self).expr_frame(old(self)),
            final(self).valid(r),
            args@.len() <= 1 ==> r == DomainId::Error,
            args@.len() >= 2 ==> final(self).expr_domains@[args@[1] as int] == Some(r),
            sync_law(*inp, *final(self), args@, span, r),
            args@.len() == 0 ==> final(self).diagnostics == old(self).diagnostics,
        decreases bound, 0int,
    {
        if args.len() == 0 {
            return DomainId::Error;
        }
        let data = args[0];
        let ghost s0 = *self;
        let src = self.expr_domain(inp, data);
        let ghost s1 = *self;
        let dst = if args.len() > 1 {
            self.expr_domain(inp, args[1])
        } else {
            DomainId::Error
        };
        proof {
            lemma_expr_frame_trans(&s0, &s1, self);
        }
        let ghost s2 = *self;
        let rs = self.resolve_dom(src);
        let rd = self.resolve_dom(dst);
        match (rs, rd) {
            (DomainId::Explicit(a), DomainId::Explicit(b)) => {
                if a == b {
                    self.diagnostics.push(DomainDiag::SameDomainSync { domain: a, span });
                }
            },
            _ => {},
        }
        match inp.expr_widths[data] {
            Some(w) => {
                if w > 1 {
                    self.diagnostics.push(DomainDiag::MultiBitSync { width: w, span });
                }
            },
            None => {},
        }
        proof {
            lemma_expr_frame_trans(&s0, &s2, self);
            assert(self.expr_domains@[data as int] == Some(src));
            assert(self.diagnostics@ == sync_findings(s2.diagnostics@, rs, rd, inp.expr_widths@[data as int], span));
        }
        dst
    }

    /// `if c { t } else { f }`: condition, then both branches, joined.
    fn if_domain(
        &mut self,
        inp: &DomainInput,
        cond: usize,
        then_expr: usize,
        else_expr: usize,
        Ghost(bound): Ghost<int>,
    ) -> (r: DomainId)
        requires
            inp.wf(),
            old(self).wf(inp),
            cond < bound && then_expr < bound && else_expr < bound,
            cond < inp.exprs@.len() && then_expr < inp.exprs@.len() && else_expr < inp.exprs@.len(),
        ensures
            final(self).wf(inp),
            final(self).expr_frame(old(self)),
            final(self).valid(r),
            if_law(*inp, *final(self), cond, then_expr, else_expr, r),
        decreases bound, 0int,
    {
        let ghost s0 = *self;
        let c = self.expr_domain(inp, cond);
        let ghost s1 = *self;
        let t = self.expr_domain(inp, then_expr);
        let ghost s2 = *self;
        let f = self.expr_domain(inp, else_expr);
        let ghost s3 = *self;
        proof {
            lemma_expr_frame_trans(&s0, &s1, &s2);
            lemma_expr_frame_trans(&s0, &s2, &s3);
        }
        let ct = self.join(c, t, inp.exprs[cond].span, inp.exprs[then_expr].span);
        let ghost s4 = *self;
        proof {
            assert(s4.expr_frame(&s3));
            lemma_expr_frame_trans(&s0, &s3, &s4);
        }
        let d = self.join(ct, f, inp.exprs[cond].span, inp.exprs[else_expr].span);
        proof {
            assert(self.expr_frame(&s4));
            lemma_expr_frame_trans(&s0, &s4, self);
            lemma_expr_frame_trans(&s1, &s3, self);
            lemma_expr_frame_trans(&s2, &s3, self);
            assert(self.expr_domains@[cond as int] == Some(c));
            assert(self.expr_domains@[then_expr as int] == Some(t));
            assert(self.expr_domains@[else_expr as int] == Some(f));
            assert(join_outcome(s3.vars@, s3.diagnostics@, s4.vars@, s4.diagnostics@, c, t,
                inp.exprs@[cond as int].span, inp.exprs@[then_expr as int].span, ct));
            assert(join_outcome(s4.vars@, s4.diagnostics@, self.vars@, self.diagnostics@, ct, f,
                inp.exprs@[cond as int].span, inp.exprs@[else_expr as int].span, d));
        }
        d
    }

    /// A match expression: the scrutinee joined with each arm's value.
    fn match_domain(&mut self, inp: &DomainInput, scrutinee: usize, arms: &Vec<MatchArm>, Ghost(bound): Ghost<int>) -> (r: DomainId)
        requires
            inp.wf(),
            old(self).wf(inp),
            scrutinee < bound,
            scrutinee < inp.exprs@.len(),
            bound <= inp.exprs@.len(),
            arms_below(arms@, bound),
        ensures
            final(self).wf(inp),
            final(self).expr_frame(old(self)),
            final(self).valid(r),
        decreases bound, 0int,
    {
        let ghost s0 = *self;
        let mut dom = self.expr_domain(inp, scrutinee);
        let s_span = inp.exprs[scrutinee].span;
        let mut k: usize = 0;
        while k < arms.len()
            invariant
                inp.wf(),
                self.wf(inp),
                self.expr_frame(&s0),
                self.valid(dom),
                bound <= inp.exprs@.len(),
                arms_below(arms@, bound),
                k <= arms@.len(),
            decreases arms@.len() - k,
        {
            match arms[k].body {
                MatchBody::Expr(a) => {
                    let ghost t0 = *self;
                    let d = self.expr_domain(inp, a);
                    let ghost t1 = *self;
                    dom = self.join(dom, d, s_span, inp.exprs[a].span);
                    proof {
                        assert(self.expr_frame(&t1));
                        lemma_expr_frame_trans(&t0, &t1, self);
                        lemma_expr_frame_trans(&s0, &t0, self);
                    }
                },
                MatchBody::Block(_) => {},
            }
            k = k + 1;
        }
        dom
    }

    /// The join of a list, left to right; a finding points at the last
    /// operand that had a definite domain, or at `fallback_span`.
    fn join_list(&mut self, inp: &DomainInput, exprs: &Vec<usize>, fallback_span: Span, Ghost(bound): Ghost<int>) -> (r: DomainId)
        requires
            inp.wf(),
            old(self).wf(inp),
            below(*inp, exprs@, bound),
        ensures
            final(self).wf(inp),
            final(self).expr_frame(old(self)),
            final(self).valid(r),
            exprs@.len() == 0 ==> r == DomainId::Timeless && final(self).diagnostics == old(self).diagnostics,
            list_law(*final(self), exprs@, r),
        decreases bound, 0int,
    {
        let ghost s0 = *self;
        let mut dom = DomainId::Timeless;
        let mut dom_span = fallback_span;
        let mut k: usize = 0;
        while k < exprs.len()
            invariant
                inp.wf(),
                self.wf(inp),
                self.expr_frame(&s0),
                self.valid(dom),
                below(*inp, exprs@, bound),
                k <= exprs@.len(),
                k == 0 ==> *self == s0 && dom == DomainId::Timeless,
                all_memo(*self, exprs@.subrange(0, k as int)),
                all_definite(*self, exprs@.subrange(0, k as int)) ==> dom == list_join(*self, exprs@.subrange(0, k as int))
                    && !(dom is Unresolved),
            decreases exprs@.len() - k,
        {
            let e = exprs[k];
            let ghost t0 = *self;
            let ghost dom0 = dom;
            let d = self.expr_domain(inp, e);
            let ghost t1 = *self;
            let e_span = inp.exprs[e].span;
            dom = self.join(dom, d, dom_span, e_span);
            proof {
                assert(self.expr_frame(&t1));
                lemma_expr_frame_trans(&t0, &t1, self);
                lemma_expr_frame_trans(&s0, &t0, self);
                let pre = exprs@.subrange(0, k as int);
                let now = exprs@.subrange(0, k + 1);
                assert(now.drop_last() =~= pre);
                assert(now.last() == e);
                assert forall|j: int| 0 <= j < pre.len() implies self.expr_domains@[pre[j] as int] == t0.expr_domains@[pre[j] as int] by {
                    assert(t0.expr_domains@[pre[j] as int] is Some);
                }
                assert forall|j: int| 0 <= j < now.len() implies (#[trigger] self.expr_domains@[now[j] as int]) is Some by {
                    if j < k {
                        assert(now[j] == pre[j]);
                        assert(t0.expr_domains@[pre[j] as int] is Some);
                    }
                }
                if all_definite(*self, now) {
                    assert forall|j: int| 0 <= j < pre.len() implies !((#[trigger] t0.expr_domains@[pre[j] as int]).unwrap() is Unresolved) by {
                        assert(now[j] == pre[j]);
                        assert(self.expr_domains@[now[j] as int] == t0.expr_domains@[pre[j] as int]);
                    }
                    lemma_list_join_kept(t0, *self, pre);
                    assert(self.expr_domains@[now[k as int] as int] == Some(d));
                    assert(!(d is Unresolved));
                    assert(resolve_spec(t1.vars@, dom0) == dom0);
                    assert(resolve_spec(t1.vars@, d) == d);
                }
            }
            let rd = self.resolve_dom(d);
            if matches!(rd, DomainId::Explicit(_)) {
                dom_span = e_span;
            }
            k = k + 1;
        }
        assert(exprs@.subrange(0, k as int) =~= exprs@);
        dom
    }
}

} // verus!
