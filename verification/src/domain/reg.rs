//! Register domains (K4): an explicit `reg(clk)`, or the `on` blocks
//! that write the register. Writers from two clocks are E3011; a register
//! no block writes is a constant (W3001).

use vstd::prelude::*;

use crate::ast::Span;
use crate::defs::DefKind;
use crate::domain::annotation::pushed_one;
use crate::domain::ir::{ArmBody, Block, BlockStmt, DomainInput, ModuleIr, OnTrigger, RegIr, Stmt};
use crate::domain::join::resolve_spec;
use crate::domain::{lemma_walk_frame_trans, DomainDiag, DomainId, Inferencer};

verus! {

/// `def` is a register.
pub open spec fn is_register(inp: DomainInput, def: Option<u32>) -> bool {
    def matches Some(d) && 0 <= d < inp.defs@.len() && inp.defs@[d as int].kind == DefKind::Register
}

/// The registers written, in order, by the first `n` statements of block
/// `b` and the blocks nested in them.
pub open spec fn stmts_writes(inp: DomainInput, b: int, n: int) -> Seq<u32>
    decreases b, 2int, n,
{
    if b < 0 || b >= inp.blocks@.len() || n <= 0 || n > inp.blocks@[b].stmts@.len() {
        Seq::empty()
    } else {
        stmts_writes(inp, b, n - 1) + stmt_writes(inp, b, inp.blocks@[b].stmts@[n - 1])
    }
}

/// The registers one statement of block `b` writes.
pub open spec fn stmt_writes(inp: DomainInput, b: int, s: BlockStmt) -> Seq<u32>
    decreases b, 1int, 0int,
{
    match s {
        BlockStmt::Assign { lhs, .. } => if is_register(inp, lhs.def) {
            seq![lhs.def.unwrap()]
        } else {
            Seq::empty()
        },
        BlockStmt::If { then_block, else_block, .. } => {
            let t = if 0 <= then_block < b {
                block_writes(inp, then_block as int)
            } else {
                Seq::empty()
            };
            let e = match else_block {
                Some(x) => if 0 <= x < b {
                    block_writes(inp, x as int)
                } else {
                    Seq::empty()
                },
                None => Seq::empty(),
            };
            t + e
        },
        BlockStmt::Match { arms, .. } => arms_writes(inp, b, arms@, arms@.len() as int),
        BlockStmt::For { body, .. } => if 0 <= body < b {
            block_writes(inp, body as int)
        } else {
            Seq::empty()
        },
        _ => Seq::empty(),
    }
}

/// The registers the block arms among the first `n` arms write.
pub open spec fn arms_writes(inp: DomainInput, b: int, arms: Seq<ArmBody>, n: int) -> Seq<u32>
    decreases b, 0int, n,
{
    if n <= 0 || n > arms.len() {
        Seq::empty()
    } else {
        arms_writes(inp, b, arms, n - 1) + match arms[n - 1] {
            ArmBody::Block(x) => if 0 <= x < b {
                block_writes(inp, x as int)
            } else {
                Seq::empty()
            },
            ArmBody::Expr(_) => Seq::empty(),
        }
    }
}

/// The domain and span of an `on` block's trigger, with the signal
/// domains `sd`.
pub open spec fn on_trigger_spec(sd: Seq<Option<DomainId>>, t: OnTrigger) -> (DomainId, Span) {
    match t {
        OnTrigger::Signal { def, span } => (
            match def {
                Some(d) => match sd[d as int] {
                    Some(x) => x,
                    None => DomainId::Error,
                },
                None => DomainId::Error,
            },
            span,
        ),
        OnTrigger::Error => (DomainId::Error, Span { file: 4294967295u32, start: 0, end: 0 }),
    }
}

/// Each register an `on` block of `body` writes, with that block's
/// trigger domain and span, in order.
pub open spec fn body_writers(inp: DomainInput, sd: Seq<Option<DomainId>>, body: Seq<Stmt>) -> Seq<(u32, DomainId, Span)>
    decreases body.len(),
{
    if body.len() == 0 {
        Seq::empty()
    } else {
        body_writers(inp, sd, body.drop_last()) + match body.last() {
            Stmt::On { trigger, body: b } => {
                let t = on_trigger_spec(sd, trigger);
                block_writes(inp, b as int).map_values(|w: u32| (w, t.0, t.1))
            },
            _ => Seq::empty(),
        }
    }
}

/// The blocks among `ws` that write register `d`: their domains and
/// trigger spans, in order.
pub open spec fn writer_blocks(ws: Seq<(u32, DomainId, Span)>, d: u32) -> Seq<(DomainId, Span)>
    decreases ws.len(),
{
    if ws.len() == 0 {
        Seq::empty()
    } else {
        let prev = writer_blocks(ws.drop_last(), d);
        if ws.last().0 == d {
            prev.push((ws.last().1, ws.last().2))
        } else {
            prev
        }
    }
}

/// The registers block `b` writes, in order (with repetitions).
pub open spec fn block_writes(inp: DomainInput, b: int) -> Seq<u32>
    decreases b, 3int, 0int,
{
    if 0 <= b < inp.blocks@.len() {
        stmts_writes(inp, b, inp.blocks@[b].stmts@.len() as int)
    } else {
        Seq::empty()
    }
}

/// The distinct definite domains among `blocks`, each with the span of
/// its first writer, in order of first appearance.
pub open spec fn distinct_writers(vars: Seq<Option<DomainId>>, blocks: Seq<(DomainId, Span)>) -> Seq<
    (u32, Span),
>
    decreases blocks.len(),
{
    if blocks.len() == 0 {
        Seq::empty()
    } else {
        let prev = distinct_writers(vars, blocks.drop_last());
        match resolve_spec(vars, blocks.last().0) {
            DomainId::Explicit(id) => if exists|k: int| 0 <= k < prev.len() && (#[trigger] prev[k]).0 == id {
                prev
            } else {
                prev.push((id, blocks.last().1))
            },
            _ => prev,
        }
    }
}

/// The domain of an unannotated register from its writers.
pub open spec fn reg_domain_spec(vars: Seq<Option<DomainId>>, blocks: Seq<(DomainId, Span)>) -> DomainId {
    let d = distinct_writers(vars, blocks);
    if blocks.len() == 0 {
        DomainId::Timeless
    } else if d.len() == 1 {
        DomainId::Explicit(d[0].0)
    } else {
        DomainId::Error
    }
}

/// Appends the registers block `b` writes to `out`.
pub fn collect_writes(inp: &DomainInput, b: usize, out: &mut Vec<u32>)
    requires
        inp.wf(),
        b < inp.blocks@.len(),
    ensures
        final(out)@ == old(out)@ + block_writes(*inp, b as int),
    decreases b,
{
    let blk = &inp.blocks[b];
    assert(inp.block_ok(b as int));
    let mut k: usize = 0;
    assert(old(out)@ + stmts_writes(*inp, b as int, 0) =~= old(out)@);
    while k < blk.stmts.len()
        invariant
            inp.wf(),
            b < inp.blocks@.len(),
            *blk == inp.blocks@[b as int],
            inp.block_ok(b as int),
            k <= blk.stmts@.len(),
            out@ == old(out)@ + stmts_writes(*inp, b as int, k as int),
        decreases blk.stmts@.len() - k,
    {
        let ghost before = out@;
        let s = &blk.stmts[k];
        assert(inp.block_stmt_ok(*s, b as int));
        match s {
            BlockStmt::Assign { lhs, .. } => {
                match lhs.def {
                    Some(d) => {
                        if inp.defs[d as usize].kind == DefKind::Register {
                            out.push(d);
                        }
                    },
                    None => {},
                }
            },
            BlockStmt::If { then_block, else_block, .. } => {
                collect_writes(inp, *then_block, out);
                match else_block {
                    Some(x) => {
                        collect_writes(inp, *x, out);
                    },
                    None => {},
                }
            },
            BlockStmt::Match { arms, .. } => {
                let mut j: usize = 0;
                assert(out@ =~= before + arms_writes(*inp, b as int, arms@, 0));
                while j < arms.len()
                    invariant
                        inp.wf(),
                        inp.block_stmt_ok(*s, b as int),
                        *s == (BlockStmt::Match { scrutinee: s->scrutinee, arms: *arms }),
                        b < inp.blocks@.len(),
                        j <= arms@.len(),
                        out@ == before + arms_writes(*inp, b as int, arms@, j as int),
                    decreases arms@.len() - j,
                {
                    let ghost mid = out@;
                    match arms[j] {
                        ArmBody::Block(x) => {
                            assert(x < b);
                            collect_writes(inp, x, out);
                        },
                        ArmBody::Expr(_) => {},
                    }
                    assert(out@ =~= before + arms_writes(*inp, b as int, arms@, j + 1));
                    j = j + 1;
                }
            },
            BlockStmt::For { body, .. } => {
                collect_writes(inp, *body, out);
            },
            _ => {},
        }
        assert(out@ =~= before + stmt_writes(*inp, b as int, *s));
        assert(stmts_writes(*inp, b as int, k + 1) == stmts_writes(*inp, b as int, k as int)
            + stmt_writes(*inp, b as int, *s));
        assert(out@ =~= old(out)@ + stmts_writes(*inp, b as int, k + 1));
        k = k + 1;
    }
}

impl Inferencer {
    /// The domain of an `on` block: that of its trigger signal.
    pub fn on_block_domain(&self, inp: &DomainInput, trigger: &OnTrigger) -> (r: (DomainId, Span))
        requires
            inp.wf(),
            self.wf(inp),
            *trigger matches OnTrigger::Signal { def, .. } ==> inp.def_ok(def),
        ensures
            self.valid(r.0),
            r == on_trigger_spec(self.signal_domains@, *trigger),
            match *trigger {
                OnTrigger::Signal { def, span } => r.1 == span && r.0 == match def {
                    Some(d) => match self.signal_domains@[d as int] {
                        Some(x) => x,
                        None => DomainId::Error,
                    },
                    None => DomainId::Error,
                },
                OnTrigger::Error => r.0 == DomainId::Error,
            },
    {
        match trigger {
            OnTrigger::Signal { def, span } => {
                let dom = match def {
                    Some(d) => match self.signal_domains[*d as usize] {
                        Some(x) => x,
                        None => DomainId::Error,
                    },
                    None => DomainId::Error,
                };
                (dom, *span)
            },
            OnTrigger::Error => (DomainId::Error, Span { file: 4294967295u32, start: 0, end: 0 }),
        }
    }

    /// The domain of the unannotated register `r` from the domains of
    /// the blocks that write it: none is W3001 and `Timeless`, one
    /// definite domain is that domain, several are E3011 and `Error`, and
    /// writers without a definite domain give `Error`.
    pub fn reg_domain_from_writers(&mut self, r: &RegIr, blocks: &Vec<(DomainId, Span)>) -> (d: DomainId)
        requires
            old(self).consistent(),
            forall|k: int| 0 <= k < blocks@.len() ==> old(self).valid(#[trigger] blocks@[k].0),
        ensures
            final(self).consistent(),
            final(self).same_tables(old(self)),
            final(self).valid(d),
            d == reg_domain_spec(old(self).vars@, blocks@),
            blocks@.len() == 0 ==> pushed_one(final(self).diagnostics@, old(self).diagnostics@)
                && (final(self).diagnostics@.last() matches DomainDiag::NeverWritten { name, span }
                && name@ == r.name@ && span == r.span),
            blocks@.len() > 0 && distinct_writers(old(self).vars@, blocks@).len() > 1 ==> pushed_one(
                final(self).diagnostics@,
                old(self).diagnostics@,
            ) && (final(self).diagnostics@.last() matches DomainDiag::TwoWriterDomains {
                name,
                span,
                writers,
            } && name@ == r.name@ && span == r.span && writers@ == distinct_writers(
                old(self).vars@,
                blocks@,
            )),
            blocks@.len() > 0 && distinct_writers(old(self).vars@, blocks@).len() <= 1
                ==> final(self).diagnostics == old(self).diagnostics,
    {
        if blocks.len() == 0 {
            self.diagnostics.push(DomainDiag::NeverWritten { name: r.name.clone(), span: r.span });
            return DomainId::Timeless;
        }
        let mut distinct: Vec<(u32, Span)> = Vec::new();
        let mut k: usize = 0;
        while k < blocks.len()
            invariant
                self.consistent(),
                *self == *old(self),
                forall|j: int| 0 <= j < blocks@.len() ==> self.valid(#[trigger] blocks@[j].0),
                k <= blocks@.len(),
                distinct@ == distinct_writers(self.vars@, blocks@.subrange(0, k as int)),
                forall|j: int| 0 <= j < distinct@.len() ==> (#[trigger] distinct@[j]).0 < self.nd(),
            decreases blocks@.len() - k,
        {
            proof {
                assert(blocks@.subrange(0, k + 1).drop_last() =~= blocks@.subrange(0, k as int));
            }
            let (dom, span) = blocks[k];
            let rd = self.resolve_dom(dom);
            match rd {
                DomainId::Explicit(id) => {
                    let mut found = false;
                    let mut j: usize = 0;
                    while j < distinct.len()
                        invariant
                            j <= distinct@.len(),
                            found == exists|m: int| 0 <= m < j && (#[trigger] distinct@[m]).0 == id,
                        decreases distinct@.len() - j,
                    {
                        if distinct[j].0 == id {
                            found = true;
                        }
                        j = j + 1;
                    }
                    if !found {
                        distinct.push((id, span));
                    }
                },
                _ => {},
            }
            k = k + 1;
        }
        assert(blocks@.subrange(0, blocks@.len() as int) =~= blocks@);
        if distinct.len() == 1 {
            DomainId::Explicit(distinct[0].0)
        } else if distinct.len() == 0 {
            DomainId::Error
        } else {
            self.diagnostics.push(
                DomainDiag::TwoWriterDomains { name: r.name.clone(), span: r.span, writers: distinct },
            );
            DomainId::Error
        }
    }
}

} // verus!
