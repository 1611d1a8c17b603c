//! Statement and block walk: each statement goes to its rule (K5
//! propagation, K6/K7 assignment, K8 instantiation).

use vstd::prelude::*;

use crate::ast::Span;
use crate::domain::ir::{ArmBody, BlockStmt, DomainInput, Stmt};
use crate::domain::{lemma_walk_frame_trans, DomainId, InferVar, Inferencer};

verus! {

/// Expression `e` has a memoized domain.
pub open spec fn memo(s: Inferencer, e: usize) -> bool {
    (e as int) < s.expr_domains@.len() && s.expr_domains@[e as int] is Some
}

/// What the walk of a statement of block `b` leaves behind: each
/// expression it reads has a memoized domain, a `let` its signal domain,
/// and each nested block is walked.
pub open spec fn stmt_walked(s: Inferencer, inp: DomainInput, st: BlockStmt, b: int) -> bool
    decreases b, 0int,
{
    match st {
        BlockStmt::Assign { rhs, .. } => memo(s, rhs),
        BlockStmt::If { cond, then_block, else_block } => {
            &&& memo(s, cond)
            &&& (then_block < b ==> block_walked(s, inp, then_block as int))
            &&& (else_block matches Some(x) ==> (x < b ==> block_walked(s, inp, x as int)))
        },
        BlockStmt::Match { scrutinee, arms } => {
            &&& memo(s, scrutinee)
            &&& forall|k: int| 0 <= k < arms@.len() ==> match #[trigger] arms@[k] {
                ArmBody::Block(x) => x < b ==> block_walked(s, inp, x as int),
                ArmBody::Expr(e) => memo(s, e),
            }
        },
        BlockStmt::Let { def, value } => {
            &&& memo(s, value)
            &&& (def matches Some(d) ==> (d as int) < s.signal_domains@.len() && s.signal_domains@[d as int] is Some)
        },
        BlockStmt::For { start, end, body } => {
            &&& memo(s, start)
            &&& memo(s, end)
            &&& (body < b ==> block_walked(s, inp, body as int))
        },
        BlockStmt::Error => true,
    }
}

/// Every statement of block `b` and its tail are walked.
pub open spec fn block_walked(s: Inferencer, inp: DomainInput, b: int) -> bool
    decreases b, 1int,
{
    if 0 <= b < inp.blocks@.len() {
        let blk = inp.blocks@[b];
        &&& (blk.tail matches Some(t) ==> memo(s, t))
        &&& forall|k: int| 0 <= k < blk.stmts@.len() ==> stmt_walked(s, inp, #[trigger] blk.stmts@[k], b)
    } else {
        true
    }
}

/// What a walk left behind stays through later walking.
pub proof fn lemma_stmt_walked_kept(s1: Inferencer, s2: Inferencer, inp: DomainInput, st: BlockStmt, b: int)
    requires
        stmt_walked(s1, inp, st, b),
        s2.walk_frame(&s1),
    ensures
        stmt_walked(s2, inp, st, b),
    decreases b, 0int,
{
    match st {
        BlockStmt::If { cond, then_block, else_block } => {
            if then_block < b {
                lemma_block_walked_kept(s1, s2, inp, then_block as int);
            }
            match else_block {
                Some(x) => {
                    if x < b {
                        lemma_block_walked_kept(s1, s2, inp, x as int);
                    }
                },
                None => {},
            }
        },
        BlockStmt::Match { scrutinee, arms } => {
            assert forall|k: int| 0 <= k < arms@.len() implies match #[trigger] arms@[k] {
                ArmBody::Block(x) => x < b ==> block_walked(s2, inp, x as int),
                ArmBody::Expr(e) => memo(s2, e),
            } by {
                match arms@[k] {
                    ArmBody::Block(x) => {
                        if x < b {
                            lemma_block_walked_kept(s1, s2, inp, x as int);
                        }
                    },
                    ArmBody::Expr(e) => {},
                }
            }
        },
        BlockStmt::For { start, end, body } => {
            if body < b {
                lemma_block_walked_kept(s1, s2, inp, body as int);
            }
        },
        _ => {},
    }
}

/// A walked block stays walked.
pub proof fn lemma_block_walked_kept(s1: Inferencer, s2: Inferencer, inp: DomainInput, b: int)
    requires
        block_walked(s1, inp, b),
        s2.walk_frame(&s1),
    ensures
        block_walked(s2, inp, b),
    decreases b, 1int,
{
    if 0 <= b < inp.blocks@.len() {
        let blk = inp.blocks@[b];
        assert forall|k: int| 0 <= k < blk.stmts@.len() implies stmt_walked(s2, inp, #[trigger] blk.stmts@[k], b) by {
            lemma_stmt_walked_kept(s1, s2, inp, blk.stmts@[k], b);
        }
    }
}

impl Inferencer {
    fn set_signal(&mut self, inp: &DomainInput, def: u32, d: DomainId)
        requires
            old(self).wf(inp),
            def < inp.defs@.len(),
            old(self).valid(d),
        ensures
            final(self).wf(inp),
            final(self).walk_frame(old(self)),
            final(self).vars == old(self).vars,
            final(self).signal_domains@ == old(self).signal_domains@.update(def as int, Some(d)),
            final(self).diagnostics == old(self).diagnostics,
            final(self).expr_domains == old(self).expr_domains,
            final(self).instance_ports == old(self).instance_ports,
    {
        self.signal_domains.set(def as usize, Some(d));
        proof {
            assert forall|i: int| 0 <= i < self.signal_domains@.len() implies ((#[trigger] self.signal_domains@[i]) matches Some(
                x,
            ) ==> self.valid(x)) by {
                if i != def {
                    assert(self.signal_domains@[i] == old(self).signal_domains@[i]);
                }
            }
        }
    }

    /// Walks block `b`; `ctx` is the domain and trigger span of the
    /// enclosing `on` block, if any.
    pub fn walk_block(&mut self, inp: &DomainInput, b: usize, ctx: Option<(DomainId, Span)>)
        requires
            inp.wf(),
            old(self).wf(inp),
            b < inp.blocks@.len(),
            ctx matches Some(c) ==> old(self).valid(c.0),
        ensures
            final(self).wf(inp),
            final(self).walk_frame(old(self)),
            block_walked(*final(self), *inp, b as int),
        decreases b,
    {
        let ghost s0 = *self;
        let blk = &inp.blocks[b];
        assert(inp.block_ok(b as int));
        let mut k: usize = 0;
        while k < blk.stmts.len()
            invariant
                inp.wf(),
                self.wf(inp),
                b < inp.blocks@.len(),
                *blk == inp.blocks@[b as int],
                inp.block_ok(b as int),
                self.walk_frame(&s0),
                ctx matches Some(c) ==> self.valid(c.0),
                k <= blk.stmts@.len(),
                forall|j: int| 0 <= j < k ==> stmt_walked(*self, *inp, #[trigger] blk.stmts@[j], b as int),
            decreases blk.stmts@.len() - k,
        {
            let ghost t0 = *self;
            let s = &blk.stmts[k];
            assert(inp.block_stmt_ok(*s, b as int));
            match s {
                BlockStmt::Assign { lhs, rhs } => {
                    self.check_assign(inp, lhs, *rhs, ctx);
                },
                BlockStmt::If { cond, then_block, else_block } => {
                    let dom = self.expr_domain(inp, *cond);
                    match ctx {
                        Some((bd, ts)) => {
                            let ghost u0 = *self;
                            self.check_foreign_read(dom, inp.exprs[*cond].span, bd, ts);
                            proof {
                                lemma_walk_frame_trans(&t0, &u0, self);
                            }
                        },
                        None => {},
                    }
                    let ghost u1 = *self;
                    assert(memo(u1, *cond));
                    self.walk_block(inp, *then_block, ctx);
                    proof {
                        lemma_walk_frame_trans(&t0, &u1, self);
                    }
                    let ghost u3 = *self;
                    match else_block {
                        Some(x) => {
                            let ghost u2 = *self;
                            self.walk_block(inp, *x, ctx);
                            proof {
                                lemma_walk_frame_trans(&t0, &u2, self);
                                lemma_block_walked_kept(u3, *self, *inp, *then_block as int);
                            }
                        },
                        None => {},
                    }
                    proof {
                        lemma_walk_frame_trans(&u1, &u3, self);
                        assert(memo(*self, *cond));
                        assert(stmt_walked(*self, *inp, *s, b as int));
                    }
                },
                BlockStmt::Match { scrutinee, arms } => {
                    let dom = self.expr_domain(inp, *scrutinee);
                    match ctx {
                        Some((bd, ts)) => {
                            let ghost u0 = *self;
                            self.check_foreign_read(dom, inp.exprs[*scrutinee].span, bd, ts);
                            proof {
                                lemma_walk_frame_trans(&t0, &u0, self);
                            }
                        },
                        None => {},
                    }
                    let mut j: usize = 0;
                    while j < arms.len()
                        invariant
                            inp.wf(),
                            self.wf(inp),
                            b < inp.blocks@.len(),
                            inp.block_stmt_ok(*s, b as int),
                            *s == (BlockStmt::Match { scrutinee: *scrutinee, arms: *arms }),
                            self.walk_frame(&t0),
                            ctx matches Some(c) ==> self.valid(c.0),
                            j <= arms@.len(),
                            memo(*self, *scrutinee),
                            forall|i: int| 0 <= i < j ==> match #[trigger] arms@[i] {
                                ArmBody::Block(x) => x < b ==> block_walked(*self, *inp, x as int),
                                ArmBody::Expr(e) => memo(*self, e),
                            },
                        decreases arms@.len() - j,
                    {
                        let ghost u0 = *self;
                        match arms[j] {
                            ArmBody::Block(x) => {
                                self.walk_block(inp, x, ctx);
                            },
                            ArmBody::Expr(e) => {
                                self.expr_domain(inp, e);
                            },
                        }
                        proof {
                            lemma_walk_frame_trans(&t0, &u0, self);
                            assert(self.walk_frame(&u0));
                            assert forall|i: int| 0 <= i < j + 1 implies match #[trigger] arms@[i] {
                                ArmBody::Block(x) => x < b ==> block_walked(*self, *inp, x as int),
                                ArmBody::Expr(e) => memo(*self, e),
                            } by {
                                if i < j {
                                    match arms@[i] {
                                        ArmBody::Block(x) => {
                                            if x < b {
                                                lemma_block_walked_kept(u0, *self, *inp, x as int);
                                            }
                                        },
                                        ArmBody::Expr(e) => {},
                                    }
                                }
                            }
                        }
                        j = j + 1;
                    }
                    assert(stmt_walked(*self, *inp, *s, b as int));
                },
                BlockStmt::Let { def, value } => {
                    let dom = self.expr_domain(inp, *value);
                    match def {
                        Some(d) => {
                            let ghost u0 = *self;
                            self.set_signal(inp, *d, dom);
                            proof {
                                lemma_walk_frame_trans(&t0, &u0, self);
                            }
                        },
                        None => {},
                    }
                },
                BlockStmt::For { start, end, body } => {
                    self.expr_domain(inp, *start);
                    let ghost u0 = *self;
                    self.expr_domain(inp, *end);
                    let ghost u1 = *self;
                    self.walk_block(inp, *body, ctx);
                    proof {
                        lemma_walk_frame_trans(&t0, &u0, &u1);
                        lemma_walk_frame_trans(&t0, &u1, self);
                    }
                },
                BlockStmt::Error => {},
            }
            proof {
                lemma_walk_frame_trans(&s0, &t0, self);
                assert(stmt_walked(*self, *inp, blk.stmts@[k as int], b as int));
                assert forall|j: int| 0 <= j < k + 1 implies stmt_walked(*self, *inp, #[trigger] blk.stmts@[j], b as int) by {
                    if j < k {
                        lemma_stmt_walked_kept(t0, *self, *inp, blk.stmts@[j], b as int);
                    }
                }
            }
            k = k + 1;
        }
        let ghost t1 = *self;
        match blk.tail {
            Some(t) => {
                let ghost t0 = *self;
                self.expr_domain(inp, t);
                proof {
                    lemma_walk_frame_trans(&s0, &t0, self);
                }
            },
            None => {},
        }
        proof {
            assert(t1.walk_frame(&t1));
            assert(self.walk_frame(&t1)) by {
                if blk.tail is Some {
                    lemma_walk_frame_trans(&t1, &t1, self);
                }
            }
            assert forall|j: int| 0 <= j < blk.stmts@.len() implies stmt_walked(*self, *inp, #[trigger] blk.stmts@[j], b as int) by {
                lemma_stmt_walked_kept(t1, *self, *inp, blk.stmts@[j], b as int);
            }
        }
    }

    /// Walks one statement of a module body. A `let` takes the domain of
    /// its value; a `wire` the module's domain, or with several clocks a
    /// fresh constraint variable.
    pub fn walk_stmt(&mut self, inp: &DomainInput, stmt: &Stmt)
        requires
            inp.wf(),
            old(self).wf(inp),
            inp.stmt_ok(*stmt),
        ensures
            final(self).wf(inp),
            final(self).walk_frame(old(self)),
            *stmt matches Stmt::Let { def: Some(d), value } ==> final(self).signal_domains@[d as int]
                == final(self).expr_domains@[value as int],
            *stmt matches Stmt::Wire { def: Some(d) } ==> final(self).signal_domains@[d as int] == Some(
                if !old(self).multi_clock {
                    old(self).default_domain
                } else if old(self).nv() < u32::MAX {
                    DomainId::Unresolved(InferVar(old(self).nv() as u32))
                } else {
                    DomainId::Error
                },
            ),
    {
        let ghost s0 = *self;
        match stmt {
            Stmt::Reg(r) => {
                self.expr_domain(inp, r.init);
            },
            Stmt::Let { def, value } => {
                let dom = self.expr_domain(inp, *value);
                match def {
                    Some(d) => {
                        let ghost u0 = *self;
                        self.set_signal(inp, *d, dom);
                        proof {
                            lemma_walk_frame_trans(&s0, &u0, self);
                        }
                    },
                    None => {},
                }
            },
            Stmt::Wire { def } => {
                match def {
                    Some(d) => {
                        let dom = if self.multi_clock {
                            self.fresh_var()
                        } else {
                            self.default_domain
                        };
                        let ghost u0 = *self;
                        self.set_signal(inp, *d, dom);
                        proof {
                            lemma_walk_frame_trans(&s0, &u0, self);
                        }
                    },
                    None => {},
                }
            },
            Stmt::Instance(inst) => {
                self.check_instance(inp, inst);
            },
            Stmt::On { trigger, body } => {
                let (dom, span) = self.on_block_domain(inp, trigger);
                self.walk_block(inp, *body, Some((dom, span)));
            },
            Stmt::Comb(b) => {
                self.walk_block(inp, *b, None);
            },
            Stmt::Assign { lhs, rhs } => {
                self.check_assign(inp, lhs, *rhs, None);
            },
            Stmt::For { start, end, body } => {
                self.expr_domain(inp, *start);
                let ghost u0 = *self;
                self.expr_domain(inp, *end);
                let ghost u1 = *self;
                self.walk_block(inp, *body, None);
                proof {
                    lemma_walk_frame_trans(&s0, &u0, &u1);
                    lemma_walk_frame_trans(&s0, &u1, self);
                }
            },
            Stmt::Expr(e) => {
                self.expr_domain(inp, *e);
            },
            Stmt::Error => {},
        }
        proof {
            lemma_walk_frame_trans(&s0, &s0, self);
        }
    }
}

} // verus!
