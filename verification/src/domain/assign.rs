//! Assignments (K6, K7): target and source must share a domain (E3001,
//! assignment form); an `on` block writes only its own domain and its
//! conditions and selectors read only its own domain (E3012).

use vstd::prelude::*;

use crate::ast::Span;
use crate::domain::annotation::pushed_one;
use crate::domain::ir::{DomainInput, LValue, LValueSuffix};
use crate::domain::join::{apply_bind, bind_target, crossing, resolve_spec};
use crate::domain::{lemma_walk_frame_trans, DomainDiag, DomainId, Inferencer};

verus! {

/// Neither side is `Timeless` nor `Error`, and not both are definite:
/// the compatibility check binds a variable.
pub open spec fn compat_binds(d: DomainId, s: DomainId) -> bool {
    !(d is Timeless || s is Timeless || d is Error || s is Error) && !(d is Explicit && s is Explicit)
}

impl Inferencer {
    /// K6: may `src` be assigned to `dst`? Constants go anywhere and
    /// `Error` suppresses cascades; two different definite domains are
    /// E3001; an unresolved side is bound to the other.
    pub fn check_compat(&mut self, dst: DomainId, src: DomainId, dst_span: Span, src_span: Span)
        requires
            old(self).consistent(),
            old(self).valid(dst),
            old(self).valid(src),
        ensures
            final(self).consistent(),
            final(self).frame(old(self)),
            final(self).expr_frame(old(self)),
            ({
                let d = resolve_spec(old(self).vars@, dst);
                let s = resolve_spec(old(self).vars@, src);
                if crossing(d, s) {
                    final(self).vars == old(self).vars && final(self).diagnostics@ == old(
                        self,
                    ).diagnostics@.push(DomainDiag::CdcAssign { dst: d, src: s, dst_span, src_span })
                } else if compat_binds(d, s) {
                    final(self).vars@ == apply_bind(
                        old(self).vars@,
                        bind_target(resolve_spec(old(self).vars@, d), resolve_spec(old(self).vars@, s)),
                    ) && final(self).diagnostics == old(self).diagnostics
                } else {
                    final(self).vars == old(self).vars && final(self).diagnostics == old(
                        self,
                    ).diagnostics
                }
            }),
    {
        let d = self.resolve_dom(dst);
        let s = self.resolve_dom(src);
        if d == DomainId::Timeless || s == DomainId::Timeless {
            return;
        }
        if d == DomainId::Error || s == DomainId::Error {
            return;
        }
        match (d, s) {
            (DomainId::Explicit(x), DomainId::Explicit(y)) => {
                if x != y {
                    self.diagnostics.push(DomainDiag::CdcAssign { dst: d, src: s, dst_span, src_span });
                }
            },
            _ => {
                self.bind_if_var(d, s);
            },
        }
    }

    /// K7: a read of `dom` in the condition or selector of an `on` block
    /// of domain `block_dom`. Two different definite domains are E3012;
    /// otherwise an unresolved side is bound to the other.
    pub fn check_foreign_read(&mut self, dom: DomainId, span: Span, block_dom: DomainId, trigger_span: Span)
        requires
            old(self).consistent(),
            old(self).valid(dom),
            old(self).valid(block_dom),
        ensures
            final(self).consistent(),
            final(self).frame(old(self)),
            final(self).expr_frame(old(self)),
            ({
                let d = resolve_spec(old(self).vars@, dom);
                let b = resolve_spec(old(self).vars@, block_dom);
                match (d, b) {
                    (DomainId::Explicit(x), DomainId::Explicit(y)) => final(self).vars == old(
                        self,
                    ).vars && final(self).diagnostics@ == if x != y {
                        old(self).diagnostics@.push(
                            DomainDiag::ForeignRead { read: x, block: y, span, trigger_span },
                        )
                    } else {
                        old(self).diagnostics@
                    },
                    _ => final(self).vars@ == apply_bind(old(self).vars@, bind_target(d, b))
                        && final(self).diagnostics == old(self).diagnostics,
                }
            }),
    {
        let d = self.resolve_dom(dom);
        let b = self.resolve_dom(block_dom);
        match (d, b) {
            (DomainId::Explicit(x), DomainId::Explicit(y)) => {
                if x != y {
                    self.diagnostics.push(
                        DomainDiag::ForeignRead { read: x, block: y, span, trigger_span },
                    );
                }
            },
            _ => {
                self.bind_if_var(dom, block_dom);
            },
        }
    }

    /// An assignment `lhs = rhs`, inside an `on` block of domain
    /// `ctx.0` (triggered at `ctx.1`) where `ctx` is given. Index and
    /// part-select offsets are reads checked against the target.
    pub fn check_assign(&mut self, inp: &DomainInput, lhs: &LValue, rhs: usize, ctx: Option<(DomainId, Span)>)
        requires
            inp.wf(),
            old(self).wf(inp),
            inp.lvalue_ok(*lhs),
            inp.expr_ok(rhs),
            ctx matches Some(c) ==> old(self).valid(c.0),
        ensures
            final(self).wf(inp),
            final(self).expr_frame(old(self)),
            final(self).expr_domains@[rhs as int] is Some,
            forall|k: int|
                0 <= k < lhs.suffixes@.len() ==> match #[trigger] lhs.suffixes@[k] {
                    LValueSuffix::Index(e) => final(self).expr_domains@[e as int] is Some,
                    LValueSuffix::Range { hi, lo } => final(self).expr_domains@[hi as int] is Some
                        && final(self).expr_domains@[lo as int] is Some,
                    LValueSuffix::PartSelect { start, width } => final(self).expr_domains@[start as int] is Some
                        && final(self).expr_domains@[width as int] is Some,
                    LValueSuffix::Field => true,
                },
    {
        let ghost s0 = *self;
        let rhs_dom = self.expr_domain(inp, rhs);
        let lhs_dom = match lhs.def {
            Some(d) => match self.signal_domains[d as usize] {
                Some(x) => x,
                None => DomainId::Timeless,
            },
            None => DomainId::Timeless,
        };
        let mut k: usize = 0;
        while k < lhs.suffixes.len()
            invariant
                inp.wf(),
                inp.lvalue_ok(*lhs),
                inp.expr_ok(rhs),
                self.wf(inp),
                self.expr_frame(&s0),
                self.valid(lhs_dom),
                self.valid(rhs_dom),
                ctx matches Some(c) ==> self.valid(c.0),
                k <= lhs.suffixes@.len(),
                self.expr_domains@[rhs as int] is Some,
                forall|j: int|
                    0 <= j < k ==> match #[trigger] lhs.suffixes@[j] {
                        LValueSuffix::Index(e) => self.expr_domains@[e as int] is Some,
                        LValueSuffix::Range { hi, lo } => self.expr_domains@[hi as int] is Some
                            && self.expr_domains@[lo as int] is Some,
                        LValueSuffix::PartSelect { start, width } => self.expr_domains@[start as int] is Some
                            && self.expr_domains@[width as int] is Some,
                        LValueSuffix::Field => true,
                    },
            decreases lhs.suffixes@.len() - k,
        {
            let ghost t0 = *self;
            match lhs.suffixes[k] {
                LValueSuffix::Index(e) => {
                    let d = self.expr_domain(inp, e);
                    let ghost t1 = *self;
                    self.check_compat(lhs_dom, d, lhs.span, inp.exprs[e].span);
                    proof {
                        lemma_walk_frame_trans(&t0, &t1, self);
                    }
                },
                LValueSuffix::Range { hi, lo } => {
                    self.expr_domain(inp, hi);
                    let ghost t1 = *self;
                    self.expr_domain(inp, lo);
                    proof {
                        lemma_walk_frame_trans(&t0, &t1, self);
                    }
                },
                LValueSuffix::PartSelect { start, width } => {
                    let d = self.expr_domain(inp, start);
                    let ghost t1 = *self;
                    self.check_compat(lhs_dom, d, lhs.span, inp.exprs[start].span);
                    let ghost t2 = *self;
                    self.expr_domain(inp, width);
                    proof {
                        lemma_walk_frame_trans(&t0, &t1, &t2);
                        lemma_walk_frame_trans(&t0, &t2, self);
                    }
                },
                LValueSuffix::Field => {},
            }
            proof {
                lemma_walk_frame_trans(&s0, &t0, self);
            }
            k = k + 1;
        }
        match ctx {
            Some((block_dom, trigger_span)) => {
                let l = self.resolve_dom(lhs_dom);
                let b = self.resolve_dom(block_dom);
                match (l, b) {
                    (DomainId::Explicit(x), DomainId::Explicit(y)) => {
                        if x != y {
                            self.diagnostics.push(
                                DomainDiag::CdcAssign {
                                    dst: l,
                                    src: b,
                                    dst_span: lhs.span,
                                    src_span: trigger_span,
                                },
                            );
                            return;
                        }
                    },
                    _ => {},
                }
            },
            None => {},
        }
        let ghost t0 = *self;
        self.check_compat(lhs_dom, rhs_dom, lhs.span, inp.exprs[rhs].span);
        proof {
            lemma_walk_frame_trans(&s0, &t0, self);
        }
    }
}

} // verus!
