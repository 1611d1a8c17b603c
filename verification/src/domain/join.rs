//! The heart of inference: the flat domain lattice. `Error` absorbs,
//! `Timeless` is the identity, two different definite domains are a
//! crossing (E3001), and unresolved variables are bound as constraints.

use vstd::prelude::*;

use crate::ast::Span;
use crate::domain::{valid_dom, DomainDiag, DomainId, InferVar, Inferencer};

verus! {

/// How many binding links `resolve_dom` follows at most.
pub const RESOLVE_STEPS: u32 = 64;

/// Follows the bindings of `d` for at most `fuel` links.
pub open spec fn resolve_steps(vars: Seq<Option<DomainId>>, d: DomainId, fuel: nat) -> DomainId
    decreases fuel,
{
    if fuel == 0 {
        d
    } else {
        match d {
            DomainId::Unresolved(v) => if v.0 < vars.len() {
                match vars[v.0 as int] {
                    Some(next) => resolve_steps(vars, next, (fuel - 1) as nat),
                    None => d,
                }
            } else {
                d
            },
            _ => d,
        }
    }
}

/// What `resolve_dom` gives for `d` under `vars`.
pub open spec fn resolve_spec(vars: Seq<Option<DomainId>>, d: DomainId) -> DomainId {
    resolve_steps(vars, d, RESOLVE_STEPS as nat)
}

/// The variable to bind and the value to bind it to, when one side is an
/// unresolved variable that the other side is not.
pub open spec fn bind_target(ra: DomainId, rb: DomainId) -> Option<(u32, DomainId)> {
    match ra {
        DomainId::Unresolved(v) => if rb != ra {
            Some((v.0, rb))
        } else {
            None
        },
        _ => match rb {
            DomainId::Unresolved(v) => if ra != rb {
                Some((v.0, ra))
            } else {
                None
            },
            _ => None,
        },
    }
}

/// `vars` with the binding `t` made.
pub open spec fn apply_bind(
    vars: Seq<Option<DomainId>>,
    t: Option<(u32, DomainId)>,
) -> Seq<Option<DomainId>> {
    match t {
        Some((v, x)) => vars.update(v as int, Some(x)),
        None => vars,
    }
}

/// The join of two resolved domains.
pub open spec fn join_spec(ra: DomainId, rb: DomainId) -> DomainId {
    if ra is Error || rb is Error {
        DomainId::Error
    } else if ra is Timeless {
        rb
    } else if rb is Timeless {
        ra
    } else {
        match (ra, rb) {
            (DomainId::Explicit(x), DomainId::Explicit(y)) => if x == y {
                ra
            } else {
                DomainId::Error
            },
            (DomainId::Unresolved(_), _) => rb,
            _ => ra,
        }
    }
}

/// What one join of `a` (at `sa`) and `b` (at `sb`) does: from the
/// variables and findings before it to those after it, with result `r`.
/// The result is the join of the resolved operands, an unresolved
/// operand is bound to the other, and two different definite domains
/// are E3001 (combinational crossing).
pub open spec fn join_outcome(
    vars: Seq<Option<DomainId>>,
    diags: Seq<DomainDiag>,
    vars_after: Seq<Option<DomainId>>,
    diags_after: Seq<DomainDiag>,
    a: DomainId,
    b: DomainId,
    sa: Span,
    sb: Span,
    r: DomainId,
) -> bool {
    let ra = resolve_spec(vars, a);
    let rb = resolve_spec(vars, b);
    &&& r == join_spec(ra, rb)
    &&& vars_after == if join_binds(ra, rb) {
        apply_bind(vars, bind_target(ra, rb))
    } else {
        vars
    }
    &&& diags_after == match (ra, rb) {
        (DomainId::Explicit(x), DomainId::Explicit(y)) => if x != y {
            diags.push(DomainDiag::CdcCombinational { left: x, right: y, left_span: sa, right_span: sb })
        } else {
            diags
        },
        _ => diags,
    }
}

/// The join binds a variable: neither side absorbs nor is the identity,
/// and not both are definite.
pub open spec fn join_binds(ra: DomainId, rb: DomainId) -> bool {
    !(ra is Error || rb is Error || ra is Timeless || rb is Timeless) && (ra is Unresolved
        || rb is Unresolved)
}

/// Two different definite domains.
pub open spec fn crossing(ra: DomainId, rb: DomainId) -> bool {
    ra is Explicit && rb is Explicit && ra != rb
}

proof fn lemma_resolve_valid(vars: Seq<Option<DomainId>>, d: DomainId, fuel: nat, nd: int)
    requires
        valid_dom(d, nd, vars.len() as int),
        forall|i: int|
            0 <= i < vars.len() ==> ((#[trigger] vars[i]) matches Some(x) ==> valid_dom(
                x,
                nd,
                vars.len() as int,
            )),
    ensures
        valid_dom(resolve_steps(vars, d, fuel), nd, vars.len() as int),
    decreases fuel,
{
    if fuel > 0 {
        match d {
            DomainId::Unresolved(v) => {
                if v.0 < vars.len() {
                    match vars[v.0 as int] {
                        Some(next) => lemma_resolve_valid(vars, next, (fuel - 1) as nat, nd),
                        None => {},
                    }
                }
            },
            _ => {},
        }
    }
}

impl Inferencer {
    /// Follows the bindings of an unresolved variable (at most
    /// `RESOLVE_STEPS` links).
    pub fn resolve_dom(&self, d: DomainId) -> (r: DomainId)
        requires
            self.consistent(),
            self.valid(d),
        ensures
            r == resolve_spec(self.vars@, d),
            self.valid(r),
    {
        proof {
            lemma_resolve_valid(self.vars@, d, RESOLVE_STEPS as nat, self.nd());
        }
        let mut cur = d;
        let mut k: u32 = 0;
        while k < RESOLVE_STEPS
            invariant
                k <= RESOLVE_STEPS,
                self.consistent(),
                self.valid(cur),
                resolve_steps(self.vars@, cur, (RESOLVE_STEPS - k) as nat) == resolve_spec(
                    self.vars@,
                    d,
                ),
            decreases RESOLVE_STEPS - k,
        {
            match cur {
                DomainId::Unresolved(v) => {
                    match self.vars[v.0 as usize] {
                        Some(next) => {
                            cur = next;
                        },
                        None => {
                            return cur;
                        },
                    }
                },
                _ => {
                    return cur;
                },
            }
            k = k + 1;
        }
        cur
    }

    /// A new unbound variable. Where the variables are exhausted (the
    /// index no longer fits), the result is `Error`.
    pub fn fresh_var(&mut self) -> (r: DomainId)
        requires
            old(self).consistent(),
        ensures
            final(self).consistent(),
            final(self).frame(old(self)),
            final(self).diagnostics == old(self).diagnostics,
            old(self).nv() < u32::MAX ==> r == DomainId::Unresolved(InferVar(old(self).nv() as u32))
                && final(self).vars@ == old(self).vars@.push(None),
            old(self).nv() >= u32::MAX ==> r == DomainId::Error && final(self).vars@ == old(
                self,
            ).vars@,
            final(self).valid(r),
            final(self).expr_frame(old(self)),
    {
        let n = self.vars.len();
        if n >= 4294967295usize {
            return DomainId::Error;
        }
        self.vars.push(None);
        proof {
            assert forall|i: int| 0 <= i < self.nv() implies ((#[trigger] self.vars@[i]) matches Some(
                d,
            ) ==> self.valid(d)) by {
                if i < n {
                    assert(self.vars@[i] == old(self).vars@[i]);
                }
            }
        }
        DomainId::Unresolved(InferVar(n as u32))
    }

    fn set_var(&mut self, v: u32, x: DomainId)
        requires
            old(self).consistent(),
            v < old(self).nv(),
            old(self).valid(x),
        ensures
            final(self).consistent(),
            final(self).frame(old(self)),
            final(self).diagnostics == old(self).diagnostics,
            final(self).vars@ == old(self).vars@.update(v as int, Some(x)),
            final(self).expr_frame(old(self)),
    {
        self.vars.set(v as usize, Some(x));
        proof {
            assert forall|i: int| 0 <= i < self.nv() implies ((#[trigger] self.vars@[i]) matches Some(
                d,
            ) ==> self.valid(d)) by {
                if i != v {
                    assert(self.vars@[i] == old(self).vars@[i]);
                }
            }
        }
    }

    /// Where one side resolves to an unbound variable that the other side
    /// is not, binds it to the other side.
    pub fn bind_if_var(&mut self, a: DomainId, b: DomainId)
        requires
            old(self).consistent(),
            old(self).valid(a),
            old(self).valid(b),
        ensures
            final(self).consistent(),
            final(self).frame(old(self)),
            final(self).diagnostics == old(self).diagnostics,
            final(self).vars@ == apply_bind(
                old(self).vars@,
                bind_target(resolve_spec(old(self).vars@, a), resolve_spec(old(self).vars@, b)),
            ),
            final(self).expr_frame(old(self)),
    {
        let ra = self.resolve_dom(a);
        let rb = self.resolve_dom(b);
        match ra {
            DomainId::Unresolved(v) => {
                if rb != ra {
                    self.set_var(v.0, rb);
                }
            },
            _ => {
                match rb {
                    DomainId::Unresolved(v) => {
                        if ra != rb {
                            self.set_var(v.0, ra);
                        }
                    },
                    _ => {},
                }
            },
        }
    }

    /// The join of two domains (K5). Two different definite domains are
    /// reported as E3001 at `sa` and `sb` and give `Error`; an unresolved
    /// side is bound to the other.
    pub fn join(&mut self, a: DomainId, b: DomainId, sa: Span, sb: Span) -> (r: DomainId)
        requires
            old(self).consistent(),
            old(self).valid(a),
            old(self).valid(b),
        ensures
            final(self).consistent(),
            final(self).frame(old(self)),
            final(self).expr_frame(old(self)),
            final(self).valid(r),
            join_outcome(old(self).vars@, old(self).diagnostics@, final(self).vars@, final(self).diagnostics@, a, b, sa, sb, r),
            ({
                let ra = resolve_spec(old(self).vars@, a);
                let rb = resolve_spec(old(self).vars@, b);
                &&& r == join_spec(ra, rb)
                &&& final(self).vars@ == if join_binds(ra, rb) {
                    apply_bind(old(self).vars@, bind_target(ra, rb))
                } else {
                    old(self).vars@
                }
                &&& final(self).diagnostics@ == match (ra, rb) {
                    (DomainId::Explicit(x), DomainId::Explicit(y)) => if x != y {
                        old(self).diagnostics@.push(
                            DomainDiag::CdcCombinational {
                                left: x,
                                right: y,
                                left_span: sa,
                                right_span: sb,
                            },
                        )
                    } else {
                        old(self).diagnostics@
                    },
                    _ => old(self).diagnostics@,
                }
            }),
    {
        let ra = self.resolve_dom(a);
        let rb = self.resolve_dom(b);
        if ra == DomainId::Error || rb == DomainId::Error {
            return DomainId::Error;
        }
        if ra == DomainId::Timeless {
            return rb;
        }
        if rb == DomainId::Timeless {
            return ra;
        }
        match (ra, rb) {
            (DomainId::Explicit(x), DomainId::Explicit(y)) => {
                if x == y {
                    ra
                } else {
                    self.diagnostics.push(
                        DomainDiag::CdcCombinational {
                            left: x,
                            right: y,
                            left_span: sa,
                            right_span: sb,
                        },
                    );
                    DomainId::Error
                }
            },
            (DomainId::Unresolved(v), _) => {
                if rb != ra {
                    self.set_var(v.0, rb);
                }
                rb
            },
            (_, DomainId::Unresolved(v)) => {
                self.set_var(v.0, ra);
                ra
            },
            _ => ra,
        }
    }
}

/// `Timeless` is the identity of the join, on either side.
pub proof fn lemma_join_timeless_identity(d: DomainId)
    ensures
        join_spec(DomainId::Timeless, d) == d,
        join_spec(d, DomainId::Timeless) == d,
        !join_binds(DomainId::Timeless, d),
        !join_binds(d, DomainId::Timeless),
        !crossing(DomainId::Timeless, d),
{
}

/// `Error` absorbs every domain, silently.
pub proof fn lemma_join_error_absorbs(d: DomainId)
    ensures
        join_spec(DomainId::Error, d) == DomainId::Error,
        join_spec(d, DomainId::Error) == DomainId::Error,
        !crossing(DomainId::Error, d),
        !crossing(d, DomainId::Error),
        !join_binds(DomainId::Error, d),
{
}

/// A definite domain joined with itself is itself, without a finding.
pub proof fn lemma_join_same_domain(x: u32)
    ensures
        join_spec(DomainId::Explicit(x), DomainId::Explicit(x)) == DomainId::Explicit(x),
        !crossing(DomainId::Explicit(x), DomainId::Explicit(x)),
{
}

/// Two different definite domains join to `Error` and are a crossing
/// (the join reports E3001 for exactly these).
pub proof fn lemma_join_different_domains(x: u32, y: u32)
    requires
        x != y,
    ensures
        join_spec(DomainId::Explicit(x), DomainId::Explicit(y)) == DomainId::Error,
        crossing(DomainId::Explicit(x), DomainId::Explicit(y)),
        !join_binds(DomainId::Explicit(x), DomainId::Explicit(y)),
{
}

/// The join of definite domains is symmetric.
pub proof fn lemma_join_symmetric_on_definite(x: u32, y: u32)
    ensures
        join_spec(DomainId::Explicit(x), DomainId::Explicit(y)) == join_spec(
            DomainId::Explicit(y),
            DomainId::Explicit(x),
        ),
{
}

/// An unresolved variable joined with a definite domain takes it and is
/// bound to it, whichever side it is on.
pub proof fn lemma_join_binds_variable(v: InferVar, x: u32)
    ensures
        join_spec(DomainId::Unresolved(v), DomainId::Explicit(x)) == DomainId::Explicit(x),
        join_spec(DomainId::Explicit(x), DomainId::Unresolved(v)) == DomainId::Explicit(x),
        join_binds(DomainId::Unresolved(v), DomainId::Explicit(x)),
        bind_target(DomainId::Unresolved(v), DomainId::Explicit(x)) == Some((v.0, DomainId::Explicit(x))),
        bind_target(DomainId::Explicit(x), DomainId::Unresolved(v)) == Some((v.0, DomainId::Explicit(x))),
{
}

/// A variable is never bound to itself.
pub proof fn lemma_no_self_binding(v: InferVar)
    ensures
        bind_target(DomainId::Unresolved(v), DomainId::Unresolved(v)) is None,
{
}

/// Resolving a definite, timeless or error domain gives it back.
pub proof fn lemma_resolve_fixed(vars: Seq<Option<DomainId>>, d: DomainId)
    requires
        !(d is Unresolved),
    ensures
        resolve_spec(vars, d) == d,
{
    reveal_with_fuel(resolve_steps, 2);
}

} // verus!
