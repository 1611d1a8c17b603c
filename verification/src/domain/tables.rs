//! The domain table: `domain` declarations, the implicit domain of an
//! unannotated clock port, and the queries every rule shares.

use vstd::prelude::*;

use crate::ast::{ClockEdge, Span};
use crate::defs::{DefId, DefKind};
use crate::domain::ir::{
    DomainDecl, DomainField, DomainInput, ResetPolarity, ResetSpec, ResetSync, TrustLevel,
};
use crate::domain::join::resolve_spec;
use crate::domain::{ClockSpec, DomainId, DomainInfo, DomainSource, Inferencer};
use crate::names::BuiltinKind;
use crate::text::{extend_chars, string_of};

verus! {

/// What the fields of a declaration set: clock, reset, trust level and
/// its span. Later fields override earlier ones.
pub open spec fn fold_fields(fields: Seq<DomainField>) -> (
    ClockSpec,
    ResetSpec,
    Option<TrustLevel>,
    Option<Span>,
)
    decreases fields.len(),
{
    if fields.len() == 0 {
        (
            ClockSpec { edge: ClockEdge::Posedge },
            ResetSpec { sync: ResetSync::NoReset, polarity: ResetPolarity::ActiveHigh },
            None,
            None,
        )
    } else {
        let prev = fold_fields(fields.drop_last());
        match fields.last() {
            DomainField::Clock(edge) => (ClockSpec { edge }, prev.1, prev.2, prev.3),
            DomainField::Reset(spec) => (prev.0, spec, prev.2, prev.3),
            DomainField::Trust { level, span } => (prev.0, prev.1, Some(level), Some(span)),
            DomainField::Other => prev,
        }
    }
}

/// The declarations that resolution gave a definition, in order.
pub open spec fn declared(decls: Seq<DomainDecl>) -> Seq<DomainDecl> {
    decls.filter(|d: DomainDecl| d.def is Some)
}

/// `info` is the domain that declaration `d` opens.
pub open spec fn decl_domain(info: DomainInfo, d: DomainDecl) -> bool {
    let f = fold_fields(d.fields@);
    &&& info.name@ == d.name@
    &&& info.span == d.span
    &&& d.def matches Some(x) && info.source == DomainSource::Decl(DefId(x))
    &&& info.clock == f.0
    &&& info.reset == f.1
    &&& info.trust == f.2
    &&& info.trust_span == f.3
}

/// The declaration's definition has a domain recorded.
pub open spec fn recorded(by_decl: Seq<Option<u32>>, d: DomainDecl) -> bool {
    d.def matches Some(x) && x < by_decl.len() && by_decl[x as int] is Some
}

/// The shown name of a domain.
pub open spec fn display_spec(domains: Seq<DomainInfo>, r: DomainId) -> Seq<char> {
    match r {
        DomainId::Explicit(id) => seq!['@'] + domains[id as int].name@,
        DomainId::Timeless => "clockless (constant)"@,
        DomainId::Unresolved(_) => "<unresolved>"@,
        DomainId::Error => "<error>"@,
    }
}

/// The domain a signal read gives: its inferred domain, else `Timeless`
/// (constants, enum variants, generics, loop variables).
pub open spec fn def_domain_spec(sd: Seq<Option<DomainId>>, def: u32) -> DomainId {
    match sd[def as int] {
        Some(d) => d,
        None => DomainId::Timeless,
    }
}

fn fields_of(fields: &Vec<DomainField>) -> (r: (ClockSpec, ResetSpec, Option<TrustLevel>, Option<Span>))
    ensures
        r == fold_fields(fields@),
{
    let mut clock = ClockSpec { edge: ClockEdge::Posedge };
    let mut reset = ResetSpec { sync: ResetSync::NoReset, polarity: ResetPolarity::ActiveHigh };
    let mut trust: Option<TrustLevel> = None;
    let mut trust_span: Option<Span> = None;
    let mut k: usize = 0;
    while k < fields.len()
        invariant
            k <= fields@.len(),
            (clock, reset, trust, trust_span) == fold_fields(fields@.subrange(0, k as int)),
        decreases fields@.len() - k,
    {
        proof {
            assert(fields@.subrange(0, k + 1).drop_last() =~= fields@.subrange(0, k as int));
        }
        match fields[k] {
            DomainField::Clock(edge) => {
                clock = ClockSpec { edge };
            },
            DomainField::Reset(spec) => {
                reset = spec;
            },
            DomainField::Trust { level, span } => {
                trust = Some(level);
                trust_span = Some(span);
            },
            DomainField::Other => {},
        }
        k = k + 1;
    }
    assert(fields@.subrange(0, fields@.len() as int) =~= fields@);
    (clock, reset, trust, trust_span)
}

impl Inferencer {
    /// Opens one domain per `domain` declaration, in order, and records
    /// it under the declaration's definition.
    pub fn collect_domain_decls(&mut self, inp: &DomainInput)
        requires
            inp.wf(),
            old(self).wf(inp),
            old(self).domains@.len() == 0,
        ensures
            final(self).wf(inp),
            final(self).domains@.len() == declared(inp.domain_decls@).len(),
            forall|i: int|
                0 <= i < final(self).domains@.len() ==> decl_domain(
                    #[trigger] final(self).domains@[i],
                    declared(inp.domain_decls@)[i],
                ),
            forall|d: int|
                0 <= d < inp.defs@.len() ==> ((#[trigger] final(self).by_decl@[d]) matches Some(id)
                    ==> (old(self).by_decl@[d] is None ==> final(self).domains@[id as int].source
                    == DomainSource::Decl(DefId(d as u32)))),
            forall|i: int|
                0 <= i < final(self).domains@.len() ==> recorded(
                    final(self).by_decl@,
                    #[trigger] declared(inp.domain_decls@)[i],
                ),
            final(self).vars == old(self).vars,
            final(self).signal_domains == old(self).signal_domains,
            final(self).by_clock_port == old(self).by_clock_port,
            final(self).diagnostics == old(self).diagnostics,
            final(self).default_domain == old(self).default_domain,
    {
        let ghost decls = inp.domain_decls@;
        let mut k: usize = 0;
        assert(declared(decls.subrange(0, 0)) =~= Seq::<DomainDecl>::empty()) by {
            reveal_with_fuel(Seq::filter, 1);
        }
        while k < inp.domain_decls.len()
            invariant
                inp.wf(),
                decls == inp.domain_decls@,
                k <= decls.len(),
                self.wf(inp),
                self.domains@.len() == declared(decls.subrange(0, k as int)).len(),
                self.domains@.len() <= k,
                forall|i: int|
                    0 <= i < self.domains@.len() ==> decl_domain(
                        #[trigger] self.domains@[i],
                        declared(decls.subrange(0, k as int))[i],
                    ),
                forall|d: int|
                    0 <= d < inp.defs@.len() ==> ((#[trigger] self.by_decl@[d]) matches Some(id)
                        ==> (old(self).by_decl@[d] is None ==> self.domains@[id as int].source
                        == DomainSource::Decl(DefId(d as u32)))),
                forall|i: int|
                    0 <= i < self.domains@.len() ==> recorded(
                        self.by_decl@,
                        #[trigger] declared(decls.subrange(0, k as int))[i],
                    ),
                self.vars == old(self).vars,
                self.signal_domains == old(self).signal_domains,
                self.by_clock_port == old(self).by_clock_port,
                self.diagnostics == old(self).diagnostics,
                self.default_domain == old(self).default_domain,
            decreases decls.len() - k,
        {
            let ghost before = self.domains@;
            let ghost pre = decls.subrange(0, k as int);
            let ghost post = decls.subrange(0, k + 1);
            proof {
                assert(post.drop_last() =~= pre);
                assert(post.last() == decls[k as int]);
            }
            let d = &inp.domain_decls[k];
            match d.def {
                Some(def) => {
                    assert(declared(post) == declared(pre).push(decls[k as int])) by {
                        reveal_with_fuel(Seq::filter, 1);
                    }
                    let (clock, reset, trust, trust_span) = fields_of(&d.fields);
                    let id = self.domains.len();
                    let ghost by_before = self.by_decl@;
                    self.domains.push(
                        DomainInfo {
                            name: d.name.clone(),
                            clock,
                            reset,
                            span: d.span,
                            source: DomainSource::Decl(DefId(def)),
                            trust,
                            trust_span,
                        },
                    );
                    self.by_decl.set(def as usize, Some(id as u32));
                    proof {
                        assert forall|i: int|
                            0 <= i < self.domains@.len() implies decl_domain(
                            #[trigger] self.domains@[i],
                            declared(post)[i],
                        ) by {
                            if i < before.len() {
                                assert(self.domains@[i] == before[i]);
                            }
                        }
                        assert forall|i: int|
                            0 <= i < self.domains@.len() implies recorded(
                            self.by_decl@,
                            #[trigger] declared(post)[i],
                        ) by {
                            if i < before.len() {
                                assert(declared(post)[i] == declared(pre)[i]);
                                assert(recorded(by_before, declared(pre)[i]));
                                let x = declared(pre)[i].def.unwrap();
                                if x != def {
                                    assert(self.by_decl@[x as int] == by_before[x as int]);
                                }
                            } else {
                                assert(declared(post)[i] == decls[k as int]);
                            }
                        }
                    }
                },
                None => {
                    assert(declared(post) == declared(pre)) by {
                        reveal_with_fuel(Seq::filter, 1);
                    }
                },
            }
            k = k + 1;
        }
        assert(decls.subrange(0, decls.len() as int) =~= decls);
    }

    /// The implicit domain of an unannotated clock port, opened on first
    /// use (K2). Where the domain indices are exhausted the result is
    /// `Error`.
    pub fn implicit_clock_domain(&mut self, inp: &DomainInput, port_def: u32, name: &String, span: Span) -> (r: DomainId)
        requires
            old(self).wf(inp),
            port_def < inp.defs@.len(),
        ensures
            final(self).wf(inp),
            final(self).valid(r),
            final(self).vars == old(self).vars,
            final(self).signal_domains == old(self).signal_domains,
            final(self).by_decl == old(self).by_decl,
            final(self).diagnostics == old(self).diagnostics,
            final(self).default_domain == old(self).default_domain,
            final(self).expr_domains == old(self).expr_domains,
            final(self).instance_ports == old(self).instance_ports,
            final(self).bidir_ports == old(self).bidir_ports,
            final(self).anchored == old(self).anchored,
            final(self).in_contract == old(self).in_contract,
            final(self).in_sync_source == old(self).in_sync_source,
            final(self).multi_clock == old(self).multi_clock,
            final(self).clock_candidates == old(self).clock_candidates,
            final(self).domains@.len() >= old(self).domains@.len(),
            forall|i: int| 0 <= i < old(self).domains@.len() ==> #[trigger] final(self).domains@[i] == old(self).domains@[i],
            match old(self).by_clock_port@[port_def as int] {
                Some(id) => r == DomainId::Explicit(id) && final(self).domains == old(self).domains
                    && final(self).by_clock_port == old(self).by_clock_port,
                None => old(self).nd() < u32::MAX ==> (r == DomainId::Explicit(old(self).nd() as u32)
                    && final(self).domains@.len() == old(self).nd() + 1 && final(self).domains@[old(self).nd()].name@ == name@
                    && final(self).domains@[old(self).nd()].source == DomainSource::ClockPort(DefId(port_def))
                    && final(self).domains@[old(self).nd()].span == span
                    && final(self).domains@[old(self).nd()].trust is None),
            },
    {
        match self.by_clock_port[port_def as usize] {
            Some(id) => {
                return DomainId::Explicit(id);
            },
            None => {},
        }
        let n = self.domains.len();
        if n >= 4294967295usize {
            return DomainId::Error;
        }
        self.domains.push(
            DomainInfo {
                name: name.clone(),
                clock: ClockSpec { edge: ClockEdge::Posedge },
                reset: ResetSpec { sync: ResetSync::NoReset, polarity: ResetPolarity::ActiveHigh },
                span,
                source: DomainSource::ClockPort(DefId(port_def)),
                trust: None,
                trust_span: None,
            },
        );
        self.by_clock_port.set(port_def as usize, Some(n as u32));
        DomainId::Explicit(n as u32)
    }

    /// The shown name of a domain after following its bindings:
    /// `@Name`, or a word for the other kinds.
    pub fn display(&self, d: DomainId) -> (r: String)
        requires
            self.consistent(),
            self.valid(d),
        ensures
            r@ == display_spec(self.domains@, resolve_spec(self.vars@, d)),
    {
        let rd = self.resolve_dom(d);
        match rd {
            DomainId::Explicit(id) => {
                let mut v: Vec<char> = Vec::new();
                v.push('@');
                extend_chars(&mut v, self.domains[id as usize].name.as_str());
                assert(v@ =~= seq!['@'] + self.domains@[id as int].name@);
                string_of(&v)
            },
            DomainId::Timeless => "clockless (constant)".to_string(),
            DomainId::Unresolved(_) => "<unresolved>".to_string(),
            DomainId::Error => "<error>".to_string(),
        }
    }

    /// The domain a read of `def` gives.
    pub fn def_domain(&self, inp: &DomainInput, def: u32) -> (r: DomainId)
        requires
            self.wf(inp),
            def < inp.defs@.len(),
        ensures
            r == def_domain_spec(self.signal_domains@, def),
            self.valid(r),
    {
        match self.signal_domains[def as usize] {
            Some(d) => d,
            None => DomainId::Timeless,
        }
    }
}

/// The builtin a callee expression names, if it is a path resolved to one.
pub open spec fn builtin_spec(inp: DomainInput, callee: int) -> Option<BuiltinKind> {
    match inp.exprs@[callee].kind {
        crate::ast::ExprKind::Path { def: Some(d), .. } => match inp.defs@[d as int].kind {
            DefKind::Builtin(k) => Some(k),
            _ => None,
        },
        _ => None,
    }
}

/// The builtin `callee` resolves to.
pub fn builtin_of(inp: &DomainInput, callee: usize) -> (r: Option<BuiltinKind>)
    requires
        inp.wf(),
        callee < inp.exprs@.len(),
    ensures
        r == builtin_spec(*inp, callee as int),
{
    match &inp.exprs[callee].kind {
        crate::ast::ExprKind::Path { def: Some(d), .. } => match inp.defs[*d as usize].kind {
            DefKind::Builtin(k) => Some(k),
            _ => None,
        },
        _ => None,
    }
}

} // verus!
