//! Reset-domain checks. A reset is a property of a domain, not a value;
//! what remains to check is which clock a reset release is synchronous
//! to. Raw reset ports (`in r : reset(...)`) feed domains through
//! release synchronizers; domains without a raw port get an automatic
//! reset port (`rst`, or `rst_n` for active low):
//!
//! - binding: with several raw ports each must name its domain (E3010);
//!   a raw port's kind must match the domains it feeds, and it cannot
//!   take the name of an automatic port (E3003);
//! - sharing: one automatic port used by several clocks is E3003 when a
//!   domain resets asynchronously, W3010 otherwise; at a root module an
//!   asynchronous automatic reset is an assumption on the outside (W3009);
//! - convergence: one raw reset synchronized twice to the same clock
//!   through the instance tree (E3003).

use vstd::prelude::*;

use crate::ast::Span;
use crate::domain::ir::{ResetPolarity, ResetSpec, ResetSync};
use crate::domain::{DomainId, DomainResult, DomainSource};
use crate::resolve::{ResolveCode, ResolveDiag};
use crate::text::eq_str;

verus! {

/// The reset of a domain that declares none, as code generation emits it.
pub open spec fn default_reset() -> ResetSpec {
    ResetSpec { sync: ResetSync::Sync, polarity: ResetPolarity::ActiveHigh }
}

/// The reset of a domain that declares none.
pub fn default_reset_spec() -> (r: ResetSpec)
    ensures
        r == default_reset(),
{
    ResetSpec { sync: ResetSync::Sync, polarity: ResetPolarity::ActiveHigh }
}

/// A raw reset port: its written kind and the domain its `@D` names.
#[derive(Clone, Copy, PartialEq, Eq, Debug, Structural)]
pub struct RawPort {
    pub spec: Option<ResetSpec>,
    pub ann: Option<u32>,
}

/// A port as the reset checks read it.
#[derive(Clone, Debug)]
pub struct RdcPort {
    pub name: String,
    pub name_span: Span,
    pub span: Span,
    pub def: Option<u32>,
    pub is_clock: bool,
    /// Set for an input port of reset type.
    pub raw: Option<RawPort>,
}

/// A binding of an instance.
#[derive(Clone, Debug)]
pub struct RdcBinding {
    pub port: String,
    pub span: Span,
    /// The local definition the binding connects.
    pub bound: Option<u32>,
    /// For a builtin primitive: the port is a clock whose registers take
    /// the module's reset.
    pub resets_flops: bool,
}

/// What an instance instantiates.
#[derive(Clone, Copy, PartialEq, Eq, Debug, Structural)]
pub enum RdcTarget {
    /// A module of the unit, by index.
    Module(usize),
    Extern,
    Builtin,
    Unknown,
}

#[derive(Clone, Debug)]
pub struct RdcInstance {
    pub target: RdcTarget,
    pub bindings: Vec<RdcBinding>,
}

/// A module: its ports, instances and the uses of its definitions.
#[derive(Clone, Debug)]
pub struct RdcModule {
    pub name: String,
    pub name_span: Span,
    pub def: u32,
    pub ports: Vec<RdcPort>,
    pub instances: Vec<RdcInstance>,
    /// Where each definition is used (span, definition).
    pub uses: Vec<(Span, u32)>,
}

/// The `reset = ...` fields of a domain declaration, in order; `None` is
/// `reset = none`.
#[derive(Clone, Debug)]
pub struct RdcDomain {
    pub def: u32,
    pub resets: Vec<(Option<ResetSpec>, Span)>,
}

/// The unit the reset checks read.
#[derive(Clone, Debug)]
pub struct RdcInput {
    pub modules: Vec<RdcModule>,
    pub domains: Vec<RdcDomain>,
    /// The module definitions some instance instantiates.
    pub instantiated: Vec<u32>,
}

/// A clock port with its effective reset.
#[derive(Clone, Copy, PartialEq, Eq, Debug, Structural)]
pub struct ClockFact {
    /// Index of the port in the module.
    pub port: usize,
    pub def: u32,
    /// The `domain` declaration of its domain, if it has one.
    pub decl: Option<u32>,
    /// Effective reset; `None` is `reset = none`.
    pub reset: Option<ResetSpec>,
    /// The `reset = ...` field, else the domain's name (the port's name
    /// for an implicit domain).
    pub reset_span: Span,
    /// The clock is used where a register with reset can be: not only in
    /// reset-free primitive bindings and extern bindings.
    pub used: bool,
}

/// A raw reset port.
#[derive(Clone, Copy, PartialEq, Eq, Debug, Structural)]
pub struct RawFact {
    pub port: usize,
    pub def: u32,
    pub ann: Option<u32>,
    pub spec: Option<ResetSpec>,
}

/// The facts of one module.
#[derive(Clone, Debug)]
pub struct ModuleFacts {
    pub clocks: Vec<ClockFact>,
    pub raws: Vec<RawFact>,
    /// No module of the unit instantiates it.
    pub is_root: bool,
}

/// `inner` lies within `outer`.
pub open spec fn span_within(outer: Span, inner: Span) -> bool {
    outer.file == inner.file && outer.start <= inner.start && inner.end <= outer.end
}

fn within(outer: Span, inner: Span) -> (r: bool)
    ensures
        r == span_within(outer, inner),
{
    outer.file == inner.file && outer.start <= inner.start && inner.end <= outer.end
}

/// The automatic reset port of a reset kind: `rst`, or `rst_n` for
/// active low.
pub fn auto_port_name(spec: ResetSpec) -> (r: &'static str)
    ensures
        spec.polarity == ResetPolarity::ActiveHigh ==> r@ == "rst"@,
        spec.polarity == ResetPolarity::ActiveLow ==> r@ == "rst_n"@,
{
    match spec.polarity {
        ResetPolarity::ActiveHigh => "rst",
        ResetPolarity::ActiveLow => "rst_n",
    }
}

/// The domain a raw port feeds for each clock (`None`: the automatic
/// port): a single unannotated raw port feeds every domain with a reset;
/// otherwise the raw port whose `@D` is the clock's domain declaration.
pub open spec fn feed_spec(m: ModuleFacts, c: ClockFact) -> Option<int> {
    if c.reset is None {
        None
    } else if m.raws@.len() == 1 && m.raws@[0].ann is None {
        Some(0)
    } else {
        first_raw_for(m.raws@, c.decl, 0)
    }
}

/// The first raw port from `i` on annotated with domain `decl`.
pub open spec fn first_raw_for(raws: Seq<RawFact>, decl: Option<u32>, i: int) -> Option<int>
    decreases raws.len() - i,
{
    if i < 0 || i >= raws.len() {
        None
    } else if raws[i].ann is Some && raws[i].ann == decl {
        Some(i)
    } else {
        first_raw_for(raws, decl, i + 1)
    }
}

/// What `feeds_of` promises of its result `r` for module facts `m`.
pub open spec fn feeds_contract(m: ModuleFacts, r: Seq<Option<usize>>) -> bool {
    &&& r.len() == m.clocks@.len()
    &&& forall|k: int| 0 <= k < r.len() ==> ((#[trigger] r[k]) matches Some(i) ==> feed_spec(m, m.clocks@[k]) == Some(i as int))
        && (r[k] is None ==> feed_spec(m, m.clocks@[k]) is None)
}

proof fn lemma_first_raw_for(raws: Seq<RawFact>, decl: Option<u32>, i: int)
    requires
        0 <= i,
    ensures
        first_raw_for(raws, decl, i) matches Some(x) ==> i <= x < raws.len() && raws[x].ann is Some && raws[x].ann == decl
            && forall|y: int| i <= y < x ==> !((#[trigger] raws[y]).ann is Some && raws[y].ann == decl),
        first_raw_for(raws, decl, i) is None ==> forall|y: int| i <= y < raws.len() ==> !((#[trigger] raws[y]).ann is Some
            && raws[y].ann == decl),
    decreases raws.len() - i,
{
    if i < raws.len() && !(raws[i].ann is Some && raws[i].ann == decl) {
        lemma_first_raw_for(raws, decl, i + 1);
    }
}

/// Which raw reset port releases each clock's domain: none for a domain
/// without a reset; a module's only raw reset port, where it has no
/// domain annotation, feeds every domain with a reset; otherwise the
/// first raw port annotated with the clock's domain, and none where no
/// raw port names it.
pub proof fn law_feeds(m: ModuleFacts, r: Seq<Option<usize>>)
    requires
        feeds_contract(m, r),
    ensures
        forall|k: int| 0 <= k < r.len() && (#[trigger] m.clocks@[k]).reset is None ==> r[k] is None,
        forall|k: int|
            0 <= k < r.len() && (#[trigger] m.clocks@[k]).reset is Some && m.raws@.len() == 1 && m.raws@[0].ann is None
                ==> r[k] == Some(0usize),
        forall|k: int|
            0 <= k < r.len() && (#[trigger] m.clocks@[k]).reset is Some && !(m.raws@.len() == 1 && m.raws@[0].ann is None)
                ==> match r[k] {
                Some(i) => (i as int) < m.raws@.len() && m.raws@[i as int].ann is Some && m.raws@[i as int].ann == m.clocks@[k].decl
                    && forall|y: int| 0 <= y < i ==> !((#[trigger] m.raws@[y]).ann is Some && m.raws@[y].ann == m.clocks@[k].decl),
                None => forall|y: int| 0 <= y < m.raws@.len() ==> !((#[trigger] m.raws@[y]).ann is Some && m.raws@[y].ann
                    == m.clocks@[k].decl),
            },
{
    assert forall|k: int|
        0 <= k < r.len() && (#[trigger] m.clocks@[k]).reset is Some && !(m.raws@.len() == 1 && m.raws@[0].ann is None)
            implies match r[k] {
            Some(i) => (i as int) < m.raws@.len() && m.raws@[i as int].ann is Some && m.raws@[i as int].ann == m.clocks@[k].decl
                && forall|y: int| 0 <= y < i ==> !((#[trigger] m.raws@[y]).ann is Some && m.raws@[y].ann == m.clocks@[k].decl),
            None => forall|y: int| 0 <= y < m.raws@.len() ==> !((#[trigger] m.raws@[y]).ann is Some && m.raws@[y].ann
                == m.clocks@[k].decl),
        } by {
        lemma_first_raw_for(m.raws@, m.clocks@[k].decl, 0);
    }
    assert forall|k: int|
        0 <= k < r.len() && (#[trigger] m.clocks@[k]).reset is Some && m.raws@.len() == 1 && m.raws@[0].ann is None
            implies r[k] == Some(0usize) by {
        if r[k] is None {
            assert(feed_spec(m, m.clocks@[k]) is None);
        }
    }
}

/// The feeding raw port of each clock.
pub fn feeds_of(m: &ModuleFacts) -> (r: Vec<Option<usize>>)
    ensures
        r@.len() == m.clocks@.len(),
        forall|k: int| 0 <= k < r@.len() ==> ((#[trigger] r@[k]) matches Some(i) ==> feed_spec(*m, m.clocks@[k]) == Some(i as int))
            && (r@[k] is None ==> feed_spec(*m, m.clocks@[k]) is None),
        feeds_contract(*m, r@),
{
    let mut r: Vec<Option<usize>> = Vec::new();
    let mut k: usize = 0;
    while k < m.clocks.len()
        invariant
            k <= m.clocks@.len(),
            r@.len() == k,
            forall|j: int| 0 <= j < k ==> ((#[trigger] r@[j]) matches Some(i) ==> feed_spec(*m, m.clocks@[j]) == Some(i as int))
                && (r@[j] is None ==> feed_spec(*m, m.clocks@[j]) is None),
        decreases m.clocks@.len() - k,
    {
        let c = m.clocks[k];
        let f = if c.reset.is_none() {
            None
        } else if m.raws.len() == 1 && m.raws[0].ann.is_none() {
            Some(0)
        } else {
            let mut i: usize = 0;
            let mut found: Option<usize> = None;
            while i < m.raws.len() && found.is_none()
                invariant
                    i <= m.raws@.len(),
                    found is None ==> first_raw_for(m.raws@, c.decl, 0) == first_raw_for(m.raws@, c.decl, i as int),
                    found matches Some(x) ==> first_raw_for(m.raws@, c.decl, 0) == Some(x as int),
                decreases m.raws@.len() - i, if found is None { 1int } else { 0int },
            {
                if m.raws[i].ann.is_some() && m.raws[i].ann == c.decl {
                    found = Some(i);
                } else {
                    i = i + 1;
                }
            }
            found
        };
        r.push(f);
        k = k + 1;
    }
    r
}

/// The last `reset = ...` field of a domain declaration, if it has one.
/// The last `reset` field of the first domain declaration `decl`.
pub open spec fn declared_reset_spec(domains: Seq<RdcDomain>, decl: u32) -> Option<(Option<ResetSpec>, Span)>
    decreases domains.len(),
{
    if domains.len() == 0 {
        None
    } else if domains[0].def == decl {
        if domains[0].resets@.len() > 0 {
            Some(domains[0].resets@.last())
        } else {
            None
        }
    } else {
        declared_reset_spec(domains.drop_first(), decl)
    }
}

fn declared_reset(inp: &RdcInput, decl: u32) -> (r: Option<(Option<ResetSpec>, Span)>)
    ensures
        r == declared_reset_spec(inp.domains@, decl),
{
    let mut d: usize = 0;
    assert(inp.domains@.subrange(0, inp.domains@.len() as int) =~= inp.domains@);
    while d < inp.domains.len()
        invariant
            d <= inp.domains@.len(),
            declared_reset_spec(inp.domains@, decl) == declared_reset_spec(
                inp.domains@.subrange(d as int, inp.domains@.len() as int),
                decl,
            ),
        decreases inp.domains@.len() - d,
    {
        proof {
            let rest = inp.domains@.subrange(d as int, inp.domains@.len() as int);
            assert(rest[0] == inp.domains@[d as int]);
            assert(rest.drop_first() =~= inp.domains@.subrange(d + 1, inp.domains@.len() as int));
        }
        if inp.domains[d].def == decl {
            let n = inp.domains[d].resets.len();
            if n > 0 {
                return Some(inp.domains[d].resets[n - 1]);
            }
            return None;
        }
        d = d + 1;
    }
    None
}

/// A binding of an instance of `target` that resets no register.
pub open spec fn keeps_binding(target: RdcTarget, b: RdcBinding) -> bool {
    match target {
        RdcTarget::Builtin => !b.resets_flops,
        RdcTarget::Extern => true,
        _ => false,
    }
}

/// The kept binding spans of `bindings`, in order.
pub open spec fn kept_spans(target: RdcTarget, bindings: Seq<RdcBinding>) -> Seq<Span>
    decreases bindings.len(),
{
    if bindings.len() == 0 {
        Seq::empty()
    } else {
        kept_spans(target, bindings.drop_last()) + if keeps_binding(target, bindings.last()) {
            seq![bindings.last().span]
        } else {
            Seq::empty()
        }
    }
}

/// The kept binding spans of each instance, in order.
pub open spec fn reset_free_spec(insts: Seq<RdcInstance>) -> Seq<Span>
    decreases insts.len(),
{
    if insts.len() == 0 {
        Seq::empty()
    } else {
        reset_free_spec(insts.drop_last()) + kept_spans(insts.last().target, insts.last().bindings@)
    }
}

/// The binding spans of module `m` whose clock use resets no register:
/// the reset-free clock ports of builtin primitives and every binding of
/// an extern instance.
pub fn reset_free_bindings(inp: &RdcInput, m: usize) -> (r: Vec<Span>)
    requires
        m < inp.modules@.len(),
    ensures
        r@ == reset_free_spec(inp.modules@[m as int].instances@),
{
    let module = &inp.modules[m];
    let mut out: Vec<Span> = Vec::new();
    let mut i: usize = 0;
    while i < module.instances.len()
        invariant
            i <= module.instances@.len(),
            out@ == reset_free_spec(module.instances@.subrange(0, i as int)),
        decreases module.instances@.len() - i,
    {
        let inst = &module.instances[i];
        proof {
            assert(module.instances@.subrange(0, i + 1).drop_last() =~= module.instances@.subrange(0, i as int));
        }
        let ghost o0 = out@;
        let mut b: usize = 0;
        while b < inst.bindings.len()
            invariant
                b <= inst.bindings@.len(),
                out@ == o0 + kept_spans(inst.target, inst.bindings@.subrange(0, b as int)),
            decreases inst.bindings@.len() - b,
        {
            proof {
                assert(inst.bindings@.subrange(0, b + 1).drop_last() =~= inst.bindings@.subrange(0, b as int));
            }
            let keep = match inst.target {
                RdcTarget::Builtin => !inst.bindings[b].resets_flops,
                RdcTarget::Extern => true,
                _ => false,
            };
            if keep {
                out.push(inst.bindings[b].span);
            }
            b = b + 1;
            proof {
                assert(out@ =~= o0 + kept_spans(inst.target, inst.bindings@.subrange(0, b as int)));
            }
        }
        assert(inst.bindings@.subrange(0, inst.bindings@.len() as int) =~= inst.bindings@);
        i = i + 1;
        proof {
            assert(out@ =~= reset_free_spec(module.instances@.subrange(0, i as int)));
        }
    }
    assert(module.instances@.subrange(0, module.instances@.len() as int) =~= module.instances@);
    out
}

fn inside_any(spans: &Vec<Span>, s: Span) -> (r: bool)
    ensures
        r == exists|k: int| 0 <= k < spans@.len() && span_within(spans@[k], s),
{
    let mut k: usize = 0;
    while k < spans.len()
        invariant
            k <= spans@.len(),
            forall|j: int| 0 <= j < k ==> !span_within(spans@[j], s),
        decreases spans@.len() - k,
    {
        if within(spans[k], s) {
            return true;
        }
        k = k + 1;
    }
    false
}

/// Definition `def` is used in module `m` outside the given spans.
/// The binding spans of the module instances of `insts`, in order.
pub open spec fn module_binding_spans(insts: Seq<RdcInstance>) -> Seq<Span>
    decreases insts.len(),
{
    if insts.len() == 0 {
        Seq::empty()
    } else {
        module_binding_spans(insts.drop_last()) + match insts.last().target {
            RdcTarget::Module(_) => insts.last().bindings@.map_values(|b: RdcBinding| b.span),
            _ => Seq::empty(),
        }
    }
}

/// `def` is used at a span lying inside none of `skipped`.
pub open spec fn used_outside_spec(module: RdcModule, def: u32, skipped: Seq<Span>) -> bool {
    exists|k: int|
        0 <= k < module.uses@.len() && (#[trigger] module.uses@[k]).1 == def && !(exists|j: int|
            0 <= j < skipped.len() && span_within(skipped[j], module.uses@[k].0))
}

fn used_outside(module: &RdcModule, def: u32, skipped: &Vec<Span>) -> (r: bool)
    ensures
        r == used_outside_spec(*module, def, skipped@),
{
    let mut k: usize = 0;
    while k < module.uses.len()
        invariant
            k <= module.uses@.len(),
            forall|j: int|
                0 <= j < k ==> !((#[trigger] module.uses@[j]).1 == def && !(exists|i: int|
                    0 <= i < skipped@.len() && span_within(skipped@[i], module.uses@[j].0))),
        decreases module.uses@.len() - k,
    {
        if module.uses[k].1 == def && !inside_any(skipped, module.uses[k].0) {
            assert(module.uses@[k as int].1 == def);
            return true;
        }
        k = k + 1;
    }
    false
}

/// The facts of module `m`: its clock ports with their effective resets
/// (the domain declaration's last `reset` field, else the default at the
/// domain's name; an implicit domain has the default at the port's
/// name), its raw reset ports, and whether it is a root.
pub fn module_facts(inp: &RdcInput, dom: &DomainResult, m: usize) -> (r: ModuleFacts)
    requires
        m < inp.modules@.len(),
    ensures
        r.is_root == !exists|k: int| 0 <= k < inp.instantiated@.len() && inp.instantiated@[k] == inp.modules@[m as int].def,
        r.raws@ == raws_spec(inp.modules@[m as int].ports@, inp.modules@[m as int].ports@.len() as int),
        forall|k: int| 0 <= k < r.raws@.len() ==> (#[trigger] r.raws@[k]).port < inp.modules@[m as int].ports@.len(),
        forall|k: int| 0 <= k < r.clocks@.len() ==> (#[trigger] r.clocks@[k]).port < inp.modules@[m as int].ports@.len(),
{
    let module = &inp.modules[m];
    let reset_free = reset_free_bindings(inp, m);
    let mut clocks: Vec<ClockFact> = Vec::new();
    let mut raws: Vec<RawFact> = Vec::new();
    let mut p: usize = 0;
    while p < module.ports.len()
        invariant
            p <= module.ports@.len(),
            *module == inp.modules@[m as int],
            forall|k: int| 0 <= k < raws@.len() ==> (#[trigger] raws@[k]).port < module.ports@.len(),
            forall|k: int| 0 <= k < clocks@.len() ==> (#[trigger] clocks@[k]).port < module.ports@.len(),
            raws@ == raws_spec(module.ports@, p as int),
        decreases module.ports@.len() - p,
    {
        let port = &module.ports[p];
        let ghost r0 = raws@;
        match port.def {
            Some(def) => {
                match port.raw {
                    Some(raw) => {
                        raws.push(RawFact { port: p, def, ann: raw.ann, spec: raw.spec });
                    },
                    None => {},
                }
                if port.is_clock {
                    match dom.domain_of(crate::defs::DefId(def)) {
                        Some(DomainId::Explicit(id)) => {
                            if (id as usize) < dom.domains.len() {
                                let info = &dom.domains[id as usize];
                                let (decl, reset, reset_span) = match info.source {
                                    DomainSource::Decl(d) => match declared_reset(inp, d.0) {
                                        Some((reset, span)) => (Some(d.0), reset, span),
                                        None => (Some(d.0), Some(default_reset_spec()), info.span),
                                    },
                                    DomainSource::ClockPort(_) => (None, Some(default_reset_spec()), port.name_span),
                                };
                                let used = used_outside(module, def, &reset_free);
                                clocks.push(ClockFact { port: p, def, decl, reset, reset_span, used });
                            }
                        },
                        _ => {},
                    }
                }
            },
            None => {},
        }
        p = p + 1;
        proof {
            assert(raws@ =~= raws_spec(module.ports@, p as int));
        }
    }
    let mut root = true;
    let mut k: usize = 0;
    while k < inp.instantiated.len()
        invariant
            k <= inp.instantiated@.len(),
            *module == inp.modules@[m as int],
            root == !exists|j: int| 0 <= j < k && inp.instantiated@[j] == module.def,
        decreases inp.instantiated@.len() - k,
    {
        if inp.instantiated[k] == module.def {
            root = false;
        }
        k = k + 1;
    }
    ModuleFacts { clocks, raws, is_root: root }
}

/// What a reset finding is about.
#[derive(Clone, Copy, PartialEq, Eq, Debug, Structural)]
pub enum RdcKind {
    /// E3010: one of several raw reset ports without a domain annotation.
    AmbiguousRaw,
    /// E3003: a raw port's kind differs from a domain it feeds.
    KindMismatch,
    /// E3003: a raw port named like an automatic reset port of the module.
    NameClash,
    /// E3003: an automatic asynchronous reset shared by several clocks.
    SharedAsync,
    /// W3010: an automatic synchronous reset shared by several clocks.
    SharedSync,
    /// W3009: a root module's asynchronous automatic reset.
    RootContract,
    /// E3003: one raw reset released twice to the same clock.
    Converge,
}

/// A finding of the reset checks.
#[derive(Clone, Debug)]
pub struct RdcDiag {
    pub kind: RdcKind,
    pub span: Span,
    /// The port, raw reset or automatic port the finding names.
    pub name: String,
    /// The module, by index.
    pub module: usize,
}

impl RdcDiag {
    /// The code of each kind of finding.
    pub open spec fn code_spec(&self) -> Seq<char> {
        match self.kind {
            RdcKind::AmbiguousRaw => "E3010"@,
            RdcKind::SharedSync => "W3010"@,
            RdcKind::RootContract => "W3009"@,
            _ => "E3003"@,
        }
    }

    /// The diagnostic code.
    pub fn code(&self) -> (r: &'static str)
        ensures
            r@ == self.code_spec(),
    {
        match self.kind {
            RdcKind::AmbiguousRaw => "E3010",
            RdcKind::SharedSync => "W3010",
            RdcKind::RootContract => "W3009",
            _ => "E3003",
        }
    }
}

/// The facts of every module of the unit.
pub fn unit_facts(inp: &RdcInput, dom: &DomainResult) -> (r: Vec<ModuleFacts>)
    ensures
        r@.len() == inp.modules@.len(),
        forall|m: int| 0 <= m < r@.len() ==> facts_fit(*inp, m, #[trigger] r@[m]),
{
    let mut out: Vec<ModuleFacts> = Vec::new();
    let mut m: usize = 0;
    while m < inp.modules.len()
        invariant
            m <= inp.modules@.len(),
            out@.len() == m,
            forall|j: int| 0 <= j < m ==> facts_fit(*inp, j, #[trigger] out@[j]),
        decreases inp.modules@.len() - m,
    {
        out.push(module_facts(inp, dom, m));
        m = m + 1;
    }
    out
}

/// The port indices of the facts lie in their module.
/// The raw reset ports among the first `n` ports, in port order.
pub open spec fn raws_spec(ports: Seq<RdcPort>, n: int) -> Seq<RawFact>
    decreases n,
{
    if n <= 0 || n > ports.len() {
        Seq::empty()
    } else {
        raws_spec(ports, n - 1) + match (ports[n - 1].def, ports[n - 1].raw) {
            (Some(d), Some(rp)) => seq![RawFact { port: (n - 1) as usize, def: d, ann: rp.ann, spec: rp.spec }],
            _ => Seq::empty(),
        }
    }
}

proof fn lemma_raws_spec(ports: Seq<RdcPort>, n: int)
    requires
        ports.len() <= usize::MAX,
    ensures
        forall|i: int|
            0 <= i < raws_spec(ports, n).len() ==> {
                let rf = #[trigger] raws_spec(ports, n)[i];
                &&& (rf.port as int) < n
                &&& 0 <= n <= ports.len()
                &&& ports[rf.port as int].def == Some(rf.def)
                &&& ports[rf.port as int].raw == Some(RawPort { spec: rf.spec, ann: rf.ann })
            },
    decreases n,
{
    if n > 0 && n <= ports.len() {
        lemma_raws_spec(ports, n - 1);
        let pre = raws_spec(ports, n - 1);
        assert forall|i: int| 0 <= i < raws_spec(ports, n).len() implies {
            let rf = #[trigger] raws_spec(ports, n)[i];
            &&& (rf.port as int) < n
            &&& 0 <= n <= ports.len()
            &&& ports[rf.port as int].def == Some(rf.def)
            &&& ports[rf.port as int].raw == Some(RawPort { spec: rf.spec, ann: rf.ann })
        } by {
            if i < pre.len() {
                assert(raws_spec(ports, n)[i] == pre[i]);
            } else {
                match (ports[n - 1].def, ports[n - 1].raw) {
                    (Some(d), Some(rp)) => {
                        assert(raws_spec(ports, n)[i] == RawFact { port: (n - 1) as usize, def: d, ann: rp.ann, spec: rp.spec });
                    },
                    _ => {
                        assert(raws_spec(ports, n) == pre);
                    },
                }
            }
        }
    }
}

/// Finding E3010 at `span` is owed: module `m` has several raw reset
/// ports, and one without a domain annotation is declared at `span`.
pub open spec fn ambiguous_ok(inp: RdcInput, m: int, span: Span) -> bool {
    let ports = inp.modules@[m].ports@;
    &&& raws_spec(ports, ports.len() as int).len() > 1
    &&& exists|k: int|
        0 <= k < ports.len() && (#[trigger] ports[k]).def is Some && (ports[k].raw matches Some(rp) && rp.ann is None)
            && ports[k].name_span == span
}

/// The first clock at or after `k` of a root module whose automatic reset
/// is asynchronous, used, and fed by no raw reset port.
pub open spec fn root_candidate(clocks: Seq<ClockFact>, feeds: Seq<Option<usize>>, k: int) -> Option<int>
    decreases clocks.len() - k,
{
    if k < 0 || k >= clocks.len() {
        None
    } else if (clocks[k].reset matches Some(sp) && sp.sync == ResetSync::Async) && k < feeds.len() && feeds[k] is None
        && clocks[k].used {
        Some(k)
    } else {
        root_candidate(clocks, feeds, k + 1)
    }
}

/// `new` keeps the findings of `old` and may add more.
pub open spec fn extends_diags(new: Seq<RdcDiag>, old: Seq<RdcDiag>) -> bool {
    &&& old.len() <= new.len()
    &&& forall|i: int| 0 <= i < old.len() ==> #[trigger] new[i] == old[i]
}

proof fn lemma_extends_trans(a: Seq<RdcDiag>, b: Seq<RdcDiag>, c: Seq<RdcDiag>)
    requires
        extends_diags(b, a),
        extends_diags(c, b),
    ensures
        extends_diags(c, a),
{
    assert forall|i: int| 0 <= i < a.len() implies #[trigger] c[i] == a[i] by {
        assert(c[i] == b[i]);
    }
}

/// Port `k` of module `m` is an unannotated raw reset port of a module
/// with several raw reset ports.
pub open spec fn amb_port(inp: RdcInput, m: int, k: int) -> bool {
    let ports = inp.modules@[m].ports@;
    &&& 0 <= k < ports.len()
    &&& ports[k].def is Some
    &&& ports[k].raw matches Some(rp) && rp.ann is None
    &&& raws_spec(ports, ports.len() as int).len() > 1
}

/// Some pending finding has this kind and span.
pub open spec fn pend_has(pending: Seq<(RdcKind, Span, String)>, kind: RdcKind, span: Span) -> bool {
    exists|j: int| 0 <= j < pending.len() && (#[trigger] pending[j]).0 == kind && pending[j].1 == span
}

proof fn lemma_pend_push(p: Seq<(RdcKind, Span, String)>, x: (RdcKind, Span, String), kind: RdcKind, span: Span)
    requires
        pend_has(p, kind, span),
    ensures
        pend_has(p.push(x), kind, span),
{
    let w = choose|w: int| 0 <= w < p.len() && (#[trigger] p[w]).0 == kind && p[w].1 == span;
    assert(p.push(x)[w] == p[w]);
}

proof fn lemma_raws_complete(ports: Seq<RdcPort>, n: int, k: int)
    requires
        0 <= k < n <= ports.len(),
        ports.len() <= usize::MAX,
        ports[k].def is Some,
        ports[k].raw is Some,
    ensures
        exists|i: int| 0 <= i < raws_spec(ports, n).len() && (#[trigger] raws_spec(ports, n)[i]).port == k,
    decreases n,
{
    let pre = raws_spec(ports, n - 1);
    if k < n - 1 {
        lemma_raws_complete(ports, n - 1, k);
        let i = choose|i: int| 0 <= i < pre.len() && (#[trigger] pre[i]).port == k;
        assert(raws_spec(ports, n)[i] == pre[i]);
    } else {
        let rp = ports[k].raw.unwrap();
        let d = ports[k].def.unwrap();
        assert(raws_spec(ports, n) == pre + seq![RawFact { port: (n - 1) as usize, def: d, ann: rp.ann, spec: rp.spec }]);
        assert(raws_spec(ports, n)[pre.len() as int].port == k);
    }
}

/// Some finding of `ds` has this kind, module and span.
pub open spec fn has_diag(ds: Seq<RdcDiag>, kind: RdcKind, m: int, span: Span) -> bool {
    exists|i: int| 0 <= i < ds.len() && (#[trigger] ds[i]).kind == kind && ds[i].module == m && ds[i].span == span
}

proof fn lemma_has_diag_kept(a: Seq<RdcDiag>, b: Seq<RdcDiag>, kind: RdcKind, m: int, span: Span)
    requires
        extends_diags(b, a),
        has_diag(a, kind, m, span),
    ensures
        has_diag(b, kind, m, span),
{
    let w = choose|w: int| 0 <= w < a.len() && (#[trigger] a[w]).kind == kind && a[w].module == m && a[w].span == span;
    assert(b[w] == a[w]);
}

/// No instance in the unit instantiates module `m`.
pub open spec fn is_root_module(inp: RdcInput, m: int) -> bool {
    !exists|k: int| 0 <= k < inp.instantiated@.len() && inp.instantiated@[k] == inp.modules@[m].def
}

/// A finding names a module of the unit, and W3009 only a root.
pub open spec fn diag_fits(inp: RdcInput, d: RdcDiag) -> bool {
    &&& d.module < inp.modules@.len()
    &&& d.kind == RdcKind::RootContract ==> is_root_module(inp, d.module as int)
    &&& d.kind == RdcKind::AmbiguousRaw ==> ambiguous_ok(inp, d.module as int, d.span)
}

pub open spec fn facts_fit(inp: RdcInput, m: int, f: ModuleFacts) -> bool {
    &&& 0 <= m < inp.modules@.len()
    &&& f.is_root == is_root_module(inp, m)
    &&& f.raws@ == raws_spec(inp.modules@[m].ports@, inp.modules@[m].ports@.len() as int)
    &&& forall|k: int| 0 <= k < f.raws@.len() ==> (#[trigger] f.raws@[k]).port < inp.modules@[m].ports@.len()
    &&& forall|k: int| 0 <= k < f.clocks@.len() ==> (#[trigger] f.clocks@[k]).port < inp.modules@[m].ports@.len()
}

/// The checker's state.
pub struct Rdc {
    pub facts: Vec<ModuleFacts>,
    pub diagnostics: Vec<RdcDiag>,
    /// (module, raw reset) and the clocks its release is synchronized to.
    pub memo: Vec<((usize, u32), Vec<u32>)>,
}

impl Rdc {
    pub open spec fn fits(&self, inp: &RdcInput) -> bool {
        &&& self.facts@.len() == inp.modules@.len()
        &&& forall|m: int| 0 <= m < self.facts@.len() ==> facts_fit(*inp, m, #[trigger] self.facts@[m])
        &&& forall|i: int| 0 <= i < self.diagnostics@.len() ==> diag_fits(*inp, #[trigger] self.diagnostics@[i])
    }

    fn report(&mut self, inp: &RdcInput, kind: RdcKind, span: Span, name: &String, m: usize)
        requires
            old(self).fits(inp),
            m < inp.modules@.len(),
            kind == RdcKind::RootContract ==> is_root_module(*inp, m as int),
            kind == RdcKind::AmbiguousRaw ==> ambiguous_ok(*inp, m as int, span),
        ensures
            final(self).fits(inp),
            final(self).facts == old(self).facts,
            final(self).diagnostics@ == old(self).diagnostics@.push(final(self).diagnostics@.last()),
            final(self).diagnostics@.last().kind == kind,
            final(self).diagnostics@.last().module == m,
            final(self).diagnostics@.last().span == span,
            final(self).diagnostics@.last().name@ == name@,
    {
        self.diagnostics.push(RdcDiag { kind, span, name: name.clone(), module: m });
    }

    /// The binding rules of module `m`; returns the feeding raw port of
    /// each clock.
    fn check_raw_bindings(&mut self, inp: &RdcInput, m: usize) -> (feeds: Vec<Option<usize>>)
        requires
            old(self).fits(inp),
            m < inp.modules@.len(),
        ensures
            extends_diags(final(self).diagnostics@, old(self).diagnostics@),
            final(self).fits(inp),
            final(self).facts == old(self).facts,
            feeds@.len() == old(self).facts@[m as int].clocks@.len(),
            forall|k: int| #[trigger] amb_port(*inp, m as int, k) ==> has_diag(
                final(self).diagnostics@,
                RdcKind::AmbiguousRaw,
                m as int,
                inp.modules@[m as int].ports@[k].name_span,
            ),
    {
        let facts = &self.facts[m];
        assert(facts_fit(*inp, m as int, self.facts@[m as int]));
        let module = &inp.modules[m];
        let feeds = feeds_of(facts);
        let mut pending: Vec<(RdcKind, Span, String)> = Vec::new();
        if facts.raws.len() > 1 {
            let mut r: usize = 0;
            while r < facts.raws.len()
                invariant
                    facts.raws@.len() > 1,
                    forall|j: int| 0 <= j < pending@.len() ==> (#[trigger] pending@[j]).0 != RdcKind::RootContract,
                    forall|j: int|
                        0 <= j < pending@.len() && (#[trigger] pending@[j]).0 == RdcKind::AmbiguousRaw ==> ambiguous_ok(
                            *inp,
                            m as int,
                            pending@[j].1,
                        ),
                    r <= facts.raws@.len(),
                    facts_fit(*inp, m as int, *facts),
                    *module == inp.modules@[m as int],
                    forall|x: int|
                        0 <= x < r && (#[trigger] facts.raws@[x]).ann is None ==> pend_has(
                            pending@,
                            RdcKind::AmbiguousRaw,
                            module.ports@[facts.raws@[x].port as int].name_span,
                        ),
                decreases facts.raws@.len() - r,
            {
                if facts.raws[r].ann.is_none() {
                    let port = &module.ports[facts.raws[r].port];
                    proof {
                        assert(module.ports@.len() == module.ports.len());
                        lemma_raws_spec(module.ports@, module.ports@.len() as int);
                        let rf = facts.raws@[r as int];
                        assert(module.ports@[rf.port as int].raw == Some(RawPort { spec: rf.spec, ann: rf.ann }));
                        assert(ambiguous_ok(*inp, m as int, port.name_span));
                    }
                    let ghost p0 = pending@;
                    pending.push((RdcKind::AmbiguousRaw, port.name_span, port.name.clone()));
                    proof {
                        assert forall|x: int|
                            0 <= x < r + 1 && (#[trigger] facts.raws@[x]).ann is None implies pend_has(
                                pending@,
                                RdcKind::AmbiguousRaw,
                                module.ports@[facts.raws@[x].port as int].name_span,
                            ) by {
                            if x < r {
                                let w = choose|w: int| 0 <= w < p0.len() && (#[trigger] p0[w]).0 == RdcKind::AmbiguousRaw
                                    && p0[w].1 == module.ports@[facts.raws@[x].port as int].name_span;
                                assert(pending@[w] == p0[w]);
                            } else {
                                assert(pending@[p0.len() as int].1 == port.name_span);
                            }
                        }
                    }
                }
                r = r + 1;
            }
        }
        proof {
            assert(module.ports@.len() == module.ports.len());
            lemma_raws_spec(module.ports@, module.ports@.len() as int);
            assert forall|k: int| #[trigger] amb_port(*inp, m as int, k) implies pend_has(
                pending@,
                RdcKind::AmbiguousRaw,
                inp.modules@[m as int].ports@[k].name_span,
            ) by {
                lemma_raws_complete(module.ports@, module.ports@.len() as int, k);
                let i = choose|i: int|
                    0 <= i < facts.raws@.len() && (#[trigger] facts.raws@[i]).port == k;
                assert(module.ports@[k].raw == Some(RawPort { spec: facts.raws@[i].spec, ann: facts.raws@[i].ann }));
            }
        }
        // The kind of each raw port against the domains it feeds.
        let mut ri: usize = 0;
        while ri < facts.raws.len()
            invariant
                forall|kk: int| #[trigger] amb_port(*inp, m as int, kk) ==> pend_has(
                    pending@,
                    RdcKind::AmbiguousRaw,
                    inp.modules@[m as int].ports@[kk].name_span,
                ),
                forall|j: int| 0 <= j < pending@.len() ==> (#[trigger] pending@[j]).0 != RdcKind::RootContract,
                    forall|j: int|
                        0 <= j < pending@.len() && (#[trigger] pending@[j]).0 == RdcKind::AmbiguousRaw ==> ambiguous_ok(
                            *inp,
                            m as int,
                            pending@[j].1,
                        ),
                ri <= facts.raws@.len(),
                facts_fit(*inp, m as int, *facts),
                *module == inp.modules@[m as int],
                feeds@.len() == facts.clocks@.len(),
            decreases facts.raws@.len() - ri,
        {
            let raw = facts.raws[ri];
            let mut expected: Option<ResetSpec> = raw.spec;
            let mut reported: Vec<Span> = Vec::new();
            let mut k: usize = 0;
            while k < facts.clocks.len()
                invariant
                    forall|kk: int| #[trigger] amb_port(*inp, m as int, kk) ==> pend_has(
                        pending@,
                        RdcKind::AmbiguousRaw,
                        inp.modules@[m as int].ports@[kk].name_span,
                    ),
                    forall|j: int| 0 <= j < pending@.len() ==> (#[trigger] pending@[j]).0 != RdcKind::RootContract,
                    forall|j: int|
                        0 <= j < pending@.len() && (#[trigger] pending@[j]).0 == RdcKind::AmbiguousRaw ==> ambiguous_ok(
                            *inp,
                            m as int,
                            pending@[j].1,
                        ),
                    k <= facts.clocks@.len(),
                    ri < facts.raws@.len(),
                    raw == facts.raws@[ri as int],
                    facts_fit(*inp, m as int, *facts),
                    *module == inp.modules@[m as int],
                    feeds@.len() == facts.clocks@.len(),
                decreases facts.clocks@.len() - k,
            {
                if feeds[k] == Some(ri) {
                    let clock = facts.clocks[k];
                    if expected.is_none() {
                        // Without a written kind, the first fed domain's applies.
                        expected = clock.reset;
                    }
                    match (clock.reset, expected) {
                        (Some(actual), Some(exp)) => {
                            let mut seen = false;
                            let mut j: usize = 0;
                            while j < reported.len()
                                invariant
                                    forall|kk: int| #[trigger] amb_port(*inp, m as int, kk) ==> pend_has(
                                        pending@,
                                        RdcKind::AmbiguousRaw,
                                        inp.modules@[m as int].ports@[kk].name_span,
                                    ),
                                    forall|j: int| 0 <= j < pending@.len() ==> (#[trigger] pending@[j]).0 != RdcKind::RootContract,
                    forall|j: int|
                        0 <= j < pending@.len() && (#[trigger] pending@[j]).0 == RdcKind::AmbiguousRaw ==> ambiguous_ok(
                            *inp,
                            m as int,
                            pending@[j].1,
                        ),
                                    j <= reported@.len(),
                                decreases reported@.len() - j,
                            {
                                if reported[j] == clock.reset_span {
                                    seen = true;
                                }
                                j = j + 1;
                            }
                            if actual != exp && !seen {
                                reported.push(clock.reset_span);
                                let port = &module.ports[raw.port];
                                let ghost pp = pending@;
                                pending.push((RdcKind::KindMismatch, port.span, port.name.clone()));
                                proof {
                                    assert forall|kk: int| #[trigger] amb_port(*inp, m as int, kk) implies pend_has(
                                        pending@,
                                        RdcKind::AmbiguousRaw,
                                        inp.modules@[m as int].ports@[kk].name_span,
                                    ) by {
                                        lemma_pend_push(pp, pending@.last(), RdcKind::AmbiguousRaw, inp.modules@[m as int].ports@[kk].name_span);
                                        assert(pending@ == pp.push(pending@.last()));
                                    }
                                }
                            }
                        },
                        _ => {},
                    }
                }
                k = k + 1;
            }
            ri = ri + 1;
        }
        // A raw port cannot take the name of an automatic port.
        let mut r: usize = 0;
        while r < facts.raws.len()
            invariant
                forall|kk: int| #[trigger] amb_port(*inp, m as int, kk) ==> pend_has(
                    pending@,
                    RdcKind::AmbiguousRaw,
                    inp.modules@[m as int].ports@[kk].name_span,
                ),
                forall|j: int| 0 <= j < pending@.len() ==> (#[trigger] pending@[j]).0 != RdcKind::RootContract,
                    forall|j: int|
                        0 <= j < pending@.len() && (#[trigger] pending@[j]).0 == RdcKind::AmbiguousRaw ==> ambiguous_ok(
                            *inp,
                            m as int,
                            pending@[j].1,
                        ),
                r <= facts.raws@.len(),
                facts_fit(*inp, m as int, *facts),
                *module == inp.modules@[m as int],
                feeds@.len() == facts.clocks@.len(),
            decreases facts.raws@.len() - r,
        {
            let port = &module.ports[facts.raws[r].port];
            let mut k: usize = 0;
            let mut clash = false;
            while k < facts.clocks.len() && !clash
                invariant
                    forall|kk: int| #[trigger] amb_port(*inp, m as int, kk) ==> pend_has(
                        pending@,
                        RdcKind::AmbiguousRaw,
                        inp.modules@[m as int].ports@[kk].name_span,
                    ),
                    forall|j: int| 0 <= j < pending@.len() ==> (#[trigger] pending@[j]).0 != RdcKind::RootContract,
                    forall|j: int|
                        0 <= j < pending@.len() && (#[trigger] pending@[j]).0 == RdcKind::AmbiguousRaw ==> ambiguous_ok(
                            *inp,
                            m as int,
                            pending@[j].1,
                        ),
                    k <= facts.clocks@.len(),
                    feeds@.len() == facts.clocks@.len(),
                decreases facts.clocks@.len() - k, if clash { 0int } else { 1int },
            {
                match facts.clocks[k].reset {
                    Some(spec) => {
                        if feeds[k].is_none() && eq_str(auto_port_name(spec), port.name.as_str()) {
                            clash = true;
                        }
                    },
                    None => {},
                }
                if !clash {
                    k = k + 1;
                }
            }
            if clash {
                let ghost pp = pending@;
                pending.push((RdcKind::NameClash, port.name_span, port.name.clone()));
                proof {
                    assert forall|kk: int| #[trigger] amb_port(*inp, m as int, kk) implies pend_has(
                        pending@,
                        RdcKind::AmbiguousRaw,
                        inp.modules@[m as int].ports@[kk].name_span,
                    ) by {
                        lemma_pend_push(pp, pending@.last(), RdcKind::AmbiguousRaw, inp.modules@[m as int].ports@[kk].name_span);
                        assert(pending@ == pp.push(pending@.last()));
                    }
                }
            }
            r = r + 1;
        }
        let mut i: usize = 0;
        while i < pending.len()
            invariant
                forall|j: int| 0 <= j < i ==> has_diag(self.diagnostics@, (#[trigger] pending@[j]).0, m as int, pending@[j].1),
                i <= pending@.len(),
                self.facts == old(self).facts,
                self.fits(inp),
                extends_diags(self.diagnostics@, old(self).diagnostics@),
                m < inp.modules@.len(),
                forall|j: int| 0 <= j < pending@.len() ==> (#[trigger] pending@[j]).0 != RdcKind::RootContract,
                    forall|j: int|
                        0 <= j < pending@.len() && (#[trigger] pending@[j]).0 == RdcKind::AmbiguousRaw ==> ambiguous_ok(
                            *inp,
                            m as int,
                            pending@[j].1,
                        ),
            decreases pending@.len() - i,
        {
            let ghost dbefore = self.diagnostics@;
            self.report(inp, pending[i].0, pending[i].1, &pending[i].2, m);
            proof {
                assert forall|j: int| 0 <= j < i + 1 implies has_diag(self.diagnostics@, (#[trigger] pending@[j]).0, m as int, pending@[j].1) by {
                    if j < i {
                        let w = choose|w: int| 0 <= w < dbefore.len() && (#[trigger] dbefore[w]).kind == pending@[j].0
                            && dbefore[w].module == m && dbefore[w].span == pending@[j].1;
                        assert(self.diagnostics@[w] == dbefore[w]);
                    } else {
                        assert(self.diagnostics@[dbefore.len() as int] == self.diagnostics@.last());
                    }
                }
            }
            i = i + 1;
        }
        proof {
            assert forall|k: int| #[trigger] amb_port(*inp, m as int, k) implies has_diag(
                self.diagnostics@,
                RdcKind::AmbiguousRaw,
                m as int,
                inp.modules@[m as int].ports@[k].name_span,
            ) by {
                let w = choose|w: int| 0 <= w < pending@.len() && (#[trigger] pending@[w]).0 == RdcKind::AmbiguousRaw
                    && pending@[w].1 == inp.modules@[m as int].ports@[k].name_span;
                assert(has_diag(self.diagnostics@, pending@[w].0, m as int, pending@[w].1));
            }
        }
        feeds
    }

    /// The automatic reset shared by several used clocks of module `m`:
    /// E3003 where one of them resets asynchronously (returns `true`),
    /// W3010 otherwise.
    fn check_shared_ports(&mut self, inp: &RdcInput, m: usize, feeds: &Vec<Option<usize>>) -> (error: bool)
        requires
            old(self).fits(inp),
            m < inp.modules@.len(),
            feeds@.len() == old(self).facts@[m as int].clocks@.len(),
        ensures
            extends_diags(final(self).diagnostics@, old(self).diagnostics@),
            final(self).fits(inp),
            final(self).facts == old(self).facts,
            forall|i: int|
                old(self).diagnostics@.len() <= i < final(self).diagnostics@.len() ==> (#[trigger] final(self).diagnostics@[i]).kind
                    == RdcKind::SharedAsync || final(self).diagnostics@[i].kind == RdcKind::SharedSync,
            error == exists|i: int|
                old(self).diagnostics@.len() <= i < final(self).diagnostics@.len() && (#[trigger] final(self).diagnostics@[i]).kind
                    == RdcKind::SharedAsync,
    {
        let facts = &self.facts[m];
        assert(facts_fit(*inp, m as int, self.facts@[m as int]));
        let module = &inp.modules[m];
        // (automatic port, its clocks)
        let mut groups: Vec<(&'static str, Vec<usize>)> = Vec::new();
        let mut k: usize = 0;
        while k < facts.clocks.len()
            invariant
                k <= facts.clocks@.len(),
                feeds@.len() == facts.clocks@.len(),
                forall|g: int, j: int| 0 <= g < groups@.len() && 0 <= j < groups@[g].1@.len() ==> #[trigger] groups@[g].1@[j] < facts.clocks@.len(),
            decreases facts.clocks@.len() - k,
        {
            let c = facts.clocks[k];
            match c.reset {
                Some(spec) => {
                    if feeds[k].is_none() && c.used {
                        let name = auto_port_name(spec);
                        let mut g: usize = 0;
                        let mut found = false;
                        while g < groups.len() && !found
                            invariant
                                g <= groups@.len(),
                                found ==> g < groups@.len(),
                            decreases groups@.len() - g, if found { 0int } else { 1int },
                        {
                            if eq_str(groups[g].0, name) {
                                found = true;
                            } else {
                                g = g + 1;
                            }
                        }
                        if found {
                            let mut members: Vec<usize> = Vec::new();
                            let mut j: usize = 0;
                            while j < groups[g].1.len()
                                invariant
                                    g < groups@.len(),
                                    j <= groups@[g as int].1@.len(),
                                    forall|x: int| 0 <= x < members@.len() ==> #[trigger] members@[x] < facts.clocks@.len(),
                                    forall|gg: int, jj: int| 0 <= gg < groups@.len() && 0 <= jj < groups@[gg].1@.len() ==> #[trigger] groups@[gg].1@[jj] < facts.clocks@.len(),
                                decreases groups@[g as int].1@.len() - j,
                            {
                                members.push(groups[g].1[j]);
                                j = j + 1;
                            }
                            members.push(k);
                            groups.set(g, (name, members));
                        } else {
                            groups.push((name, vec![k]));
                        }
                    }
                },
                None => {},
            }
            k = k + 1;
        }
        let mut pending: Vec<(RdcKind, Span, String)> = Vec::new();
        let mut error = false;
        let mut g: usize = 0;
        while g < groups.len()
            invariant
                forall|j: int| 0 <= j < pending@.len() ==> (#[trigger] pending@[j]).0 == RdcKind::SharedAsync || pending@[j].0 == RdcKind::SharedSync,
                error == exists|j: int| 0 <= j < pending@.len() && (#[trigger] pending@[j]).0 == RdcKind::SharedAsync,
                forall|j: int| 0 <= j < pending@.len() ==> (#[trigger] pending@[j]).0 != RdcKind::RootContract && pending@[j].0 != RdcKind::AmbiguousRaw,
                g <= groups@.len(),
                facts_fit(*inp, m as int, *facts),
                *module == inp.modules@[m as int],
                forall|gg: int, jj: int| 0 <= gg < groups@.len() && 0 <= jj < groups@[gg].1@.len() ==> #[trigger] groups@[gg].1@[jj] < facts.clocks@.len(),
            decreases groups@.len() - g,
        {
            let members = &groups[g].1;
            if members.len() > 1 {
                let mut asynchronous = false;
                let mut j: usize = 0;
                while j < members.len()
                    invariant
                        forall|j: int| 0 <= j < pending@.len() ==> (#[trigger] pending@[j]).0 != RdcKind::RootContract && pending@[j].0 != RdcKind::AmbiguousRaw,
                        j <= members@.len(),
                        g < groups@.len(),
                        *members == groups@[g as int].1,
                        forall|gg: int, jj: int| 0 <= gg < groups@.len() && 0 <= jj < groups@[gg].1@.len() ==> #[trigger] groups@[gg].1@[jj] < facts.clocks@.len(),
                    decreases members@.len() - j,
                {
                    match facts.clocks[members[j]].reset {
                        Some(spec) => {
                            if spec.sync == ResetSync::Async {
                                asynchronous = true;
                            }
                        },
                        None => {},
                    }
                    j = j + 1;
                }
                let first = facts.clocks[members[0]];
                let port = &module.ports[first.port];
                let kind = if asynchronous {
                    error = true;
                    RdcKind::SharedAsync
                } else {
                    RdcKind::SharedSync
                };
                let ghost p0 = pending@;
                pending.push((kind, port.name_span, groups[g].0.to_string()));
                proof {
                    if exists|j: int| 0 <= j < p0.len() && (#[trigger] p0[j]).0 == RdcKind::SharedAsync {
                        let j = choose|j: int| 0 <= j < p0.len() && (#[trigger] p0[j]).0 == RdcKind::SharedAsync;
                        assert(pending@[j] == p0[j]);
                    }
                    assert(pending@[p0.len() as int].0 == kind);
                    assert((kind == RdcKind::SharedAsync) == asynchronous);
                    if exists|j: int| 0 <= j < pending@.len() && (#[trigger] pending@[j]).0 == RdcKind::SharedAsync {
                        let j = choose|j: int| 0 <= j < pending@.len() && (#[trigger] pending@[j]).0 == RdcKind::SharedAsync;
                        if j < p0.len() {
                            assert(p0[j] == pending@[j]);
                        }
                    }
                    if asynchronous {
                        assert(pending@[p0.len() as int].0 == RdcKind::SharedAsync);
                    }
                }
            }
            g = g + 1;
        }
        let mut i: usize = 0;
        while i < pending.len()
            invariant
                forall|j: int| 0 <= j < pending@.len() ==> (#[trigger] pending@[j]).0 == RdcKind::SharedAsync || pending@[j].0 == RdcKind::SharedSync,
                error == exists|j: int| 0 <= j < pending@.len() && (#[trigger] pending@[j]).0 == RdcKind::SharedAsync,
                self.diagnostics@.len() == old(self).diagnostics@.len() + i,
                forall|j: int| 0 <= j < i ==> (#[trigger] self.diagnostics@[old(self).diagnostics@.len() + j]).kind == pending@[j].0,
                i <= pending@.len(),
                self.facts == old(self).facts,
                self.fits(inp),
                extends_diags(self.diagnostics@, old(self).diagnostics@),
                m < inp.modules@.len(),
                forall|j: int| 0 <= j < pending@.len() ==> (#[trigger] pending@[j]).0 != RdcKind::RootContract && pending@[j].0 != RdcKind::AmbiguousRaw,
            decreases pending@.len() - i,
        {
            let ghost d0 = self.diagnostics@;
            self.report(inp, pending[i].0, pending[i].1, &pending[i].2, m);
            proof {
                assert forall|j: int| 0 <= j < i + 1 implies (#[trigger] self.diagnostics@[old(self).diagnostics@.len() + j]).kind == pending@[j].0 by {
                    if j < i {
                        assert(self.diagnostics@[old(self).diagnostics@.len() + j] == d0[old(self).diagnostics@.len() + j]);
                    }
                }
            }
            i = i + 1;
        }
        proof {
            let n0 = old(self).diagnostics@.len();
            assert forall|x: int| n0 <= x < self.diagnostics@.len() implies (#[trigger] self.diagnostics@[x]).kind
                == RdcKind::SharedAsync || self.diagnostics@[x].kind == RdcKind::SharedSync by {
                assert(self.diagnostics@[n0 + (x - n0)].kind == pending@[x - n0].0);
            }
            if error {
                let j = choose|j: int| 0 <= j < pending@.len() && (#[trigger] pending@[j]).0 == RdcKind::SharedAsync;
                assert(self.diagnostics@[n0 + j].kind == RdcKind::SharedAsync);
            }
            if exists|x: int| n0 <= x < self.diagnostics@.len() && (#[trigger] self.diagnostics@[x]).kind == RdcKind::SharedAsync {
                let x = choose|x: int| n0 <= x < self.diagnostics@.len() && (#[trigger] self.diagnostics@[x]).kind == RdcKind::SharedAsync;
                assert(self.diagnostics@[n0 + (x - n0)].kind == pending@[x - n0].0);
            }
        }
        error
    }

    /// W3009, once per root module: its first used clock whose automatic
    /// reset is asynchronous.
    fn check_root_contract(&mut self, inp: &RdcInput, m: usize, feeds: &Vec<Option<usize>>)
        requires
            old(self).fits(inp),
            m < inp.modules@.len(),
            feeds@.len() == old(self).facts@[m as int].clocks@.len(),
        ensures
            extends_diags(final(self).diagnostics@, old(self).diagnostics@),
            final(self).fits(inp),
            final(self).facts == old(self).facts,
            !old(self).facts@[m as int].is_root ==> final(self).diagnostics == old(self).diagnostics,
            old(self).facts@[m as int].is_root ==> match root_candidate(old(self).facts@[m as int].clocks@, feeds@, 0) {
                None => final(self).diagnostics == old(self).diagnostics,
                Some(k) => final(self).diagnostics@.len() == old(self).diagnostics@.len() + 1
                    && final(self).diagnostics@.last().kind == RdcKind::RootContract
                    && final(self).diagnostics@.last().module == m
                    && final(self).diagnostics@.last().span == inp.modules@[m as int].ports@[old(self).facts@[m as int].clocks@[k].port as int].name_span,
            },
    {
        let facts = &self.facts[m];
        assert(facts_fit(*inp, m as int, self.facts@[m as int]));
        if !facts.is_root {
            return;
        }
        let mut found: Option<(Span, String)> = None;
        let mut k: usize = 0;
        while k < facts.clocks.len() && found.is_none()
            invariant
                k <= facts.clocks@.len(),
                feeds@.len() == facts.clocks@.len(),
                facts_fit(*inp, m as int, *facts),
                found is None ==> root_candidate(facts.clocks@, feeds@, 0) == root_candidate(facts.clocks@, feeds@, k as int),
                found matches Some(fv) ==> (root_candidate(facts.clocks@, feeds@, 0) matches Some(kk) && fv.0
                    == inp.modules@[m as int].ports@[facts.clocks@[kk].port as int].name_span),
                m < inp.modules@.len(),
            decreases facts.clocks@.len() - k, if found is None { 1int } else { 0int },
        {
            let c = facts.clocks[k];
            match c.reset {
                Some(spec) => {
                    if feeds[k].is_none() && c.used && spec.sync == ResetSync::Async {
                        let port = &inp.modules[m].ports[c.port];
                        found = Some((port.name_span, auto_port_name(spec).to_string()));
                    }
                },
                None => {},
            }
            k = k + 1;
        }
        match found {
            Some((span, name)) => {
                self.report(inp, RdcKind::RootContract, span, &name, m);
            },
            None => {},
        }
    }
}

impl Rdc {
    /// The local release chain of `clock` in module `m` resets something:
    /// the clock is used outside user-instance bindings and reset-free
    /// bindings, or it is bound to a child clock whose reset is automatic.
    fn chain_used(&self, inp: &RdcInput, m: usize, clock: u32) -> (r: bool)
        requires
            self.fits(inp),
            m < inp.modules@.len(),
        ensures
            used_outside_spec(
                inp.modules@[m as int],
                clock,
                reset_free_spec(inp.modules@[m as int].instances@) + module_binding_spans(inp.modules@[m as int].instances@),
            ) ==> r,
    {
        let module = &inp.modules[m];
        let mut skipped = reset_free_bindings(inp, m);
        let ghost rf = skipped@;
        let mut i: usize = 0;
        while i < module.instances.len()
            invariant
                i <= module.instances@.len(),
                *module == inp.modules@[m as int],
                skipped@ == rf + module_binding_spans(module.instances@.subrange(0, i as int)),
            decreases module.instances@.len() - i,
        {
            proof {
                assert(module.instances@.subrange(0, i + 1).drop_last() =~= module.instances@.subrange(0, i as int));
                assert(module.instances@.subrange(0, i + 1).last() == module.instances@[i as int]);
            }
            let ghost s0 = skipped@;
            match module.instances[i].target {
                RdcTarget::Module(_) => {
                    let bs = &module.instances[i].bindings;
                    let mut b: usize = 0;
                    while b < bs.len()
                        invariant
                            b <= bs@.len(),
                            skipped@ == s0 + bs@.subrange(0, b as int).map_values(|x: RdcBinding| x.span),
                        decreases bs@.len() - b,
                    {
                        skipped.push(bs[b].span);
                        b = b + 1;
                        assert(skipped@ =~= s0 + bs@.subrange(0, b as int).map_values(|x: RdcBinding| x.span));
                    }
                    assert(bs@.subrange(0, bs@.len() as int) =~= bs@);
                },
                _ => {},
            }
            i = i + 1;
            proof {
                assert(skipped@ =~= rf + module_binding_spans(module.instances@.subrange(0, i as int)));
            }
        }
        assert(module.instances@.subrange(0, module.instances@.len() as int) =~= module.instances@);
        if used_outside(module, clock, &skipped) {
            return true;
        }
        let mut i: usize = 0;
        while i < module.instances.len()
            invariant
                self.fits(inp),
                i <= module.instances@.len(),
            decreases module.instances@.len() - i,
        {
            let inst = &module.instances[i];
            match inst.target {
                RdcTarget::Module(t) => {
                    if t < self.facts.len() {
                        let child = &self.facts[t];
                        assert(facts_fit(*inp, t as int, self.facts@[t as int]));
                        let feeds = feeds_of(child);
                        let mut b: usize = 0;
                        while b < inst.bindings.len()
                            invariant
                                b <= inst.bindings@.len(),
                                t < inp.modules@.len(),
                                facts_fit(*inp, t as int, *child),
                                feeds@.len() == child.clocks@.len(),
                            decreases inst.bindings@.len() - b,
                        {
                            if inst.bindings[b].bound == Some(clock) {
                                let mut k: usize = 0;
                                while k < child.clocks.len()
                                    invariant
                                        k <= child.clocks@.len(),
                                        b < inst.bindings@.len(),
                                        t < inp.modules@.len(),
                                        facts_fit(*inp, t as int, *child),
                                        feeds@.len() == child.clocks@.len(),
                                    decreases child.clocks@.len() - k,
                                {
                                    let cc = child.clocks[k];
                                    let name = &inp.modules[t].ports[cc.port].name;
                                    if eq_str(name.as_str(), inst.bindings[b].port.as_str()) && cc.reset.is_some()
                                        && feeds[k].is_none() {
                                        return true;
                                    }
                                    k = k + 1;
                                }
                            }
                            b = b + 1;
                        }
                    }
                },
                _ => {},
            }
            i = i + 1;
        }
        false
    }

    /// The clocks of module `m` that raw reset `raw` is released to, in
    /// its subtree: its local chains, and each instance whose raw port it
    /// feeds, mapped to the parent's clocks. A clock reached twice is
    /// E3003 in this module, once. Memoized per (module, raw reset); the
    /// walk is bounded by the number of raw ports of the unit.
    fn release_clocks(&mut self, inp: &RdcInput, m: usize, raw: u32, fuel: u64) -> (r: Vec<u32>)
        requires
            old(self).fits(inp),
            m < inp.modules@.len(),
        ensures
            extends_diags(final(self).diagnostics@, old(self).diagnostics@),
            final(self).fits(inp),
        decreases fuel,
    {
        let mut k: usize = 0;
        while k < self.memo.len()
            invariant
                self.fits(inp),
                extends_diags(self.diagnostics@, old(self).diagnostics@),
                *self == *old(self),
                k <= self.memo@.len(),
            decreases self.memo@.len() - k,
        {
            if self.memo[k].0.0 == m && self.memo[k].0.1 == raw {
                let done = &self.memo[k].1;
                let mut copy: Vec<u32> = Vec::new();
                let mut j: usize = 0;
                while j < done.len()
                    invariant
                        j <= done@.len(),
                    decreases done@.len() - j,
                {
                    copy.push(done[j]);
                    j = j + 1;
                }
                return copy;
            }
            k = k + 1;
        }
        if fuel == 0 {
            return Vec::new();
        }
        let slot = self.memo.len();
        self.memo.push(((m, raw), Vec::new()));
        // (clock, None for the local chain or the binding that feeds an instance)
        let mut sites: Vec<(u32, Option<Span>)> = Vec::new();
        {
            let facts = &self.facts[m];
            assert(facts_fit(*inp, m as int, self.facts@[m as int]));
            let feeds = feeds_of(facts);
            let mut ri: usize = 0;
            let mut found = false;
            while ri < facts.raws.len() && !found
                invariant
                    ri <= facts.raws@.len(),
                    found ==> ri < facts.raws@.len(),
                decreases facts.raws@.len() - ri, if found { 0int } else { 1int },
            {
                if facts.raws[ri].def == raw {
                    found = true;
                } else {
                    ri = ri + 1;
                }
            }
            if found {
                let mut c: usize = 0;
                while c < facts.clocks.len()
                    invariant
                        self.fits(inp),
                        extends_diags(self.diagnostics@, old(self).diagnostics@),
                        m < inp.modules@.len(),
                        *facts == self.facts@[m as int],
                        c <= facts.clocks@.len(),
                        feeds@.len() == facts.clocks@.len(),
                    decreases facts.clocks@.len() - c,
                {
                    if feeds[c] == Some(ri) && self.chain_used(inp, m, facts.clocks[c].def) {
                        sites.push((facts.clocks[c].def, None));
                    }
                    c = c + 1;
                }
            }
        }
        let module = &inp.modules[m];
        let mut i: usize = 0;
        while i < module.instances.len()
            invariant
                self.fits(inp),
                extends_diags(self.diagnostics@, old(self).diagnostics@),
                m < inp.modules@.len(),
                *module == inp.modules@[m as int],
                i <= module.instances@.len(),
                fuel > 0,
            decreases module.instances@.len() - i,
        {
            let inst = &module.instances[i];
            match inst.target {
                RdcTarget::Module(t) => {
                    if t < inp.modules.len() {
                        let mut b: usize = 0;
                        while b < inst.bindings.len()
                            invariant
                                self.fits(inp),
                                extends_diags(self.diagnostics@, old(self).diagnostics@),
                                m < inp.modules@.len(),
                                t < inp.modules@.len(),
                                b <= inst.bindings@.len(),
                                fuel > 0,
                            decreases inst.bindings@.len() - b,
                        {
                            if inst.bindings[b].bound == Some(raw) {
                                // The child's raw port of the bound name.
                                let mut child_raw: Option<u32> = None;
                                let mut r: usize = 0;
                                while r < self.facts[t].raws.len()
                                    invariant
                                        self.fits(inp),
                                        extends_diags(self.diagnostics@, old(self).diagnostics@),
                                        t < inp.modules@.len(),
                                        b < inst.bindings@.len(),
                                        r <= self.facts@[t as int].raws@.len(),
                                    decreases self.facts@[t as int].raws@.len() - r,
                                {
                                    assert(facts_fit(*inp, t as int, self.facts@[t as int]));
                                    let rf = self.facts[t].raws[r];
                                    if child_raw.is_none() && eq_str(inp.modules[t].ports[rf.port].name.as_str(), inst.bindings[b].port.as_str()) {
                                        child_raw = Some(rf.def);
                                    }
                                    r = r + 1;
                                }
                                match child_raw {
                                    Some(cr) => {
                                        let ghost before = self.diagnostics@;
                                        let child_clocks = self.release_clocks(inp, t, cr, fuel - 1);
                                        proof {
                                            lemma_extends_trans(old(self).diagnostics@, before, self.diagnostics@);
                                        }
                                        let mut j: usize = 0;
                                        while j < child_clocks.len()
                                            invariant
                                                self.fits(inp),
                                                extends_diags(self.diagnostics@, old(self).diagnostics@),
                                                m < inp.modules@.len(),
                                                t < inp.modules@.len(),
                                                b < inst.bindings@.len(),
                                                j <= child_clocks@.len(),
                                            decreases child_clocks@.len() - j,
                                        {
                                            // The child's clock port, and what the parent binds to it.
                                            let mut pname: Option<String> = None;
                                            let mut c: usize = 0;
                                            while c < self.facts[t].clocks.len()
                                                invariant
                                                    self.fits(inp),
                                                    extends_diags(self.diagnostics@, old(self).diagnostics@),
                                                    t < inp.modules@.len(),
                                                    c <= self.facts@[t as int].clocks@.len(),
                                                    j < child_clocks@.len(),
                                                decreases self.facts@[t as int].clocks@.len() - c,
                                            {
                                                assert(facts_fit(*inp, t as int, self.facts@[t as int]));
                                                let cf = self.facts[t].clocks[c];
                                                if pname.is_none() && cf.def == child_clocks[j] {
                                                    pname = Some(inp.modules[t].ports[cf.port].name.clone());
                                                }
                                                c = c + 1;
                                            }
                                            match pname {
                                                Some(pn) => {
                                                    let mut parent: Option<u32> = None;
                                                    let mut x: usize = 0;
                                                    while x < inst.bindings.len()
                                                        invariant
                                                            x <= inst.bindings@.len(),
                                                        decreases inst.bindings@.len() - x,
                                                    {
                                                        if parent.is_none() && eq_str(inst.bindings[x].port.as_str(), pn.as_str()) {
                                                            parent = match inst.bindings[x].bound {
                                                                Some(p) => Some(p),
                                                                None => None,
                                                            };
                                                            if parent.is_none() {
                                                                // A binding found without a definition ends the search.
                                                                x = inst.bindings.len();
                                                                continue;
                                                            }
                                                        }
                                                        x = x + 1;
                                                    }
                                                    match parent {
                                                        Some(p) => {
                                                            let mut is_clock = false;
                                                            let mut c: usize = 0;
                                                            while c < self.facts[m].clocks.len()
                                                                invariant
                                                                    self.fits(inp),
                                                                    extends_diags(self.diagnostics@, old(self).diagnostics@),
                                                                    m < inp.modules@.len(),
                                                                    c <= self.facts@[m as int].clocks@.len(),
                                                                decreases self.facts@[m as int].clocks@.len() - c,
                                                            {
                                                                if self.facts[m].clocks[c].def == p {
                                                                    is_clock = true;
                                                                }
                                                                c = c + 1;
                                                            }
                                                            if is_clock {
                                                                sites.push((p, Some(inst.bindings[b].span)));
                                                            }
                                                        },
                                                        None => {},
                                                    }
                                                },
                                                None => {},
                                            }
                                            j = j + 1;
                                        }
                                    },
                                    None => {},
                                }
                            }
                            b = b + 1;
                        }
                    }
                },
                _ => {},
            }
            i = i + 1;
        }
        // Distinct clocks in order; a clock reached from two sites converges.
        let mut clocks: Vec<u32> = Vec::new();
        let mut s: usize = 0;
        while s < sites.len()
            invariant
                self.fits(inp),
                extends_diags(self.diagnostics@, old(self).diagnostics@),
                m < inp.modules@.len(),
                s <= sites@.len(),
            decreases sites@.len() - s,
        {
            let c = sites[s].0;
            let mut seen = false;
            let mut j: usize = 0;
            while j < clocks.len()
                invariant
                    j <= clocks@.len(),
                decreases clocks@.len() - j,
            {
                if clocks[j] == c {
                    seen = true;
                }
                j = j + 1;
            }
            if !seen {
                clocks.push(c);
                // The sites of this clock, in order.
                let mut at: Vec<Option<Span>> = Vec::new();
                let mut x: usize = 0;
                while x < sites.len()
                    invariant
                        x <= sites@.len(),
                    decreases sites@.len() - x,
                {
                    if sites[x].0 == c {
                        at.push(sites[x].1);
                    }
                    x = x + 1;
                }
                if at.len() > 1 {
                    let primary = match at[1] {
                        Some(span) => span,
                        None => inp.modules[m].name_span,
                    };
                    let mut name = String::new();
                    let mut r: usize = 0;
                    while r < self.facts[m].raws.len()
                        invariant
                            self.fits(inp),
                            extends_diags(self.diagnostics@, old(self).diagnostics@),
                            m < inp.modules@.len(),
                            r <= self.facts@[m as int].raws@.len(),
                        decreases self.facts@[m as int].raws@.len() - r,
                    {
                        assert(facts_fit(*inp, m as int, self.facts@[m as int]));
                        let rf = self.facts[m].raws[r];
                        if rf.def == raw {
                            name = inp.modules[m].ports[rf.port].name.clone();
                        }
                        r = r + 1;
                    }
                    let ghost before = self.diagnostics@;
                    self.report(inp, RdcKind::Converge, primary, &name, m);
                    proof {
                        assert(extends_diags(self.diagnostics@, before));
                        lemma_extends_trans(old(self).diagnostics@, before, self.diagnostics@);
                    }
                }
            }
            s = s + 1;
        }
        if slot < self.memo.len() {
            let mut copy: Vec<u32> = Vec::new();
            let mut j: usize = 0;
            while j < clocks.len()
                invariant
                    j <= clocks@.len(),
                decreases clocks@.len() - j,
            {
                copy.push(clocks[j]);
                j = j + 1;
            }
            self.memo.set(slot, ((m, raw), copy));
        }
        clocks
    }

    /// The reset rules of module `m`. An ambiguous raw port (E3010) feeds
    /// nothing, so the sharing and root checks, which would cascade, are
    /// skipped; the root check runs only where no shared asynchronous
    /// reset was reported.
    fn check_module(&mut self, inp: &RdcInput, m: usize, fuel: u64)
        requires
            old(self).fits(inp),
            m < inp.modules@.len(),
        ensures
            extends_diags(final(self).diagnostics@, old(self).diagnostics@),
            final(self).fits(inp),
            forall|k: int| #[trigger] amb_port(*inp, m as int, k) ==> has_diag(
                final(self).diagnostics@,
                RdcKind::AmbiguousRaw,
                m as int,
                inp.modules@[m as int].ports@[k].name_span,
            ),
    {
        let reported = self.diagnostics.len();
        let feeds = self.check_raw_bindings(inp, m);
        let ghost after_bindings = self.diagnostics@;
        let mut ambiguous = false;
        let mut i: usize = reported;
        while i < self.diagnostics.len()
            invariant
                i <= self.diagnostics@.len() || i == reported,
            decreases self.diagnostics@.len() - i,
        {
            if self.diagnostics[i].kind == RdcKind::AmbiguousRaw {
                ambiguous = true;
            }
            i = i + 1;
        }
        if !ambiguous {
            let ghost a0 = self.diagnostics@;
            let shared_error = self.check_shared_ports(inp, m, &feeds);
            proof {
                lemma_extends_trans(old(self).diagnostics@, a0, self.diagnostics@);
                lemma_extends_trans(after_bindings, a0, self.diagnostics@);
            }
            if !shared_error {
                let ghost a1 = self.diagnostics@;
                self.check_root_contract(inp, m, &feeds);
                proof {
                    lemma_extends_trans(old(self).diagnostics@, a1, self.diagnostics@);
                    lemma_extends_trans(after_bindings, a1, self.diagnostics@);
                }
            }
        }
        let n = self.facts[m].raws.len();
        let mut r: usize = 0;
        while r < n
            invariant
                self.fits(inp),
                extends_diags(self.diagnostics@, old(self).diagnostics@),
                m < inp.modules@.len(),
                r <= n,
                extends_diags(self.diagnostics@, after_bindings),
            decreases n - r,
        {
            if r < self.facts[m].raws.len() {
                let def = self.facts[m].raws[r].def;
                let ghost a2 = self.diagnostics@;
                self.release_clocks(inp, m, def, fuel);
                proof {
                    lemma_extends_trans(old(self).diagnostics@, a2, self.diagnostics@);
                    lemma_extends_trans(after_bindings, a2, self.diagnostics@);
                }
            }
            r = r + 1;
        }
        proof {
            assert forall|k: int| #[trigger] amb_port(*inp, m as int, k) implies has_diag(
                self.diagnostics@,
                RdcKind::AmbiguousRaw,
                m as int,
                inp.modules@[m as int].ports@[k].name_span,
            ) by {
                lemma_has_diag_kept(after_bindings, self.diagnostics@, RdcKind::AmbiguousRaw, m as int, inp.modules@[m as int].ports@[k].name_span);
            }
        }
    }
}

/// The reset contract of every module of the unit, after domain
/// inference.
pub fn check_rdc(inp: &RdcInput, dom: &DomainResult) -> (r: Vec<RdcDiag>)
    ensures
        forall|i: int| 0 <= i < r@.len() ==> diag_fits(*inp, #[trigger] r@[i]),
        forall|m: int, k: int|
            0 <= m < inp.modules@.len() && #[trigger] amb_port(*inp, m, k) ==> has_diag(
                r@,
                RdcKind::AmbiguousRaw,
                m,
                inp.modules@[m].ports@[k].name_span,
            ),
{
    let facts = unit_facts(inp, dom);
    let mut fuel: u64 = 1;
    let mut m: usize = 0;
    while m < facts.len()
        invariant
            m <= facts@.len(),
        decreases facts@.len() - m,
    {
        if fuel < 0x1000_0000_0000_0000 && (facts[m].raws.len() as u64) < 0x1000_0000_0000_0000 {
            fuel = fuel + facts[m].raws.len() as u64;
        }
        m = m + 1;
    }
    let mut rdc = Rdc { facts, diagnostics: Vec::new(), memo: Vec::new() };
    let mut m: usize = 0;
    while m < inp.modules.len()
        invariant
            rdc.fits(inp),
            m <= inp.modules@.len(),
            forall|mm: int, k: int|
                0 <= mm < m && #[trigger] amb_port(*inp, mm, k) ==> has_diag(
                    rdc.diagnostics@,
                    RdcKind::AmbiguousRaw,
                    mm,
                    inp.modules@[mm].ports@[k].name_span,
                ),
        decreases inp.modules@.len() - m,
    {
        let ghost d0 = rdc.diagnostics@;
        rdc.check_module(inp, m, fuel);
        proof {
            assert forall|mm: int, k: int|
                0 <= mm < m + 1 && #[trigger] amb_port(*inp, mm, k) implies has_diag(
                    rdc.diagnostics@,
                    RdcKind::AmbiguousRaw,
                    mm,
                    inp.modules@[mm].ports@[k].name_span,
                ) by {
                if mm < m {
                    lemma_has_diag_kept(d0, rdc.diagnostics@, RdcKind::AmbiguousRaw, mm, inp.modules@[mm].ports@[k].name_span);
                }
            }
        }
        m = m + 1;
    }
    rdc.diagnostics
}

/// Some module of `inp` has a raw reset input port named at `span`.
pub open spec fn is_raw_reset_name(inp: RdcInput, span: Span) -> bool {
    exists|m: int, k: int|
        0 <= m < inp.modules@.len() && 0 <= k < inp.modules@[m].ports@.len()
            && (#[trigger] inp.modules@[m].ports@[k]).raw is Some && inp.modules@[m].ports@[k].name_span == span
}

/// The diagnostics of `diags` that are not a W1001 at a raw reset port.
pub open spec fn kept_diags(inp: RdcInput, diags: Seq<ResolveDiag>) -> Seq<ResolveDiag>
    decreases diags.len(),
{
    if diags.len() == 0 {
        Seq::empty()
    } else {
        let d = diags.last();
        kept_diags(inp, diags.drop_last()) + if d.code == ResolveCode::W1001 && is_raw_reset_name(inp, d.span) {
            Seq::empty()
        } else {
            seq![d]
        }
    }
}

fn raw_reset_name(inp: &RdcInput, span: Span) -> (r: bool)
    ensures
        r == is_raw_reset_name(*inp, span),
{
    let mut m: usize = 0;
    while m < inp.modules.len()
        invariant
            m <= inp.modules@.len(),
            forall|a: int, k: int|
                0 <= a < m && 0 <= k < inp.modules@[a].ports@.len() ==> !((#[trigger] inp.modules@[a].ports@[k]).raw
                    is Some && inp.modules@[a].ports@[k].name_span == span),
        decreases inp.modules@.len() - m,
    {
        let ports = &inp.modules[m].ports;
        let mut k: usize = 0;
        while k < ports.len()
            invariant
                m < inp.modules@.len(),
                *ports == inp.modules@[m as int].ports,
                k <= ports@.len(),
                forall|j: int| 0 <= j < k ==> !((#[trigger] ports@[j]).raw is Some && ports@[j].name_span == span),
            decreases ports@.len() - k,
        {
            if ports[k].raw.is_some() && ports[k].name_span == span {
                assert(inp.modules@[m as int].ports@[k as int] == ports@[k as int]);
                return true;
            }
            k = k + 1;
        }
        m = m + 1;
    }
    false
}

/// A raw reset port is read implicitly by its release synchronizer, which
/// name-use tracking cannot see: the W1001 (unused) findings at raw reset
/// ports are dropped, everything else is kept in order.
pub fn without_raw_reset_unused(inp: &RdcInput, diags: &Vec<ResolveDiag>) -> (r: Vec<ResolveDiag>)
    ensures
        r@ == kept_diags(*inp, diags@),
{
    let mut out: Vec<ResolveDiag> = Vec::new();
    let mut k: usize = 0;
    while k < diags.len()
        invariant
            k <= diags@.len(),
            out@ == kept_diags(*inp, diags@.subrange(0, k as int)),
        decreases diags@.len() - k,
    {
        proof {
            assert(diags@.subrange(0, k + 1).drop_last() =~= diags@.subrange(0, k as int));
        }
        let d = &diags[k];
        let unused_raw = match d.code {
            ResolveCode::W1001 => raw_reset_name(inp, d.span),
            _ => false,
        };
        if !unused_raw {
            let suggestion = match &d.suggestion {
                Some(s) => Some(s.clone()),
                None => None,
            };
            out.push(
                ResolveDiag {
                    code: d.code,
                    span: d.span,
                    name: d.name.clone(),
                    secondary: d.secondary,
                    suggestion,
                },
            );
        }
        k = k + 1;
        proof {
            assert(out@ =~= kept_diags(*inp, diags@.subrange(0, k as int)));
        }
    }
    assert(diags@.subrange(0, diags@.len() as int) =~= diags@);
    out
}

} // verus!
