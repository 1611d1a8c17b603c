//! Clock-domain inference and clock-domain-crossing checks.
//!
//! Every signal has a domain, but it is rarely written: in a module with
//! one clock every unannotated signal belongs to that clock's domain.
//! The user meets domains only where something is wrong: an ambiguous
//! signal in a module with several clocks (E3010) or a crossing without a
//! synchronizer (E3001).

pub mod ir;
pub mod join;
pub mod tables;
pub mod annotation;
pub mod expr;
pub mod assign;
pub mod walk;
pub mod reg;
pub mod instance;
pub mod module;
pub mod extern_decl;
pub mod rdc;

use vstd::prelude::*;

use crate::ast::{ClockEdge, Span};
use crate::defs::DefId;
use crate::domain::ir::{DomainInput, ResetSpec, TrustLevel, UnitItem};
use crate::domain::tables::{decl_domain, declared, recorded};

verus! {

/// An unresolved domain variable: it collects constraints while
/// inference runs.
#[derive(Clone, Copy, PartialEq, Eq, Debug, Structural)]
pub struct InferVar(pub u32);

/// The clock domain a signal belongs to.
#[derive(Clone, Copy, PartialEq, Eq, Debug, Structural)]
pub enum DomainId {
    /// A definite clock domain: an index into `DomainResult::domains`.
    Explicit(u32),
    /// Independent of any clock: constants, pure combinational values.
    Timeless,
    /// Not resolved yet.
    Unresolved(InferVar),
    /// Error recovery: compatible with every domain.
    Error,
}

/// The clock edge of a domain.
#[derive(Clone, Copy, PartialEq, Eq, Debug, Structural)]
pub struct ClockSpec {
    pub edge: ClockEdge,
}

/// Where a domain comes from: a `domain` declaration, or the implicit
/// domain of an unannotated clock port.
#[derive(Clone, Copy, PartialEq, Eq, Debug, Structural)]
pub enum DomainSource {
    Decl(DefId),
    ClockPort(DefId),
}

/// A clock domain.
#[derive(Clone, Debug)]
pub struct DomainInfo {
    pub name: String,
    pub clock: ClockSpec,
    pub reset: ResetSpec,
    /// Where it is defined: secondary labels of E3001 and E3010 point here.
    pub span: Span,
    pub source: DomainSource,
    /// `trust_level = ...`, where written.
    pub trust: Option<TrustLevel>,
    pub trust_span: Option<Span>,
}

/// A finding of domain inference.
#[derive(Clone, Debug)]
pub enum DomainDiag {
    /// E3001: two definite domains meet in one expression.
    CdcCombinational { left: u32, right: u32, left_span: Span, right_span: Span },
    /// E3001: an assignment, binding or `on`-block write across domains.
    CdcAssign { dst: DomainId, src: DomainId, dst_span: Span, src_span: Span },
    /// E3012: an `on` block's condition or selector reads a foreign domain.
    ForeignRead { read: u32, block: u32, span: Span, trigger_span: Span },
    /// E3010: a signal whose domain cannot be told apart among several
    /// clocks; `candidates` are the clock ports and their domains.
    Ambiguous { name: String, span: Span, in_extern: bool, candidates: Vec<(Span, String)> },
    /// E3002: an annotation names a port that is not a clock.
    AnnotationNotClock { name: String, span: Span },
    /// E3002: a symbolic domain of an extern module that no clock port carries.
    SymbolicWithoutClock { module: String, annotation: String, span: Span },
    /// W3001: a register no `on` block writes.
    NeverWritten { name: String, span: Span },
    /// E3011: a register written from several domains (the writers, in order).
    TwoWriterDomains { name: String, span: Span, writers: Vec<(u32, Span)> },
    /// W3002: `sync()` within one domain.
    SameDomainSync { domain: u32, span: Span },
    /// W3003: `sync()` of a value wider than one bit.
    MultiBitSync { width: u32, span: Span },
    /// W3007: a bidirectional port read without synchronization.
    BidirRead { name: String, span: Span, decl_span: Span },
    /// E3014: one domain key of an instance bound to two clocks.
    ClockConflict { key: u32, prev: DomainId, actual: DomainId, prev_span: Span, span: Span },
    /// E3013: fields of one bundle port in two domains.
    BundleSplit { port: String, port_span: Span, first: DomainId, other: DomainId },
    /// W3005: the pulse-spacing rule of `PulseSync`.
    PulseSyncReminder { span: Span },
    /// W3006: the write-collision rule of `DualPortRam`.
    DualPortRamReminder { span: Span },
    /// W3006: the read-during-write rule of `AsyncDualPortRam`.
    AsyncDualPortRamReminder { span: Span },
}

/// The code of a finding.
pub open spec fn diag_code(d: DomainDiag) -> Seq<char> {
    match d {
        DomainDiag::CdcCombinational { .. } => "E3001"@,
        DomainDiag::CdcAssign { .. } => "E3001"@,
        DomainDiag::ForeignRead { .. } => "E3012"@,
        DomainDiag::Ambiguous { .. } => "E3010"@,
        DomainDiag::AnnotationNotClock { .. } => "E3002"@,
        DomainDiag::SymbolicWithoutClock { .. } => "E3002"@,
        DomainDiag::NeverWritten { .. } => "W3001"@,
        DomainDiag::TwoWriterDomains { .. } => "E3011"@,
        DomainDiag::SameDomainSync { .. } => "W3002"@,
        DomainDiag::MultiBitSync { .. } => "W3003"@,
        DomainDiag::BidirRead { .. } => "W3007"@,
        DomainDiag::ClockConflict { .. } => "E3014"@,
        DomainDiag::BundleSplit { .. } => "E3013"@,
        DomainDiag::PulseSyncReminder { .. } => "W3005"@,
        DomainDiag::DualPortRamReminder { .. } => "W3006"@,
        DomainDiag::AsyncDualPortRamReminder { .. } => "W3006"@,
    }
}

impl DomainDiag {
    /// The diagnostic code.
    pub fn code(&self) -> (r: &'static str)
        ensures
            r@ == diag_code(*self),
    {
        match self {
            DomainDiag::CdcCombinational { .. } => "E3001",
            DomainDiag::CdcAssign { .. } => "E3001",
            DomainDiag::ForeignRead { .. } => "E3012",
            DomainDiag::Ambiguous { .. } => "E3010",
            DomainDiag::AnnotationNotClock { .. } => "E3002",
            DomainDiag::SymbolicWithoutClock { .. } => "E3002",
            DomainDiag::NeverWritten { .. } => "W3001",
            DomainDiag::TwoWriterDomains { .. } => "E3011",
            DomainDiag::SameDomainSync { .. } => "W3002",
            DomainDiag::MultiBitSync { .. } => "W3003",
            DomainDiag::BidirRead { .. } => "W3007",
            DomainDiag::ClockConflict { .. } => "E3014",
            DomainDiag::BundleSplit { .. } => "E3013",
            DomainDiag::PulseSyncReminder { .. } => "W3005",
            DomainDiag::DualPortRamReminder { .. } => "W3006",
            DomainDiag::AsyncDualPortRamReminder { .. } => "W3006",
        }
    }
}

/// `d` refers only to existing domains and variables.
pub open spec fn valid_dom(d: DomainId, nd: int, nv: int) -> bool {
    match d {
        DomainId::Explicit(id) => id < nd,
        DomainId::Unresolved(v) => v.0 < nv,
        _ => true,
    }
}

/// `new` begins with `old`.
pub open spec fn extends(new: Seq<DomainDiag>, old: Seq<DomainDiag>) -> bool {
    &&& old.len() <= new.len()
    &&& forall|i: int| 0 <= i < old.len() ==> #[trigger] new[i] == old[i]
}

/// `expr_frame` composes.
pub proof fn lemma_expr_frame_trans(a: &Inferencer, b: &Inferencer, c: &Inferencer)
    requires
        b.expr_frame(a),
        c.expr_frame(b),
    ensures
        c.expr_frame(a),
{
    assert forall|i: int| 0 <= i < a.diagnostics@.len() implies #[trigger] c.diagnostics@[i]
        == a.diagnostics@[i] by {
        assert(b.diagnostics@[i] == a.diagnostics@[i]);
    }
    assert forall|i: int|
        0 <= i < a.expr_domains@.len() && (#[trigger] a.expr_domains@[i]) is Some implies c.expr_domains@[i]
        == a.expr_domains@[i] by {
        assert(b.expr_domains@[i] == a.expr_domains@[i]);
    }
}

/// `walk_frame` composes, and contains `expr_frame`.
pub proof fn lemma_walk_frame_trans(a: &Inferencer, b: &Inferencer, c: &Inferencer)
    requires
        b.walk_frame(a) || b.expr_frame(a),
        c.walk_frame(b) || c.expr_frame(b),
    ensures
        c.walk_frame(a),
{
    assert forall|i: int| 0 <= i < a.diagnostics@.len() implies #[trigger] c.diagnostics@[i]
        == a.diagnostics@[i] by {
        assert(b.diagnostics@[i] == a.diagnostics@[i]);
    }
    assert forall|i: int|
        0 <= i < a.expr_domains@.len() && (#[trigger] a.expr_domains@[i]) is Some implies c.expr_domains@[i]
        == a.expr_domains@[i] by {
        assert(b.expr_domains@[i] == a.expr_domains@[i]);
    }
}

/// The inference state.
pub struct Inferencer {
    pub domains: Vec<DomainInfo>,
    /// By definition index: the domain a `domain` declaration opened.
    pub by_decl: Vec<Option<u32>>,
    /// By definition index: the implicit domain of an unannotated clock port.
    pub by_clock_port: Vec<Option<u32>>,
    /// By definition index: the inferred domain of a signal.
    pub signal_domains: Vec<Option<DomainId>>,
    /// By expression index: the memoized domain.
    pub expr_domains: Vec<Option<DomainId>>,
    /// Bindings of the domain variables.
    pub vars: Vec<Option<DomainId>>,
    /// By instance definition: target port name to expected domain.
    pub instance_ports: Vec<Option<Vec<(String, DomainId)>>>,
    pub diagnostics: Vec<DomainDiag>,
    /// The domain of unannotated signals in the current module.
    pub default_domain: DomainId,
    /// The current module has several clock ports.
    pub multi_clock: bool,
    /// E3010 candidates: clock port spans and their shown domains.
    pub clock_candidates: Vec<(Span, String)>,
    /// By definition index: a bidirectional port of the current module.
    pub bidir_ports: Vec<bool>,
    /// The source operand of a `sync()` is being evaluated.
    pub in_sync_source: bool,
    /// A contract expression is being evaluated.
    pub in_contract: bool,
    /// By definition index: a domain declaration carried by a clock port
    /// of the current module.
    pub anchored: Vec<bool>,
}

impl Inferencer {
    pub open spec fn nd(&self) -> int {
        self.domains@.len() as int
    }

    pub open spec fn nv(&self) -> int {
        self.vars@.len() as int
    }

    pub open spec fn valid(&self, d: DomainId) -> bool {
        valid_dom(d, self.nd(), self.nv())
    }

    /// Every stored domain refers to existing domains and variables.
    pub open spec fn consistent(&self) -> bool {
        &&& self.nd() <= u32::MAX
        &&& self.nv() <= u32::MAX
        &&& forall|i: int|
            0 <= i < self.by_decl@.len() ==> ((#[trigger] self.by_decl@[i]) matches Some(id) ==> id
                < self.nd())
        &&& forall|i: int|
            0 <= i < self.by_clock_port@.len() ==> ((#[trigger] self.by_clock_port@[i]) matches Some(
                id,
            ) ==> id < self.nd())
        &&& forall|i: int|
            0 <= i < self.signal_domains@.len() ==> ((#[trigger] self.signal_domains@[i]) matches Some(
                d,
            ) ==> self.valid(d))
        &&& forall|i: int|
            0 <= i < self.expr_domains@.len() ==> ((#[trigger] self.expr_domains@[i]) matches Some(
                d,
            ) ==> self.valid(d))
        &&& forall|i: int|
            0 <= i < self.nv() ==> ((#[trigger] self.vars@[i]) matches Some(d) ==> self.valid(d))
        &&& forall|i: int|
            0 <= i < self.instance_ports@.len() ==> ((#[trigger] self.instance_ports@[i]) matches Some(
                m,
            ) ==> forall|j: int| 0 <= j < m@.len() ==> self.valid((#[trigger] m@[j]).1))
        &&& self.valid(self.default_domain)
    }

    /// The tables are sized for `inp`.
    pub open spec fn sized(&self, inp: &DomainInput) -> bool {
        let n = inp.defs@.len();
        &&& self.by_decl@.len() == n
        &&& self.by_clock_port@.len() == n
        &&& self.signal_domains@.len() == n
        &&& self.instance_ports@.len() == n
        &&& self.bidir_ports@.len() == n
        &&& self.anchored@.len() == n
        &&& self.expr_domains@.len() == inp.exprs@.len()
    }

    /// The state is sized for `inp` and every stored domain is valid.
    pub open spec fn wf(&self, inp: &DomainInput) -> bool {
        self.sized(inp) && self.consistent()
    }

    /// Only the variables and the findings may differ from `old`.
    pub open spec fn frame(&self, old: &Inferencer) -> bool {
        &&& self.domains == old.domains
        &&& self.by_decl == old.by_decl
        &&& self.by_clock_port == old.by_clock_port
        &&& self.signal_domains == old.signal_domains
        &&& self.expr_domains == old.expr_domains
        &&& self.instance_ports == old.instance_ports
        &&& self.default_domain == old.default_domain
        &&& self.multi_clock == old.multi_clock
        &&& self.clock_candidates == old.clock_candidates
        &&& self.bidir_ports == old.bidir_ports
        &&& self.in_sync_source == old.in_sync_source
        &&& self.in_contract == old.in_contract
        &&& self.anchored == old.anchored
    }

    /// `self` extends `old`: no domain or variable disappears and earlier
    /// findings stay as they were.
    pub open spec fn grows(&self, old: &Inferencer) -> bool {
        &&& old.nd() <= self.nd()
        &&& old.nv() <= self.nv()
        &&& forall|i: int| 0 <= i < old.nd() ==> #[trigger] self.domains@[i] == old.domains@[i]
        &&& extends(self.diagnostics@, old.diagnostics@)
    }

    /// Nothing but the findings may differ from `old`.
    pub open spec fn same_tables(&self, old: &Inferencer) -> bool {
        self.frame(old) && self.vars == old.vars
    }

    /// What evaluating expressions may change: variables, findings, the
    /// expression memo (never an entry already made) and the `sync()`
    /// source flag.
    pub open spec fn expr_frame(&self, old: &Inferencer) -> bool {
        &&& self.domains == old.domains
        &&& self.by_decl == old.by_decl
        &&& self.by_clock_port == old.by_clock_port
        &&& self.signal_domains == old.signal_domains
        &&& self.instance_ports == old.instance_ports
        &&& self.default_domain == old.default_domain
        &&& self.multi_clock == old.multi_clock
        &&& self.clock_candidates == old.clock_candidates
        &&& self.bidir_ports == old.bidir_ports
        &&& self.in_contract == old.in_contract
        &&& self.anchored == old.anchored
        &&& self.expr_domains@.len() == old.expr_domains@.len()
        &&& forall|i: int|
            0 <= i < old.expr_domains@.len() && (#[trigger] old.expr_domains@[i]) is Some
                ==> self.expr_domains@[i] == old.expr_domains@[i]
        &&& self.grows(old)
    }

    /// What walking statements may change beyond `expr_frame`: the
    /// domains of signals and the port maps of instances.
    pub open spec fn walk_frame(&self, old: &Inferencer) -> bool {
        &&& self.domains == old.domains
        &&& self.by_decl == old.by_decl
        &&& self.by_clock_port == old.by_clock_port
        &&& self.default_domain == old.default_domain
        &&& self.multi_clock == old.multi_clock
        &&& self.clock_candidates == old.clock_candidates
        &&& self.bidir_ports == old.bidir_ports
        &&& self.in_contract == old.in_contract
        &&& self.anchored == old.anchored
        &&& self.signal_domains@.len() == old.signal_domains@.len()
        &&& forall|i: int|
            0 <= i < old.signal_domains@.len() && (#[trigger] old.signal_domains@[i]) is Some
                ==> self.signal_domains@[i] is Some
        &&& self.instance_ports@.len() == old.instance_ports@.len()
        &&& self.expr_domains@.len() == old.expr_domains@.len()
        &&& forall|i: int|
            0 <= i < old.expr_domains@.len() && (#[trigger] old.expr_domains@[i]) is Some
                ==> self.expr_domains@[i] == old.expr_domains@[i]
        &&& self.grows(old)
    }

    /// A fresh state for `inp`.
    pub fn new(inp: &DomainInput) -> (r: Inferencer)
        ensures
            r.wf(inp),
            r.domains@.len() == 0,
            r.vars@.len() == 0,
            r.diagnostics@.len() == 0,
            forall|i: int| 0 <= i < inp.defs@.len() ==> r.signal_domains@[i] is None,
    {
        let n = inp.defs.len();
        let mut by_decl: Vec<Option<u32>> = Vec::new();
        let mut by_clock_port: Vec<Option<u32>> = Vec::new();
        let mut signal_domains: Vec<Option<DomainId>> = Vec::new();
        let mut instance_ports: Vec<Option<Vec<(String, DomainId)>>> = Vec::new();
        let mut bidir_ports: Vec<bool> = Vec::new();
        let mut anchored: Vec<bool> = Vec::new();
        let mut i: usize = 0;
        while i < n
            invariant
                n == inp.defs@.len(),
                i <= n,
                by_decl@.len() == i,
                by_clock_port@.len() == i,
                signal_domains@.len() == i,
                instance_ports@.len() == i,
                bidir_ports@.len() == i,
                anchored@.len() == i,
                forall|k: int| 0 <= k < i ==> by_decl@[k] is None,
                forall|k: int| 0 <= k < i ==> by_clock_port@[k] is None,
                forall|k: int| 0 <= k < i ==> signal_domains@[k] is None,
                forall|k: int| 0 <= k < i ==> instance_ports@[k] is None,
            decreases n - i,
        {
            by_decl.push(None);
            by_clock_port.push(None);
            signal_domains.push(None);
            instance_ports.push(None);
            bidir_ports.push(false);
            anchored.push(false);
            i = i + 1;
        }
        let mut expr_domains: Vec<Option<DomainId>> = Vec::new();
        let mut j: usize = 0;
        while j < inp.exprs.len()
            invariant
                j <= inp.exprs@.len(),
                expr_domains@.len() == j,
                forall|k: int| 0 <= k < j ==> expr_domains@[k] is None,
            decreases inp.exprs@.len() - j,
        {
            expr_domains.push(None);
            j = j + 1;
        }
        Inferencer {
            domains: Vec::new(),
            by_decl,
            by_clock_port,
            signal_domains,
            expr_domains,
            vars: Vec::new(),
            instance_ports,
            diagnostics: Vec::new(),
            default_domain: DomainId::Timeless,
            multi_clock: false,
            clock_candidates: Vec::new(),
            bidir_ports,
            in_sync_source: false,
            in_contract: false,
            anchored,
        }
    }
}

/// What domain inference produces.
pub struct DomainResult {
    pub domains: Vec<DomainInfo>,
    /// By definition index: the inferred domain of each signal.
    pub signal_domains: Vec<Option<DomainId>>,
    /// By definition index: the domain a `domain` declaration opened.
    pub decl_domains: Vec<Option<u32>>,
    pub diagnostics: Vec<DomainDiag>,
}

impl DomainResult {
    /// The codes of the findings, in the order they were made.
    pub fn codes(&self) -> (r: Vec<&'static str>)
        ensures
            r@.len() == self.diagnostics@.len(),
            forall|i: int| 0 <= i < r@.len() ==> (#[trigger] r@[i])@ == diag_code(self.diagnostics@[i]),
    {
        let mut r: Vec<&'static str> = Vec::new();
        let mut i: usize = 0;
        while i < self.diagnostics.len()
            invariant
                i <= self.diagnostics@.len(),
                r@.len() == i,
                forall|j: int| 0 <= j < i ==> (#[trigger] r@[j])@ == diag_code(self.diagnostics@[j]),
            decreases self.diagnostics@.len() - i,
        {
            r.push(self.diagnostics[i].code());
            i = i + 1;
        }
        r
    }

    /// The inferred domain of a signal.
    pub fn domain_of(&self, def: DefId) -> (r: Option<DomainId>)
        ensures
            r == if (def.0 as int) < self.signal_domains@.len() {
                self.signal_domains@[def.0 as int]
            } else {
                None
            },
    {
        if (def.0 as usize) < self.signal_domains.len() {
            self.signal_domains[def.0 as usize]
        } else {
            None
        }
    }

    /// The name of a signal's domain, where it is definite.
    pub fn domain_name_of(&self, def: DefId) -> (r: Option<String>)
        ensures
            match self.domain_of_spec(def) {
                Some(DomainId::Explicit(id)) => if (id as int) < self.domains@.len() {
                    r matches Some(n) && n@ == self.domains@[id as int].name@
                } else {
                    r is None
                },
                _ => r is None,
            },
    {
        match self.domain_of(def) {
            Some(DomainId::Explicit(id)) => {
                if (id as usize) < self.domains.len() {
                    Some(self.domains[id as usize].name.clone())
                } else {
                    None
                }
            },
            _ => None,
        }
    }

    pub open spec fn domain_of_spec(&self, def: DefId) -> Option<DomainId> {
        if (def.0 as int) < self.signal_domains@.len() {
            self.signal_domains@[def.0 as int]
        } else {
            None
        }
    }
}

/// Every register of a module item has a domain in `sd`.
pub open spec fn regs_have_domains(item: UnitItem, sd: Seq<Option<DomainId>>) -> bool {
    match item {
        UnitItem::Module(m) => forall|x: int|
            0 <= x < m.body@.len() ==> (crate::domain::module::reg_def(#[trigger] m.body@[x]) matches Some(d) ==> sd[d as int] is Some),
        _ => true,
    }
}

/// Infers the domains of every module of the file and checks every
/// crossing: the `domain` declarations first, then the modules and
/// extern modules in order.
pub fn infer_domains(inp: &DomainInput) -> (r: DomainResult)
    requires
        inp.wf(),
    ensures
        r.signal_domains@.len() == inp.defs@.len(),
        r.decl_domains@.len() == inp.defs@.len(),
        r.domains@.len() >= declared(inp.domain_decls@).len(),
        forall|i: int|
            0 <= i < declared(inp.domain_decls@).len() ==> decl_domain(
                #[trigger] r.domains@[i],
                declared(inp.domain_decls@)[i],
            ),
        forall|i: int|
            0 <= i < declared(inp.domain_decls@).len() ==> recorded(
                r.decl_domains@,
                #[trigger] declared(inp.domain_decls@)[i],
            ),
        forall|d: int|
            0 <= d < inp.defs@.len() ==> ((#[trigger] r.decl_domains@[d]) matches Some(id) ==> id
                < r.domains@.len() && r.domains@[id as int].source == DomainSource::Decl(
                DefId(d as u32),
            )),
        forall|d: int|
            0 <= d < inp.defs@.len() ==> ((#[trigger] r.signal_domains@[d]) matches Some(
                DomainId::Explicit(id),
            ) ==> id < r.domains@.len()),
        forall|k: int| 0 <= k < inp.items@.len() ==> regs_have_domains(#[trigger] inp.items@[k], r.signal_domains@),
{
    let mut inf = Inferencer::new(inp);
    inf.collect_domain_decls(inp);
    let ghost s0 = inf;
    let mut k: usize = 0;
    while k < inp.items.len()
        invariant
            inp.wf(),
            inf.wf(inp),
            inf.grows(&s0),
            inf.by_decl == s0.by_decl,
            k <= inp.items@.len(),
            forall|j: int| 0 <= j < k ==> regs_have_domains(#[trigger] inp.items@[j], inf.signal_domains@),
        decreases inp.items@.len() - k,
    {
        let ghost t0 = inf;
        assert(inp.item_ok(inp.items@[k as int]));
        match &inp.items[k] {
            UnitItem::Module(m) => {
                inf.infer_module(inp, m);
            },
            UnitItem::Extern(x) => {
                inf.check_extern_decl(inp, x);
            },
            UnitItem::Other => {},
        }
        proof {
            assert forall|i: int| 0 <= i < s0.diagnostics@.len() implies #[trigger] inf.diagnostics@[i]
                == s0.diagnostics@[i] by {
                assert(t0.diagnostics@[i] == s0.diagnostics@[i]);
            }
            assert forall|i: int| 0 <= i < s0.nd() implies #[trigger] inf.domains@[i]
                == s0.domains@[i] by {
                assert(t0.domains@[i] == s0.domains@[i]);
            }
            assert forall|j: int| 0 <= j < k + 1 implies regs_have_domains(#[trigger] inp.items@[j], inf.signal_domains@) by {
                if j < k {
                    if let UnitItem::Module(m) = inp.items@[j] {
                        assert(inp.item_ok(inp.items@[j]));
                        assert forall|x: int| 0 <= x < m.body@.len() implies (crate::domain::module::reg_def(#[trigger] m.body@[x]) matches Some(d)
                            ==> inf.signal_domains@[d as int] is Some) by {
                            if let Some(d) = crate::domain::module::reg_def(m.body@[x]) {
                                assert(inp.stmt_ok(m.body@[x]));
                                assert(t0.signal_domains@[d as int] is Some);
                            }
                        }
                    }
                }
            }
        }
        k = k + 1;
    }
    DomainResult {
        domains: inf.domains,
        signal_domains: inf.signal_domains,
        decl_domains: inf.by_decl,
        diagnostics: inf.diagnostics,
    }
}

} // verus!
