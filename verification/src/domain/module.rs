//! Module inference: clock scan (K2), port assignment (K1, K2, K3), then
//! bundles, registers, the body and the contracts.

use vstd::prelude::*;

use crate::ast::Span;
use crate::domain::annotation::{annotation_spec, signal_annotation_spec, trust_alias_spec};
use crate::domain::instance::is_clock_port;
use crate::defs::PortDir;
use crate::domain::ir::{DomainInput, ModuleIr, PortIr, Stmt};
use crate::domain::reg::{block_writes, body_writers, collect_writes, distinct_writers, on_trigger_spec, reg_domain_spec, writer_blocks};
use crate::domain::{extends, lemma_walk_frame_trans, DomainDiag, DomainId, Inferencer};
use crate::text::eq_str;

verus! {

/// Statement `st` is an `on` block that writes register `d`.
pub open spec fn on_writes(inp: DomainInput, st: Stmt, d: u32) -> bool {
    st matches Stmt::On { body: b, .. } && block_writes(inp, b as int).contains(d)
}

/// Some `on` block of `body` writes register `d`.
pub open spec fn written_in(inp: DomainInput, body: Seq<Stmt>, d: u32) -> bool {
    exists|j: int| 0 <= j < body.len() && on_writes(inp, #[trigger] body[j], d)
}

/// Statement `x` of `body` is an unannotated register, the only register
/// statement of its definition.
pub open spec fn lone_unannotated_reg(body: Seq<Stmt>, x: int) -> bool {
    &&& 0 <= x < body.len()
    &&& body[x] matches Stmt::Reg(r) && r.def is Some && r.domain is None
    &&& forall|y: int| 0 <= y < body.len() && y != x ==> reg_def(#[trigger] body[y]) != reg_def(body[x])
}

/// Some unannotated register statement of `body` declares definition `t`.
pub open spec fn unannotated_def(body: Seq<Stmt>, t: int) -> bool {
    exists|y: int| 0 <= y < body.len() && (#[trigger] body[y] matches Stmt::Reg(r) && r.def == Some(t as u32) && r.domain is None)
}

/// The domain of the unannotated register of statement `x` comes from
/// the blocks of `ws` that write it (`reg_domain_spec`), and two writer
/// domains are E3011 (among the findings from index `from` on).
pub open spec fn reg_exact(body: Seq<Stmt>, x: int, sd: Seq<Option<DomainId>>, vars: Seq<Option<DomainId>>, diags: Seq<DomainDiag>, from: int, ws: Seq<(u32, DomainId, Span)>) -> bool {
    match body[x] {
        Stmt::Reg(r) => {
            let d = r.def.unwrap();
            let bl = writer_blocks(ws, d);
            &&& sd[d as int] == Some(reg_domain_spec(vars, bl))
            &&& (bl.len() > 0 && distinct_writers(vars, bl).len() > 1) ==> exists|i: int|
                from <= i < diags.len() && (#[trigger] diags[i] matches DomainDiag::TwoWriterDomains { name, span, writers }
                && name@ == r.name@ && span == r.span && writers@ == distinct_writers(vars, bl))
        },
        _ => true,
    }
}

/// Every lone unannotated register of `body` got its domain from its
/// writers (`reg_exact`), the trigger domains read with signal domains
/// `sd1` that agree with `sd` but at unannotated registers.
pub open spec fn regs_exact(inp: DomainInput, body: Seq<Stmt>, sd: Seq<Option<DomainId>>, vars: Seq<Option<DomainId>>, diags: Seq<DomainDiag>, from: int) -> bool {
    exists|sd1: Seq<Option<DomainId>>| #![trigger body_writers(inp, sd1, body)]
        sd1.len() == sd.len() && (forall|t: int| 0 <= t < sd1.len() && !unannotated_def(body, t) ==> #[trigger] sd1[t] == sd[t])
            && forall|x: int| lone_unannotated_reg(body, x) ==> #[trigger] reg_exact(body, x, sd, vars, diags, from, body_writers(inp, sd1, body))
}

/// What inference gave the unannotated register of statement `x`: where
/// no `on` block writes it, `Timeless` and W3001 (among the findings from
/// index `from` on); where some does, a domain other than `Timeless`.
pub open spec fn reg_outcome(inp: DomainInput, body: Seq<Stmt>, x: int, sd: Seq<Option<DomainId>>, diags: Seq<DomainDiag>, from: int) -> bool {
    match body[x] {
        Stmt::Reg(r) => {
            let d = r.def.unwrap();
            if !written_in(inp, body, d) {
                &&& sd[d as int] == Some(DomainId::Timeless)
                &&& exists|i: int| from <= i < diags.len() && (#[trigger] diags[i] matches DomainDiag::NeverWritten { name, span }
                    && name@ == r.name@ && span == r.span)
            } else {
                sd[d as int] is Some && sd[d as int] != Some(DomainId::Timeless)
            }
        },
        _ => true,
    }
}


/// The domain a bundle field port settled on, where it is definite
/// enough to compare (not `Error`).
pub open spec fn field_dom(s: Inferencer, p: PortIr) -> Option<DomainId> {
    match (p.bundle, p.def) {
        (Some(_), Some(d)) => match s.signal_domains@[d as int] {
            Some(dom) => if dom != DomainId::Error {
                Some(dom)
            } else {
                None
            },
            None => None,
        },
        _ => None,
    }
}

/// Two fields of bundle `name` settled on different domains.
pub open spec fn bundle_split(s: Inferencer, ports: Seq<PortIr>, name: Seq<char>) -> bool {
    exists|i: int, j: int|
        0 <= i < ports.len() && 0 <= j < ports.len() && (#[trigger] field_dom(s, ports[i])) is Some && (#[trigger] field_dom(
            s,
            ports[j],
        )) is Some && field_dom(s, ports[i]) != field_dom(s, ports[j]) && ports[i].bundle.unwrap().port@ == name
            && ports[j].bundle.unwrap().port@ == name
}

/// Some field of bundle `name` settled on `dom`.
pub open spec fn field_with(s: Inferencer, ports: Seq<PortIr>, name: Seq<char>, dom: DomainId) -> bool {
    exists|j: int| 0 <= j < ports.len() && #[trigger] field_dom(s, ports[j]) == Some(dom) && ports[j].bundle.unwrap().port@ == name
}

/// The clock ports of a port list, in order.
pub open spec fn clock_ports(inp: DomainInput, ports: Seq<PortIr>) -> Seq<PortIr> {
    ports.filter(|p: PortIr| is_clock_port(inp, p))
}

/// The domain port assignment gives a non-clock port: its annotation
/// (K1, K11), else the module's single clock (K2), else `Error` with
/// E3010 among several clocks (K3).
pub open spec fn port_domain_spec(s: Inferencer, inp: DomainInput, p: PortIr) -> DomainId {
    if p.is_reset && p.dir == PortDir::In {
        DomainId::Timeless
    } else {
        match p.domain {
        Some(a) => signal_annotation_spec(s, inp, a.def).0,
            None => if s.multi_clock {
                DomainId::Error
            } else {
                s.default_domain
            },
        }
    }
}

/// The definition a register statement declares.
pub open spec fn reg_def(s: Stmt) -> Option<u32> {
    match s {
        Stmt::Reg(r) => r.def,
        _ => None,
    }
}

impl Inferencer {
    fn clear_anchored(&mut self, inp: &DomainInput)
        requires
            old(self).wf(inp),
        ensures
            final(self).wf(inp),
            forall|i: int| 0 <= i < inp.defs@.len() ==> !#[trigger] final(self).anchored@[i],
            final(self).anchored@.len() == old(self).anchored@.len(),
            final(self).domains == old(self).domains,
            final(self).by_decl == old(self).by_decl,
            final(self).by_clock_port == old(self).by_clock_port,
            final(self).signal_domains == old(self).signal_domains,
            final(self).expr_domains == old(self).expr_domains,
            final(self).instance_ports == old(self).instance_ports,
            final(self).vars == old(self).vars,
            final(self).diagnostics == old(self).diagnostics,
            final(self).default_domain == old(self).default_domain,
            final(self).multi_clock == old(self).multi_clock,
            final(self).clock_candidates == old(self).clock_candidates,
            final(self).in_contract == old(self).in_contract,
            final(self).in_sync_source == old(self).in_sync_source,
            final(self).bidir_ports == old(self).bidir_ports,
    {
        let mut i: usize = 0;
        while i < inp.defs.len()
            invariant
                self.wf(inp),
                i <= inp.defs@.len(),
                forall|j: int| 0 <= j < i ==> !#[trigger] self.anchored@[j],
                self.anchored@.len() == old(self).anchored@.len(),
                self.domains == old(self).domains,
                self.by_decl == old(self).by_decl,
                self.by_clock_port == old(self).by_clock_port,
                self.signal_domains == old(self).signal_domains,
                self.expr_domains == old(self).expr_domains,
                self.instance_ports == old(self).instance_ports,
                self.vars == old(self).vars,
                self.diagnostics == old(self).diagnostics,
                self.default_domain == old(self).default_domain,
                self.multi_clock == old(self).multi_clock,
                self.clock_candidates == old(self).clock_candidates,
                self.in_contract == old(self).in_contract,
                self.in_sync_source == old(self).in_sync_source,
                self.bidir_ports == old(self).bidir_ports,
            decreases inp.defs@.len() - i,
        {
            self.anchored.set(i, false);
            i = i + 1;
        }
    }

    fn clear_bidir(&mut self, inp: &DomainInput)
        requires
            old(self).wf(inp),
        ensures
            final(self).wf(inp),
            forall|i: int| 0 <= i < inp.defs@.len() ==> !#[trigger] final(self).bidir_ports@[i],
            final(self).bidir_ports@.len() == old(self).bidir_ports@.len(),
            final(self).domains == old(self).domains,
            final(self).by_decl == old(self).by_decl,
            final(self).by_clock_port == old(self).by_clock_port,
            final(self).signal_domains == old(self).signal_domains,
            final(self).expr_domains == old(self).expr_domains,
            final(self).instance_ports == old(self).instance_ports,
            final(self).vars == old(self).vars,
            final(self).diagnostics == old(self).diagnostics,
            final(self).default_domain == old(self).default_domain,
            final(self).multi_clock == old(self).multi_clock,
            final(self).clock_candidates == old(self).clock_candidates,
            final(self).in_contract == old(self).in_contract,
            final(self).in_sync_source == old(self).in_sync_source,
            final(self).anchored == old(self).anchored,
    {
        let mut i: usize = 0;
        while i < inp.defs.len()
            invariant
                self.wf(inp),
                i <= inp.defs@.len(),
                forall|j: int| 0 <= j < i ==> !#[trigger] self.bidir_ports@[j],
                self.bidir_ports@.len() == old(self).bidir_ports@.len(),
                self.domains == old(self).domains,
                self.by_decl == old(self).by_decl,
                self.by_clock_port == old(self).by_clock_port,
                self.signal_domains == old(self).signal_domains,
                self.expr_domains == old(self).expr_domains,
                self.instance_ports == old(self).instance_ports,
                self.vars == old(self).vars,
                self.diagnostics == old(self).diagnostics,
                self.default_domain == old(self).default_domain,
                self.multi_clock == old(self).multi_clock,
                self.clock_candidates == old(self).clock_candidates,
                self.in_contract == old(self).in_contract,
                self.in_sync_source == old(self).in_sync_source,
                self.anchored == old(self).anchored,
            decreases inp.defs@.len() - i,
        {
            self.bidir_ports.set(i, false);
            i = i + 1;
        }
    }

    /// Step one: clock ports take their domains (an annotation, K1, or an
    /// implicit domain, K2); the module's default domain and whether it
    /// has several clocks are set.
    pub fn scan_clock_ports(&mut self, inp: &DomainInput, m: &ModuleIr)
        requires
            inp.wf(),
            old(self).wf(inp),
            inp.module_ok(*m),
        ensures
            forall|i: int| 0 <= i < old(self).signal_domains@.len() && (#[trigger] old(self).signal_domains@[i]) is Some
                ==> final(self).signal_domains@[i] is Some,
            final(self).wf(inp),
            final(self).grows(old(self)),
            final(self).vars == old(self).vars,
            final(self).by_decl == old(self).by_decl,
            final(self).expr_domains == old(self).expr_domains,
            final(self).instance_ports == old(self).instance_ports,
            final(self).bidir_ports == old(self).bidir_ports,
            final(self).in_contract == old(self).in_contract,
            final(self).domains@.len() >= old(self).domains@.len(),
            forall|i: int| 0 <= i < old(self).domains@.len() ==> #[trigger] final(self).domains@[i] == old(self).domains@[i],
            final(self).multi_clock == (clock_ports(*inp, m.ports@).len() > 1),
            clock_ports(*inp, m.ports@).len() == 0 ==> final(self).default_domain == DomainId::Timeless,
            clock_ports(*inp, m.ports@).len() > 1 ==> final(self).default_domain == DomainId::Error,
            clock_ports(*inp, m.ports@).len() == 1 ==> Some(final(self).default_domain)
                == final(self).signal_domains@[clock_ports(*inp, m.ports@)[0].def.unwrap() as int],
            forall|i: int|
                0 <= i < inp.defs@.len() && !inp.defs@[i].is_clock ==> #[trigger] final(self).signal_domains@[i]
                    == old(self).signal_domains@[i],
    {
        let ghost ports = m.ports@;
        let ghost s0 = *self;
        self.clock_candidates.clear();
        self.clear_anchored(inp);
        let mut count: usize = 0;
        let mut first_def: u32 = 0;
        let mut k: usize = 0;
        assert(clock_ports(*inp, ports.subrange(0, 0)) =~= Seq::<PortIr>::empty()) by {
            reveal_with_fuel(Seq::filter, 1);
        }
        while k < m.ports.len()
            invariant
                inp.wf(),
                inp.module_ok(*m),
                ports == m.ports@,
                self.wf(inp),
                k <= ports.len(),
                count == clock_ports(*inp, ports.subrange(0, k as int)).len(),
                count <= k,
                count >= 1 ==> first_def == clock_ports(*inp, ports.subrange(0, k as int))[0].def.unwrap(),
                count >= 1 ==> first_def < inp.defs@.len() && inp.defs@[first_def as int].is_clock,
                count >= 1 ==> self.signal_domains@[first_def as int] is Some,
                self.grows(&s0),
                self.vars == s0.vars,
                self.by_decl == s0.by_decl,
                self.expr_domains == s0.expr_domains,
                self.instance_ports == s0.instance_ports,
                self.bidir_ports == s0.bidir_ports,
                self.in_contract == s0.in_contract,
                self.signal_domains@.len() == s0.signal_domains@.len(),
                forall|i: int| 0 <= i < s0.signal_domains@.len() && (#[trigger] s0.signal_domains@[i]) is Some
                    ==> self.signal_domains@[i] is Some,
                self.domains@.len() >= s0.domains@.len(),
                forall|i: int| 0 <= i < s0.domains@.len() ==> #[trigger] self.domains@[i] == s0.domains@[i],
                forall|i: int|
                    0 <= i < inp.defs@.len() && !inp.defs@[i].is_clock ==> #[trigger] self.signal_domains@[i]
                        == s0.signal_domains@[i],
                forall|j: int| k <= j < ports.len() ==> (#[trigger] ports[j]).def != Some(first_def) || count == 0,
            decreases ports.len() - k,
        {
            let ghost pre = ports.subrange(0, k as int);
            let ghost post = ports.subrange(0, k + 1);
            proof {
                assert(post.drop_last() =~= pre);
                assert(inp.port_ok(ports[k as int]));
            }
            let p = &m.ports[k];
            let ghost t0 = *self;
            match p.def {
                Some(def) if inp.defs[def as usize].is_clock => {
                    assert(clock_ports(*inp, post) == clock_ports(*inp, pre).push(*p)) by {
                        reveal_with_fuel(Seq::filter, 1);
                    }
                    let dom = match &p.domain {
                        Some(ann) => {
                            match ann.def {
                                Some(d) => {
                                    self.anchored.set(d as usize, true);
                                },
                                None => {},
                            }
                            self.annotation_domain(inp, ann)
                        },
                        None => self.implicit_clock_domain(inp, def, &p.name, p.span),
                    };
                    let ghost tset = *self;
                    self.signal_domains.set(def as usize, Some(dom));
                    proof {
                        assert forall|i: int| 0 <= i < s0.signal_domains@.len() && (#[trigger] s0.signal_domains@[i]) is Some
                            implies self.signal_domains@[i] is Some by {
                            if i != def {
                                assert(self.signal_domains@[i] == tset.signal_domains@[i]);
                            }
                        }
                    }
                    let shown = self.display(dom);
                    self.clock_candidates.push((p.span, shown));
                    if count == 0 {
                        first_def = def;
                    }
                    count = count + 1;
                    proof {
                        assert forall|i: int| 0 <= i < self.signal_domains@.len() implies ((#[trigger] self.signal_domains@[i]) matches Some(
                            x,
                        ) ==> self.valid(x)) by {
                            if i != def {
                                assert(self.signal_domains@[i] == t0.signal_domains@[i]
                                    || self.signal_domains@[i] == t0.signal_domains@[i]);
                            }
                        }
                        assert forall|j: int| k + 1 <= j < ports.len() implies (#[trigger] ports[j]).def
                            != Some(first_def) || count == 0 by {
                            assert(inp.ports_ok(ports));
                            if count == 1 {
                                assert(ports[k as int].def == Some(first_def));
                            }
                        }
                    }
                },
                _ => {
                    assert(clock_ports(*inp, post) == clock_ports(*inp, pre)) by {
                        reveal_with_fuel(Seq::filter, 1);
                    }
                },
            }
            k = k + 1;
        }
        assert(ports.subrange(0, ports.len() as int) =~= ports);
        self.multi_clock = count > 1;
        self.default_domain = if count == 0 {
            DomainId::Timeless
        } else if count == 1 {
            match self.signal_domains[first_def as usize] {
                Some(d) => d,
                None => DomainId::Error,
            }
        } else {
            DomainId::Error
        };
    }

    /// Step two: every non-clock port takes its annotation (K1), the
    /// single clock's domain (K2), or among several clocks `Error` with
    /// E3010 (K3). Bidirectional ports are recorded for W3007.
    pub fn assign_port_domains(&mut self, inp: &DomainInput, m: &ModuleIr)
        requires
            inp.wf(),
            old(self).wf(inp),
            inp.module_ok(*m),
        ensures
            forall|i: int| 0 <= i < old(self).signal_domains@.len() && (#[trigger] old(self).signal_domains@[i]) is Some
                ==> final(self).signal_domains@[i] is Some,
            final(self).wf(inp),
            final(self).grows(old(self)),
            final(self).vars == old(self).vars,
            final(self).domains == old(self).domains,
            final(self).by_decl == old(self).by_decl,
            final(self).by_clock_port == old(self).by_clock_port,
            final(self).expr_domains == old(self).expr_domains,
            final(self).instance_ports == old(self).instance_ports,
            final(self).default_domain == old(self).default_domain,
            final(self).multi_clock == old(self).multi_clock,
            final(self).clock_candidates == old(self).clock_candidates,
            final(self).anchored == old(self).anchored,
            final(self).in_contract == old(self).in_contract,
            forall|k: int|
                0 <= k < m.ports@.len() && (#[trigger] m.ports@[k]).def is Some && !inp.defs@[m.ports@[k].def.unwrap() as int].is_clock
                    ==> final(self).signal_domains@[m.ports@[k].def.unwrap() as int] == Some(
                    port_domain_spec(*old(self), *inp, m.ports@[k]),
                ),
            forall|i: int|
                0 <= i < inp.defs@.len() && inp.defs@[i].is_clock ==> #[trigger] final(self).signal_domains@[i]
                    == old(self).signal_domains@[i],
    {
        let ghost s0 = *self;
        let ghost ports = m.ports@;
        self.clear_bidir(inp);
        let ghost s1 = *self;
        let mut k: usize = 0;
        while k < m.ports.len()
            invariant
                inp.wf(),
                inp.module_ok(*m),
                ports == m.ports@,
                self.wf(inp),
                k <= ports.len(),
                self.grows(&s0),
                self.vars == s0.vars,
                self.domains == s0.domains,
                self.by_decl == s0.by_decl,
                self.by_clock_port == s0.by_clock_port,
                self.expr_domains == s0.expr_domains,
                self.instance_ports == s0.instance_ports,
                self.default_domain == s0.default_domain,
                self.multi_clock == s0.multi_clock,
                self.clock_candidates == s0.clock_candidates,
                self.anchored == s0.anchored,
                self.in_contract == s0.in_contract,
                self.signal_domains@.len() == s0.signal_domains@.len(),
                forall|i: int| 0 <= i < s0.signal_domains@.len() && (#[trigger] s0.signal_domains@[i]) is Some
                    ==> self.signal_domains@[i] is Some,
                forall|j: int|
                    0 <= j < k && (#[trigger] ports[j]).def is Some && !inp.defs@[ports[j].def.unwrap() as int].is_clock
                        ==> self.signal_domains@[ports[j].def.unwrap() as int] == Some(
                        port_domain_spec(s0, *inp, ports[j]),
                    ),
                forall|i: int|
                    0 <= i < inp.defs@.len() && inp.defs@[i].is_clock ==> #[trigger] self.signal_domains@[i]
                        == s0.signal_domains@[i],
            decreases ports.len() - k,
        {
            proof {
                assert(inp.port_ok(ports[k as int]));
            }
            let p = &m.ports[k];
            let def = match p.def {
                Some(d) => d,
                None => {
                    k = k + 1;
                    continue;
                },
            };
            if inp.defs[def as usize].is_clock {
                k = k + 1;
                continue;
            }
            if p.is_reset && p.dir == PortDir::In {
                // A raw reset port belongs to no clock domain: its release
                // is synchronized per domain, so it is not ambiguous among
                // several clocks; its annotation is still resolved.
                let ghost t0 = *self;
                match &p.domain {
                    Some(ann) => {
                        proof {
                            assert(inp.def_ok(ann.def));
                        }
                        self.signal_annotation_domain(inp, ann);
                    },
                    None => {},
                }
                let ghost t1 = *self;
                let ghost tset = *self;
                self.signal_domains.set(def as usize, Some(DomainId::Timeless));
                proof {
                    assert forall|i: int| 0 <= i < s0.signal_domains@.len() && (#[trigger] s0.signal_domains@[i]) is Some
                        implies self.signal_domains@[i] is Some by {
                        if i != def {
                            assert(self.signal_domains@[i] == tset.signal_domains@[i]);
                        }
                    }
                }
                proof {
                    assert forall|i: int| 0 <= i < self.signal_domains@.len() implies ((#[trigger] self.signal_domains@[i]) matches Some(
                        x,
                    ) ==> self.valid(x)) by {
                        if i != def {
                            assert(self.signal_domains@[i] == t1.signal_domains@[i]);
                        }
                    }
                    assert forall|j: int|
                        0 <= j < k + 1 && (#[trigger] ports[j]).def is Some && !inp.defs@[ports[j].def.unwrap() as int].is_clock
                            implies self.signal_domains@[ports[j].def.unwrap() as int] == Some(
                            port_domain_spec(s0, *inp, ports[j]),
                        ) by {
                        assert(inp.ports_ok(ports));
                        if j < k {
                            assert(ports[j].def != ports[k as int].def);
                        }
                    }
                }
                k = k + 1;
                continue;
            }
            if p.dir.is_bidirectional() {
                self.bidir_ports.set(def as usize, true);
            }
            let ghost t0 = *self;
            let dom = match &p.domain {
                Some(ann) => {
                    proof {
                        assert(inp.def_ok(ann.def));
                        match ann.def {
                            Some(d) => {
                                assert(t0.anchored == s0.anchored);
                                assert(trust_alias_spec(t0, *inp, d, t0.anchored@) == trust_alias_spec(
                                    s0,
                                    *inp,
                                    d,
                                    s0.anchored@,
                                ));
                                if inp.defs@[d as int].is_clock {
                                    assert(t0.signal_domains@[d as int] == s0.signal_domains@[d as int]);
                                }
                                assert(annotation_spec(t0, *inp, ann.def) == annotation_spec(s0, *inp, ann.def));
                            },
                            None => {},
                        }
                    }
                    self.signal_annotation_domain(inp, ann)
                },
                None => {
                    if self.multi_clock {
                        self.err_ambiguous(&p.name, p.span, false);
                        DomainId::Error
                    } else {
                        self.default_domain
                    }
                },
            };
            let ghost t1 = *self;
            let ghost tset = *self;
            self.signal_domains.set(def as usize, Some(dom));
            proof {
                assert forall|i: int| 0 <= i < s0.signal_domains@.len() && (#[trigger] s0.signal_domains@[i]) is Some
                    implies self.signal_domains@[i] is Some by {
                    if i != def {
                        assert(self.signal_domains@[i] == tset.signal_domains@[i]);
                    }
                }
            }
            proof {
                assert forall|i: int| 0 <= i < self.signal_domains@.len() implies ((#[trigger] self.signal_domains@[i]) matches Some(
                    x,
                ) ==> self.valid(x)) by {
                    if i != def {
                        assert(self.signal_domains@[i] == t1.signal_domains@[i]);
                    }
                }
                assert forall|j: int|
                    0 <= j < k + 1 && (#[trigger] ports[j]).def is Some && !inp.defs@[ports[j].def.unwrap() as int].is_clock
                        implies self.signal_domains@[ports[j].def.unwrap() as int] == Some(
                        port_domain_spec(s0, *inp, ports[j]),
                    ) by {
                    assert(inp.ports_ok(ports));
                    if j < k {
                        assert(ports[j].def != ports[k as int].def);
                    }
                }
            }
            k = k + 1;
        }
    }

    /// The bundles of a module's ports, in order of first field: the
    /// bundle port, its span, the first definite domain of a field, and
    /// the first domain of a field that differs from it.
    fn bundle_groups(&self, inp: &DomainInput, m: &ModuleIr) -> (groups: Vec<(String, Span, DomainId, Option<DomainId>)>)
        requires
            inp.wf(),
            self.wf(inp),
            inp.module_ok(*m),
        ensures
            forall|g1: int, g2: int| 0 <= g1 < g2 < groups@.len() ==> (#[trigger] groups@[g1]).0@ != (#[trigger] groups@[g2]).0@,
            forall|g: int| 0 <= g < groups@.len() ==> field_with(*self, m.ports@, (#[trigger] groups@[g]).0@, groups@[g].2),
            forall|g: int| 0 <= g < groups@.len() ==> ((#[trigger] groups@[g]).3 matches Some(o) ==> o != groups@[g].2
                && field_with(*self, m.ports@, groups@[g].0@, o)),
            forall|j: int| 0 <= j < m.ports@.len() && (#[trigger] field_dom(*self, m.ports@[j])) is Some ==> exists|g: int| 0 <= g < groups@.len()
                && (#[trigger] groups@[g]).0@ == m.ports@[j].bundle.unwrap().port@ && (groups@[g].3 is Some || Some(groups@[g].2) == field_dom(*self, m.ports@[j])),
    {
        let mut groups: Vec<(String, Span, DomainId, Option<DomainId>)> = Vec::new();
        let ghost s0 = *self;
        let ghost ps = m.ports@;
        let mut k: usize = 0;
        while k < m.ports.len()
            invariant
                inp.wf(),
                inp.module_ok(*m),
                self.wf(inp),
                s0 == *self,
                ps == m.ports@,
                k <= m.ports@.len(),
                forall|g1: int, g2: int| 0 <= g1 < g2 < groups@.len() ==> (#[trigger] groups@[g1]).0@ != (#[trigger] groups@[g2]).0@,
                forall|g: int| 0 <= g < groups@.len() ==> field_with(s0, ps, (#[trigger] groups@[g]).0@, groups@[g].2),
                forall|g: int| 0 <= g < groups@.len() ==> ((#[trigger] groups@[g]).3 matches Some(o) ==> o != groups@[g].2
                    && field_with(s0, ps, groups@[g].0@, o)),
                forall|j: int| 0 <= j < k && (#[trigger] field_dom(s0, ps[j])) is Some ==> exists|g: int| 0 <= g < groups@.len()
                    && (#[trigger] groups@[g]).0@ == ps[j].bundle.unwrap().port@ && (groups@[g].3 is Some || Some(groups@[g].2) == field_dom(s0, ps[j])),
            decreases m.ports@.len() - k,
        {
            assert(inp.port_ok(m.ports@[k as int]));
            let ghost gk = groups@;
            let p = &m.ports[k];
            match (&p.bundle, p.def) {
                (Some(origin), Some(def)) => match self.signal_domains[def as usize] {
                    Some(dom) => {
                        if dom != DomainId::Error {
                            let mut g: usize = 0;
                            let mut found = false;
                            while g < groups.len() && !found
                                invariant
                                    g <= groups@.len(),
                                    found ==> g < groups@.len() && groups@[g as int].0@ == origin.port@,
                                    !found ==> forall|g2: int| 0 <= g2 < g ==> (#[trigger] groups@[g2]).0@ != origin.port@,
                                decreases groups@.len() - g, if found { 0int } else { 1int },
                            {
                                if eq_str(groups[g].0.as_str(), origin.port.as_str()) {
                                    found = true;
                                } else {
                                    g = g + 1;
                                }
                            }
                            assert(field_dom(s0, ps[k as int]) == Some(dom));
                            if found {
                                let (name, span, first, other) = (
                                    groups[g].0.clone(),
                                    groups[g].1,
                                    groups[g].2,
                                    groups[g].3,
                                );
                                if other.is_none() && dom != first {
                                    groups.set(g, (name, span, first, Some(dom)));
                                }
                                assert(groups@[g as int].3 is Some || groups@[g as int].2 == dom);
                            } else {
                                groups.push((origin.port.clone(), origin.port_span, dom, None));
                            }
                            assert forall|g2: int| 0 <= g2 < gk.len() implies (#[trigger] groups@[g2]).0@ == gk[g2].0@
                                && groups@[g2].2 == gk[g2].2 && (gk[g2].3 is Some ==> groups@[g2].3 == gk[g2].3) by {
                            }
                        }
                    },
                    None => {},
                },
                _ => {},
            }
            proof {
                assert forall|j: int| 0 <= j < k + 1 && (#[trigger] field_dom(s0, ps[j])) is Some implies exists|g: int| 0 <= g < groups@.len()
                    && (#[trigger] groups@[g]).0@ == ps[j].bundle.unwrap().port@ && (groups@[g].3 is Some || Some(groups@[g].2) == field_dom(s0, ps[j])) by {
                    if j < k {
                        let g = choose|g: int| 0 <= g < gk.len()
                            && (#[trigger] gk[g]).0@ == ps[j].bundle.unwrap().port@ && (gk[g].3 is Some || Some(gk[g].2) == field_dom(s0, ps[j]));
                        assert(groups@[g].0@ == gk[g].0@);
                    } else {
                        assert(ps[j] == m.ports@[k as int]);
                    }
                }
                assert forall|g: int| 0 <= g < groups@.len() implies field_with(s0, ps, (#[trigger] groups@[g]).0@, groups@[g].2) by {
                    if g < gk.len() {
                        assert(field_with(s0, ps, gk[g].0@, gk[g].2));
                    } else {
                        assert(field_dom(s0, ps[k as int]) == Some(groups@[g].2));
                    }
                }
                assert forall|g: int| 0 <= g < groups@.len() implies ((#[trigger] groups@[g]).3 matches Some(o) ==> o != groups@[g].2
                    && field_with(s0, ps, groups@[g].0@, o)) by {
                    if g < gk.len() && gk[g].3 is Some {
                        assert(field_with(s0, ps, gk[g].0@, gk[g].3.unwrap()));
                    }
                    if g < gk.len() && gk[g].3 is None && groups@[g].3 is Some {
                        assert(field_dom(s0, ps[k as int]) == Some(groups@[g].3.unwrap()));
                    }
                }
            }
            k = k + 1;
        }
        groups
    }

    /// Bundle consistency: the flattened fields of one bundle port must
    /// share a domain (E3013); fields in `Error` are left out.
    pub fn check_bundle_domains(&mut self, inp: &DomainInput, m: &ModuleIr)
        requires
            inp.wf(),
            old(self).wf(inp),
            inp.module_ok(*m),
        ensures
            final(self).wf(inp),
            final(self).same_tables(old(self)),
            extends(final(self).diagnostics@, old(self).diagnostics@),
            forall|k: int| 0 <= k < m.ports@.len() && (#[trigger] m.ports@[k]).bundle is Some && bundle_split(*old(self),
                m.ports@, m.ports@[k].bundle.unwrap().port@) ==> exists|i: int|
                old(self).diagnostics@.len() <= i < final(self).diagnostics@.len() && (#[trigger] final(self).diagnostics@[i] matches DomainDiag::BundleSplit {
                    port,
                    ..
                } && port@ == m.ports@[k].bundle.unwrap().port@),
            forall|i: int| old(self).diagnostics@.len() <= i < final(self).diagnostics@.len() ==> (#[trigger] final(self).diagnostics@[i] matches DomainDiag::BundleSplit {
                port,
                first,
                other,
                ..
            } && first != other && field_with(*old(self), m.ports@, port@, first) && field_with(*old(self), m.ports@, port@, other)),
    {
        let ghost s0 = *self;
        let ghost ps = m.ports@;
        let groups = self.bundle_groups(inp, m);
        let ghost d0 = self.diagnostics@;
        let mut g: usize = 0;
        while g < groups.len()
            invariant
                self.wf(inp),
                self.same_tables(old(self)),
                extends(self.diagnostics@, old(self).diagnostics@),
                g <= groups@.len(),
                d0 == old(self).diagnostics@,
                s0 == *old(self),
                ps == m.ports@,
                forall|g: int| 0 <= g < groups@.len() ==> field_with(s0, ps, (#[trigger] groups@[g]).0@, groups@[g].2),
                forall|g: int| 0 <= g < groups@.len() ==> ((#[trigger] groups@[g]).3 matches Some(o) ==> o != groups@[g].2
                    && field_with(s0, ps, groups@[g].0@, o)),
                forall|g2: int| 0 <= g2 < g && (#[trigger] groups@[g2]).3 is Some ==> exists|i: int|
                    d0.len() <= i < self.diagnostics@.len() && (#[trigger] self.diagnostics@[i] matches DomainDiag::BundleSplit {
                        port,
                        ..
                    } && port@ == groups@[g2].0@),
                forall|i: int| d0.len() <= i < self.diagnostics@.len() ==> (#[trigger] self.diagnostics@[i] matches DomainDiag::BundleSplit {
                    port,
                    first,
                    other,
                    ..
                } && first != other && field_with(s0, ps, port@, first) && field_with(s0, ps, port@, other)),
            decreases groups@.len() - g,
        {
            let ghost dg = self.diagnostics@;
            proof {
                assert forall|g2: int| 0 <= g2 < g && (#[trigger] groups@[g2]).3 is Some implies exists|i: int|
                    d0.len() <= i < dg.len() + 1 && i < dg.len() && (#[trigger] dg[i] matches DomainDiag::BundleSplit {
                        port,
                        ..
                    } && port@ == groups@[g2].0@) by {
                }
            }
            match groups[g].3 {
                Some(other) => {
                    self.diagnostics.push(
                        DomainDiag::BundleSplit {
                            port: groups[g].0.clone(),
                            port_span: groups[g].1,
                            first: groups[g].2,
                            other,
                        },
                    );
                },
                None => {},
            }
            proof {
                assert forall|g2: int| 0 <= g2 < g + 1 && (#[trigger] groups@[g2]).3 is Some implies exists|i: int|
                    d0.len() <= i < self.diagnostics@.len() && (#[trigger] self.diagnostics@[i] matches DomainDiag::BundleSplit {
                        port,
                        ..
                    } && port@ == groups@[g2].0@) by {
                    if g2 < g {
                        let i = choose|i: int|
                            d0.len() <= i < dg.len() && (#[trigger] dg[i] matches DomainDiag::BundleSplit {
                                port,
                                ..
                            } && port@ == groups@[g2].0@);
                        assert(self.diagnostics@[i] == dg[i]);
                    } else {
                        assert(self.diagnostics@[dg.len() as int] matches DomainDiag::BundleSplit { .. });
                    }
                }
                assert forall|i: int| d0.len() <= i < self.diagnostics@.len() implies (#[trigger] self.diagnostics@[i] matches DomainDiag::BundleSplit {
                    port,
                    first,
                    other,
                    ..
                } && first != other && field_with(s0, ps, port@, first) && field_with(s0, ps, port@, other)) by {
                    if i < dg.len() {
                        assert(self.diagnostics@[i] == dg[i]);
                    }
                }
            }
            g = g + 1;
        }
        proof {
            assert forall|k: int| 0 <= k < m.ports@.len() && (#[trigger] m.ports@[k]).bundle is Some && bundle_split(s0,
                m.ports@, m.ports@[k].bundle.unwrap().port@) implies exists|i: int|
                d0.len() <= i < self.diagnostics@.len() && (#[trigger] self.diagnostics@[i] matches DomainDiag::BundleSplit {
                    port,
                    ..
                } && port@ == m.ports@[k].bundle.unwrap().port@) by {
                let name = m.ports@[k].bundle.unwrap().port@;
                let (a, b) = choose|a: int, b: int|
                    0 <= a < ps.len() && 0 <= b < ps.len() && (#[trigger] field_dom(s0, ps[a])) is Some && (#[trigger] field_dom(
                        s0,
                        ps[b],
                    )) is Some && field_dom(s0, ps[a]) != field_dom(s0, ps[b]) && ps[a].bundle.unwrap().port@ == name
                        && ps[b].bundle.unwrap().port@ == name;
                let ga = choose|g: int| 0 <= g < groups@.len()
                    && (#[trigger] groups@[g]).0@ == ps[a].bundle.unwrap().port@ && (groups@[g].3 is Some || Some(groups@[g].2) == field_dom(s0, ps[a]));
                let gb = choose|g: int| 0 <= g < groups@.len()
                    && (#[trigger] groups@[g]).0@ == ps[b].bundle.unwrap().port@ && (groups@[g].3 is Some || Some(groups@[g].2) == field_dom(s0, ps[b]));
                if ga != gb {
                    if ga < gb {
                        assert(groups@[ga].0@ != groups@[gb].0@);
                    } else {
                        assert(groups@[gb].0@ != groups@[ga].0@);
                    }
                }
                assert(groups@[ga].3 is Some);
            }
        }
    }

    /// Register domains (K4): `reg(clk)` annotations first, then each
    /// unannotated register from the `on` blocks that write it.
    pub fn assign_reg_domains(&mut self, inp: &DomainInput, m: &ModuleIr)
        requires
            inp.wf(),
            old(self).wf(inp),
            inp.module_ok(*m),
        ensures
            final(self).wf(inp),
            final(self).walk_frame(old(self)),
            forall|k: int|
                0 <= k < m.body@.len() ==> (reg_def(#[trigger] m.body@[k]) matches Some(d) ==> final(self).signal_domains@[d as int] is Some),
            forall|x: int| lone_unannotated_reg(m.body@, x) ==> #[trigger] reg_outcome(*inp, m.body@, x, final(self).signal_domains@,
                final(self).diagnostics@, old(self).diagnostics@.len() as int),
            regs_exact(*inp, m.body@, final(self).signal_domains@, final(self).vars@, final(self).diagnostics@,
                old(self).diagnostics@.len() as int),
    {
        let ghost s0 = *self;
        let mut inferred: Vec<usize> = Vec::new();
        let mut k: usize = 0;
        while k < m.body.len()
            invariant
                inp.wf(),
                inp.module_ok(*m),
                self.wf(inp),
                self.walk_frame(&s0),
                k <= m.body@.len(),
                forall|j: int| 0 <= j < inferred@.len() ==> #[trigger] inferred@[j] < m.body@.len()
                    && m.body@[inferred@[j] as int] is Reg,
                forall|x: int|
                    0 <= x < k ==> (reg_def(#[trigger] m.body@[x]) matches Some(d) ==> (
                    self.signal_domains@[d as int] is Some || exists|j: int|
                        0 <= j < inferred@.len() && inferred@[j] == x)),
                forall|j: int| 0 <= j < inferred@.len() ==> #[trigger] inferred@[j] < k,
                forall|j: int| 0 <= j < inferred@.len() ==> (m.body@[#[trigger] inferred@[j] as int] matches Stmt::Reg(r) && r.def is Some
                    && r.domain is None),
                forall|j1: int, j2: int| 0 <= j1 < j2 < inferred@.len() ==> #[trigger] inferred@[j1] < #[trigger] inferred@[j2],
                forall|x: int| 0 <= x < k && (#[trigger] m.body@[x] matches Stmt::Reg(r) && r.def is Some && r.domain is None)
                    ==> exists|j: int| 0 <= j < inferred@.len() && inferred@[j] == x,
            decreases m.body@.len() - k,
        {
            assert(inp.stmt_ok(m.body@[k as int]));
            let ghost inf_start = inferred@;
            match &m.body[k] {
                Stmt::Reg(r) => match r.def {
                    Some(def) => match &r.domain {
                        Some(ann) => {
                            let ghost t0 = *self;
                            let ghost inf0 = inferred@;
                            let dom = self.signal_annotation_domain(inp, ann);
                            let ghost t1 = *self;
                            self.set_reg_signal(inp, def, dom);
                            proof {
                                lemma_walk_frame_trans(&t0, &t1, self);
                                lemma_walk_frame_trans(&s0, &t0, self);
                                assert forall|x: int|
                                    0 <= x < k + 1 implies (reg_def(#[trigger] m.body@[x]) matches Some(d) ==> (
                                    self.signal_domains@[d as int] is Some || exists|jj: int|
                                        0 <= jj < inferred@.len() && inferred@[jj] == x)) by {
                                    if x < k {
                                        if let Some(dd) = reg_def(m.body@[x]) {
                                            if t0.signal_domains@[dd as int] is Some {
                                                assert(t1.signal_domains@[dd as int] is Some);
                                            }
                                        }
                                    }
                                }
                            }
                        },
                        None => {
                            let ghost inf0 = inferred@;
                            inferred.push(k);
                            proof {
                                assert forall|x: int|
                                    0 <= x < k + 1 implies (reg_def(#[trigger] m.body@[x]) matches Some(d) ==> (
                                    self.signal_domains@[d as int] is Some || exists|jj: int|
                                        0 <= jj < inferred@.len() && inferred@[jj] == x)) by {
                                    if x < k {
                                        if let Some(dd) = reg_def(m.body@[x]) {
                                            if !(self.signal_domains@[dd as int] is Some) {
                                                let jj = choose|jj: int| 0 <= jj < inf0.len() && inf0[jj] == x;
                                                assert(inferred@[jj] == x);
                                            }
                                        }
                                    } else {
                                        assert(inferred@[inf0.len() as int] == x);
                                    }
                                }
                            }
                        },
                    },
                    None => {},
                },
                _ => {},
            }
            proof {
                assert forall|x: int| 0 <= x < k + 1 && (#[trigger] m.body@[x] matches Stmt::Reg(r) && r.def is Some && r.domain is None)
                    implies exists|j: int| 0 <= j < inferred@.len() && inferred@[j] == x by {
                    if x < k {
                        let j = choose|j: int| 0 <= j < inf_start.len() && inf_start[j] == x;
                        assert(inferred@[j] == inf_start[j]);
                    } else {
                        assert(inferred@.len() == inf_start.len() + 1);
                        assert(inferred@[inf_start.len() as int] == x);
                    }
                }
            }
            k = k + 1;
        }
        if inferred.len() == 0 {
            proof {
                let w = self.signal_domains@;
                assert forall|x: int| lone_unannotated_reg(m.body@, x) implies #[trigger] reg_exact(m.body@, x, self.signal_domains@,
                    self.vars@, self.diagnostics@, old(self).diagnostics@.len() as int, body_writers(*inp, w, m.body@)) by {
                    let j = choose|j: int| 0 <= j < inferred@.len() && inferred@[j] == x;
                }
                assert(forall|t: int| 0 <= t < w.len() && !unannotated_def(m.body@, t) ==> #[trigger] w[t] == self.signal_domains@[t]);
                assert(regs_exact(*inp, m.body@, self.signal_domains@, self.vars@, self.diagnostics@,
                    old(self).diagnostics@.len() as int)) by {
                    assert(body_writers(*inp, w, m.body@) == body_writers(*inp, w, m.body@));
                }
            }
            return;
        }
        let ghost sd1 = self.signal_domains@;
        // The writers of each register: (register, block domain, trigger span).
        let mut writers: Vec<(u32, DomainId, Span)> = Vec::new();
        let ghost mut src: Seq<int> = Seq::empty();
        let mut j: usize = 0;
        while j < m.body.len()
            invariant
                inp.wf(),
                inp.module_ok(*m),
                self.wf(inp),
                j <= m.body@.len(),
                forall|w: int| 0 <= w < writers@.len() ==> self.valid(#[trigger] writers@[w].1),
                self.signal_domains@ == sd1,
                self.walk_frame(&s0),
                src.len() == writers@.len(),
                forall|w: int| 0 <= w < writers@.len() ==> 0 <= #[trigger] src[w] < j && on_writes(*inp, m.body@[src[w]], writers@[w].0),
                forall|jj: int, x: u32| 0 <= jj < j && #[trigger] on_writes(*inp, m.body@[jj], x)
                    ==> exists|w: int| 0 <= w < writers@.len() && (#[trigger] writers@[w]).0 == x,
                writers@ == body_writers(*inp, sd1, m.body@.subrange(0, j as int)),
            decreases m.body@.len() - j,
        {
            assert(inp.stmt_ok(m.body@[j as int]));
            let ghost wr0 = writers@;
            let ghost src0 = src;
            proof {
                let sub1 = m.body@.subrange(0, j + 1);
                assert(sub1.drop_last() =~= m.body@.subrange(0, j as int));
                assert(sub1.last() == m.body@[j as int]);
            }
            match &m.body[j] {
                Stmt::On { trigger, body } => {
                    let (dom, span) = self.on_block_domain(inp, trigger);
                    let mut written: Vec<u32> = Vec::new();
                    collect_writes(inp, *body, &mut written);
                    assert(written@ =~= block_writes(*inp, *body as int));
                    let mut w: usize = 0;
                    while w < written.len()
                        invariant
                            self.valid(dom),
                            w <= written@.len(),
                            forall|x: int| 0 <= x < writers@.len() ==> self.valid(#[trigger] writers@[x].1),
                            writers@.len() == wr0.len() + w,
                            src.len() == writers@.len(),
                            forall|t: int| 0 <= t < wr0.len() ==> #[trigger] src[t] == src0[t],
                            forall|t: int| wr0.len() <= t < writers@.len() ==> #[trigger] src[t] == j,
                            forall|t: int| 0 <= t < wr0.len() ==> #[trigger] writers@[t] == wr0[t],
                            forall|t: int| 0 <= t < w ==> #[trigger] writers@[wr0.len() + t].0 == written@[t],
                            writers@ == wr0 + written@.subrange(0, w as int).map_values(|x: u32| (x, dom, span)),
                        decreases written@.len() - w,
                    {
                        writers.push((written[w], dom, span));
                        proof {
                            src = src.push(j as int);
                            assert(written@.subrange(0, w + 1).map_values(|x: u32| (x, dom, span)) =~= written@.subrange(
                                0,
                                w as int,
                            ).map_values(|x: u32| (x, dom, span)).push((written@[w as int], dom, span)));
                            assert(writers@ =~= wr0 + written@.subrange(0, w + 1).map_values(|x: u32| (x, dom, span)));
                        }
                        w = w + 1;
                    }
                    proof {
                        assert(written@.subrange(0, w as int) =~= written@);
                        assert((dom, span) == on_trigger_spec(sd1, *trigger));
                        assert(writers@ =~= body_writers(*inp, sd1, m.body@.subrange(0, j + 1)));
                    }
                    proof {
                        assert forall|t: int| 0 <= t < writers@.len() implies 0 <= #[trigger] src[t] < j + 1 && on_writes(*inp, m.body@[src[t]], writers@[t].0) by {
                            if t < wr0.len() {
                                assert(writers@[t] == wr0[t]);
                            } else {
                                let q = t - wr0.len();
                                assert(writers@[wr0.len() + q].0 == written@[q]);
                                assert(block_writes(*inp, *body as int)[q] == writers@[t].0);
                                assert(on_writes(*inp, m.body@[j as int], writers@[t].0));
                            }
                        }
                        assert forall|jj: int, x: u32| 0 <= jj < j + 1 && #[trigger] on_writes(*inp, m.body@[jj], x)
                            implies exists|w2: int| 0 <= w2 < writers@.len() && (#[trigger] writers@[w2]).0 == x by {
                            if jj < j {
                                let w2 = choose|w2: int| 0 <= w2 < wr0.len() && (#[trigger] wr0[w2]).0 == x;
                                assert(writers@[w2] == wr0[w2]);
                            } else {
                                let q = choose|q: int| 0 <= q < block_writes(*inp, *body as int).len() && block_writes(*inp, *body as int)[q] == x;
                                assert(writers@[wr0.len() + q].0 == written@[q]);
                            }
                        }
                    }
                },
                _ => {
                    proof {
                        assert forall|jj: int, x: u32| 0 <= jj < j + 1 && #[trigger] on_writes(*inp, m.body@[jj], x)
                            implies exists|w2: int| 0 <= w2 < writers@.len() && (#[trigger] writers@[w2]).0 == x by {
                        }
                        assert(writers@ =~= body_writers(*inp, sd1, m.body@.subrange(0, j + 1)));

                    }
                },
            }
            j = j + 1;
        }
        let ghost d3 = old(self).diagnostics@.len() as int;
        let ghost vars3 = self.vars@;
        assert(writers@ == body_writers(*inp, sd1, m.body@)) by {
            assert(m.body@.subrange(0, j as int) =~= m.body@);
        }
        let mut i: usize = 0;
        while i < inferred.len()
            invariant
                self.vars@ == vars3,
                writers@ == body_writers(*inp, sd1, m.body@),
                self.signal_domains@.len() == sd1.len(),
                forall|t: int| 0 <= t < sd1.len() && !unannotated_def(m.body@, t) ==> #[trigger] sd1[t] == self.signal_domains@[t],
                forall|j: int| 0 <= j < inferred@.len() ==> (m.body@[#[trigger] inferred@[j] as int] matches Stmt::Reg(r) && r.def is Some
                    && r.domain is None),
                forall|jj: int| 0 <= jj < i && lone_unannotated_reg(m.body@, #[trigger] inferred@[jj] as int) ==> reg_exact(m.body@,
                    inferred@[jj] as int, self.signal_domains@, vars3, self.diagnostics@, d3, writers@),
                inp.wf(),
                inp.module_ok(*m),
                self.wf(inp),
                self.walk_frame(&s0),
                i <= inferred@.len(),
                d3 == old(self).diagnostics@.len(),
                s0 == *old(self),
                src.len() == writers@.len(),
                forall|w: int| 0 <= w < writers@.len() ==> 0 <= #[trigger] src[w] < m.body@.len() && on_writes(*inp, m.body@[src[w]], writers@[w].0),
                forall|jj: int, x: u32| 0 <= jj < m.body@.len() && #[trigger] on_writes(*inp, m.body@[jj], x)
                    ==> exists|w: int| 0 <= w < writers@.len() && (#[trigger] writers@[w]).0 == x,
                forall|j1: int, j2: int| 0 <= j1 < j2 < inferred@.len() ==> #[trigger] inferred@[j1] < #[trigger] inferred@[j2],
                forall|x: int| 0 <= x < m.body@.len() && (#[trigger] m.body@[x] matches Stmt::Reg(r) && r.def is Some && r.domain is None)
                    ==> exists|j: int| 0 <= j < inferred@.len() && inferred@[j] == x,
                forall|jj: int| 0 <= jj < i && lone_unannotated_reg(m.body@, #[trigger] inferred@[jj] as int) ==> reg_outcome(*inp, m.body@,
                    inferred@[jj] as int, self.signal_domains@, self.diagnostics@, d3),
                forall|x: int| 0 <= x < inferred@.len() ==> #[trigger] inferred@[x] < m.body@.len()
                    && m.body@[inferred@[x] as int] is Reg,
                forall|x: int| 0 <= x < writers@.len() ==> self.valid(#[trigger] writers@[x].1),
                forall|x: int|
                    0 <= x < m.body@.len() ==> (reg_def(#[trigger] m.body@[x]) matches Some(d) ==> (
                    self.signal_domains@[d as int] is Some || exists|jj: int|
                        i <= jj < inferred@.len() && inferred@[jj] == x)),
            decreases inferred@.len() - i,
        {
            let ghost sdi = self.signal_domains@;
            let ghost t_diags_i = self.diagnostics@;
            assert(inp.stmt_ok(m.body@[inferred@[i as int] as int]));
            match &m.body[inferred[i]] {
                Stmt::Reg(r) => match r.def {
                    Some(def) => {
                        let mut blocks: Vec<(DomainId, Span)> = Vec::new();
                        let mut w: usize = 0;
                        while w < writers.len()
                            invariant
                                w <= writers@.len(),
                                forall|x: int| 0 <= x < writers@.len() ==> self.valid(#[trigger] writers@[x].1),
                                forall|x: int| 0 <= x < blocks@.len() ==> self.valid(#[trigger] blocks@[x].0),
                                (blocks@.len() > 0) == exists|w2: int| 0 <= w2 < w && (#[trigger] writers@[w2]).0 == def,
                                blocks@ == writer_blocks(writers@.subrange(0, w as int), def),
                            decreases writers@.len() - w,
                        {
                            proof {
                                assert(writers@.subrange(0, w + 1).drop_last() =~= writers@.subrange(0, w as int));
                                assert(writers@.subrange(0, w + 1).last() == writers@[w as int]);
                            }
                            if writers[w].0 == def {
                                blocks.push((writers[w].1, writers[w].2));
                            }
                            w = w + 1;
                        }
                        assert(writers@.subrange(0, w as int) =~= writers@);
                        let ghost t0 = *self;
                        let dom = self.reg_domain_from_writers(r, &blocks);
                        let ghost t1 = *self;
                        self.set_reg_signal(inp, def, dom);
                        proof {
                            lemma_walk_frame_trans(&t0, &t1, self);
                            lemma_walk_frame_trans(&s0, &t0, self);
                            let xi = inferred@[i as int] as int;
                            assert(written_in(*inp, m.body@, def) == (blocks@.len() > 0)) by {
                                if written_in(*inp, m.body@, def) {
                                    let jj = choose|jj: int| 0 <= jj < m.body@.len() && on_writes(*inp, #[trigger] m.body@[jj], def);
                                    assert(on_writes(*inp, m.body@[jj], def));
                                }
                                if blocks@.len() > 0 {
                                    let w2 = choose|w2: int| 0 <= w2 < writers@.len() && (#[trigger] writers@[w2]).0 == def;
                                    assert(0 <= src[w2] < m.body@.len());
                                    assert(on_writes(*inp, m.body@[src[w2]], def));
                                }
                            }
                            if lone_unannotated_reg(m.body@, xi) {
                                if blocks@.len() == 0 {
                                    let ii = t1.diagnostics@.len() - 1;
                                    assert(self.diagnostics@[ii] == t1.diagnostics@[ii]);
                                    assert(ii >= d3);
                                    assert(self.signal_domains@[def as int] == Some(DomainId::Timeless));
                                }
                                assert(reg_outcome(*inp, m.body@, xi, self.signal_domains@, self.diagnostics@, d3));
                                if blocks@.len() > 0 && distinct_writers(vars3, blocks@).len() > 1 {
                                    let ii = t1.diagnostics@.len() - 1;
                                    assert(self.diagnostics@[ii] == t1.diagnostics@[ii]);
                                }
                                assert(reg_exact(m.body@, xi, self.signal_domains@, vars3, self.diagnostics@, d3, writers@));
                            }
                        }
                    },
                    None => {},
                },
                _ => {},
            }
            proof {
                assert forall|jj: int| 0 <= jj < i + 1 && lone_unannotated_reg(m.body@, #[trigger] inferred@[jj] as int) implies reg_outcome(*inp, m.body@,
                    inferred@[jj] as int, self.signal_domains@, self.diagnostics@, d3) by {
                    if jj < i {
                        let xj = inferred@[jj] as int;
                        let xi = inferred@[i as int] as int;
                        assert(xj < xi);
                        assert(reg_def(m.body@[xi]) != reg_def(m.body@[xj]));
                        if let Stmt::Reg(rj) = m.body@[xj] {
                            let dj = rj.def.unwrap();
                            assert(self.signal_domains@[dj as int] == sdi[dj as int]);
                            if !written_in(*inp, m.body@, dj) {
                                let q = choose|q: int| d3 <= q < t_diags_i.len() && (#[trigger] t_diags_i[q] matches DomainDiag::NeverWritten { name, span }
                                    && name@ == rj.name@ && span == rj.span);
                                assert(self.diagnostics@[q] == t_diags_i[q]);
                            }
                        }
                    }
                }
                assert forall|jj: int| 0 <= jj < i + 1 && lone_unannotated_reg(m.body@, #[trigger] inferred@[jj] as int) implies reg_exact(m.body@,
                    inferred@[jj] as int, self.signal_domains@, vars3, self.diagnostics@, d3, writers@) by {
                    if jj < i {
                        let xj = inferred@[jj] as int;
                        let xi = inferred@[i as int] as int;
                        assert(xj < xi);
                        assert(reg_def(m.body@[xi]) != reg_def(m.body@[xj]));
                        if let Stmt::Reg(rj) = m.body@[xj] {
                            let dj = rj.def.unwrap();
                            assert(self.signal_domains@[dj as int] == sdi[dj as int]);
                            let bl = writer_blocks(writers@, dj);
                            if bl.len() > 0 && distinct_writers(vars3, bl).len() > 1 {
                                let q = choose|q: int| d3 <= q < t_diags_i.len() && (#[trigger] t_diags_i[q] matches DomainDiag::TwoWriterDomains { name, span, writers }
                                    && name@ == rj.name@ && span == rj.span && writers@ == distinct_writers(vars3, bl));
                                assert(self.diagnostics@[q] == t_diags_i[q]);
                            }
                        }
                    }
                }
                assert forall|t: int| 0 <= t < sd1.len() && !unannotated_def(m.body@, t) implies #[trigger] sd1[t] == self.signal_domains@[t] by {
                    let xi = inferred@[i as int] as int;
                    if let Stmt::Reg(ri) = m.body@[xi] {
                        if t == ri.def.unwrap() as int {
                            assert(m.body@[xi] matches Stmt::Reg(r) && r.def == Some(t as u32) && r.domain is None);
                            assert(unannotated_def(m.body@, t));
                        }
                    }
                    assert(self.signal_domains@[t] == sdi[t]);
                }
                assert forall|x: int|
                    0 <= x < m.body@.len() implies (reg_def(#[trigger] m.body@[x]) matches Some(d) ==> (
                    self.signal_domains@[d as int] is Some || exists|jj: int|
                        i + 1 <= jj < inferred@.len() && inferred@[jj] == x)) by {
                    if let Some(d0) = reg_def(m.body@[x]) {
                        {
                            let dd = d0 as int;
                            if sdi[dd] is Some {
                                assert(self.signal_domains@[dd] is Some);
                            } else {
                                let jj = choose|jj: int| i <= jj < inferred@.len() && inferred@[jj] == x;
                                if jj == i {
                                    assert(m.body@[inferred@[i as int] as int] == m.body@[x]);
                                    assert(self.signal_domains@[dd] is Some);
                                }
                            }
                        }
                    }
                }
            }
            i = i + 1;
        }
        proof {
            assert forall|x: int| lone_unannotated_reg(m.body@, x) implies #[trigger] reg_exact(m.body@, x, self.signal_domains@,
                self.vars@, self.diagnostics@, old(self).diagnostics@.len() as int, body_writers(*inp, sd1, m.body@)) by {
                let jj = choose|jj: int| 0 <= jj < inferred@.len() && inferred@[jj] == x;
                assert(lone_unannotated_reg(m.body@, inferred@[jj] as int));
            }
            assert(regs_exact(*inp, m.body@, self.signal_domains@, self.vars@, self.diagnostics@,
                old(self).diagnostics@.len() as int)) by {
                assert(body_writers(*inp, sd1, m.body@) == writers@);
            }
        }
    }

    fn set_reg_signal(&mut self, inp: &DomainInput, def: u32, d: DomainId)
        requires
            old(self).wf(inp),
            def < inp.defs@.len(),
            old(self).valid(d),
        ensures
            final(self).wf(inp),
            final(self).walk_frame(old(self)),
            final(self).signal_domains@ == old(self).signal_domains@.update(def as int, Some(d)),
            final(self).vars == old(self).vars,
            final(self).diagnostics == old(self).diagnostics,
    {
        self.signal_domains.set(def as usize, Some(d));
        proof {
            assert forall|i: int| 0 <= i < self.signal_domains@.len() implies ((#[trigger] self.signal_domains@[i]) matches Some(
                x,
            ) ==> self.valid(x)) by {
                if i != def {
                    assert(self.signal_domains@[i] == old(self).signal_domains@[i]);
                }
            }
        }
    }

    /// The whole module: clocks, ports, bundles, registers, the body in
    /// order, then the contracts (whose reads of bidirectional ports do
    /// not warn).
    pub fn infer_module(&mut self, inp: &DomainInput, m: &ModuleIr)
        requires
            inp.wf(),
            old(self).wf(inp),
            inp.module_ok(*m),
        ensures
            forall|i: int| 0 <= i < old(self).signal_domains@.len() && (#[trigger] old(self).signal_domains@[i]) is Some
                ==> final(self).signal_domains@[i] is Some,
            final(self).wf(inp),
            final(self).grows(old(self)),
            final(self).by_decl == old(self).by_decl,
            forall|k: int|
                0 <= k < m.body@.len() ==> (reg_def(#[trigger] m.body@[k]) matches Some(d) ==> final(self).signal_domains@[d as int] is Some),
            forall|c: int| 0 <= c < m.contracts@.len() ==> final(self).expr_domains@[#[trigger] m.contracts@[c] as int] is Some,
    {
        let ghost s0 = *self;
        self.scan_clock_ports(inp, m);
        let ghost s1 = *self;
        self.assign_port_domains(inp, m);
        let ghost s2 = *self;
        self.check_bundle_domains(inp, m);
        let ghost s3 = *self;
        self.assign_reg_domains(inp, m);
        let ghost s4 = *self;
        proof {
            assert(s3.grows(&s0)) by {
                assert forall|i: int| 0 <= i < s0.diagnostics@.len() implies #[trigger] s3.diagnostics@[i]
                    == s0.diagnostics@[i] by {
                    assert(s1.diagnostics@[i] == s0.diagnostics@[i]);
                    assert(s2.diagnostics@[i] == s1.diagnostics@[i]);
                }
            }
        }
        let mut k: usize = 0;
        while k < m.body.len()
            invariant
                inp.wf(),
                inp.module_ok(*m),
                self.wf(inp),
                self.walk_frame(&s4),
                k <= m.body@.len(),
                forall|x: int|
                    0 <= x < m.body@.len() ==> (reg_def(#[trigger] m.body@[x]) matches Some(d) ==> self.signal_domains@[d as int] is Some),
            decreases m.body@.len() - k,
        {
            let ghost t0 = *self;
            assert(inp.stmt_ok(m.body@[k as int]));
            self.walk_stmt(inp, &m.body[k]);
            proof {
                lemma_walk_frame_trans(&s4, &t0, self);
            }
            k = k + 1;
        }
        let ghost s5 = *self;
        self.in_contract = true;
        let mut c: usize = 0;
        while c < m.contracts.len()
            invariant
                inp.wf(),
                inp.module_ok(*m),
                self.wf(inp),
                self.grows(&s5),
                self.by_decl == s5.by_decl,
                c <= m.contracts@.len(),
                self.signal_domains == s5.signal_domains,
                forall|x: int| 0 <= x < c ==> self.expr_domains@[#[trigger] m.contracts@[x] as int] is Some,
            decreases m.contracts@.len() - c,
        {
            let ghost t0 = *self;
            assert(inp.expr_ok(m.contracts@[c as int]));
            self.expr_domain(inp, m.contracts[c]);
            proof {
                assert forall|x: int| 0 <= x < c + 1 implies self.expr_domains@[#[trigger] m.contracts@[x] as int] is Some by {
                    if x < c {
                        assert(t0.expr_domains@[m.contracts@[x] as int] is Some);
                    }
                }
                assert forall|i: int| 0 <= i < s5.diagnostics@.len() implies #[trigger] self.diagnostics@[i]
                    == s5.diagnostics@[i] by {
                    assert(t0.diagnostics@[i] == s5.diagnostics@[i]);
                }
            }
            c = c + 1;
        }
        self.in_contract = false;
        proof {
            assert forall|i: int| 0 <= i < s0.diagnostics@.len() implies #[trigger] self.diagnostics@[i]
                == s0.diagnostics@[i] by {
                assert(s3.diagnostics@[i] == s0.diagnostics@[i]);
                assert(s4.diagnostics@[i] == s3.diagnostics@[i]);
                assert(s5.diagnostics@[i] == s4.diagnostics@[i]);
            }
        }
    }
}

} // verus!
