//! The domain contract of an extern module boundary: a symbolic `@Name`
//! must be carried by at least one clock port (E3002), and with several
//! clocks every non-clock port must be annotated (E3010). A single-clock
//! extern behaves as K2, a clockless one is timeless.

use vstd::prelude::*;

use crate::defs::DefKind;
use crate::domain::instance::is_clock_port;
use crate::domain::ir::{DomainInput, ExternIr, PortIr};
use crate::domain::{extends, DomainDiag, Inferencer};
use crate::text::{extend_chars, string_of};

verus! {

/// The port is a clock.
pub open spec fn ext_clock(inp: DomainInput, p: PortIr) -> bool {
    p.def matches Some(d) && inp.defs@[d as int].is_clock
}

/// The number of clock ports.
pub open spec fn clock_count(inp: DomainInput, ports: Seq<PortIr>) -> nat
    decreases ports.len(),
{
    if ports.len() == 0 {
        0
    } else {
        clock_count(inp, ports.drop_last()) + if ext_clock(inp, ports.last()) {
            1nat
        } else {
            0nat
        }
    }
}

/// Some clock port is annotated with definition `dd`.
pub open spec fn anchored_by(inp: DomainInput, ports: Seq<PortIr>, dd: u32) -> bool {
    exists|k: int| 0 <= k < ports.len() && ext_clock(inp, #[trigger] ports[k]) && (ports[k].domain matches Some(a)
        && a.def == Some(dd))
}

/// A non-clock port annotated with a symbolic domain that no clock
/// carries.
pub open spec fn unanchored_symbolic(inp: DomainInput, ports: Seq<PortIr>, p: PortIr) -> bool {
    &&& p.def matches Some(d) && !inp.defs@[d as int].is_clock
    &&& p.domain matches Some(a) && (a.def matches Some(dd) && inp.defs@[dd as int].kind == DefKind::DomainParam
        && !anchored_by(inp, ports, dd))
}

/// A non-clock port without annotation.
pub open spec fn unannotated_data(inp: DomainInput, p: PortIr) -> bool {
    p.def matches Some(d) && !inp.defs@[d as int].is_clock && p.domain is None
}

/// An E3002 was added for symbolic domain `dd`, at the annotation of a
/// port that uses it unanchored.
pub open spec fn symbolic_reported(
    after: Seq<DomainDiag>,
    before: Seq<DomainDiag>,
    inp: DomainInput,
    ports: Seq<PortIr>,
    dd: u32,
) -> bool {
    exists|i: int, k: int|
        before.len() <= i < after.len() && 0 <= k < ports.len() && unanchored_symbolic(inp, ports, #[trigger] ports[k])
            && ports[k].domain.unwrap().def == Some(dd) && (#[trigger] after[i] matches DomainDiag::SymbolicWithoutClock {
            span,
            ..
        } && span == ports[k].domain.unwrap().span)
}

/// An E3010 was added for port `p` of an extern.
pub open spec fn ambiguous_reported(after: Seq<DomainDiag>, before: Seq<DomainDiag>, p: PortIr) -> bool {
    exists|i: int|
        before.len() <= i < after.len() && (#[trigger] after[i] matches DomainDiag::Ambiguous {
            name,
            span,
            in_extern,
            ..
        } && name@ == p.name@ && span == p.span && in_extern)
}

impl Inferencer {
    /// Checks the annotations of an extern module.
    pub fn check_extern_decl(&mut self, inp: &DomainInput, x: &ExternIr)
        requires
            inp.wf(),
            old(self).wf(inp),
            inp.ports_ok(x.ports@),
        ensures
            final(self).wf(inp),
            final(self).vars == old(self).vars,
            final(self).domains == old(self).domains,
            final(self).by_decl == old(self).by_decl,
            final(self).signal_domains == old(self).signal_domains,
            extends(final(self).diagnostics@, old(self).diagnostics@),
            final(self).grows(old(self)),
            final(self).clock_candidates@.len() == clock_count(*inp, x.ports@),
            forall|k: int| 0 <= k < x.ports@.len() && unanchored_symbolic(*inp, x.ports@, #[trigger] x.ports@[k])
                ==> symbolic_reported(final(self).diagnostics@, old(self).diagnostics@, *inp, x.ports@,
                x.ports@[k].domain.unwrap().def.unwrap()),
            clock_count(*inp, x.ports@) > 1 ==> forall|k: int| 0 <= k < x.ports@.len() && unannotated_data(*inp,
                #[trigger] x.ports@[k]) ==> ambiguous_reported(final(self).diagnostics@, old(self).diagnostics@, x.ports@[k]),
            clock_count(*inp, x.ports@) <= 1 ==> forall|i: int| old(self).diagnostics@.len() <= i < final(self).diagnostics@.len()
                ==> !(#[trigger] final(self).diagnostics@[i] is Ambiguous),
    {
        let ports = &x.ports;
        let n = inp.defs.len();
        let mut anchored: Vec<bool> = Vec::new();
        let mut reported: Vec<bool> = Vec::new();
        let mut i: usize = 0;
        while i < n
            invariant
                n == inp.defs@.len(),
                i <= n,
                anchored@.len() == i,
                reported@.len() == i,
                forall|j: int| 0 <= j < i ==> !(#[trigger] anchored@[j]),
                forall|j: int| 0 <= j < i ==> !(#[trigger] reported@[j]),
            decreases n - i,
        {
            anchored.push(false);
            reported.push(false);
            i = i + 1;
        }
        self.clock_candidates.clear();
        let mut clocks: usize = 0;
        let mut k: usize = 0;
        while k < ports.len()
            invariant
                inp.wf(),
                inp.ports_ok(ports@),
                self.wf(inp),
                self.vars == old(self).vars,
                self.domains == old(self).domains,
                self.by_decl == old(self).by_decl,
                self.signal_domains == old(self).signal_domains,
                self.diagnostics == old(self).diagnostics,
                anchored@.len() == n,
                n == inp.defs@.len(),
                k <= ports@.len(),
                clocks as int == clock_count(*inp, ports@.subrange(0, k as int)),
                clocks <= k,
                self.clock_candidates@.len() == clocks,
                reported@.len() == n,
                forall|dd: int| 0 <= dd < n ==> !(#[trigger] reported@[dd]),
                forall|dd: int| 0 <= dd < n ==> (#[trigger] anchored@[dd] <==> exists|j: int| 0 <= j < k
                    && ext_clock(*inp, #[trigger] ports@[j]) && (ports@[j].domain matches Some(a) && a.def == Some(dd as u32))),
            decreases ports@.len() - k,
        {
            assert(inp.port_ok(ports@[k as int]));
            let ghost a0 = anchored@;
            assert(ports@.subrange(0, k + 1).drop_last() == ports@.subrange(0, k as int));
            assert(ports@.subrange(0, k + 1).last() == ports@[k as int]);
            let p = &ports[k];
            let is_clock = match p.def {
                Some(d) => inp.defs[d as usize].is_clock,
                None => false,
            };
            if is_clock {
                let mut shown: Vec<char> = Vec::new();
                shown.push('@');
                match &p.domain {
                    Some(a) => {
                        match a.def {
                            Some(d) => {
                                anchored.set(d as usize, true);
                            },
                            None => {},
                        }
                        extend_chars(&mut shown, a.text.as_str());
                    },
                    None => {
                        extend_chars(&mut shown, p.name.as_str());
                    },
                }
                self.clock_candidates.push((p.span, string_of(&shown)));
                if clocks < usize::MAX {
                    clocks = clocks + 1;
                }
            }
            proof {
                assert forall|dd: int| 0 <= dd < n implies (#[trigger] anchored@[dd] <==> exists|j: int| 0 <= j < k + 1
                    && ext_clock(*inp, #[trigger] ports@[j]) && (ports@[j].domain matches Some(a) && a.def == Some(dd as u32))) by {
                    if anchored@[dd] && !a0[dd] {
                        assert(ext_clock(*inp, ports@[k as int]));
                    }
                    if exists|j: int| 0 <= j < k + 1
                        && ext_clock(*inp, #[trigger] ports@[j]) && (ports@[j].domain matches Some(a) && a.def == Some(dd as u32)) {
                        let j = choose|j: int| 0 <= j < k + 1
                            && ext_clock(*inp, #[trigger] ports@[j]) && (ports@[j].domain matches Some(a) && a.def == Some(dd as u32));
                        if j == k {
                            assert(ext_clock(*inp, ports@[k as int]));
                        } else {
                            assert(a0[dd]);
                        }
                    }
                }
            }
            k = k + 1;
        }
        assert(ports@.subrange(0, k as int) == ports@);
        assert forall|dd: int| 0 <= dd < n implies (#[trigger] anchored@[dd] <==> anchored_by(*inp, ports@, dd as u32)) by {
            if anchored@[dd] {
                let j = choose|j: int| 0 <= j < k
                    && ext_clock(*inp, #[trigger] ports@[j]) && (ports@[j].domain matches Some(a) && a.def == Some(dd as u32));
                assert(ext_clock(*inp, ports@[j]));
            }
        }
        let ghost d0 = self.diagnostics@;
        let mut k: usize = 0;
        while k < ports.len()
            invariant
                inp.wf(),
                inp.ports_ok(ports@),
                self.wf(inp),
                self.vars == old(self).vars,
                self.domains == old(self).domains,
                self.by_decl == old(self).by_decl,
                self.signal_domains == old(self).signal_domains,
                extends(self.diagnostics@, old(self).diagnostics@),
                anchored@.len() == n,
                reported@.len() == n,
                n == inp.defs@.len(),
                k <= ports@.len(),
                d0 == old(self).diagnostics@,
                clocks as int == clock_count(*inp, ports@),
                self.clock_candidates@.len() == clocks,
                forall|dd: int| 0 <= dd < n ==> (#[trigger] anchored@[dd] <==> anchored_by(*inp, ports@, dd as u32)),
                forall|dd: int| 0 <= dd < n && #[trigger] reported@[dd] ==> symbolic_reported(self.diagnostics@, d0, *inp,
                    ports@, dd as u32),
                forall|j: int| 0 <= j < k && unanchored_symbolic(*inp, ports@, #[trigger] ports@[j])
                    ==> reported@[ports@[j].domain.unwrap().def.unwrap() as int],
                clocks > 1 ==> forall|j: int| 0 <= j < k && unannotated_data(*inp, #[trigger] ports@[j])
                    ==> ambiguous_reported(self.diagnostics@, d0, ports@[j]),
                clocks <= 1 ==> forall|i: int| d0.len() <= i < self.diagnostics@.len()
                    ==> !(#[trigger] self.diagnostics@[i] is Ambiguous),
            decreases ports@.len() - k,
        {
            let ghost dk = self.diagnostics@;
            let ghost rk = reported@;
            assert(inp.port_ok(ports@[k as int]));
            let p = &ports[k];
            match p.def {
                Some(def) => {
                    if !inp.defs[def as usize].is_clock {
                        match &p.domain {
                            Some(ann) => match ann.def {
                                Some(dd) => {
                                    let kind = inp.defs[dd as usize].kind;
                                    if kind == DefKind::DomainParam && !anchored[dd as usize]
                                        && !reported[dd as usize] {
                                        reported.set(dd as usize, true);
                                        self.diagnostics.push(
                                            DomainDiag::SymbolicWithoutClock {
                                                module: x.name.clone(),
                                                annotation: ann.text.clone(),
                                                span: ann.span,
                                            },
                                        );
                                    } else {
                                        match kind {
                                            DefKind::Port { .. } => {
                                                if !inp.defs[dd as usize].is_clock {
                                                    self.err_annotation_not_clock(ann);
                                                }
                                            },
                                            _ => {},
                                        }
                                    }
                                },
                                None => {},
                            },
                            None => {
                                if clocks > 1 {
                                    self.err_ambiguous(&p.name, p.span, true);
                                }
                            },
                        }
                    }
                },
                None => {},
            }
            proof {
                assert forall|dd: int| 0 <= dd < n && #[trigger] reported@[dd] implies symbolic_reported(self.diagnostics@, d0, *inp,
                    ports@, dd as u32) by {
                    if rk[dd] {
                        let (i, j) = choose|i: int, j: int|
                            d0.len() <= i < dk.len() && 0 <= j < ports@.len() && unanchored_symbolic(*inp, ports@, #[trigger] ports@[j])
                                && ports@[j].domain.unwrap().def == Some(dd as u32) && (#[trigger] dk[i] matches DomainDiag::SymbolicWithoutClock {
                                span,
                                ..
                            } && span == ports@[j].domain.unwrap().span);
                        assert(self.diagnostics@[i] == dk[i]);
                    } else {
                        let i = self.diagnostics@.len() - 1;
                        assert(self.diagnostics@[i] matches DomainDiag::SymbolicWithoutClock { .. });
                        assert(unanchored_symbolic(*inp, ports@, ports@[k as int]));
                    }
                }
                assert forall|j: int| 0 <= j < k + 1 && unanchored_symbolic(*inp, ports@, #[trigger] ports@[j])
                    implies reported@[ports@[j].domain.unwrap().def.unwrap() as int] by {
                }
                if clocks > 1 {
                    assert forall|j: int| 0 <= j < k + 1 && unannotated_data(*inp, #[trigger] ports@[j])
                        implies ambiguous_reported(self.diagnostics@, d0, ports@[j]) by {
                        if j < k {
                            let i = choose|i: int|
                                d0.len() <= i < dk.len() && (#[trigger] dk[i] matches DomainDiag::Ambiguous {
                                    name,
                                    span,
                                    in_extern,
                                    ..
                                } && name@ == ports@[j].name@ && span == ports@[j].span && in_extern);
                            assert(self.diagnostics@[i] == dk[i]);
                        } else {
                            assert(self.diagnostics@[self.diagnostics@.len() - 1] matches DomainDiag::Ambiguous { .. });
                        }
                    }
                } else {
                    assert forall|i: int| d0.len() <= i < self.diagnostics@.len()
                        implies !(#[trigger] self.diagnostics@[i] is Ambiguous) by {
                        if i < dk.len() {
                            assert(self.diagnostics@[i] == dk[i]);
                        }
                    }
                }
            }
            k = k + 1;
        }
    }
}

} // verus!
