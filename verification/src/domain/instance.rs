//! Instantiation (K8): the clocks bound to an instance map the target's
//! domains to the parent's; every other binding is checked against the
//! domain its port expects. One domain key bound to two clocks is E3014.
//! Builtin crossing primitives map their source and destination sides
//! the same way and remind of their usage rules (W3005, W3006).

use vstd::prelude::*;

use crate::ast::Span;
use crate::defs::DefKind;
use crate::domain::ir::{
    DomainInput, DomainRole, InstanceIr, InstanceTarget, PortBinding, PortIr, PrimKind, Primitive,
    UnitItem,
};
use crate::domain::annotation::trust_alias_spec;
use crate::domain::join::{crossing, resolve_spec};
use crate::domain::{lemma_walk_frame_trans, DomainDiag, DomainId, Inferencer};
use crate::text::eq_str;

verus! {

/// The port of `ports` named `name`, first match.
pub fn find_port(ports: &Vec<PortIr>, name: &String) -> (r: Option<usize>)
    ensures
        match r {
            Some(k) => k < ports@.len() && ports@[k as int].name@ == name@ && forall|j: int|
                0 <= j < k ==> (#[trigger] ports@[j]).name@ != name@,
            None => forall|j: int| 0 <= j < ports@.len() ==> (#[trigger] ports@[j]).name@ != name@,
        },
{
    let mut k: usize = 0;
    while k < ports.len()
        invariant
            k <= ports@.len(),
            forall|j: int| 0 <= j < k ==> (#[trigger] ports@[j]).name@ != name@,
        decreases ports@.len() - k,
    {
        if eq_str(ports[k].name.as_str(), name.as_str()) {
            return Some(k);
        }
        k = k + 1;
    }
    None
}

/// The value under `name` in a port map.
pub fn lookup_port(map: &Vec<(String, DomainId)>, name: &String) -> (r: Option<DomainId>)
    ensures
        match r {
            Some(d) => exists|k: int| 0 <= k < map@.len() && (#[trigger] map@[k]).0@ == name@ && map@[k].1 == d,
            None => forall|k: int| 0 <= k < map@.len() ==> (#[trigger] map@[k]).0@ != name@,
        },
{
    let mut k: usize = 0;
    while k < map.len()
        invariant
            k <= map@.len(),
            forall|j: int| 0 <= j < k ==> (#[trigger] map@[j]).0@ != name@,
        decreases map@.len() - k,
    {
        if eq_str(map[k].0.as_str(), name.as_str()) {
            return Some(map[k].1);
        }
        k = k + 1;
    }
    None
}

/// Some entry of the port map `pm` is named `n`.
pub open spec fn has_port_name(pm: Seq<(String, DomainId)>, n: Seq<char>) -> bool {
    exists|j: int| 0 <= j < pm.len() && (#[trigger] pm[j]).0@ == n
}

/// The ports of a module or extern module item.
pub open spec fn item_ports(item: UnitItem) -> Option<Seq<PortIr>> {
    match item {
        UnitItem::Module(m) => Some(m.ports@),
        UnitItem::Extern(x) => Some(x.ports@),
        UnitItem::Other => None,
    }
}

/// The domain a binding carries into its port: its value's, or for a
/// binding without value the domain of the signal of the port's name.
pub open spec fn binding_actual(fin: Inferencer, b: PortBinding) -> DomainId {
    match b.value {
        Some(e) => match fin.expr_domains@[e as int] {
            Some(x) => x,
            None => DomainId::Timeless,
        },
        None => match b.port_def {
            Some(d) => match fin.signal_domains@[d as int] {
                Some(x) => x,
                None => DomainId::Timeless,
            },
            None => DomainId::Timeless,
        },
    }
}

/// Where the value of a binding is written.
pub open spec fn binding_src_span(inp: DomainInput, b: PortBinding) -> Span {
    match b.value {
        Some(e) => inp.exprs@[e as int].span,
        None => b.span,
    }
}

/// Where the expected and the carried domain are two different definite
/// domains, an E3001 (assignment crossing) for the binding is among the
/// findings from index `from` on.
#[verifier::opaque]
pub open spec fn cdc_reported(diags: Seq<DomainDiag>, from: int, inp: DomainInput, expected: DomainId, actual: DomainId, b: PortBinding) -> bool {
    (expected is Explicit && actual is Explicit && expected != actual) ==> exists|j: int|
        from <= j < diags.len() && #[trigger] diags[j] == (DomainDiag::CdcAssign {
            dst: expected,
            src: actual,
            dst_span: b.span,
            src_span: binding_src_span(inp, b),
        })
}

/// The first port named `name` is no clock.
#[verifier::opaque]
pub open spec fn data_port_named(inp: DomainInput, ports: Seq<PortIr>, name: Seq<char>) -> bool {
    exists|pi: int|
        0 <= pi < ports.len() && (#[trigger] ports[pi]).name@ == name && (forall|j: int| 0 <= j < pi ==> (#[trigger] ports[j]).name@ != name)
            && !is_clock_port(inp, ports[pi])
}

/// The domain a port map expects for `name`; `Timeless` where it has none.
#[verifier::opaque]
pub open spec fn expected_of(pm: Seq<(String, DomainId)>, name: Seq<char>) -> DomainId {
    if exists|k: int| 0 <= k < pm.len() && (#[trigger] pm[k]).0@ == name {
        pm[choose|k: int| 0 <= k < pm.len() && (#[trigger] pm[k]).0@ == name].1
    } else {
        DomainId::Timeless
    }
}

/// What the checks of the first `n` bindings to data ports established.
#[verifier::opaque]
pub open spec fn bindings_checked(inp: DomainInput, ports: Seq<PortIr>, bs: Seq<PortBinding>, pm: Seq<(String, DomainId)>, from: int, s: Inferencer, n: int) -> bool {
    forall|k: int| 0 <= k < n && data_port_named(inp, ports, (#[trigger] bs[k]).port_name@)
        ==> cdc_reported(s.diagnostics@, from, inp, expected_of(pm, bs[k].port_name@), binding_actual(s, bs[k]), bs[k])
        && (bs[k].value matches Some(e) ==> s.expr_domains@[e as int] is Some)
}

proof fn lemma_bindings_checked_kept(inp: DomainInput, ports: Seq<PortIr>, bs: Seq<PortBinding>, pm: Seq<(String, DomainId)>, from: int, a: Inferencer, b: Inferencer, n: int)
    requires
        bindings_checked(inp, ports, bs, pm, from, a, n),
        0 <= n <= bs.len(),
        0 <= from,
        a.diagnostics@.len() <= b.diagnostics@.len(),
        forall|j: int| 0 <= j < a.diagnostics@.len() ==> #[trigger] b.diagnostics@[j] == a.diagnostics@[j],
        b.signal_domains == a.signal_domains,
        b.expr_domains@.len() == a.expr_domains@.len(),
        forall|e: int| 0 <= e < a.expr_domains@.len() && (#[trigger] a.expr_domains@[e]) is Some ==> b.expr_domains@[e] == a.expr_domains@[e],
        forall|k: int| 0 <= k < bs.len() ==> ((#[trigger] bs[k]).value matches Some(e) ==> e < a.expr_domains@.len()),
    ensures
        bindings_checked(inp, ports, bs, pm, from, b, n),
{
    reveal(cdc_reported);
    reveal(bindings_checked);
    assert forall|k: int| 0 <= k < n && data_port_named(inp, ports, (#[trigger] bs[k]).port_name@)
        implies cdc_reported(b.diagnostics@, from, inp, expected_of(pm, bs[k].port_name@), binding_actual(b, bs[k]), bs[k])
        && (bs[k].value matches Some(e) ==> b.expr_domains@[e as int] is Some) by {
        let bk = bs[k];
        if let Some(e) = bk.value {
            assert(a.expr_domains@[e as int] is Some);
        }
        assert(binding_actual(b, bk) == binding_actual(a, bk));
        let ex = expected_of(pm, bk.port_name@);
        let ac = binding_actual(a, bk);
        if ex is Explicit && ac is Explicit && ex != ac {
            let j = choose|j: int| from <= j < a.diagnostics@.len() && #[trigger] a.diagnostics@[j] == (DomainDiag::CdcAssign {
                dst: ex,
                src: ac,
                dst_span: bk.span,
                src_span: binding_src_span(inp, bk),
            });
            assert(b.diagnostics@[j] == a.diagnostics@[j]);
        }
    }
}

proof fn lemma_bindings_checked_extend(inp: DomainInput, ports: Seq<PortIr>, bs: Seq<PortBinding>, pm: Seq<(String, DomainId)>, from: int, from2: int, s: Inferencer, i: int)
    requires
        bindings_checked(inp, ports, bs, pm, from, s, i),
        0 <= i < bs.len(),
        0 <= from <= from2,
        data_port_named(inp, ports, bs[i].port_name@) ==> cdc_reported(s.diagnostics@, from2, inp, expected_of(pm, bs[i].port_name@),
            binding_actual(s, bs[i]), bs[i]) && (bs[i].value matches Some(e) ==> s.expr_domains@[e as int] is Some),
    ensures
        bindings_checked(inp, ports, bs, pm, from, s, i + 1),
{
    reveal(bindings_checked);
    reveal(cdc_reported);
    assert forall|k: int| 0 <= k < i + 1 && data_port_named(inp, ports, (#[trigger] bs[k]).port_name@)
        implies cdc_reported(s.diagnostics@, from, inp, expected_of(pm, bs[k].port_name@), binding_actual(s, bs[k]), bs[k])
        && (bs[k].value matches Some(e) ==> s.expr_domains@[e as int] is Some) by {
        if k == i {
            let ex = expected_of(pm, bs[k].port_name@);
            let ac = binding_actual(s, bs[k]);
            if ex is Explicit && ac is Explicit && ex != ac {
                let j = choose|j: int| from2 <= j < s.diagnostics@.len() && #[trigger] s.diagnostics@[j] == (DomainDiag::CdcAssign {
                    dst: ex,
                    src: ac,
                    dst_span: bs[k].span,
                    src_span: binding_src_span(inp, bs[k]),
                });
            }
        }
    }
}

proof fn lemma_data_port_none(inp: DomainInput, ports: Seq<PortIr>, name: Seq<char>)
    requires
        forall|j: int| 0 <= j < ports.len() ==> (#[trigger] ports[j]).name@ != name,
    ensures
        !data_port_named(inp, ports, name),
{
    reveal(data_port_named);
    if data_port_named(inp, ports, name) {
        let q = choose|q: int|
            0 <= q < ports.len() && (#[trigger] ports[q]).name@ == name && (forall|j: int| 0 <= j < q ==> (#[trigger] ports[j]).name@ != name)
                && !is_clock_port(inp, ports[q]);
        assert(ports[q].name@ != name);
    }
}

proof fn lemma_data_port_at(inp: DomainInput, ports: Seq<PortIr>, name: Seq<char>, pi: int)
    requires
        0 <= pi < ports.len(),
        ports[pi].name@ == name,
        forall|j: int| 0 <= j < pi ==> (#[trigger] ports[j]).name@ != name,
    ensures
        data_port_named(inp, ports, name) == !is_clock_port(inp, ports[pi]),
{
    reveal(data_port_named);
    if data_port_named(inp, ports, name) {
        let q = choose|q: int|
            0 <= q < ports.len() && (#[trigger] ports[q]).name@ == name && (forall|j: int| 0 <= j < q ==> (#[trigger] ports[j]).name@ != name)
                && !is_clock_port(inp, ports[q]);
        if q < pi {
            assert(ports[q].name@ != name);
        } else if q > pi {
            assert(ports[pi].name@ != name);
        }
    }
}

proof fn lemma_expected_of(pm: Seq<(String, DomainId)>, name: Seq<char>, r: Option<DomainId>)
    requires
        port_names_unique(pm),
        match r {
            Some(d) => exists|k: int| 0 <= k < pm.len() && (#[trigger] pm[k]).0@ == name && pm[k].1 == d,
            None => forall|k: int| 0 <= k < pm.len() ==> (#[trigger] pm[k]).0@ != name,
        },
    ensures
        expected_of(pm, name) == match r {
            Some(d) => d,
            None => DomainId::Timeless,
        },
{
    reveal(expected_of);
    if let Some(d) = r {
        let c = choose|k: int| 0 <= k < pm.len() && (#[trigger] pm[k]).0@ == name;
        let k2 = choose|k: int| 0 <= k < pm.len() && (#[trigger] pm[k]).0@ == name && pm[k].1 == d;
        if c < k2 {
            assert(pm[c].0@ != pm[k2].0@);
        } else if c > k2 {
            assert(pm[k2].0@ != pm[c].0@);
        }
    }
}

/// No two entries of a port map share a name.
pub open spec fn port_names_unique(pm: Seq<(String, DomainId)>) -> bool {
    forall|i: int, j: int| 0 <= i < j < pm.len() ==> (#[trigger] pm[i]).0@ != (#[trigger] pm[j]).0@
}

/// Sets `name` to `d` in a port map: a later port of the same name
/// replaces the earlier value.
fn set_port(map: &mut Vec<(String, DomainId)>, name: &String, d: DomainId)
    ensures
        port_names_unique(old(map)@) ==> port_names_unique(final(map)@),
        exists|k: int| 0 <= k < final(map)@.len() && (#[trigger] final(map)@[k]).0@ == name@ && final(map)@[k].1 == d,
        forall|k: int| 0 <= k < final(map)@.len() ==> (#[trigger] final(map)@[k]).1 == d || exists|j: int|
            0 <= j < old(map)@.len() && old(map)@[j].1 == final(map)@[k].1,
        has_port_name(final(map)@, name@),
        forall|n: Seq<char>| has_port_name(old(map)@, n) ==> #[trigger] has_port_name(final(map)@, n),
{
    let mut k: usize = 0;
    while k < map.len()
        invariant
            k <= map@.len(),
            *map == *old(map),
            forall|j: int| 0 <= j < k ==> (#[trigger] map@[j]).0@ != name@,
        decreases map@.len() - k,
    {
        if eq_str(map[k].0.as_str(), name.as_str()) {
            let entry = (map[k].0.clone(), d);
            map.set(k, entry);
            assert(map@[k as int].0@ == name@);
            assert forall|i: int, j: int| 0 <= i < j < map@.len() && port_names_unique(old(map)@) implies (#[trigger] map@[i]).0@ != (#[trigger] map@[j]).0@ by {
                assert(map@[i].0@ == old(map)@[i].0@);
                assert(map@[j].0@ == old(map)@[j].0@);
            }
            assert forall|n: Seq<char>| has_port_name(old(map)@, n) implies #[trigger] has_port_name(map@, n) by {
                let j = choose|j: int| 0 <= j < old(map)@.len() && (#[trigger] old(map)@[j]).0@ == n;
                assert(map@[j].0@ == n);
            }
            assert forall|m: int| 0 <= m < map@.len() implies (#[trigger] map@[m]).1 == d || exists|j: int|
                0 <= j < old(map)@.len() && old(map)@[j].1 == map@[m].1 by {
                if m != k {
                    assert(old(map)@[m].1 == map@[m].1);
                }
            }
            return;
        }
        k = k + 1;
    }
    map.push((name.clone(), d));
    assert(map@[map@.len() - 1].0@ == name@);
    assert forall|i: int, j: int| 0 <= i < j < map@.len() && port_names_unique(old(map)@) implies (#[trigger] map@[i]).0@ != (#[trigger] map@[j]).0@ by {
        assert(map@[i] == old(map)@[i]);
        if j < old(map)@.len() {
            assert(map@[j] == old(map)@[j]);
        }
    }
    assert forall|n: Seq<char>| has_port_name(old(map)@, n) implies #[trigger] has_port_name(map@, n) by {
        let j = choose|j: int| 0 <= j < old(map)@.len() && (#[trigger] old(map)@[j]).0@ == n;
        assert(map@[j] == old(map)@[j]);
    }
    assert forall|m: int| 0 <= m < map@.len() implies (#[trigger] map@[m]).1 == d || exists|j: int|
        0 <= j < old(map)@.len() && old(map)@[j].1 == map@[m].1 by {
        if m < old(map)@.len() {
            assert(old(map)@[m].1 == map@[m].1);
        }
    }
}

/// `p` is a clock port.
pub open spec fn is_clock_port(inp: DomainInput, p: PortIr) -> bool {
    p.def matches Some(d) && inp.defs@[d as int].is_clock
}

fn clock_port(inp: &DomainInput, p: &PortIr) -> (r: bool)
    requires
        inp.wf(),
        inp.port_ok(*p),
    ensures
        r == is_clock_port(*inp, *p),
{
    match p.def {
        Some(d) => inp.defs[d as usize].is_clock,
        None => false,
    }
}

/// Every domain in a port map is valid in `s`.
pub open spec fn map_valid(s: Inferencer, map: Seq<(String, DomainId)>) -> bool {
    forall|k: int| 0 <= k < map.len() ==> s.valid(#[trigger] map[k].1)
}

impl Inferencer {
    /// Evaluates the value of a binding whose port is unknown.
    pub fn propagate_binding(&mut self, inp: &DomainInput, b: &PortBinding)
        requires
            inp.wf(),
            old(self).wf(inp),
            inp.binding_ok(*b),
        ensures
            final(self).wf(inp),
            final(self).expr_frame(old(self)),
            b.value matches Some(e) ==> final(self).expr_domains@[e as int] is Some,
            b.value is None ==> *final(self) == *old(self),
    {
        match b.value {
            Some(e) => {
                self.expr_domain(inp, e);
            },
            None => {},
        }
    }

    /// The domain of a binding's value; the shorthand `port` reads the
    /// local signal of the same name.
    pub fn binding_domain(&mut self, inp: &DomainInput, b: &PortBinding) -> (r: DomainId)
        requires
            inp.wf(),
            old(self).wf(inp),
            inp.binding_ok(*b),
        ensures
            final(self).wf(inp),
            final(self).expr_frame(old(self)),
            final(self).valid(r),
            b.value matches Some(e) ==> final(self).expr_domains@[e as int] == Some(r),
            b.value is None ==> *final(self) == *old(self) && r == match b.port_def {
                Some(d) => match old(self).signal_domains@[d as int] {
                    Some(x) => x,
                    None => DomainId::Timeless,
                },
                None => DomainId::Timeless,
            },
    {
        match b.value {
            Some(e) => self.expr_domain(inp, e),
            None => match b.port_def {
                Some(d) => self.def_domain(inp, d),
                None => DomainId::Timeless,
            },
        }
    }

    /// A binding checked against the domain its port expects (K6).
    pub fn check_binding(&mut self, inp: &DomainInput, expected: DomainId, b: &PortBinding)
        requires
            inp.wf(),
            old(self).wf(inp),
            inp.binding_ok(*b),
            old(self).valid(expected),
        ensures
            final(self).wf(inp),
            final(self).expr_frame(old(self)),
            b.value matches Some(e) ==> final(self).expr_domains@[e as int] is Some,
            b.value is None ==> ({
                let a = match b.port_def {
                    Some(d) => match old(self).signal_domains@[d as int] {
                        Some(x) => x,
                        None => DomainId::Timeless,
                    },
                    None => DomainId::Timeless,
                };
                crossing(resolve_spec(old(self).vars@, expected), resolve_spec(old(self).vars@, a)) ==> final(self).diagnostics@
                    == old(self).diagnostics@.push(
                    DomainDiag::CdcAssign {
                        dst: resolve_spec(old(self).vars@, expected),
                        src: resolve_spec(old(self).vars@, a),
                        dst_span: b.span,
                        src_span: b.span,
                    },
                )
            }),
            cdc_reported(final(self).diagnostics@, old(self).diagnostics@.len() as int, *inp, expected, binding_actual(*final(self), *b), *b),
    {
        let ghost s0 = *self;
        let actual = self.binding_domain(inp, b);
        let value_span = match b.value {
            Some(e) => inp.exprs[e].span,
            None => b.span,
        };
        let ghost s1 = *self;
        self.check_compat(expected, actual, b.span, value_span);
        proof {
            lemma_walk_frame_trans(&s0, &s1, self);
            reveal(cdc_reported);
            assert(binding_actual(*self, *b) == actual);
            if expected is Explicit && actual is Explicit && expected != actual {
                assert(resolve_spec(s1.vars@, expected) == expected);
                assert(resolve_spec(s1.vars@, actual) == actual);
                let j = self.diagnostics@.len() - 1;
                assert(self.diagnostics@[j] == (DomainDiag::CdcAssign {
                    dst: expected,
                    src: actual,
                    dst_span: b.span,
                    src_span: binding_src_span(*inp, *b),
                }));
            }
        }
    }

    /// The domain key of a target port: its `@Name` (unless a trust
    /// alias of the target), its own definition for a clock port, or the
    /// single clock of the target.
    fn port_domain_key(&self, inp: &DomainInput, port: &PortIr, ports: &Vec<PortIr>, clocks: &Vec<usize>) -> (r: Option<u32>)
        requires
            inp.wf(),
            self.wf(inp),
            inp.port_ok(*port),
            inp.ports_ok(ports@),
            forall|k: int| 0 <= k < clocks@.len() ==> #[trigger] clocks@[k] < ports@.len(),
        ensures
            r matches Some(d) ==> d < inp.defs@.len(),
            r == port_key_spec(*self, *inp, *port, ports@, clocks@),
    {
        match &port.domain {
            Some(ann) => {
                let key = match ann.def {
                    Some(k) => k,
                    None => {
                        return None;
                    },
                };
                let mut anchored: Vec<bool> = Vec::new();
                let mut i: usize = 0;
                while i < inp.defs.len()
                    invariant
                        i <= inp.defs@.len(),
                        anchored@.len() == i,
                        forall|d: int| 0 <= d < i ==> !(#[trigger] anchored@[d]),
                    decreases inp.defs@.len() - i,
                {
                    anchored.push(false);
                    i = i + 1;
                }
                let mut c: usize = 0;
                while c < clocks.len()
                    invariant
                        inp.wf(),
                        inp.ports_ok(ports@),
                        forall|k: int| 0 <= k < clocks@.len() ==> #[trigger] clocks@[k] < ports@.len(),
                        anchored@.len() == inp.defs@.len(),
                        c <= clocks@.len(),
                        forall|d: int| 0 <= d < inp.defs@.len() ==> (#[trigger] anchored@[d] <==> exists|c2: int|
                            0 <= c2 < c && ((#[trigger] ports@[clocks@[c2] as int]).domain matches Some(a) && a.def == Some(d as u32))),
                    decreases clocks@.len() - c,
                {
                    let ghost a0 = anchored@;
                    let cp = &ports[clocks[c]];
                    assert(inp.port_ok(ports@[clocks@[c as int] as int]));
                    match &cp.domain {
                        Some(a) => match a.def {
                            Some(d) => {
                                anchored.set(d as usize, true);
                            },
                            None => {},
                        },
                        None => {},
                    }
                    proof {
                        assert forall|d: int| 0 <= d < inp.defs@.len() implies (#[trigger] anchored@[d] <==> exists|c2: int|
                            0 <= c2 < c + 1 && ((#[trigger] ports@[clocks@[c2] as int]).domain matches Some(a) && a.def == Some(d as u32))) by {
                            if anchored@[d] && !a0[d] {
                                assert(ports@[clocks@[c as int] as int].domain matches Some(a) && a.def == Some(d as u32));
                            }
                            if exists|c2: int| 0 <= c2 < c + 1 && ((#[trigger] ports@[clocks@[c2] as int]).domain matches Some(a) && a.def == Some(d as u32)) {
                                let c2 = choose|c2: int| 0 <= c2 < c + 1 && ((#[trigger] ports@[clocks@[c2] as int]).domain matches Some(a) && a.def == Some(d as u32));
                                if c2 < c {
                                    assert(a0[d]);
                                }
                            }
                        }
                    }
                    c = c + 1;
                }
                assert(anchored@ =~= anchored_seq(*inp, ports@, clocks@));
                if !self.is_trust_only_alias(inp, key, &anchored) {
                    return Some(key);
                }
            },
            None => {},
        }
        let def = match port.def {
            Some(d) => d,
            None => {
                return None;
            },
        };
        if inp.defs[def as usize].is_clock {
            return Some(def);
        }
        if clocks.len() == 1 {
            let single = &ports[clocks[0]];
            assert(inp.port_ok(ports@[clocks@[0] as int]));
            match &single.domain {
                Some(a) => a.def,
                None => single.def,
            }
        } else {
            None
        }
    }

    /// The domain a target port expects: the clock bound to its key, else
    /// the global domain its key declares; an unbound symbolic domain is
    /// `Error` (it cannot be checked), and no key is `Timeless`.
    fn expected_port_domain(
        &self,
        inp: &DomainInput,
        port: &PortIr,
        ports: &Vec<PortIr>,
        clocks: &Vec<usize>,
        mapping: &Vec<(u32, DomainId, Span)>,
    ) -> (r: DomainId)
        requires
            inp.wf(),
            self.wf(inp),
            inp.port_ok(*port),
            inp.ports_ok(ports@),
            forall|k: int| 0 <= k < clocks@.len() ==> #[trigger] clocks@[k] < ports@.len(),
            forall|k: int| 0 <= k < mapping@.len() ==> self.valid(#[trigger] mapping@[k].1),
        ensures
            self.valid(r),
    {
        let key = match self.port_domain_key(inp, port, ports, clocks) {
            Some(k) => k,
            None => {
                return DomainId::Timeless;
            },
        };
        let mut k: usize = 0;
        while k < mapping.len()
            invariant
                k <= mapping@.len(),
                forall|j: int| 0 <= j < mapping@.len() ==> self.valid(#[trigger] mapping@[j].1),
            decreases mapping@.len() - k,
        {
            if mapping[k].0 == key {
                return mapping[k].1;
            }
            k = k + 1;
        }
        match self.by_decl[key as usize] {
            Some(id) => DomainId::Explicit(id),
            None => if inp.defs[key as usize].kind == DefKind::DomainParam {
                DomainId::Error
            } else {
                DomainId::Timeless
            },
        }
    }

    /// K8 step one: from the clock bindings, each domain key of the target
    /// to the parent's domain. A second clock from a different definite
    /// domain is E3014 and turns the key to `Error`, so that the port
    /// checks do not cascade.
    fn build_domain_mapping(
        &mut self,
        inp: &DomainInput,
        inst: &InstanceIr,
        ports: &Vec<PortIr>,
        clocks: &Vec<usize>,
    ) -> (mapping: Vec<(u32, DomainId, Span)>)
        requires
            inp.wf(),
            old(self).wf(inp),
            inp.instance_ok(*inst),
            inp.ports_ok(ports@),
            forall|k: int| 0 <= k < clocks@.len() ==> #[trigger] clocks@[k] < ports@.len(),
        ensures
            final(self).wf(inp),
            final(self).expr_frame(old(self)),
            forall|k: int| 0 <= k < mapping@.len() ==> final(self).valid(#[trigger] mapping@[k].1),
            forall|k1: int, k2: int| 0 <= k1 < k2 < mapping@.len() ==> (#[trigger] mapping@[k1]).0 != (#[trigger] mapping@[k2]).0,
            forall|m: int| 0 <= m < mapping@.len() ==> keyed_by(*old(self), *inp, ports@, clocks@, inst.bindings@,
                inst.bindings@.len() as int, (#[trigger] mapping@[m]).0),
            forall|k: int, key: u32| 0 <= k < inst.bindings@.len() && #[trigger] binding_key(*old(self), *inp, ports@, clocks@,
                inst.bindings@[k].port_name@, key) ==> exists|m: int| 0 <= m < mapping@.len() && (#[trigger] mapping@[m]).0 == key,
            conflicts_ok(*old(self), *inp, ports@, clocks@, inst.bindings@, *final(self), old(self).diagnostics@.len() as int,
                inst.bindings@.len() as int),
            keyed_memo(*old(self), *inp, ports@, clocks@, inst.bindings@, *final(self), inst.bindings@.len() as int),
    {
        let ghost s0 = *self;
        let ghost d0 = self.diagnostics@.len() as int;
        let mut mapping: Vec<(u32, DomainId, Span)> = Vec::new();
        let ghost mut firsts: Seq<int> = Seq::empty();
        proof {
            reveal(entries_ok);
            reveal(conflicts_ok);
        }
        let mut i: usize = 0;
        while i < inst.bindings.len()
            invariant
                d0 == s0.diagnostics@.len(),
                entries_ok(s0, *inp, ports@, clocks@, inst.bindings@, mapping@, firsts, *self, d0, i as int),
                conflicts_ok(s0, *inp, ports@, clocks@, inst.bindings@, *self, d0, i as int),
                keyed_memo(s0, *inp, ports@, clocks@, inst.bindings@, *self, i as int),
                inp.wf(),
                self.wf(inp),
                inp.instance_ok(*inst),
                inp.ports_ok(ports@),
                forall|k: int| 0 <= k < clocks@.len() ==> #[trigger] clocks@[k] < ports@.len(),
                self.expr_frame(&s0),
                forall|k: int| 0 <= k < mapping@.len() ==> self.valid(#[trigger] mapping@[k].1),
                i <= inst.bindings@.len(),
                forall|k1: int, k2: int| 0 <= k1 < k2 < mapping@.len() ==> (#[trigger] mapping@[k1]).0 != (#[trigger] mapping@[k2]).0,
                forall|m: int| 0 <= m < mapping@.len() ==> keyed_by(s0, *inp, ports@, clocks@, inst.bindings@, i as int,
                    (#[trigger] mapping@[m]).0),
                forall|k: int, key: u32| 0 <= k < i && #[trigger] binding_key(s0, *inp, ports@, clocks@,
                    inst.bindings@[k].port_name@, key) ==> exists|m: int| 0 <= m < mapping@.len() && (#[trigger] mapping@[m]).0 == key,
            decreases inst.bindings@.len() - i,
        {
            let b = &inst.bindings[i];
            assert(inp.binding_ok(inst.bindings@[i as int]));
            let ghost mi = mapping@;
            let ghost name = b.port_name@;
            assert(inst.bindings@[i as int].port_name@ == name);
            let pi = match find_port(ports, &b.port_name) {
                Some(p) => p,
                None => {
                    proof {
                        assert forall|key: u32| !binding_key(s0, *inp, ports@, clocks@, name, key) by {
                            reveal(binding_key);
                            if binding_key(s0, *inp, ports@, clocks@, name, key) {
                                let q = choose|q: int|
                                    0 <= q < ports@.len() && (#[trigger] ports@[q]).name@ == name && (forall|j: int| 0 <= j < q ==> (#[trigger] ports@[j]).name@ != name)
                                        && is_clock_port(*inp, ports@[q]) && port_key_spec(s0, *inp, ports@[q], ports@, clocks@) == Some(key);
                                assert(ports@[q].name@ != name);
                            }
                        }
                        assert forall|m: int| 0 <= m < mapping@.len() implies keyed_by(s0, *inp, ports@, clocks@, inst.bindings@,
                            i + 1, (#[trigger] mapping@[m]).0) by {
                            let k = choose|k: int| 0 <= k < i && #[trigger] binding_key(s0, *inp, ports@, clocks@,
                                inst.bindings@[k].port_name@, mapping@[m].0);
                        }
                        lemma_step_nokey(s0, *inp, ports@, clocks@, inst.bindings@, mapping@, firsts, *self, d0, i as int);
                    }
                    i = i + 1;
                    continue;
                },
            };
            let port = &ports[pi];
            assert(inp.port_ok(ports@[pi as int]));
            proof {
                assert forall|key: u32| binding_key(s0, *inp, ports@, clocks@, name, key) <==> (is_clock_port(*inp, ports@[pi as int])
                    && port_key_spec(s0, *inp, ports@[pi as int], ports@, clocks@) == Some(key)) by {
                    lemma_binding_key_at(s0, *inp, ports@, clocks@, name, pi as int, key);
                }
                assert forall|m: int| 0 <= m < mapping@.len() implies keyed_by(s0, *inp, ports@, clocks@, inst.bindings@,
                    i + 1, (#[trigger] mapping@[m]).0) by {
                    let k = choose|k: int| 0 <= k < i && #[trigger] binding_key(s0, *inp, ports@, clocks@,
                        inst.bindings@[k].port_name@, mapping@[m].0);
                }
            }
            if !clock_port(inp, port) {
                proof {
                    lemma_step_nokey(s0, *inp, ports@, clocks@, inst.bindings@, mapping@, firsts, *self, d0, i as int);
                }
                i = i + 1;
                continue;
            }
            let key = match self.port_domain_key(inp, port, ports, clocks) {
                Some(k) => k,
                None => {
                    proof {
                        lemma_step_nokey(s0, *inp, ports@, clocks@, inst.bindings@, mapping@, firsts, *self, d0, i as int);
                    }
                    i = i + 1;
                    continue;
                },
            };
            assert(binding_key(s0, *inp, ports@, clocks@, name, key)) by {
                lemma_binding_key_at(s0, *inp, ports@, clocks@, name, pi as int, key);
            }
            let ghost t0 = *self;
            let actual = self.binding_domain(inp, b);
            let ghost t1 = *self;
            let mut m: usize = 0;
            let mut found = false;
            while m < mapping.len() && !found
                invariant
                    m <= mapping@.len(),
                    found ==> m < mapping@.len() && mapping@[m as int].0 == key,
                    !found ==> forall|m2: int| 0 <= m2 < m ==> (#[trigger] mapping@[m2]).0 != key,
                decreases mapping@.len() - m, if found { 0int } else { 1int },
            {
                if mapping[m].0 == key {
                    found = true;
                } else {
                    m = m + 1;
                }
            }
            proof {
                assert forall|k: int| 0 <= k < inst.bindings@.len() implies ((#[trigger] inst.bindings@[k]).value matches Some(e) ==> e < t0.expr_domains@.len()) by {
                    assert(inp.binding_ok(inst.bindings@[k]));
                }
                lemma_mapping_facts_kept(s0, *inp, ports@, clocks@, inst.bindings@, mapping@, firsts, t0, t1, d0, i as int);
                assert(actual == binding_actual(t1, inst.bindings@[i as int]));
                assert forall|key2: u32| #[trigger] binding_key(s0, *inp, ports@, clocks@, inst.bindings@[i as int].port_name@, key2) implies key2 == key by {
                    lemma_binding_key_at(s0, *inp, ports@, clocks@, name, pi as int, key2);
                    lemma_binding_key_at(s0, *inp, ports@, clocks@, name, pi as int, key);
                }
            }
            if found {
                let (_, prev, prev_span) = mapping[m];
                let rp = self.resolve_dom(prev);
                let ra = self.resolve_dom(actual);
                let conflict = match (rp, ra) {
                    (DomainId::Explicit(x), DomainId::Explicit(y)) => x != y,
                    _ => false,
                };
                let ghost mp = mapping@;
                if conflict {
                    self.diagnostics.push(
                        DomainDiag::ClockConflict { key, prev, actual, prev_span, span: b.span },
                    );
                    mapping.set(m, (key, DomainId::Error, prev_span));
                    proof {
                        let jj = self.diagnostics@.len() - 1;
                        assert(self.diagnostics@[jj] matches DomainDiag::ClockConflict { key: k, .. } && k == key);
                        assert(mapping@ == mp.update(m as int, (key, DomainId::Error, mp[m as int].2)));
                    }
                }
                proof {
                    if prev is Explicit {
                        assert(rp == prev);
                    }
                    if actual is Explicit {
                        assert(ra == actual);
                    }
                    lemma_step_found(s0, *inp, ports@, clocks@, inst.bindings@, mp, mapping@, firsts, t1, *self, d0, i as int,
                        m as int, key, conflict);
                }
            } else {
                mapping.push((key, actual, b.span));
                proof {
                    lemma_step_new(s0, *inp, ports@, clocks@, inst.bindings@, mi, firsts, *self, d0, i as int, key, b.span);
                    firsts = firsts.push(i as int);
                }
            }
            proof {
                lemma_walk_frame_trans(&t0, &t1, self);
                lemma_walk_frame_trans(&s0, &t0, self);
                assert forall|m2: int| 0 <= m2 < mi.len() implies (#[trigger] mapping@[m2]).0 == mi[m2].0 by {
                }
                assert(exists|m2: int| 0 <= m2 < mapping@.len() && (#[trigger] mapping@[m2]).0 == key) by {
                    if found {
                        assert(mapping@[m as int].0 == key);
                    } else {
                        assert(mapping@[mi.len() as int].0 == key);
                    }
                }
                assert forall|m2: int| 0 <= m2 < mapping@.len() implies keyed_by(s0, *inp, ports@, clocks@, inst.bindings@,
                    i + 1, (#[trigger] mapping@[m2]).0) by {
                    if m2 < mi.len() {
                        assert(keyed_by(s0, *inp, ports@, clocks@, inst.bindings@, i as int, mi[m2].0));
                        let k = choose|k: int| 0 <= k < i && #[trigger] binding_key(s0, *inp, ports@, clocks@,
                            inst.bindings@[k].port_name@, mi[m2].0);
                    } else {
                        assert(binding_key(s0, *inp, ports@, clocks@, inst.bindings@[i as int].port_name@, mapping@[m2].0));
                    }
                }
                assert forall|k: int, key2: u32| 0 <= k < i + 1 && #[trigger] binding_key(s0, *inp, ports@, clocks@,
                    inst.bindings@[k].port_name@, key2) implies exists|m2: int| 0 <= m2 < mapping@.len() && (#[trigger] mapping@[m2]).0 == key2 by {
                    if k < i {
                        let m3 = choose|m3: int| 0 <= m3 < mi.len() && (#[trigger] mi[m3]).0 == key2;
                        assert(mapping@[m3].0 == key2);
                    }
                }
            }
            i = i + 1;
        }
        mapping
    }

    /// An instance of a module, extern module or builtin primitive.
    pub fn check_instance(&mut self, inp: &DomainInput, inst: &InstanceIr)
        requires
            inp.wf(),
            old(self).wf(inp),
            inp.instance_ok(*inst),
        ensures
            final(self).wf(inp),
            final(self).walk_frame(old(self)),
            inst.def matches Some(d) ==> (inst.target matches InstanceTarget::Item(t) ==> (t < inp.items@.len()
                ==> (item_ports(inp.items@[t as int]) matches Some(ps) ==> (final(self).instance_ports@[d as int] matches Some(
                pm) && forall|q: int| 0 <= q < ps.len() ==> has_port_name(pm@, (#[trigger] ps[q]).name@))))),
            inst.def matches Some(d) ==> (inst.target matches InstanceTarget::Item(t) ==> (t < inp.items@.len()
                ==> (item_ports(inp.items@[t as int]) matches Some(ps) ==> (final(self).instance_ports@[d as int] matches Some(
                pm) && forall|i: int| 0 <= i < inst.bindings@.len() && data_port_named(*inp, ps, (#[trigger] inst.bindings@[i]).port_name@)
                ==> cdc_reported(final(self).diagnostics@, old(self).diagnostics@.len() as int, *inp,
                expected_of(pm@, inst.bindings@[i].port_name@), binding_actual(*final(self), inst.bindings@[i]), inst.bindings@[i]))))),
            inst.def is Some ==> (inst.target matches InstanceTarget::Item(t) ==> (t < inp.items@.len()
                ==> (item_ports(inp.items@[t as int]) matches Some(ps) ==> conflicts_ok(*old(self), *inp, ps, clock_indices(*inp, ps,
                ps.len() as int), inst.bindings@, *final(self), old(self).diagnostics@.len() as int, inst.bindings@.len() as int)))),
    {
        let inst_def = match inst.def {
            Some(d) => d,
            None => {
                return;
            },
        };
        let ghost s0 = *self;
        let t = match &inst.target {
            InstanceTarget::Builtin(prim) => {
                self.check_builtin_instance(inp, inst, inst_def, prim);
                return;
            },
            InstanceTarget::Unresolved => {
                let mut i: usize = 0;
                while i < inst.bindings.len()
                    invariant
                        inp.wf(),
                        self.wf(inp),
                        inp.instance_ok(*inst),
                        self.expr_frame(&s0),
                        i <= inst.bindings@.len(),
                    decreases inst.bindings@.len() - i,
                {
                    let ghost t0 = *self;
                    assert(inp.binding_ok(inst.bindings@[i as int]));
                    self.propagate_binding(inp, &inst.bindings[i]);
                    proof {
                        lemma_walk_frame_trans(&s0, &t0, self);
                    }
                    i = i + 1;
                }
                return;
            },
            InstanceTarget::Item(t) => *t,
        };
        if t >= inp.items.len() {
            return;
        }
        let ports = match &inp.items[t] {
            UnitItem::Module(m) => &m.ports,
            UnitItem::Extern(x) => &x.ports,
            UnitItem::Other => {
                return;
            },
        };
        assert(inp.item_ok(inp.items@[t as int]));
        assert(inp.ports_ok(ports@));
        let mut clocks: Vec<usize> = Vec::new();
        let mut c: usize = 0;
        while c < ports.len()
            invariant
                inp.wf(),
                inp.ports_ok(ports@),
                c <= ports@.len(),
                forall|k: int| 0 <= k < clocks@.len() ==> #[trigger] clocks@[k] < ports@.len(),
                clocks@ == clock_indices(*inp, ports@, c as int),
            decreases ports@.len() - c,
        {
            assert(inp.port_ok(ports@[c as int]));
            if clock_port(inp, &ports[c]) {
                clocks.push(c);
            }
            c = c + 1;
        }
        assert(*self == *old(self));
        let mapping = self.build_domain_mapping(inp, inst, ports, &clocks);
        let ghost s1 = *self;
        let ghost d1 = s1.diagnostics@.len();
        let mut port_domains: Vec<(String, DomainId)> = Vec::new();
        let mut p: usize = 0;
        while p < ports.len()
            invariant
                inp.wf(),
                self.wf(inp),
                *self == s1,
                inp.ports_ok(ports@),
                forall|k: int| 0 <= k < clocks@.len() ==> #[trigger] clocks@[k] < ports@.len(),
                forall|k: int| 0 <= k < mapping@.len() ==> self.valid(#[trigger] mapping@[k].1),
                map_valid(*self, port_domains@),
                p <= ports@.len(),
                forall|q: int| 0 <= q < p ==> has_port_name(port_domains@, (#[trigger] ports@[q]).name@),
                port_names_unique(port_domains@),
            decreases ports@.len() - p,
        {
            assert(inp.port_ok(ports@[p as int]));
            let expected = self.expected_port_domain(inp, &ports[p], ports, &clocks, &mapping);
            set_port(&mut port_domains, &ports[p].name, expected);
            p = p + 1;
        }
        proof {
            reveal(bindings_checked);
        }
        let mut i: usize = 0;
        while i < inst.bindings.len()
            invariant
                inp.wf(),
                self.wf(inp),
                inp.instance_ok(*inst),
                inp.ports_ok(ports@),
                self.expr_frame(&s1),
                map_valid(*self, port_domains@),
                i <= inst.bindings@.len(),
                forall|q: int| 0 <= q < ports@.len() ==> has_port_name(port_domains@, (#[trigger] ports@[q]).name@),
                port_names_unique(port_domains@),
                d1 == s1.diagnostics@.len(),
                bindings_checked(*inp, ports@, inst.bindings@, port_domains@, d1 as int, *self, i as int),
            decreases inst.bindings@.len() - i,
        {
            let b = &inst.bindings[i];
            assert(inp.binding_ok(inst.bindings@[i as int]));
            let ghost t0 = *self;
            let ghost name = b.port_name@;
            match find_port(ports, &b.port_name) {
                None => {
                    self.propagate_binding(inp, b);
                    proof {
                        lemma_data_port_none(*inp, ports@, name);
                    }
                },
                Some(pi) => {
                    assert(inp.port_ok(ports@[pi as int]));
                    proof {
                        lemma_data_port_at(*inp, ports@, name, pi as int);
                    }
                    if !clock_port(inp, &ports[pi]) {
                        let lk = lookup_port(&port_domains, &ports[pi].name);
                        let expected = match lk {
                            Some(d) => d,
                            None => DomainId::Timeless,
                        };
                        proof {
                            lemma_expected_of(port_domains@, name, lk);
                        }
                        self.check_binding(inp, expected, b);
                    }
                },
            }
            proof {
                lemma_walk_frame_trans(&s1, &t0, self);
                assert forall|k: int| 0 <= k < inst.bindings@.len() implies ((#[trigger] inst.bindings@[k]).value matches Some(e) ==> e < t0.expr_domains@.len()) by {
                    assert(inp.binding_ok(inst.bindings@[k]));
                }
                lemma_bindings_checked_kept(*inp, ports@, inst.bindings@, port_domains@, d1 as int, t0, *self, i as int);
                assert(inst.bindings@[i as int] == *b);
                lemma_bindings_checked_extend(*inp, ports@, inst.bindings@, port_domains@, d1 as int, t0.diagnostics@.len() as int, *self, i as int);
            }
            i = i + 1;
        }
        let ghost s2 = *self;
        self.instance_ports.set(inst_def as usize, Some(port_domains));
        proof {
            assert forall|k: int| 0 <= k < self.instance_ports@.len() implies ((#[trigger] self.instance_ports@[k]) matches Some(
                m,
            ) ==> forall|j: int| 0 <= j < m@.len() ==> self.valid((#[trigger] m@[j]).1)) by {
                if k != inst_def {
                    assert(self.instance_ports@[k] == s2.instance_ports@[k]);
                }
            }
            lemma_walk_frame_trans(&s0, &s1, &s2);
            assert forall|k: int| 0 <= k < inst.bindings@.len() implies ((#[trigger] inst.bindings@[k]).value matches Some(e) ==> e < s2.expr_domains@.len()) by {
                assert(inp.binding_ok(inst.bindings@[k]));
            }
            lemma_bindings_checked_kept(*inp, ports@, inst.bindings@, port_domains@, d1 as int, s2, *self, inst.bindings@.len() as int);
            lemma_conflicts_kept(*old(self), *inp, ports@, clocks@, inst.bindings@, s1, *self, old(self).diagnostics@.len() as int,
                inst.bindings@.len() as int);
            reveal(cdc_reported);
            reveal(bindings_checked);
            assert forall|i: int| 0 <= i < inst.bindings@.len() && data_port_named(*inp, ports@, (#[trigger] inst.bindings@[i]).port_name@)
                implies cdc_reported(self.diagnostics@, old(self).diagnostics@.len() as int, *inp,
                expected_of(port_domains@, inst.bindings@[i].port_name@), binding_actual(*self, inst.bindings@[i]), inst.bindings@[i]) by {
                let bk = inst.bindings@[i];
                let ex = expected_of(port_domains@, bk.port_name@);
                let ac = binding_actual(*self, bk);
                if ex is Explicit && ac is Explicit && ex != ac {
                    let j = choose|j: int| d1 <= j < self.diagnostics@.len() && #[trigger] self.diagnostics@[j] == (DomainDiag::CdcAssign {
                        dst: ex,
                        src: ac,
                        dst_span: bk.span,
                        src_span: binding_src_span(*inp, bk),
                    });
                }
            }
        }
    }

    /// A builtin crossing primitive: its write/source side takes the
    /// domain of the source clock binding, its read/destination side that
    /// of the destination clock; other bindings are checked against their
    /// side; then the usage reminder of the primitive.
    fn check_builtin_instance(&mut self, inp: &DomainInput, inst: &InstanceIr, inst_def: u32, prim: &Primitive)
        requires
            inp.wf(),
            old(self).wf(inp),
            inp.instance_ok(*inst),
            inst_def < inp.defs@.len(),
        ensures
            final(self).wf(inp),
            final(self).walk_frame(old(self)),
            final(self).instance_ports@[inst_def as int] matches Some(map) && forall|p: int| 0 <= p < prim.ports@.len()
                ==> has_port_name(map@, (#[trigger] prim.ports@[p]).name@),
            forall|k: int| 0 <= k < inst.bindings@.len() ==> ((#[trigger] inst.bindings@[k]).value matches Some(e)
                ==> final(self).expr_domains@[e as int] is Some),
            match prim.kind {
                PrimKind::DualPortRam => final(self).diagnostics@.last() == (DomainDiag::DualPortRamReminder { span: inst.name_span }),
                PrimKind::AsyncDualPortRam => final(self).diagnostics@.last() == (DomainDiag::AsyncDualPortRamReminder { span: inst.name_span }),
                PrimKind::PulseSync => final(self).diagnostics@.last() == (DomainDiag::PulseSyncReminder { span: inst.name_span }),
                PrimKind::Other => true,
            },
    {
        let ghost s0 = *self;
        let mut src_dom = DomainId::Error;
        let mut dst_dom = DomainId::Error;
        let mut i: usize = 0;
        while i < inst.bindings.len()
            invariant
                inp.wf(),
                self.wf(inp),
                inp.instance_ok(*inst),
                self.expr_frame(&s0),
                self.valid(src_dom),
                self.valid(dst_dom),
                i <= inst.bindings@.len(),
                forall|k: int| 0 <= k < i && clock_binding(*prim, (#[trigger] inst.bindings@[k]).port_name@)
                    ==> (inst.bindings@[k].value matches Some(e) ==> self.expr_domains@[e as int] is Some),
            decreases inst.bindings@.len() - i,
        {
            let b = &inst.bindings[i];
            assert(inp.binding_ok(inst.bindings@[i as int]));
            let ghost ti = *self;
            match prim_port(prim, &b.port_name) {
                Some(pi) => {
                    proof {
                        reveal(clock_binding);
                        if clock_binding(*prim, b.port_name@) {
                            let q = choose|q: int|
                                0 <= q < prim.ports@.len() && (#[trigger] prim.ports@[q]).name@ == b.port_name@ && prim.ports@[q].is_clock
                                    && forall|j: int| 0 <= j < q ==> (#[trigger] prim.ports@[j]).name@ != b.port_name@;
                            if q < pi {
                                assert(prim.ports@[q].name@ != b.port_name@);
                            } else if q > pi {
                                assert(prim.ports@[pi as int].name@ != b.port_name@);
                            }
                        }
                    }
                    if prim.ports[pi].is_clock {
                        let ghost t0 = *self;
                        let dom = self.binding_domain(inp, b);
                        match prim.ports[pi].role {
                            DomainRole::Src => {
                                src_dom = dom;
                            },
                            DomainRole::Dst => {
                                dst_dom = dom;
                            },
                        }
                        proof {
                            lemma_walk_frame_trans(&s0, &t0, self);
                        }
                    }
                },
                None => {
                    proof {
                        reveal(clock_binding);
                        if clock_binding(*prim, b.port_name@) {
                            let q = choose|q: int|
                                0 <= q < prim.ports@.len() && (#[trigger] prim.ports@[q]).name@ == b.port_name@ && prim.ports@[q].is_clock
                                    && forall|j: int| 0 <= j < q ==> (#[trigger] prim.ports@[j]).name@ != b.port_name@;
                            assert(prim.ports@[q].name@ != b.port_name@);
                        }
                    }
                },
            }
            proof {
                assert forall|k: int| 0 <= k < i + 1 && clock_binding(*prim, (#[trigger] inst.bindings@[k]).port_name@)
                    implies (inst.bindings@[k].value matches Some(e) ==> self.expr_domains@[e as int] is Some) by {
                    if k < i {
                        if let Some(e) = inst.bindings@[k].value {
                            assert(ti.expr_domains@[e as int] is Some);
                        }
                    }
                }
            }
            i = i + 1;
        }
        let mut port_domains: Vec<(String, DomainId)> = Vec::new();
        let mut p: usize = 0;
        while p < prim.ports.len()
            invariant
                self.wf(inp),
                self.valid(src_dom),
                self.valid(dst_dom),
                map_valid(*self, port_domains@),
                p <= prim.ports@.len(),
                forall|q: int| 0 <= q < p ==> has_port_name(port_domains@, (#[trigger] prim.ports@[q]).name@),
            decreases prim.ports@.len() - p,
        {
            let dom = match prim.ports[p].role {
                DomainRole::Src => src_dom,
                DomainRole::Dst => dst_dom,
            };
            set_port(&mut port_domains, &prim.ports[p].name, dom);
            p = p + 1;
        }
        let ghost s1 = *self;
        let mut j: usize = 0;
        while j < inst.bindings.len()
            invariant
                inp.wf(),
                self.wf(inp),
                inp.instance_ok(*inst),
                self.expr_frame(&s1),
                map_valid(*self, port_domains@),
                j <= inst.bindings@.len(),
                forall|q: int| 0 <= q < prim.ports@.len() ==> has_port_name(port_domains@, (#[trigger] prim.ports@[q]).name@),
                forall|k: int| 0 <= k < inst.bindings@.len() && clock_binding(*prim, (#[trigger] inst.bindings@[k]).port_name@)
                    ==> (inst.bindings@[k].value matches Some(e) ==> s1.expr_domains@[e as int] is Some),
                forall|k: int| 0 <= k < j ==> ((#[trigger] inst.bindings@[k]).value matches Some(e)
                    ==> self.expr_domains@[e as int] is Some),
            decreases inst.bindings@.len() - j,
        {
            let b = &inst.bindings[j];
            assert(inp.binding_ok(inst.bindings@[j as int]));
            let ghost t0 = *self;
            match prim_port(prim, &b.port_name) {
                None => {
                    self.propagate_binding(inp, b);
                },
                Some(pi) => {
                    proof {
                        if prim.ports@[pi as int].is_clock {
                            reveal(clock_binding);
                            assert(clock_binding(*prim, b.port_name@));
                            if let Some(e) = b.value {
                                assert(s1.expr_domains@[e as int] is Some);
                                assert(t0.expr_domains@[e as int] is Some);
                            }
                        }
                    }
                    if !prim.ports[pi].is_clock {
                        let expected = match lookup_port(&port_domains, &prim.ports[pi].name) {
                            Some(d) => d,
                            None => DomainId::Error,
                        };
                        self.check_binding(inp, expected, b);
                    }
                },
            }
            proof {
                lemma_walk_frame_trans(&s1, &t0, self);
                assert forall|k: int| 0 <= k < j + 1 implies ((#[trigger] inst.bindings@[k]).value matches Some(e)
                    ==> self.expr_domains@[e as int] is Some) by {
                    if k < j {
                        if let Some(e) = inst.bindings@[k].value {
                            assert(t0.expr_domains@[e as int] is Some);
                        }
                    }
                }
            }
            j = j + 1;
        }
        let ghost s2 = *self;
        self.instance_ports.set(inst_def as usize, Some(port_domains));
        let span = inst.name_span;
        match prim.kind {
            PrimKind::DualPortRam => {
                self.diagnostics.push(DomainDiag::DualPortRamReminder { span });
            },
            PrimKind::AsyncDualPortRam => {
                self.diagnostics.push(DomainDiag::AsyncDualPortRamReminder { span });
            },
            PrimKind::PulseSync => {
                self.diagnostics.push(DomainDiag::PulseSyncReminder { span });
            },
            PrimKind::Other => {},
        }
        proof {
            assert forall|k: int| 0 <= k < self.instance_ports@.len() implies ((#[trigger] self.instance_ports@[k]) matches Some(
                m,
            ) ==> forall|j: int| 0 <= j < m@.len() ==> self.valid((#[trigger] m@[j]).1)) by {
                if k != inst_def {
                    assert(self.instance_ports@[k] == s2.instance_ports@[k]);
                }
            }
            lemma_walk_frame_trans(&s0, &s1, &s2);
        }
    }
}

/// The first primitive port named like the binding's port is a clock.
#[verifier::opaque]
pub open spec fn clock_binding(prim: Primitive, name: Seq<char>) -> bool {
    exists|pi: int|
        0 <= pi < prim.ports@.len() && (#[trigger] prim.ports@[pi]).name@ == name && prim.ports@[pi].is_clock
            && forall|j: int| 0 <= j < pi ==> (#[trigger] prim.ports@[j]).name@ != name
}

/// The definitions some clock of `clocks` is annotated with.
pub open spec fn anchored_seq(inp: DomainInput, ports: Seq<PortIr>, clocks: Seq<usize>) -> Seq<bool> {
    Seq::new(
        inp.defs@.len(),
        |d: int|
            exists|c: int|
                0 <= c < clocks.len() && ((#[trigger] ports[clocks[c] as int]).domain matches Some(a) && a.def == Some(
                    d as u32,
                )),
    )
}

/// The domain key of a target port, as `port_domain_key` finds it.
pub open spec fn port_key_spec(s: Inferencer, inp: DomainInput, port: PortIr, ports: Seq<PortIr>, clocks: Seq<usize>) -> Option<u32> {
    let fallback = match port.def {
        None => None,
        Some(d) => if inp.defs@[d as int].is_clock {
            Some(d)
        } else if clocks.len() == 1 {
            match ports[clocks[0] as int].domain {
                Some(a) => a.def,
                None => ports[clocks[0] as int].def,
            }
        } else {
            None
        },
    };
    match port.domain {
        None => fallback,
        Some(ann) => match ann.def {
            None => None,
            Some(key) => if !trust_alias_spec(s, inp, key, anchored_seq(inp, ports, clocks)) {
                Some(key)
            } else {
                fallback
            },
        },
    }
}

/// The first port named `name` is a clock, with domain key `key`.
#[verifier::opaque]
pub open spec fn binding_key(s: Inferencer, inp: DomainInput, ports: Seq<PortIr>, clocks: Seq<usize>, name: Seq<char>, key: u32) -> bool {
    exists|pi: int|
        0 <= pi < ports.len() && (#[trigger] ports[pi]).name@ == name && (forall|j: int| 0 <= j < pi ==> (#[trigger] ports[j]).name@ != name)
            && is_clock_port(inp, ports[pi]) && port_key_spec(s, inp, ports[pi], ports, clocks) == Some(key)
}

/// One of the first `n` bindings has domain key `key`.
pub open spec fn keyed_by(s: Inferencer, inp: DomainInput, ports: Seq<PortIr>, clocks: Seq<usize>, bindings: Seq<PortBinding>, n: int, key: u32) -> bool {
    exists|k: int| 0 <= k < n && #[trigger] binding_key(s, inp, ports, clocks, bindings[k].port_name@, key)
}

/// An E3014 (one domain key bound to two clocks) for `key` is among the
/// findings from index `from` on.
pub open spec fn clock_conflict_reported(diags: Seq<DomainDiag>, from: int, key: u32) -> bool {
    exists|j: int| from <= j < diags.len() && (#[trigger] diags[j] matches DomainDiag::ClockConflict { key: k, .. } && k == key)
}

/// Binding `i1` is the first with domain key `key`.
pub open spec fn first_keyed(s: Inferencer, inp: DomainInput, ports: Seq<PortIr>, clocks: Seq<usize>, bs: Seq<PortBinding>, i1: int, key: u32) -> bool {
    &&& 0 <= i1 < bs.len()
    &&& binding_key(s, inp, ports, clocks, bs[i1].port_name@, key)
    &&& forall|i: int| 0 <= i < i1 ==> !#[trigger] binding_key(s, inp, ports, clocks, bs[i].port_name@, key)
}

/// The keyed bindings among the first `n` have their values' domains
/// stored in `cur`.
pub open spec fn keyed_memo(s: Inferencer, inp: DomainInput, ports: Seq<PortIr>, clocks: Seq<usize>, bs: Seq<PortBinding>, cur: Inferencer, n: int) -> bool {
    forall|k: int, key: u32| 0 <= k < n && #[trigger] binding_key(s, inp, ports, clocks, bs[k].port_name@, key)
        ==> (bs[k].value matches Some(e) ==> cur.expr_domains@[e as int] is Some)
}

/// Each mapping entry came from the first binding with its key, and holds
/// that binding's domain, or `Error` once a conflict for it was reported.
#[verifier::opaque]
pub open spec fn entries_ok(
    s: Inferencer,
    inp: DomainInput,
    ports: Seq<PortIr>,
    clocks: Seq<usize>,
    bs: Seq<PortBinding>,
    mapping: Seq<(u32, DomainId, Span)>,
    firsts: Seq<int>,
    cur: Inferencer,
    d0: int,
    n: int,
) -> bool {
    &&& firsts.len() == mapping.len()
    &&& forall|m: int| 0 <= m < mapping.len() ==> {
        &&& 0 <= #[trigger] firsts[m] < n
        &&& first_keyed(s, inp, ports, clocks, bs, firsts[m], mapping[m].0)
        &&& (mapping[m].1 == binding_actual(cur, bs[firsts[m]]) || (mapping[m].1 == DomainId::Error
            && clock_conflict_reported(cur.diagnostics@, d0, mapping[m].0)))
    }
}

/// Among the first `n` bindings, a binding whose definite domain differs
/// from that of the first binding with its key has had its E3014.
#[verifier::opaque]
pub open spec fn conflicts_ok(s: Inferencer, inp: DomainInput, ports: Seq<PortIr>, clocks: Seq<usize>, bs: Seq<PortBinding>, cur: Inferencer, d0: int, n: int) -> bool {
    forall|i1: int, i2: int, key: u32|
        0 <= i1 < i2 < n && #[trigger] first_keyed(s, inp, ports, clocks, bs, i1, key) && #[trigger] binding_key(s, inp, ports, clocks,
            bs[i2].port_name@, key) && binding_actual(cur, bs[i1]) is Explicit && binding_actual(cur, bs[i2]) is Explicit
            && binding_actual(cur, bs[i1]) != binding_actual(cur, bs[i2]) ==> clock_conflict_reported(cur.diagnostics@, d0, key)
}

/// Stored domains, once made, and the findings stay.
pub open spec fn memo_kept(a: Inferencer, b: Inferencer) -> bool {
    &&& b.signal_domains == a.signal_domains
    &&& b.expr_domains@.len() == a.expr_domains@.len()
    &&& forall|i: int| 0 <= i < a.expr_domains@.len() && (#[trigger] a.expr_domains@[i]) is Some ==> b.expr_domains@[i]
        == a.expr_domains@[i]
    &&& a.diagnostics@.len() <= b.diagnostics@.len()
    &&& forall|i: int| 0 <= i < a.diagnostics@.len() ==> #[trigger] b.diagnostics@[i] == a.diagnostics@[i]
}

proof fn lemma_conflict_kept(a: Seq<DomainDiag>, b: Seq<DomainDiag>, d0: int, key: u32)
    requires
        clock_conflict_reported(a, d0, key),
        0 <= d0,
        a.len() <= b.len(),
        forall|i: int| 0 <= i < a.len() ==> #[trigger] b[i] == a[i],
    ensures
        clock_conflict_reported(b, d0, key),
{
    let j = choose|j: int| d0 <= j < a.len() && (#[trigger] a[j] matches DomainDiag::ClockConflict { key: k, .. } && k == key);
    assert(b[j] == a[j]);
}

proof fn lemma_mapping_facts_kept(
    s: Inferencer,
    inp: DomainInput,
    ports: Seq<PortIr>,
    clocks: Seq<usize>,
    bs: Seq<PortBinding>,
    mapping: Seq<(u32, DomainId, Span)>,
    firsts: Seq<int>,
    a: Inferencer,
    b: Inferencer,
    d0: int,
    n: int,
)
    requires
        entries_ok(s, inp, ports, clocks, bs, mapping, firsts, a, d0, n),
        conflicts_ok(s, inp, ports, clocks, bs, a, d0, n),
        keyed_memo(s, inp, ports, clocks, bs, a, n),
        memo_kept(a, b),
        0 <= n <= bs.len(),
        0 <= d0,
        forall|k: int| 0 <= k < bs.len() ==> ((#[trigger] bs[k]).value matches Some(e) ==> e < a.expr_domains@.len()),
    ensures
        entries_ok(s, inp, ports, clocks, bs, mapping, firsts, b, d0, n),
        conflicts_ok(s, inp, ports, clocks, bs, b, d0, n),
        keyed_memo(s, inp, ports, clocks, bs, b, n),
{
    reveal(entries_ok);
    reveal(conflicts_ok);
    assert forall|k: int, key: u32| 0 <= k < n && #[trigger] binding_key(s, inp, ports, clocks, bs[k].port_name@, key)
        implies binding_actual(b, bs[k]) == binding_actual(a, bs[k]) && (bs[k].value matches Some(e) ==> b.expr_domains@[e as int] is Some) by {
        if let Some(e) = bs[k].value {
            assert(a.expr_domains@[e as int] is Some);
        }
    }
    assert forall|m: int| 0 <= m < mapping.len() implies {
        &&& 0 <= #[trigger] firsts[m] < n
        &&& first_keyed(s, inp, ports, clocks, bs, firsts[m], mapping[m].0)
        &&& (mapping[m].1 == binding_actual(b, bs[firsts[m]]) || (mapping[m].1 == DomainId::Error
            && clock_conflict_reported(b.diagnostics@, d0, mapping[m].0)))
    } by {
        let f = firsts[m];
        assert(binding_key(s, inp, ports, clocks, bs[f].port_name@, mapping[m].0));
        if mapping[m].1 != binding_actual(a, bs[f]) {
            lemma_conflict_kept(a.diagnostics@, b.diagnostics@, d0, mapping[m].0);
        }
    }
    assert forall|i1: int, i2: int, key: u32|
        0 <= i1 < i2 < n && #[trigger] first_keyed(s, inp, ports, clocks, bs, i1, key) && #[trigger] binding_key(s, inp, ports, clocks,
            bs[i2].port_name@, key) && binding_actual(b, bs[i1]) is Explicit && binding_actual(b, bs[i2]) is Explicit
            && binding_actual(b, bs[i1]) != binding_actual(b, bs[i2]) implies clock_conflict_reported(b.diagnostics@, d0, key) by {
        assert(binding_key(s, inp, ports, clocks, bs[i1].port_name@, key));
        lemma_conflict_kept(a.diagnostics@, b.diagnostics@, d0, key);
    }
}

/// The indices of the clock ports among the first `n` ports, in order.
pub open spec fn clock_indices(inp: DomainInput, ports: Seq<PortIr>, n: int) -> Seq<usize>
    decreases n,
{
    if n <= 0 {
        Seq::empty()
    } else {
        let prev = clock_indices(inp, ports, n - 1);
        if is_clock_port(inp, ports[n - 1]) {
            prev.push((n - 1) as usize)
        } else {
            prev
        }
    }
}

proof fn lemma_conflicts_kept(
    s: Inferencer,
    inp: DomainInput,
    ports: Seq<PortIr>,
    clocks: Seq<usize>,
    bs: Seq<PortBinding>,
    a: Inferencer,
    b: Inferencer,
    d0: int,
    n: int,
)
    requires
        conflicts_ok(s, inp, ports, clocks, bs, a, d0, n),
        keyed_memo(s, inp, ports, clocks, bs, a, n),
        memo_kept(a, b),
        0 <= n <= bs.len(),
        0 <= d0,
        forall|k: int| 0 <= k < bs.len() ==> ((#[trigger] bs[k]).value matches Some(e) ==> e < a.expr_domains@.len()),
    ensures
        conflicts_ok(s, inp, ports, clocks, bs, b, d0, n),
        keyed_memo(s, inp, ports, clocks, bs, b, n),
{
    reveal(conflicts_ok);
    assert forall|k: int, key: u32| 0 <= k < n && #[trigger] binding_key(s, inp, ports, clocks, bs[k].port_name@, key)
        implies binding_actual(b, bs[k]) == binding_actual(a, bs[k]) && (bs[k].value matches Some(e) ==> b.expr_domains@[e as int] is Some) by {
        if let Some(e) = bs[k].value {
            assert(a.expr_domains@[e as int] is Some);
        }
    }
    assert forall|i1: int, i2: int, key: u32|
        0 <= i1 < i2 < n && #[trigger] first_keyed(s, inp, ports, clocks, bs, i1, key) && #[trigger] binding_key(s, inp, ports, clocks,
            bs[i2].port_name@, key) && binding_actual(b, bs[i1]) is Explicit && binding_actual(b, bs[i2]) is Explicit
            && binding_actual(b, bs[i1]) != binding_actual(b, bs[i2]) implies clock_conflict_reported(b.diagnostics@, d0, key) by {
        assert(binding_key(s, inp, ports, clocks, bs[i1].port_name@, key));
        lemma_conflict_kept(a.diagnostics@, b.diagnostics@, d0, key);
    }
}

proof fn lemma_step_nokey(
    s: Inferencer,
    inp: DomainInput,
    ports: Seq<PortIr>,
    clocks: Seq<usize>,
    bs: Seq<PortBinding>,
    mapping: Seq<(u32, DomainId, Span)>,
    firsts: Seq<int>,
    cur: Inferencer,
    d0: int,
    i: int,
)
    requires
        entries_ok(s, inp, ports, clocks, bs, mapping, firsts, cur, d0, i),
        conflicts_ok(s, inp, ports, clocks, bs, cur, d0, i),
        keyed_memo(s, inp, ports, clocks, bs, cur, i),
        0 <= i < bs.len(),
        forall|key: u32| !binding_key(s, inp, ports, clocks, bs[i].port_name@, key),
    ensures
        entries_ok(s, inp, ports, clocks, bs, mapping, firsts, cur, d0, i + 1),
        conflicts_ok(s, inp, ports, clocks, bs, cur, d0, i + 1),
        keyed_memo(s, inp, ports, clocks, bs, cur, i + 1),
{
    reveal(entries_ok);
    reveal(conflicts_ok);
}

proof fn lemma_step_found(
    s: Inferencer,
    inp: DomainInput,
    ports: Seq<PortIr>,
    clocks: Seq<usize>,
    bs: Seq<PortBinding>,
    mapping: Seq<(u32, DomainId, Span)>,
    mapping2: Seq<(u32, DomainId, Span)>,
    firsts: Seq<int>,
    cur0: Inferencer,
    cur: Inferencer,
    d0: int,
    i: int,
    m: int,
    key: u32,
    conflict: bool,
)
    requires
        entries_ok(s, inp, ports, clocks, bs, mapping, firsts, cur0, d0, i),
        conflicts_ok(s, inp, ports, clocks, bs, cur0, d0, i),
        keyed_memo(s, inp, ports, clocks, bs, cur0, i),
        0 <= i < bs.len(),
        0 <= d0,
        binding_key(s, inp, ports, clocks, bs[i].port_name@, key),
        forall|key2: u32| #[trigger] binding_key(s, inp, ports, clocks, bs[i].port_name@, key2) ==> key2 == key,
        0 <= m < mapping.len(),
        mapping[m].0 == key,
        bs[i].value matches Some(e) ==> cur0.expr_domains@[e as int] is Some,
        forall|k: int| 0 <= k < bs.len() ==> ((#[trigger] bs[k]).value matches Some(e) ==> e < cur0.expr_domains@.len()),
        memo_kept(cur0, cur),
        conflict ==> mapping2 == mapping.update(m, (key, DomainId::Error, mapping[m].2)) && clock_conflict_reported(
            cur.diagnostics@,
            d0,
            key,
        ),
        !conflict ==> mapping2 == mapping,
        (mapping[m].1 is Explicit && binding_actual(cur0, bs[i]) is Explicit && mapping[m].1 != binding_actual(cur0, bs[i]))
            ==> conflict,
    ensures
        entries_ok(s, inp, ports, clocks, bs, mapping2, firsts, cur, d0, i + 1),
        conflicts_ok(s, inp, ports, clocks, bs, cur, d0, i + 1),
        keyed_memo(s, inp, ports, clocks, bs, cur, i + 1),
{
    lemma_mapping_facts_kept(s, inp, ports, clocks, bs, mapping, firsts, cur0, cur, d0, i);
    reveal(entries_ok);
    reveal(conflicts_ok);
    assert(binding_actual(cur, bs[i]) == binding_actual(cur0, bs[i])) by {
        if let Some(e) = bs[i].value {
            assert(cur0.expr_domains@[e as int] is Some);
        }
    }
    let f = firsts[m];
    assert(first_keyed(s, inp, ports, clocks, bs, f, key));
    assert(binding_actual(cur, bs[f]) == binding_actual(cur0, bs[f])) by {
        assert(binding_key(s, inp, ports, clocks, bs[f].port_name@, key));
        if let Some(e) = bs[f].value {
            assert(cur0.expr_domains@[e as int] is Some);
        }
    }
    assert forall|mm: int| 0 <= mm < mapping2.len() implies {
        &&& 0 <= #[trigger] firsts[mm] < i + 1
        &&& first_keyed(s, inp, ports, clocks, bs, firsts[mm], mapping2[mm].0)
        &&& (mapping2[mm].1 == binding_actual(cur, bs[firsts[mm]]) || (mapping2[mm].1 == DomainId::Error
            && clock_conflict_reported(cur.diagnostics@, d0, mapping2[mm].0)))
    } by {
        if conflict && mm == m {
        } else {
            assert(mapping2[mm] == mapping[mm]);
        }
    }
    assert forall|i1: int, i2: int, key2: u32|
        0 <= i1 < i2 < i + 1 && #[trigger] first_keyed(s, inp, ports, clocks, bs, i1, key2) && #[trigger] binding_key(s, inp, ports, clocks,
            bs[i2].port_name@, key2) && binding_actual(cur, bs[i1]) is Explicit && binding_actual(cur, bs[i2]) is Explicit
            && binding_actual(cur, bs[i1]) != binding_actual(cur, bs[i2]) implies clock_conflict_reported(cur.diagnostics@, d0, key2) by {
        if i2 == i {
            assert(key2 == key);
            if i1 != f {
                if i1 < f {
                    assert(!binding_key(s, inp, ports, clocks, bs[i1].port_name@, key));
                } else {
                    assert(!binding_key(s, inp, ports, clocks, bs[f].port_name@, key));
                }
            }
            if !conflict {
                if mapping[m].1 == binding_actual(cur0, bs[f]) {
                } else {
                    lemma_conflict_kept(cur0.diagnostics@, cur.diagnostics@, d0, key);
                }
            }
        }
    }
    assert forall|k: int, key2: u32| 0 <= k < i + 1 && #[trigger] binding_key(s, inp, ports, clocks, bs[k].port_name@, key2)
        implies (bs[k].value matches Some(e) ==> cur.expr_domains@[e as int] is Some) by {
        if k == i {
            if let Some(e) = bs[i].value {
                assert(cur0.expr_domains@[e as int] is Some);
            }
        }
    }
}

proof fn lemma_step_new(
    s: Inferencer,
    inp: DomainInput,
    ports: Seq<PortIr>,
    clocks: Seq<usize>,
    bs: Seq<PortBinding>,
    mapping: Seq<(u32, DomainId, Span)>,
    firsts: Seq<int>,
    cur: Inferencer,
    d0: int,
    i: int,
    key: u32,
    span: Span,
)
    requires
        entries_ok(s, inp, ports, clocks, bs, mapping, firsts, cur, d0, i),
        conflicts_ok(s, inp, ports, clocks, bs, cur, d0, i),
        keyed_memo(s, inp, ports, clocks, bs, cur, i),
        0 <= i < bs.len(),
        binding_key(s, inp, ports, clocks, bs[i].port_name@, key),
        forall|key2: u32| #[trigger] binding_key(s, inp, ports, clocks, bs[i].port_name@, key2) ==> key2 == key,
        forall|mm: int| 0 <= mm < mapping.len() ==> (#[trigger] mapping[mm]).0 != key,
        forall|k: int, key2: u32| 0 <= k < i && #[trigger] binding_key(s, inp, ports, clocks, bs[k].port_name@, key2)
            ==> exists|mm: int| 0 <= mm < mapping.len() && (#[trigger] mapping[mm]).0 == key2,
        bs[i].value matches Some(e) ==> cur.expr_domains@[e as int] is Some,
    ensures
        entries_ok(s, inp, ports, clocks, bs, mapping.push((key, binding_actual(cur, bs[i]), span)), firsts.push(i), cur, d0, i + 1),
        conflicts_ok(s, inp, ports, clocks, bs, cur, d0, i + 1),
        keyed_memo(s, inp, ports, clocks, bs, cur, i + 1),
{
    reveal(entries_ok);
    reveal(conflicts_ok);
    let mapping2 = mapping.push((key, binding_actual(cur, bs[i]), span));
    let firsts2 = firsts.push(i);
    assert(first_keyed(s, inp, ports, clocks, bs, i, key)) by {
        assert forall|k: int| 0 <= k < i implies !#[trigger] binding_key(s, inp, ports, clocks, bs[k].port_name@, key) by {
            if binding_key(s, inp, ports, clocks, bs[k].port_name@, key) {
                let mm = choose|mm: int| 0 <= mm < mapping.len() && (#[trigger] mapping[mm]).0 == key;
            }
        }
    }
    assert forall|mm: int| 0 <= mm < mapping2.len() implies {
        &&& 0 <= #[trigger] firsts2[mm] < i + 1
        &&& first_keyed(s, inp, ports, clocks, bs, firsts2[mm], mapping2[mm].0)
        &&& (mapping2[mm].1 == binding_actual(cur, bs[firsts2[mm]]) || (mapping2[mm].1 == DomainId::Error
            && clock_conflict_reported(cur.diagnostics@, d0, mapping2[mm].0)))
    } by {
        if mm < mapping.len() {
            assert(mapping2[mm] == mapping[mm]);
            assert(firsts2[mm] == firsts[mm]);
        }
    }
    assert forall|i1: int, i2: int, key2: u32|
        0 <= i1 < i2 < i + 1 && #[trigger] first_keyed(s, inp, ports, clocks, bs, i1, key2) && #[trigger] binding_key(s, inp, ports, clocks,
            bs[i2].port_name@, key2) && binding_actual(cur, bs[i1]) is Explicit && binding_actual(cur, bs[i2]) is Explicit
            && binding_actual(cur, bs[i1]) != binding_actual(cur, bs[i2]) implies clock_conflict_reported(cur.diagnostics@, d0, key2) by {
        if i2 == i {
            assert(key2 == key);
            assert(binding_key(s, inp, ports, clocks, bs[i1].port_name@, key));
            let mm = choose|mm: int| 0 <= mm < mapping.len() && (#[trigger] mapping[mm]).0 == key;
        }
    }
}

/// With `pi` the first port named `name`, the binding's key is that
/// port's, when it is a clock.
pub proof fn lemma_binding_key_at(s: Inferencer, inp: DomainInput, ports: Seq<PortIr>, clocks: Seq<usize>, name: Seq<char>, pi: int, key: u32)
    requires
        0 <= pi < ports.len(),
        ports[pi].name@ == name,
        forall|j: int| 0 <= j < pi ==> (#[trigger] ports[j]).name@ != name,
    ensures
        binding_key(s, inp, ports, clocks, name, key) <==> (is_clock_port(inp, ports[pi]) && port_key_spec(
            s,
            inp,
            ports[pi],
            ports,
            clocks,
        ) == Some(key)),
{
    reveal(binding_key);
    if binding_key(s, inp, ports, clocks, name, key) {
        let q = choose|q: int|
            0 <= q < ports.len() && (#[trigger] ports[q]).name@ == name && (forall|j: int| 0 <= j < q ==> (#[trigger] ports[j]).name@ != name)
                && is_clock_port(inp, ports[q]) && port_key_spec(s, inp, ports[q], ports, clocks) == Some(key);
        if q < pi {
            assert(ports[q].name@ != name);
        } else if q > pi {
            assert(ports[pi].name@ != name);
        }
    }
}

/// The port of a primitive named `name`.
fn prim_port(prim: &Primitive, name: &String) -> (r: Option<usize>)
    ensures
        r matches Some(k) ==> k < prim.ports@.len() && prim.ports@[k as int].name@ == name@ && forall|j: int|
            0 <= j < k ==> (#[trigger] prim.ports@[j]).name@ != name@,
        r is None ==> forall|j: int| 0 <= j < prim.ports@.len() ==> (#[trigger] prim.ports@[j]).name@ != name@,
{
    let mut k: usize = 0;
    while k < prim.ports.len()
        invariant
            k <= prim.ports@.len(),
            forall|j: int| 0 <= j < k ==> (#[trigger] prim.ports@[j]).name@ != name@,
        decreases prim.ports@.len() - k,
    {
        if eq_str(prim.ports[k].name.as_str(), name.as_str()) {
            return Some(k);
        }
        k = k + 1;
    }
    None
}

} // verus!
