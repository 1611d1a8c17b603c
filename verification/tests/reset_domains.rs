use volt_hir::ast::{ClockEdge, Span};
use volt_hir::defs::DefId;
use volt_hir::domain::ir::{ResetPolarity, ResetSpec, ResetSync};
use volt_hir::domain::rdc::{
    check_rdc, feeds_of, reset_free_bindings, unit_facts, without_raw_reset_unused, RawPort, RdcBinding, RdcDomain, RdcInput, RdcInstance, RdcModule,
    RdcPort, RdcTarget,
};
use volt_hir::domain::{ClockSpec, DomainId, DomainInfo, DomainResult, DomainSource};
use volt_hir::resolve::{ResolveCode, ResolveDiag};

fn sp(n: u32) -> Span {
    Span { file: 0, start: n * 10, end: n * 10 + 5 }
}

const DEFAULT: ResetSpec = ResetSpec { sync: ResetSync::Sync, polarity: ResetPolarity::ActiveHigh };
const ASYNC_LOW: ResetSpec = ResetSpec { sync: ResetSync::Async, polarity: ResetPolarity::ActiveLow };

/// The domain table: `(name, span, source)` per domain; `signals` maps
/// definitions to domains.
fn domains(ds: Vec<(&str, u32, DomainSource)>, signals: Vec<(u32, u32)>, ndefs: usize) -> DomainResult {
    let mut signal_domains = vec![None; ndefs];
    for (def, id) in signals {
        signal_domains[def as usize] = Some(DomainId::Explicit(id));
    }
    DomainResult {
        domains: ds
            .into_iter()
            .map(|(name, span, source)| DomainInfo {
                name: name.to_string(),
                clock: ClockSpec { edge: ClockEdge::Posedge },
                reset: DEFAULT,
                span: sp(span),
                source,
                trust: None,
                trust_span: None,
            })
            .collect(),
        signal_domains,
        decl_domains: vec![None; ndefs],
        diagnostics: Vec::new(),
    }
}

fn clock(name: &str, def: u32, span: u32) -> RdcPort {
    RdcPort { name: name.to_string(), name_span: sp(span), span: sp(span + 1), def: Some(def), is_clock: true, raw: None }
}

fn raw(name: &str, def: u32, span: u32, spec: Option<ResetSpec>, ann: Option<u32>) -> RdcPort {
    RdcPort {
        name: name.to_string(),
        name_span: sp(span),
        span: sp(span + 1),
        def: Some(def),
        is_clock: false,
        raw: Some(RawPort { spec, ann }),
    }
}

fn module(name: &str, def: u32, ports: Vec<RdcPort>, instances: Vec<RdcInstance>, uses: Vec<(Span, u32)>) -> RdcModule {
    RdcModule { name: name.to_string(), name_span: sp(900 + def), def, ports, instances, uses }
}

#[test]
fn implicit_clock_domain_has_the_generated_sync_reset() {
    // module M { in clk : clock }
    let inp = RdcInput { modules: vec![module("M", 0, vec![clock("clk", 1, 1)], vec![], vec![])], domains: vec![], instantiated: vec![] };
    let dom = domains(vec![("clk", 1, DomainSource::ClockPort(DefId(1)))], vec![(1, 0)], 2);
    let f = unit_facts(&inp, &dom);
    let c = &f[0].clocks[0];
    assert_eq!(c.reset, Some(DEFAULT));
    assert_eq!(c.reset_span, inp.modules[0].ports[0].name_span, "the label falls on the port name");
    assert_eq!(c.decl, None);
    assert!(!c.used);
}

#[test]
fn declared_domain_without_reset_field_uses_the_default_at_its_name() {
    // domain D { clock = negedge }  module M { in clk : clock @D }
    let inp = RdcInput {
        modules: vec![module("M", 1, vec![clock("clk", 2, 1)], vec![], vec![])],
        domains: vec![RdcDomain { def: 0, resets: vec![] }],
        instantiated: vec![],
    };
    let dom = domains(vec![("D", 50, DomainSource::Decl(DefId(0)))], vec![(2, 0)], 3);
    let f = unit_facts(&inp, &dom);
    let c = &f[0].clocks[0];
    assert_eq!(c.reset, Some(DEFAULT));
    assert_ne!(c.reset_span, inp.modules[0].ports[0].name_span);
    assert!(c.decl.is_some());
}

#[test]
fn reset_none_is_never_fed_by_a_raw_port() {
    // domain D { clock = posedge, reset = none }  module M { in clk : clock @D in r : reset }
    let inp = RdcInput {
        modules: vec![module("M", 1, vec![clock("clk", 2, 1), raw("r", 3, 3, None, None)], vec![], vec![])],
        domains: vec![RdcDomain { def: 0, resets: vec![(None, sp(60))] }],
        instantiated: vec![],
    };
    let dom = domains(vec![("D", 50, DomainSource::Decl(DefId(0)))], vec![(2, 0)], 4);
    let f = unit_facts(&inp, &dom);
    assert_eq!(f[0].clocks[0].reset, None);
    assert_eq!(feeds_of(&f[0]), vec![None]);
}

#[test]
fn the_last_reset_field_wins_like_in_sv_emit() {
    let inp = RdcInput {
        modules: vec![module("M", 1, vec![clock("clk", 2, 1)], vec![], vec![])],
        domains: vec![RdcDomain { def: 0, resets: vec![(Some(DEFAULT), sp(60)), (Some(ASYNC_LOW), sp(61))] }],
        instantiated: vec![],
    };
    let dom = domains(vec![("D", 50, DomainSource::Decl(DefId(0)))], vec![(2, 0)], 3);
    let f = unit_facts(&inp, &dom);
    assert_eq!(f[0].clocks[0].reset, Some(ASYNC_LOW));
}

#[test]
fn only_modules_nobody_instantiates_are_roots() {
    // module C { in clk : clock out q : u8 q = 0 }
    // module T { in clk : clock out q : u8 let u = C { clk: clk } q = u.q }
    let c = module("C", 0, vec![clock("clk", 2, 1)], vec![], vec![]);
    let binding = RdcBinding { port: "clk".to_string(), span: Span { file: 0, start: 300, end: 320 }, bound: Some(3), resets_flops: false };
    let t = module(
        "T",
        1,
        vec![clock("clk", 3, 5)],
        vec![RdcInstance { target: RdcTarget::Module(0), bindings: vec![binding] }],
        vec![(Span { file: 0, start: 310, end: 313 }, 3)],
    );
    let inp = RdcInput { modules: vec![c, t], domains: vec![], instantiated: vec![0] };
    let dom = domains(
        vec![("clk", 1, DomainSource::ClockPort(DefId(2))), ("clk", 5, DomainSource::ClockPort(DefId(3)))],
        vec![(2, 0), (3, 1)],
        4,
    );
    let f = unit_facts(&inp, &dom);
    assert!(!f[0].is_root, "C is instantiated");
    assert!(f[1].is_root);
    assert!(f[1].clocks[0].used, "an instance binding is a use too");
}

#[test]
fn raw_port_spec_and_annotation_are_recorded() {
    // domain D { reset = async active_low }
    // module M { in clk : clock @D in r : reset(async, active_low) @D in s : reset }
    let inp = RdcInput {
        modules: vec![module(
            "M",
            1,
            vec![clock("clk", 2, 1), raw("r", 3, 3, Some(ASYNC_LOW), Some(0)), raw("s", 4, 5, None, None)],
            vec![],
            vec![],
        )],
        domains: vec![RdcDomain { def: 0, resets: vec![(Some(ASYNC_LOW), sp(60))] }],
        instantiated: vec![],
    };
    let dom = domains(vec![("D", 50, DomainSource::Decl(DefId(0)))], vec![(2, 0)], 5);
    let f = unit_facts(&inp, &dom);
    let raws = &f[0].raws;
    assert_eq!(raws.len(), 2);
    assert!(raws[0].ann.is_some() && raws[0].spec.is_some());
    assert!(raws[1].ann.is_none() && raws[1].spec.is_none());
    assert_eq!(feeds_of(&f[0]), vec![Some(0)]);
    // The unannotated one of two raw ports is ambiguous.
    let codes: Vec<&str> = check_rdc(&inp, &dom).iter().map(|d| d.code()).collect();
    assert_eq!(codes, ["E3010"]);
}

#[test]
fn asynchronous_automatic_reset_of_a_root_is_an_assumption() {
    // domain D { reset = async active_low }  module M { in clk : clock @D ... on clk { ... } }
    let inp = RdcInput {
        modules: vec![module("M", 1, vec![clock("clk", 2, 1)], vec![], vec![(sp(70), 2)])],
        domains: vec![RdcDomain { def: 0, resets: vec![(Some(ASYNC_LOW), sp(60))] }],
        instantiated: vec![],
    };
    let dom = domains(vec![("D", 50, DomainSource::Decl(DefId(0)))], vec![(2, 0)], 3);
    let diags = check_rdc(&inp, &dom);
    assert_eq!(diags.iter().map(|d| d.code()).collect::<Vec<_>>(), ["W3009"]);
    assert_eq!(diags[0].name, "rst_n");
}

#[test]
fn automatic_reset_shared_by_two_clocks_warns_or_errs_by_kind() {
    // Two used clocks with synchronous default resets share `rst`: W3010.
    let m = module("M", 0, vec![clock("a", 1, 1), clock("b", 2, 3)], vec![], vec![(sp(70), 1), (sp(71), 2)]);
    let inp = RdcInput { modules: vec![m], domains: vec![], instantiated: vec![] };
    let dom = domains(
        vec![("a", 1, DomainSource::ClockPort(DefId(1))), ("b", 3, DomainSource::ClockPort(DefId(2)))],
        vec![(1, 0), (2, 1)],
        3,
    );
    let codes: Vec<&str> = check_rdc(&inp, &dom).iter().map(|d| d.code()).collect();
    assert_eq!(codes, ["W3010"]);

    // With asynchronous active-low domains the shared `rst_n` is E3003, and
    // the root warning is not added on top.
    let m = module("M", 2, vec![clock("a", 3, 1), clock("b", 4, 3)], vec![], vec![(sp(70), 3), (sp(71), 4)]);
    let inp = RdcInput {
        modules: vec![m],
        domains: vec![
            RdcDomain { def: 0, resets: vec![(Some(ASYNC_LOW), sp(60))] },
            RdcDomain { def: 1, resets: vec![(Some(ASYNC_LOW), sp(61))] },
        ],
        instantiated: vec![],
    };
    let dom = domains(
        vec![("A", 50, DomainSource::Decl(DefId(0))), ("B", 51, DomainSource::Decl(DefId(1)))],
        vec![(3, 0), (4, 1)],
        5,
    );
    let codes: Vec<&str> = check_rdc(&inp, &dom).iter().map(|d| d.code()).collect();
    assert_eq!(codes, ["E3003"]);
}

#[test]
fn raw_port_named_like_an_automatic_port_clashes() {
    // Domain A is fed by raw `rst` (@A); domain B keeps its automatic `rst`.
    let m = module(
        "M",
        2,
        vec![clock("a", 3, 1), clock("b", 4, 3), raw("rst", 5, 5, None, Some(0)), raw("r2", 6, 7, None, Some(0))],
        vec![],
        vec![],
    );
    let inp = RdcInput {
        modules: vec![m],
        domains: vec![RdcDomain { def: 0, resets: vec![] }, RdcDomain { def: 1, resets: vec![] }],
        instantiated: vec![0],
    };
    let dom = domains(
        vec![("A", 50, DomainSource::Decl(DefId(0))), ("B", 51, DomainSource::Decl(DefId(1)))],
        vec![(3, 0), (4, 1)],
        7,
    );
    let codes: Vec<&str> = check_rdc(&inp, &dom).iter().map(|d| d.code()).collect();
    assert!(codes.contains(&"E3003"), "{codes:?}");
}

#[test]
fn ram_write_clock_and_extern_bindings_are_not_reset_uses() {
    // a: write side of an AsyncDualPortRam (reset-free), b: its read side,
    // x: bound to an extern only.
    let b_write = RdcBinding { port: "wr_clk".to_string(), span: Span { file: 0, start: 500, end: 520 }, bound: Some(1), resets_flops: false };
    let b_read = RdcBinding { port: "rd_clk".to_string(), span: Span { file: 0, start: 530, end: 550 }, bound: Some(2), resets_flops: true };
    let b_ext = RdcBinding { port: "c".to_string(), span: Span { file: 0, start: 600, end: 620 }, bound: Some(3), resets_flops: false };
    let m = module(
        "M",
        0,
        vec![clock("a_clk", 1, 1), clock("b_clk", 2, 3), clock("x_clk", 3, 5)],
        vec![
            RdcInstance { target: RdcTarget::Builtin, bindings: vec![b_write, b_read] },
            RdcInstance { target: RdcTarget::Extern, bindings: vec![b_ext] },
        ],
        vec![
            (Span { file: 0, start: 510, end: 515 }, 1),
            (Span { file: 0, start: 540, end: 545 }, 2),
            (Span { file: 0, start: 610, end: 615 }, 3),
        ],
    );
    let inp = RdcInput { modules: vec![m], domains: vec![], instantiated: vec![] };
    let dom = domains(
        vec![
            ("a_clk", 1, DomainSource::ClockPort(DefId(1))),
            ("b_clk", 3, DomainSource::ClockPort(DefId(2))),
            ("x_clk", 5, DomainSource::ClockPort(DefId(3))),
        ],
        vec![(1, 0), (2, 1), (3, 2)],
        4,
    );
    let f = unit_facts(&inp, &dom);
    let used: Vec<bool> = f[0].clocks.iter().map(|c| c.used).collect();
    assert_eq!(used, [false, true, false], "a: write side, b: read side, x: extern");
}

fn finding(code: ResolveCode, at: Span) -> ResolveDiag {
    ResolveDiag { code, span: at, name: "x".to_string(), secondary: None, suggestion: None }
}

#[test]
fn unused_warnings_at_raw_reset_ports_are_dropped() {
    // module M { in clk : clock  in rst : reset(async) }
    let inp = RdcInput {
        modules: vec![module("M", 0, vec![clock("clk", 1, 1), raw("rst", 2, 3, Some(ASYNC_LOW), None)], vec![], vec![])],
        domains: vec![],
        instantiated: vec![],
    };
    let diags = vec![
        finding(ResolveCode::W1001, sp(3)),
        finding(ResolveCode::W1001, sp(1)),
        finding(ResolveCode::E1001, sp(3)),
    ];
    let kept = without_raw_reset_unused(&inp, &diags);
    let codes: Vec<(ResolveCode, Span)> = kept.iter().map(|d| (d.code, d.span)).collect();
    assert_eq!(codes, vec![(ResolveCode::W1001, sp(1)), (ResolveCode::E1001, sp(3))]);
}

#[test]
fn reset_free_bindings_are_extern_and_reset_free_primitive_clocks() {
    let b = |port: &str, span: u32, resets: bool| RdcBinding {
        port: port.to_string(),
        span: sp(span),
        bound: Some(1),
        resets_flops: resets,
    };
    let inp = RdcInput {
        modules: vec![module(
            "M",
            0,
            vec![clock("clk", 1, 1)],
            vec![
                RdcInstance { target: RdcTarget::Builtin, bindings: vec![b("wr_clk", 10, true), b("rd_clk", 11, false)] },
                RdcInstance { target: RdcTarget::Extern, bindings: vec![b("clk", 12, true)] },
                RdcInstance { target: RdcTarget::Module(5), bindings: vec![b("clk", 13, false)] },
            ],
            vec![],
        )],
        domains: vec![],
        instantiated: vec![],
    };
    assert_eq!(reset_free_bindings(&inp, 0), vec![sp(11), sp(12)]);
}
