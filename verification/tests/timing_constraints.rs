use volt_hir::ast::{AttrArg, Attribute, BinOp, ClockEdge, Expr, ExprKind, Span};
use volt_hir::constraint_walk::{
    builtin_bridge, collect_constraints, group_clocks, sync_bridge, scope_of, CBinding, CBlock, CBlockStmt, CDomain, CDomainField,
    CInput, CInstance, CModule, CPort, CStmt, CStmtKind, FreqValue,
};
use volt_hir::constraints::{ClockConstraint, Ctx, FreqSource, Target};
use volt_hir::defs::PortDir;
use volt_hir::timing::{
    format_ps, parse_false_path, parse_frequency, parse_multicycle, parse_time, parse_timing, PathKind, Problem,
    TimingForm,
};

fn sp(n: u32) -> Span {
    Span { file: 0, start: n * 10, end: n * 10 + 5 }
}

fn lit(v: u128, at: u32) -> Expr {
    Expr { kind: ExprKind::IntLit(v), span: sp(at) }
}

/// `base.unit`, where `base` is expression `base`.
fn unit(base: usize, u: &str, at: u32) -> Expr {
    Expr { kind: ExprKind::Field { base, field: u.to_string() }, span: sp(at) }
}

fn name(n: &str, at: u32) -> Expr {
    Expr { kind: ExprKind::Path { segments: vec![n.to_string()], def: None }, span: sp(at) }
}

fn attr(n: &str, args: Vec<AttrArg>, at: u32) -> Attribute {
    Attribute { name: n.to_string(), name_span: sp(at), span: sp(at + 1), args }
}

fn named(n: &str, value: usize, at: u32) -> AttrArg {
    AttrArg::Named { name: n.to_string(), name_span: sp(at), value }
}

fn clock_port(n: &str, domain: Option<&str>, at: u32) -> CPort {
    CPort {
        name: n.to_string(),
        span: sp(at),
        dir: PortDir::In,
        is_clock: true,
        domain: domain.map(|d| d.to_string()),
        attrs: vec![],
    }
}

fn data_port(n: &str, dir: PortDir, domain: Option<&str>, at: u32) -> CPort {
    CPort { name: n.to_string(), span: sp(at), dir, is_clock: false, domain: domain.map(|d| d.to_string()), attrs: vec![] }
}

fn module(n: &str, attrs: Vec<Attribute>, ports: Vec<CPort>, body: Vec<CStmt>) -> CModule {
    CModule { name: n.to_string(), attrs, ports, body }
}

fn domain(n: &str, fields: Vec<CDomainField>, at: u32) -> CDomain {
    CDomain { name: n.to_string(), span: sp(at), fields }
}

fn top() -> Ctx {
    Ctx { prefix: String::new(), clock_map: None, depth: 0 }
}

// ── literals ────────────────────────────────────────────────────────

#[test]
fn frequency_literals_scale_by_unit() {
    let exprs = vec![lit(100, 1), unit(0, "mhz", 2), unit(0, "khz", 3), lit(25_175_000, 4), unit(0, "thz", 5), lit(0, 6)];
    assert_eq!(parse_frequency(&exprs, 1), Ok(100_000_000));
    assert_eq!(parse_frequency(&exprs, 2), Ok(100_000));
    assert_eq!(parse_frequency(&exprs, 3), Ok(25_175_000));
    assert_eq!(parse_frequency(&exprs, 4).unwrap_err().problem, Problem::UnknownFrequencyUnit);
    assert_eq!(parse_frequency(&exprs, 5).unwrap_err().problem, Problem::FrequencyOutOfRange);
}

#[test]
fn delays_need_a_time_unit() {
    let exprs = vec![lit(5, 1), unit(0, "ns", 2), unit(0, "us", 3), unit(0, "ps", 4), unit(0, "s", 5)];
    assert_eq!(parse_time(&exprs, 1), Ok(5_000));
    assert_eq!(parse_time(&exprs, 2), Ok(5_000_000));
    assert_eq!(parse_time(&exprs, 3), Ok(5));
    assert_eq!(parse_time(&exprs, 0).unwrap_err().problem, Problem::MissingTimeUnit);
    assert_eq!(parse_time(&exprs, 4).unwrap_err().problem, Problem::UnknownTimeUnit);
}

#[test]
fn picoseconds_print_as_nanoseconds_with_three_decimals() {
    assert_eq!(format_ps(10_000), "10.000");
    assert_eq!(format_ps(39_722), "39.722");
    assert_eq!(format_ps(5), "0.005");
}

#[test]
fn period_is_rounded_to_the_nearest_picosecond() {
    let mut c = ClockConstraint {
        port: "clk".to_string(),
        domain: "clk".to_string(),
        edge: ClockEdge::Posedge,
        freq_hz: Some(100_000_000),
        freq_source: Some(FreqSource::Domain),
        span: sp(1),
        domain_span: None,
    };
    assert_eq!(c.period_ps(), Some(10_000));
    c.freq_hz = Some(25_175_000);
    assert_eq!(c.period_ps(), Some(39_722));
    c.freq_hz = Some(3);
    assert_eq!(c.period_ps(), Some(333_333_333_333));
    c.freq_hz = None;
    assert_eq!(c.period_ps(), None);
}

// ── attribute forms ─────────────────────────────────────────────────

#[test]
fn timing_forms_are_parsed_argument_by_argument() {
    // @timing(clk = 100.mhz, clk >= 50.mhz, max_delay(a, b) <= 5.ns, clk <= 1.mhz)
    let exprs = vec![
        lit(100, 1),
        unit(0, "mhz", 2),
        name("clk", 3),
        lit(50, 4),
        unit(3, "mhz", 5),
        Expr { kind: ExprKind::Binary { op: BinOp::Ge, lhs: 2, rhs: 4 }, span: sp(6) },
        name("max_delay", 7),
        name("a", 8),
        name("b", 9),
        Expr { kind: ExprKind::Call { callee: 6, args: vec![7, 8] }, span: sp(10) },
        lit(5, 11),
        unit(10, "ns", 12),
        Expr { kind: ExprKind::Binary { op: BinOp::Le, lhs: 9, rhs: 11 }, span: sp(13) },
        Expr { kind: ExprKind::Binary { op: BinOp::Le, lhs: 2, rhs: 1 }, span: sp(14) },
    ];
    let a = attr(
        "timing",
        vec![named("clk", 1, 20), AttrArg::Positional(5), AttrArg::Positional(12), AttrArg::Positional(13)],
        30,
    );
    let (forms, errors) = parse_timing(&exprs, &a);
    assert_eq!(forms.len(), 3);
    assert!(matches!(&forms[0].0, TimingForm::ClockExact { clock, hz: 100_000_000 } if clock == "clk"));
    assert!(matches!(&forms[1].0, TimingForm::ClockAtLeast { clock, hz: 50_000_000 } if clock == "clk"));
    assert!(matches!(&forms[2].0, TimingForm::MaxDelay { from, to, ps: 5_000 } if from == "a" && to == "b"));
    assert_eq!(errors.len(), 1);
    assert_eq!(errors[0].problem, Problem::ClockUpperBound);
    assert_eq!(errors[0].span, sp(14));
}

#[test]
fn empty_timing_attribute_is_an_error() {
    let (forms, errors) = parse_timing(&vec![], &attr("timing", vec![], 30));
    assert!(forms.is_empty());
    assert_eq!(errors.len(), 1);
    assert_eq!(errors[0].problem, Problem::TimingNeedsConstraint);
}

#[test]
fn false_path_needs_an_endpoint_on_a_module() {
    let exprs = vec![name("a", 1), lit(3, 2)];
    let ok = parse_false_path(&exprs, &attr("false_path", vec![named("from", 0, 10)], 20), false).unwrap();
    assert_eq!(ok.from.as_deref(), Some("a"));
    assert_eq!(ok.to, None);
    let none = parse_false_path(&exprs, &attr("false_path", vec![], 20), false).unwrap_err();
    assert_eq!(none.problem, Problem::FalsePathNeedsEndpoint);
    assert!(parse_false_path(&exprs, &attr("false_path", vec![], 20), true).is_ok());
    let twice = parse_false_path(&exprs, &attr("false_path", vec![named("to", 0, 10), named("to", 0, 11)], 20), false);
    assert_eq!(twice.unwrap_err().problem, Problem::EndpointTwice { to: true });
    let not_signal = parse_false_path(&exprs, &attr("false_path", vec![named("from", 1, 10)], 20), false);
    assert_eq!(not_signal.unwrap_err().problem, Problem::EndpointNotSignal { to: false });
}

#[test]
fn multicycle_takes_one_count() {
    let exprs = vec![name("a", 1), lit(3, 2), lit(0, 3)];
    let m = parse_multicycle(&exprs, &attr("multicycle", vec![named("to", 0, 10), named("cycles", 1, 11)], 20), false)
        .unwrap();
    assert_eq!(m.cycles, 3);
    assert_eq!(m.to.as_deref(), Some("a"));
    let on_stmt = parse_multicycle(&exprs, &attr("multicycle", vec![AttrArg::Positional(1)], 20), true).unwrap();
    assert_eq!(on_stmt.cycles, 3);
    let none = parse_multicycle(&exprs, &attr("multicycle", vec![named("to", 0, 10)], 20), false);
    assert_eq!(none.unwrap_err().problem, Problem::MulticycleNeedsCount);
    let two = parse_multicycle(&exprs, &attr("multicycle", vec![named("to", 0, 10), AttrArg::Positional(1), AttrArg::Positional(1)], 20), false);
    assert_eq!(two.unwrap_err().problem, Problem::MulticycleCountTwice);
    let zero = parse_multicycle(&exprs, &attr("multicycle", vec![named("to", 0, 10), AttrArg::Positional(2)], 20), false);
    assert_eq!(zero.unwrap_err().problem, Problem::MulticycleBadCount);
}

// ── the walk ────────────────────────────────────────────────────────

/// `domain D { frequency = 100.mhz }` and module `M` with the given
/// attributes and ports.
fn with_domain(attrs: Vec<Attribute>, ports: Vec<CPort>, extra: Vec<Expr>) -> CInput {
    let mut exprs = vec![lit(100, 1), unit(0, "mhz", 2)];
    exprs.extend(extra);
    CInput {
        exprs,
        blocks: vec![],
        domains: vec![domain("D", vec![CDomainField::Frequency { value: FreqValue::Literal(1), span: sp(3) }], 4)],
        modules: vec![module("M", attrs, ports, vec![])],
    }
}

#[test]
fn clock_frequency_comes_from_its_domain() {
    let inp = with_domain(vec![], vec![clock_port("clk", Some("D"), 10)], vec![]);
    let r = collect_constraints(&inp);
    assert!(r.errors.is_empty());
    assert_eq!(r.modules.len(), 1);
    let c = &r.modules[0].clocks[0];
    assert_eq!((c.port.as_str(), c.domain.as_str()), ("clk", "D"));
    assert_eq!(c.freq_hz, Some(100_000_000));
    assert_eq!(c.freq_source, Some(FreqSource::Domain));
    assert_eq!(c.domain_span, Some(sp(4)));
    assert_eq!(c.period_ps(), Some(10_000));
    assert!(r.missing_frequency_warnings().is_empty());
}

#[test]
fn timing_gives_the_frequency_of_an_unannotated_clock() {
    // @timing(clk = 25.mhz)
    let inp = with_domain(
        vec![attr("timing", vec![named("clk", 3, 20)], 30)],
        vec![clock_port("clk", None, 10)],
        vec![lit(25, 5), unit(2, "mhz", 6)],
    );
    let r = collect_constraints(&inp);
    assert!(r.errors.is_empty(), "{:?}", r.errors);
    let c = &r.modules[0].clocks[0];
    assert_eq!(c.freq_hz, Some(25_000_000));
    assert_eq!(c.freq_source, Some(FreqSource::Timing));
    assert_eq!(c.domain, "clk");
}

#[test]
fn timing_against_another_domain_frequency_conflicts() {
    // @timing(clk = 50.mhz) with `clk @D`, D at 100 MHz
    let inp = with_domain(
        vec![attr("timing", vec![named("clk", 3, 20)], 30)],
        vec![clock_port("clk", Some("D"), 10)],
        vec![lit(50, 5), unit(2, "mhz", 6)],
    );
    let r = collect_constraints(&inp);
    assert_eq!(r.errors.len(), 1);
    assert_eq!(
        r.errors[0].problem,
        Problem::FrequencyConflict { hz: 50_000_000, have: 100_000_000, domain_span: Some(sp(4)) }
    );
    assert_eq!(r.modules[0].clocks[0].freq_hz, Some(100_000_000), "the domain's frequency stays");
}

#[test]
fn minimum_frequency_above_the_domain_is_too_low() {
    // @timing(clk >= 200.mhz) with D at 100 MHz; @timing(clk >= 50.mhz) is met
    let inp = with_domain(
        vec![attr("timing", vec![AttrArg::Positional(5), AttrArg::Positional(8)], 30)],
        vec![clock_port("clk", Some("D"), 10)],
        vec![
            name("clk", 5),
            lit(200, 6),
            unit(3, "mhz", 7),
            Expr { kind: ExprKind::Binary { op: BinOp::Ge, lhs: 2, rhs: 4 }, span: sp(8) },
            lit(50, 9),
            unit(6, "mhz", 10),
            Expr { kind: ExprKind::Binary { op: BinOp::Ge, lhs: 2, rhs: 7 }, span: sp(11) },
        ],
    );
    let r = collect_constraints(&inp);
    assert_eq!(r.errors.len(), 1);
    assert_eq!(
        r.errors[0].problem,
        Problem::FrequencyTooLow { hz: 200_000_000, have: 100_000_000, domain_span: Some(sp(4)) }
    );
}

#[test]
fn timing_on_a_name_that_is_no_clock_port_is_an_error() {
    let inp = with_domain(
        vec![attr("timing", vec![named("data", 3, 20)], 30)],
        vec![clock_port("clk", None, 10), data_port("data", PortDir::In, None, 11)],
        vec![lit(25, 5), unit(2, "mhz", 6)],
    );
    let r = collect_constraints(&inp);
    assert_eq!(r.errors.len(), 1);
    assert_eq!(r.errors[0].problem, Problem::NotClockPort);
    assert_eq!(r.modules[0].clocks[0].freq_hz, None);
    assert_eq!(r.missing_frequency_warnings(), vec![(0, 0)]);
}

#[test]
fn bad_domain_frequency_is_reported_once() {
    let inp = CInput {
        exprs: vec![name("fast", 1)],
        blocks: vec![],
        domains: vec![domain("D", vec![CDomainField::Frequency { value: FreqValue::Literal(0), span: sp(3) }], 4)],
        modules: vec![module("M", vec![], vec![clock_port("clk", Some("D"), 10)], vec![])],
    };
    let r = collect_constraints(&inp);
    assert_eq!(r.errors.len(), 1);
    assert_eq!(r.errors[0].problem, Problem::ExpectedFrequency);
    assert_eq!(r.modules[0].clocks[0].freq_hz, None);
}

#[test]
fn modules_without_clocks_and_repeated_names_are_skipped() {
    let inp = CInput {
        exprs: vec![],
        blocks: vec![],
        domains: vec![],
        modules: vec![
            module("Comb", vec![], vec![data_port("a", PortDir::In, None, 1)], vec![]),
            module("M", vec![], vec![clock_port("clk", None, 2)], vec![]),
            module("M", vec![], vec![clock_port("other", None, 3)], vec![]),
        ],
    };
    let r = collect_constraints(&inp);
    assert_eq!(r.modules.len(), 1);
    assert_eq!(r.modules[0].module, "M");
    assert_eq!(r.modules[0].clocks[0].port, "clk");
}

#[test]
fn negedge_domains_set_the_clock_edge() {
    let inp = CInput {
        exprs: vec![],
        blocks: vec![],
        domains: vec![domain("N", vec![CDomainField::Clock(ClockEdge::Negedge)], 4)],
        modules: vec![module("M", vec![], vec![clock_port("clk", Some("N"), 10), clock_port("k", None, 11)], vec![])],
    };
    let r = collect_constraints(&inp);
    assert_eq!(r.modules[0].clocks[0].edge, ClockEdge::Negedge);
    assert_eq!(r.modules[0].clocks[1].edge, ClockEdge::Posedge);
}

fn clk(port: &str, domain: &str, freq: Option<u64>) -> ClockConstraint {
    ClockConstraint {
        port: port.to_string(),
        domain: domain.to_string(),
        edge: ClockEdge::Posedge,
        freq_hz: freq,
        freq_source: None,
        span: sp(1),
        domain_span: None,
    }
}

#[test]
fn clocks_group_by_domain_in_first_seen_order() {
    let clocks = vec![clk("a", "A", None), clk("c", "C", None), clk("b", "A", None)];
    assert_eq!(
        group_clocks(&clocks),
        vec![vec!["a".to_string(), "b".to_string()], vec!["c".to_string()]]
    );
}

#[test]
fn async_groups_keep_only_defined_clocks() {
    let inp = CInput {
        exprs: vec![lit(100, 1), unit(0, "mhz", 2)],
        blocks: vec![],
        domains: vec![
            domain("A", vec![CDomainField::Frequency { value: FreqValue::Literal(1), span: sp(3) }], 4),
            domain("B", vec![CDomainField::Frequency { value: FreqValue::Literal(1), span: sp(5) }], 6),
        ],
        modules: vec![module(
            "M",
            vec![],
            vec![clock_port("a", Some("A"), 10), clock_port("b", Some("B"), 11), clock_port("c", None, 12)],
            vec![],
        )],
    };
    let r = collect_constraints(&inp);
    let m = &r.modules[0];
    assert_eq!(m.groups.len(), 3);
    assert_eq!(m.defined_clocks(), vec![0, 1]);
    assert_eq!(m.async_groups(), vec![vec!["a".to_string()], vec!["b".to_string()]]);
}

#[test]
fn async_fifo_bridge_names_its_registers() {
    // fifo = AsyncFifo { wr_clk: clk_a, rd_clk: clk_b }
    let inp = CInput { exprs: vec![name("clk_a", 1), name("clk_b", 2)], blocks: vec![], domains: vec![], modules: vec![] };
    let inst = CInstance {
        name: "fifo".to_string(),
        target: "AsyncFifo".to_string(),
        prim: true,
        bindings: vec![
            CBinding { port: "wr_clk".to_string(), value: Some(0) },
            CBinding { port: "rd_clk".to_string(), value: Some(1) },
        ],
    };
    let b = builtin_bridge(&inp, &inst, &top()).unwrap();
    assert_eq!(b.kind, "AsyncFifo");
    assert_eq!(b.name, "fifo");
    assert_eq!(b.from_clock.as_deref(), Some("clk_a"));
    assert_eq!(b.to_clock.as_deref(), Some("clk_b"));
    assert_eq!(b.rules.len(), 3);
    assert_eq!(b.rules[0].kind, PathKind::FalsePath);
    assert!(matches!(&b.rules[0].from, Some(Target::Cells(n)) if n == "fifo_rgray"));
    assert!(matches!(&b.rules[0].to, Some(Target::Cells(n)) if n == "fifo_rgray_s0"));
    assert_eq!(b.rules[0].comment, "AsyncFifo 'fifo': rgray -> rgray_s0 (clk_a -> clk_b)");
    assert_eq!(b.async_regs, vec!["fifo_rgray_s0", "fifo_rgray_s1", "fifo_wgray_s0", "fifo_wgray_s1"]);
    // A user module is no bridge.
    let user = CInstance { target: "Fifo".to_string(), ..inst };
    assert!(builtin_bridge(&inp, &user, &top()).is_none());
}

#[test]
fn bridge_in_a_sub_module_maps_clocks_and_prefixes_names() {
    // u/ps = PulseSync { src_clk, dst_clk: fast } with src_clk -> top_a, fast -> top_b
    let inp = CInput { exprs: vec![name("fast", 1)], blocks: vec![], domains: vec![], modules: vec![] };
    let inst = CInstance {
        name: "ps".to_string(),
        target: "PulseSync".to_string(),
        prim: true,
        bindings: vec![
            CBinding { port: "src_clk".to_string(), value: None },
            CBinding { port: "dst_clk".to_string(), value: Some(0) },
        ],
    };
    let ctx = Ctx {
        prefix: "u/".to_string(),
        clock_map: Some(vec![("src_clk".to_string(), "top_a".to_string()), ("fast".to_string(), "top_b".to_string())]),
        depth: 1,
    };
    let b = builtin_bridge(&inp, &inst, &ctx).unwrap();
    assert_eq!(b.name, "u/ps");
    assert_eq!(b.from_clock.as_deref(), Some("top_a"));
    assert_eq!(b.to_clock.as_deref(), Some("top_b"));
    assert_eq!(b.async_regs, vec!["u/ps_sync0", "u/ps_sync1", "u/ps_sync2"]);
    assert_eq!(b.rules[0].comment, "PulseSync 'ps': toggle -> sync0 (top_a -> top_b)");
}

/// `in clk_a : clock @A`, `in clk_b : clock @B`, `in d : u8 @A`, and
/// `q = sync(d, clk_b)` as expression 3.
fn sync_input(f: &str) -> (CInput, CModule) {
    let m = module(
        "M",
        vec![],
        vec![clock_port("clk_a", Some("A"), 10), clock_port("clk_b", Some("B"), 11), data_port("d", PortDir::In, Some("A"), 12)],
        vec![CStmt { kind: CStmtKind::Assign { lhs: "q".to_string(), has_suffix: false, rhs: 3 }, attrs: vec![] }],
    );
    let inp = CInput {
        exprs: vec![
            name(f, 1),
            name("d", 2),
            name("clk_b", 3),
            Expr { kind: ExprKind::Call { callee: 0, args: vec![1, 2] }, span: sp(4) },
        ],
        blocks: vec![],
        domains: vec![],
        modules: vec![m.clone()],
    };
    (inp, m)
}

#[test]
fn sync_bridge_names_its_stages_and_capture_register() {
    let (inp, m) = sync_input("sync");
    let scope = scope_of(&inp, &m);
    let b = sync_bridge(&inp, &m, &scope, &top(), false, 3, &vec![]).unwrap();
    assert_eq!(b.kind, "sync");
    assert_eq!(b.name, "sync_d");
    assert_eq!(b.async_regs, vec!["sync_d_stage0", "sync_d_stage1"]);
    assert_eq!(b.from_clock.as_deref(), Some("clk_a"));
    assert_eq!(b.to_clock.as_deref(), Some("clk_b"));
    assert!(matches!(&b.rules[0].from, Some(Target::Cells(n)) if n == "sync_d_src"));
    assert!(matches!(&b.rules[0].to, Some(Target::Cells(n)) if n == "sync_d_stage0"));
    assert_eq!(b.rules[0].comment, "sync(): d -> clk_b (2 stages)");
}

#[test]
fn sync3_has_three_stages_and_other_calls_are_no_bridge() {
    let (inp, m) = sync_input("sync3");
    let scope = scope_of(&inp, &m);
    let b = sync_bridge(&inp, &m, &scope, &top(), false, 3, &vec![]).unwrap();
    assert_eq!(b.async_regs.len(), 3);
    assert!(sync_bridge(&inp, &m, &scope, &top(), true, 3, &vec![]).is_none(), "an indexed target");
    let (inp, m) = sync_input("resync");
    let scope = scope_of(&inp, &m);
    assert!(sync_bridge(&inp, &m, &scope, &top(), false, 3, &vec![]).is_none());
}

#[test]
fn module_walk_collects_sync_bridges() {
    let (inp, _) = sync_input("sync");
    let r = collect_constraints(&inp);
    assert_eq!(r.modules[0].bridges.len(), 1);
    assert_eq!(r.modules[0].bridges[0].name, "sync_d");
}

#[test]
fn scope_collects_names_and_the_first_clock_of_each_register() {
    // reg a; reg b; wire w; let l = a;
    // on clk_a { a <= ..; if .. { b <= .. } }  on clk_b { a <= ..; b <= .. }
    let stmt = |kind: CStmtKind| CStmt { kind, attrs: vec![] };
    let m = module(
        "M",
        vec![],
        vec![clock_port("clk_a", None, 1), clock_port("clk_b", None, 2), data_port("x", PortDir::In, None, 3)],
        vec![
            stmt(CStmtKind::Reg { name: "a".to_string() }),
            stmt(CStmtKind::Reg { name: "b".to_string() }),
            stmt(CStmtKind::Wire { name: "w".to_string() }),
            stmt(CStmtKind::Let { name: "l".to_string(), value: 0 }),
            stmt(CStmtKind::On { clock: Some("clk_a".to_string()), body: 1 }),
            stmt(CStmtKind::On { clock: Some("clk_b".to_string()), body: 2 }),
        ],
    );
    let inp = CInput {
        exprs: vec![name("a", 1)],
        blocks: vec![
            CBlock { stmts: vec![CBlockStmt::NonBlockAssign { target: "b".to_string() }] },
            CBlock {
                stmts: vec![
                    CBlockStmt::NonBlockAssign { target: "a".to_string() },
                    CBlockStmt::If { then_block: 0, else_block: None },
                ],
            },
            CBlock {
                stmts: vec![
                    CBlockStmt::NonBlockAssign { target: "a".to_string() },
                    CBlockStmt::NonBlockAssign { target: "b".to_string() },
                ],
            },
        ],
        domains: vec![],
        modules: vec![m.clone()],
    };
    let s = scope_of(&inp, &m);
    assert_eq!(s.regs, vec!["a".to_string(), "b".to_string()]);
    assert_eq!(s.nets, vec!["w".to_string(), "l".to_string()]);
    assert_eq!(s.let_exprs, vec![("l".to_string(), 0)]);
    assert_eq!(
        s.reg_clock,
        vec![("a".to_string(), "clk_a".to_string()), ("b".to_string(), "clk_a".to_string())]
    );
    assert_eq!(s.clock_ports, vec![0, 1]);
    assert!(s.is_clock_port("clk_b") && !s.is_clock_port("x") && s.has_port("x"));
}

#[test]
fn a_later_domain_declaration_replaces_an_earlier_one() {
    let inp = CInput {
        exprs: vec![lit(100, 1), unit(0, "mhz", 2), lit(50, 3), unit(2, "mhz", 4)],
        blocks: vec![],
        domains: vec![
            domain("D", vec![CDomainField::Frequency { value: FreqValue::Literal(1), span: sp(5) }], 6),
            domain("D", vec![CDomainField::Frequency { value: FreqValue::Literal(3), span: sp(7) }], 8),
        ],
        modules: vec![module("M", vec![], vec![clock_port("clk", Some("D"), 10)], vec![])],
    };
    let r = collect_constraints(&inp);
    assert_eq!(r.modules[0].clocks[0].freq_hz, Some(50_000_000));
    assert_eq!(r.modules[0].clocks[0].domain_span, Some(sp(8)));
}

#[test]
fn the_source_clock_of_a_let_is_that_of_its_first_clocked_name() {
    // let t = d2 + d;  q = sync(t, clk_b)  with d @A
    let m = module(
        "M",
        vec![],
        vec![clock_port("clk_a", Some("A"), 10), clock_port("clk_b", Some("B"), 11), data_port("d", PortDir::In, Some("A"), 12)],
        vec![
            CStmt { kind: CStmtKind::Let { name: "t".to_string(), value: 2 }, attrs: vec![] },
            CStmt { kind: CStmtKind::Assign { lhs: "q".to_string(), has_suffix: false, rhs: 6 }, attrs: vec![] },
        ],
    );
    let inp = CInput {
        exprs: vec![
            name("d2", 1),
            name("d", 2),
            Expr { kind: ExprKind::Binary { op: BinOp::Add, lhs: 0, rhs: 1 }, span: sp(3) },
            name("sync", 4),
            name("t", 5),
            name("clk_b", 6),
            Expr { kind: ExprKind::Call { callee: 3, args: vec![4, 5] }, span: sp(7) },
        ],
        blocks: vec![],
        domains: vec![],
        modules: vec![m.clone()],
    };
    let scope = scope_of(&inp, &m);
    let b = sync_bridge(&inp, &m, &scope, &top(), false, 6, &vec![]).unwrap();
    assert_eq!(b.from_clock.as_deref(), Some("clk_a"));
    // A `let` is neither port nor register: with no defined clock there is
    // no source endpoint.
    assert!(b.rules[0].from.is_none());
}
