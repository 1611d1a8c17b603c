use volt_hir::ast::{BinOp, ClockEdge, Expr, ExprKind, Span};
use volt_hir::defs::{DefId, DefKind, PortDir};
use volt_hir::domain::ir::{
    Annotation, ArmBody, Block, BlockStmt, BundleOrigin, DefInfo, DomainDecl, DomainField,
    DomainInput, DomainRole, ExternIr, InstanceIr, InstanceTarget, LValue, LValueSuffix, ModuleIr,
    OnTrigger, PortBinding, PortIr, PrimKind, PrimPort, Primitive, RegIr, ResetPolarity, ResetSpec,
    ResetSync, Stmt, TrustLevel, UnitItem,
};
use volt_hir::domain::{infer_domains, DomainId, DomainResult, DomainSource};
use volt_hir::names::BuiltinKind;

/// Builds the resolved program of a test source, bottom-up.
struct B {
    inp: DomainInput,
    next: u32,
}

struct TwoClock {
    fast: u32,
    slow: u32,
    fast_clk: u32,
    slow_clk: u32,
    ports: Vec<PortIr>,
}

impl B {
    fn new() -> B {
        B {
            inp: DomainInput {
                defs: Vec::new(),
                exprs: Vec::new(),
                expr_widths: Vec::new(),
                blocks: Vec::new(),
                domain_decls: Vec::new(),
                items: Vec::new(),
            },
            next: 0,
        }
    }

    fn sp(&mut self) -> Span {
        self.next += 1;
        Span { file: 0, start: self.next * 10, end: self.next * 10 + 5 }
    }

    fn def(&mut self, name: &str, kind: DefKind, is_clock: bool) -> u32 {
        let span = self.sp();
        self.inp.defs.push(DefInfo { kind, name: name.to_string(), span, is_clock });
        (self.inp.defs.len() - 1) as u32
    }

    /// `domain Name { clock = posedge, reset = sync active_high[, trust_level = secret] }`
    fn domain(&mut self, name: &str, trust: bool) -> u32 {
        let def = self.def(name, DefKind::Domain, false);
        let span = self.sp();
        let mut fields = vec![
            DomainField::Clock(ClockEdge::Posedge),
            DomainField::Reset(ResetSpec { sync: ResetSync::Sync, polarity: ResetPolarity::ActiveHigh }),
        ];
        if trust {
            let ts = self.sp();
            fields.push(DomainField::Trust { level: TrustLevel(2), span: ts });
        }
        self.inp.domain_decls.push(DomainDecl { def: Some(def), name: name.to_string(), span, fields });
        def
    }

    fn ann(&mut self, text: &str, def: Option<u32>) -> Option<Annotation> {
        let span = self.sp();
        Some(Annotation { text: text.to_string(), span, def })
    }

    fn port_dir(&mut self, name: &str, dir: PortDir, clock: bool, domain: Option<Annotation>) -> (PortIr, u32) {
        let def = self.def(name, DefKind::Port { dir }, clock);
        let span = self.inp.defs[def as usize].span;
        (PortIr { name: name.to_string(), span, def: Some(def), dir, domain, bundle: None, is_reset: false }, def)
    }

    fn port(&mut self, name: &str, clock: bool, domain: Option<Annotation>) -> (PortIr, u32) {
        self.port_dir(name, PortDir::In, clock, domain)
    }

    fn expr(&mut self, kind: ExprKind, width: Option<u32>) -> usize {
        let span = self.sp();
        self.inp.exprs.push(Expr { kind, span });
        self.inp.expr_widths.push(width);
        self.inp.exprs.len() - 1
    }

    fn path(&mut self, name: &str, def: u32, width: Option<u32>) -> usize {
        self.expr(ExprKind::Path { segments: vec![name.to_string()], def: Some(def) }, width)
    }

    fn unresolved(&mut self, name: &str) -> usize {
        self.expr(ExprKind::Path { segments: vec![name.to_string()], def: None }, None)
    }

    fn lit(&mut self, v: u128) -> usize {
        self.expr(ExprKind::IntLit(v), None)
    }

    fn add(&mut self, lhs: usize, rhs: usize) -> usize {
        self.expr(ExprKind::Binary { op: BinOp::Add, lhs, rhs }, None)
    }

    fn call(&mut self, callee: usize, args: Vec<usize>) -> usize {
        self.expr(ExprKind::Call { callee, args }, None)
    }

    fn builtin(&mut self, name: &str, kind: BuiltinKind) -> usize {
        let def = self.def(name, DefKind::Builtin(kind), false);
        self.path(name, def, None)
    }

    fn field(&mut self, base: usize, field: &str) -> usize {
        self.expr(ExprKind::Field { base, field: field.to_string() }, None)
    }

    fn lv(&mut self, def: u32) -> LValue {
        let span = self.sp();
        LValue { def: Some(def), span, suffixes: Vec::new() }
    }

    fn assign(&mut self, def: u32, rhs: usize) -> Stmt {
        let lhs = self.lv(def);
        Stmt::Assign { lhs, rhs }
    }

    fn block_assign(&mut self, def: u32, rhs: usize) -> BlockStmt {
        let lhs = self.lv(def);
        BlockStmt::Assign { lhs, rhs }
    }

    fn block(&mut self, stmts: Vec<BlockStmt>) -> usize {
        self.inp.blocks.push(Block { stmts, tail: None });
        self.inp.blocks.len() - 1
    }

    fn on(&mut self, clk: u32, body: usize) -> Stmt {
        let span = self.sp();
        Stmt::On { trigger: OnTrigger::Signal { def: Some(clk), span }, body }
    }

    fn let_(&mut self, name: &str, value: usize) -> (Stmt, u32) {
        let def = self.def(name, DefKind::LocalBinding, false);
        (Stmt::Let { def: Some(def), value }, def)
    }

    fn reg(&mut self, name: &str, clock: Option<(&str, u32)>) -> (Stmt, u32) {
        let def = self.def(name, DefKind::Register, false);
        let span = self.inp.defs[def as usize].span;
        let domain = match clock {
            Some((text, d)) => self.ann(text, Some(d)),
            None => None,
        };
        let init = self.lit(0);
        (Stmt::Reg(RegIr { def: Some(def), name: name.to_string(), span, domain, init }), def)
    }

    fn wire(&mut self, name: &str) -> (Stmt, u32) {
        let def = self.def(name, DefKind::Wire, false);
        (Stmt::Wire { def: Some(def) }, def)
    }

    fn binding(&mut self, port: &str, value: Option<usize>, port_def: Option<u32>) -> PortBinding {
        let span = self.sp();
        PortBinding { port_name: port.to_string(), port_def, value, span }
    }

    fn instance(&mut self, name: &str, target: InstanceTarget, bindings: Vec<PortBinding>) -> (Stmt, u32) {
        let def = self.def(name, DefKind::Instance, false);
        let name_span = self.inp.defs[def as usize].span;
        (Stmt::Instance(InstanceIr { def: Some(def), name_span, target, bindings }), def)
    }

    /// The two-domain prelude and the ports `fast_clk : clock @Fast`,
    /// `slow_clk : clock @Slow`.
    fn two_clock(&mut self) -> TwoClock {
        let fast = self.domain("Fast", false);
        let slow = self.domain("Slow", false);
        let fa = self.ann("Fast", Some(fast));
        let (p1, fast_clk) = self.port("fast_clk", true, fa);
        let sa = self.ann("Slow", Some(slow));
        let (p2, slow_clk) = self.port("slow_clk", true, sa);
        TwoClock { fast, slow, fast_clk, slow_clk, ports: vec![p1, p2] }
    }

    fn module(&mut self, name: &str, ports: Vec<PortIr>, body: Vec<Stmt>) -> usize {
        self.module_with_contracts(name, ports, body, Vec::new())
    }

    fn module_with_contracts(&mut self, name: &str, ports: Vec<PortIr>, body: Vec<Stmt>, contracts: Vec<usize>) -> usize {
        let span = self.sp();
        self.inp.items.push(UnitItem::Module(ModuleIr { name: name.to_string(), span, ports, body, contracts }));
        self.inp.items.len() - 1
    }

    fn extern_module(&mut self, name: &str, ports: Vec<PortIr>) -> usize {
        let span = self.sp();
        self.inp.items.push(UnitItem::Extern(ExternIr { name: name.to_string(), span, ports }));
        self.inp.items.len() - 1
    }

    fn run(&self) -> DomainResult {
        infer_domains(&self.inp)
    }
}

fn codes(r: &DomainResult) -> Vec<&'static str> {
    r.codes()
}

fn count(r: &DomainResult, code: &str) -> usize {
    r.codes().iter().filter(|c| **c == code).count()
}

fn name_of(r: &DomainResult, def: u32) -> Option<String> {
    r.domain_name_of(DefId(def))
}

fn dom(r: &DomainResult, def: u32) -> DomainId {
    r.domain_of(DefId(def)).expect("the signal has a domain")
}

fn s(x: &str) -> Option<String> {
    Some(x.to_string())
}

// ── annotations ──────────────────────────────────────────────────────

#[test]
fn domain_annotation_selects_the_declared_domain() {
    let mut b = B::new();
    let t = b.two_clock();
    let fa = b.ann("Fast", Some(t.fast));
    let (pa, a) = b.port("a", false, fa);
    let sa = b.ann("Slow", Some(t.slow));
    let (pb, bb) = b.port("b", false, sa);
    let mut ports = t.ports;
    ports.push(pa);
    ports.push(pb);
    b.module("M", ports, vec![]);
    let r = b.run();
    assert_eq!(name_of(&r, a), s("Fast"));
    assert_eq!(name_of(&r, bb), s("Slow"));
    assert!(codes(&r).is_empty(), "{:?}", codes(&r));
}

#[test]
fn reg_clock_annotation_takes_the_domain_of_the_clock_port() {
    let mut b = B::new();
    let t = b.two_clock();
    let sa = b.ann("Slow", Some(t.slow));
    let (pd, d) = b.port("d", false, sa);
    let (reg, r_def) = b.reg("r", Some(("slow_clk", t.slow_clk)));
    let dv = b.path("d", d, Some(8));
    let w = b.block_assign(r_def, dv);
    let blk = b.block(vec![w]);
    let on = b.on(t.slow_clk, blk);
    let mut ports = t.ports;
    ports.push(pd);
    b.module("M", ports, vec![reg, on]);
    let r = b.run();
    assert_eq!(name_of(&r, r_def), s("Slow"));
}

#[test]
fn annotation_pointing_at_a_non_clock_port_is_e3002() {
    let mut b = B::new();
    let (pclk, clk) = b.port("clk", true, None);
    let (pd, d) = b.port("d", false, None);
    let (reg, r_def) = b.reg("r", Some(("d", d)));
    let dv = b.path("d", d, Some(8));
    let w = b.block_assign(r_def, dv);
    let blk = b.block(vec![w]);
    let on = b.on(clk, blk);
    b.module("M", vec![pclk, pd], vec![reg, on]);
    let r = b.run();
    assert_eq!(count(&r, "E3002"), 1, "{:?}", codes(&r));
    assert_eq!(dom(&r, r_def), DomainId::Error);
}

// ── assignments ──────────────────────────────────────────────────────

#[test]
fn cross_domain_assignment_is_e3001_with_both_definitions() {
    let mut b = B::new();
    let t = b.two_clock();
    let fa = b.ann("Fast", Some(t.fast));
    let (pa, a) = b.port("a", false, fa);
    let sa = b.ann("Slow", Some(t.slow));
    let (pq, q) = b.port_dir("q", PortDir::Out, false, sa);
    let av = b.path("a", a, Some(8));
    let st = b.assign(q, av);
    let mut ports = t.ports;
    ports.push(pa);
    ports.push(pq);
    b.module("M", ports, vec![st]);
    let r = b.run();
    assert_eq!(codes(&r), ["E3001"]);
    match &r.diagnostics[0] {
        volt_hir::domain::DomainDiag::CdcAssign { dst, src, .. } => {
            assert_eq!(*dst, DomainId::Explicit(1));
            assert_eq!(*src, DomainId::Explicit(0));
            assert_eq!(r.domains[1].name, "Slow");
            assert_eq!(r.domains[0].name, "Fast");
        }
        other => panic!("{:?}", other),
    }
}

#[test]
fn constants_are_assignable_to_any_domain() {
    let mut b = B::new();
    let t = b.two_clock();
    let fa = b.ann("Fast", Some(t.fast));
    let (pp, p) = b.port_dir("p", PortDir::Out, false, fa);
    let sa = b.ann("Slow", Some(t.slow));
    let (pq, q) = b.port_dir("q", PortDir::Out, false, sa);
    let one = b.lit(1);
    let st1 = b.assign(p, one);
    let two = b.lit(2);
    let st2 = b.assign(q, two);
    let mut ports = t.ports;
    ports.push(pp);
    ports.push(pq);
    b.module("M", ports, vec![st1, st2]);
    let r = b.run();
    assert!(codes(&r).is_empty(), "{:?}", codes(&r));
}

#[test]
fn writing_a_foreign_register_in_an_on_block_is_e3001() {
    let mut b = B::new();
    let t = b.two_clock();
    let (reg, r_def) = b.reg("r", Some(("fast_clk", t.fast_clk)));
    let one = b.lit(1);
    let w = b.block_assign(r_def, one);
    let blk = b.block(vec![w]);
    let on = b.on(t.slow_clk, blk);
    b.module("M", t.ports, vec![reg, on]);
    let r = b.run();
    assert_eq!(codes(&r), ["E3001"]);
}

#[test]
fn foreign_condition_in_an_on_block_is_e3012() {
    let mut b = B::new();
    let t = b.two_clock();
    let fa = b.ann("Fast", Some(t.fast));
    let (pff, ff) = b.port("ff", false, fa);
    let sa = b.ann("Slow", Some(t.slow));
    let (psd, sd) = b.port("sd", false, sa);
    let (reg, r_def) = b.reg("r", None);
    let cond = b.path("ff", ff, Some(1));
    let sdv = b.path("sd", sd, Some(8));
    let w = b.block_assign(r_def, sdv);
    let then_block = b.block(vec![w]);
    let blk = b.block(vec![BlockStmt::If { cond, then_block, else_block: None }]);
    let on = b.on(t.slow_clk, blk);
    let mut ports = t.ports;
    ports.push(pff);
    ports.push(psd);
    b.module("M", ports, vec![reg, on]);
    let r = b.run();
    assert_eq!(codes(&r), ["E3012"]);
    match &r.diagnostics[0] {
        volt_hir::domain::DomainDiag::ForeignRead { read, block, .. } => {
            assert_eq!(r.domains[*read as usize].name, "Fast");
            assert_eq!(r.domains[*block as usize].name, "Slow");
        }
        other => panic!("{:?}", other),
    }
}

#[test]
fn foreign_match_selector_in_an_on_block_is_e3012() {
    let mut b = B::new();
    let t = b.two_clock();
    let fa = b.ann("Fast", Some(t.fast));
    let (pfs, fs) = b.port("fs", false, fa);
    let (reg, r_def) = b.reg("r", None);
    let sel = b.path("fs", fs, Some(2));
    let one = b.lit(1);
    let w1 = b.block_assign(r_def, one);
    let arm1 = b.block(vec![w1]);
    let two = b.lit(2);
    let w2 = b.block_assign(r_def, two);
    let arm2 = b.block(vec![w2]);
    let blk = b.block(vec![BlockStmt::Match {
        scrutinee: sel,
        arms: vec![ArmBody::Block(arm1), ArmBody::Block(arm2)],
    }]);
    let on = b.on(t.slow_clk, blk);
    let mut ports = t.ports;
    ports.push(pfs);
    b.module("M", ports, vec![reg, on]);
    let r = b.run();
    assert_eq!(codes(&r), ["E3012"]);
}

#[test]
fn unconstrained_wire_read_in_an_on_block_is_bound_to_the_block_domain() {
    let mut b = B::new();
    let t = b.two_clock();
    let fa = b.ann("Fast", Some(t.fast));
    let (pa, a) = b.port("a", false, fa);
    let (wire, w) = b.wire("w");
    let (reg, r_def) = b.reg("r", None);
    let cond = b.path("w", w, Some(1));
    let one = b.lit(1);
    let wr = b.block_assign(r_def, one);
    let then_block = b.block(vec![wr]);
    let blk = b.block(vec![BlockStmt::If { cond, then_block, else_block: None }]);
    let on = b.on(t.slow_clk, blk);
    let av = b.path("a", a, Some(1));
    let st = b.assign(w, av);
    let mut ports = t.ports;
    ports.push(pa);
    b.module("M", ports, vec![wire, reg, on, st]);
    let r = b.run();
    assert_eq!(codes(&r), ["E3001"]);
    match &r.diagnostics[0] {
        volt_hir::domain::DomainDiag::CdcAssign { dst, .. } => {
            assert_eq!(*dst, DomainId::Explicit(1));
            assert_eq!(r.domains[1].name, "Slow");
        }
        other => panic!("{:?}", other),
    }
}

#[test]
fn foreign_index_on_the_left_side_is_e3001() {
    let mut b = B::new();
    let t = b.two_clock();
    let fa = b.ann("Fast", Some(t.fast));
    let (pi, i) = b.port("i", false, fa);
    let sa = b.ann("Slow", Some(t.slow));
    let (pq, q) = b.port_dir("q", PortDir::Out, false, sa);
    let iv = b.path("i", i, Some(2));
    let tru = b.expr(ExprKind::BoolLit(true), Some(1));
    let span = b.sp();
    let st = Stmt::Assign { lhs: LValue { def: Some(q), span, suffixes: vec![LValueSuffix::Index(iv)] }, rhs: tru };
    let mut ports = t.ports;
    ports.push(pi);
    ports.push(pq);
    b.module("M", ports, vec![st]);
    let r = b.run();
    assert_eq!(codes(&r), ["E3001"]);
}

// ── bidirectional ports ──────────────────────────────────────────────

fn pin_module(b: &mut B, via_sync: bool) -> u32 {
    let (pclk, clk) = b.port("clk", true, None);
    let (ppin, pin) = b.port_dir("pin", PortDir::InOut, false, None);
    let (pq, q) = b.port_dir("q", PortDir::Out, false, None);
    let recv = b.path("pin", pin, Some(1));
    let read_callee = b.field(recv, "read");
    let recv2 = b.path("pin", pin, Some(1));
    let read = b.call(read_callee, vec![recv2]);
    let rhs = if via_sync {
        let sync = b.builtin("sync", BuiltinKind::Sync);
        let clkv = b.path("clk", clk, None);
        b.call(sync, vec![read, clkv])
    } else {
        read
    };
    let st = b.assign(q, rhs);
    b.module("M", vec![pclk, ppin, pq], vec![st]);
    q
}

#[test]
fn direct_read_of_a_bidirectional_port_warns_w3007() {
    let mut b = B::new();
    let q = pin_module(&mut b, false);
    let r = b.run();
    assert_eq!(codes(&r), ["W3007"]);
    assert_eq!(name_of(&r, q), s("clk"));
}

#[test]
fn read_as_sync_source_is_the_legitimate_bridge() {
    let mut b = B::new();
    pin_module(&mut b, true);
    let r = b.run();
    assert!(codes(&r).is_empty(), "{:?}", codes(&r));
}

// ── builtin primitives ───────────────────────────────────────────────

fn pulse_sync() -> Primitive {
    let p = |name: &str, is_clock: bool, role: DomainRole| PrimPort { name: name.to_string(), is_clock, role };
    Primitive {
        kind: PrimKind::PulseSync,
        ports: vec![
            p("src_clk", true, DomainRole::Src),
            p("pulse_in", false, DomainRole::Src),
            p("dst_clk", true, DomainRole::Dst),
            p("pulse_out", false, DomainRole::Dst),
        ],
    }
}

/// `let ps = PulseSync { src_clk: fast_clk, pulse_in: p, dst_clk: slow_clk }`
/// with `in p : bool @<p_dom>` and, where given, `out q : bool @<q_dom>` with
/// `q = ps.pulse_out`.
fn pulse_module(b: &mut B, p_fast: bool, q_fast: Option<bool>) {
    let t = b.two_clock();
    let pa = if p_fast { b.ann("Fast", Some(t.fast)) } else { b.ann("Slow", Some(t.slow)) };
    let (pp, p) = b.port("p", false, pa);
    let mut ports = t.ports;
    ports.push(pp);
    let fc = b.path("fast_clk", t.fast_clk, None);
    let pv = b.path("p", p, Some(1));
    let sc = b.path("slow_clk", t.slow_clk, None);
    let b1 = b.binding("src_clk", Some(fc), None);
    let b2 = b.binding("pulse_in", Some(pv), None);
    let b3 = b.binding("dst_clk", Some(sc), None);
    let (inst, ps) = b.instance("ps", InstanceTarget::Builtin(pulse_sync()), vec![b1, b2, b3]);
    let mut body = vec![inst];
    if let Some(qf) = q_fast {
        let qa = if qf { b.ann("Fast", Some(t.fast)) } else { b.ann("Slow", Some(t.slow)) };
        let (pq, q) = b.port_dir("q", PortDir::Out, false, qa);
        ports.push(pq);
        let psv = b.path("ps", ps, None);
        let out = b.field(psv, "pulse_out");
        let st = b.assign(q, out);
        body.push(st);
    }
    b.module("M", ports, body);
}

#[test]
fn pulse_sync_ports_follow_their_side_and_remind_w3005() {
    let mut b = B::new();
    pulse_module(&mut b, true, Some(false));
    let r = b.run();
    assert_eq!(codes(&r), ["W3005"]);
}

#[test]
fn source_side_input_from_the_destination_domain_is_e3001() {
    let mut b = B::new();
    pulse_module(&mut b, false, None);
    let r = b.run();
    assert_eq!(codes(&r), ["E3001", "W3005"]);
}

#[test]
fn destination_side_output_read_in_the_source_domain_is_e3001() {
    let mut b = B::new();
    pulse_module(&mut b, true, Some(true));
    let r = b.run();
    assert_eq!(codes(&r), ["W3005", "E3001"]);
}

#[test]
fn dual_port_ram_reminds_w3006() {
    let mut b = B::new();
    let (pclk, clk) = b.port("clk", true, None);
    let mut ports = vec![pclk];
    let mut binds = Vec::new();
    let clkv = b.path("clk", clk, None);
    binds.push(b.binding("clk", Some(clkv), None));
    for (local, port, w) in [
        ("aa", "a_addr", 6u32),
        ("ad", "a_wr_data", 8),
        ("aw", "a_wr_en", 1),
        ("ba", "b_addr", 6),
        ("bd", "b_wr_data", 8),
        ("bw", "b_wr_en", 1),
    ] {
        let (p, d) = b.port(local, false, None);
        ports.push(p);
        let v = b.path(local, d, Some(w));
        binds.push(b.binding(port, Some(v), None));
    }
    let (paq, aq) = b.port_dir("aq", PortDir::Out, false, None);
    ports.push(paq);
    let p = |name: &str, is_clock: bool, role: DomainRole| PrimPort { name: name.to_string(), is_clock, role };
    let prim = Primitive {
        kind: PrimKind::DualPortRam,
        ports: vec![
            p("clk", true, DomainRole::Src),
            p("a_addr", false, DomainRole::Src),
            p("a_wr_data", false, DomainRole::Src),
            p("a_wr_en", false, DomainRole::Src),
            p("a_rd_data", false, DomainRole::Src),
            p("b_addr", false, DomainRole::Src),
            p("b_wr_data", false, DomainRole::Src),
            p("b_wr_en", false, DomainRole::Src),
            p("b_rd_data", false, DomainRole::Src),
        ],
    };
    let (inst, m) = b.instance("m", InstanceTarget::Builtin(prim), binds);
    let mv = b.path("m", m, None);
    let rd = b.field(mv, "a_rd_data");
    let st = b.assign(aq, rd);
    b.module("M", ports, vec![inst, st]);
    let r = b.run();
    assert_eq!(codes(&r), ["W3006"]);
    assert!(matches!(r.diagnostics[0], volt_hir::domain::DomainDiag::DualPortRamReminder { .. }));
}

// ── bundles ──────────────────────────────────────────────────────────

fn bundle_module(b: &mut B, ready_fast: bool) {
    let t = b.two_clock();
    let fa = b.ann("Fast", Some(t.fast));
    let (mut pdata, _) = b.port_dir("bus_data", PortDir::Out, false, fa);
    let ra = if ready_fast { b.ann("Fast", Some(t.fast)) } else { b.ann("Slow", Some(t.slow)) };
    let (mut pready, _) = b.port("bus_ready", false, ra);
    let port_span = b.sp();
    pdata.bundle = Some(BundleOrigin {
        port: "bus".to_string(),
        port_span,
        path: "bus.data".to_string(),
        bundle: "Bus".to_string(),
    });
    pready.bundle = Some(BundleOrigin {
        port: "bus".to_string(),
        port_span,
        path: "bus.ready".to_string(),
        bundle: "Bus".to_string(),
    });
    let mut ports = t.ports;
    ports.push(pdata);
    ports.push(pready);
    b.module("M", ports, vec![]);
}

#[test]
fn bundle_split_across_two_domains_is_e3013() {
    let mut b = B::new();
    bundle_module(&mut b, false);
    let r = b.run();
    assert_eq!(count(&r, "E3013"), 1, "{:?}", codes(&r));
    match r.diagnostics.iter().find(|d| d.code() == "E3013").unwrap() {
        volt_hir::domain::DomainDiag::BundleSplit { port, first, other, .. } => {
            assert_eq!(port, "bus");
            assert_eq!(*first, DomainId::Explicit(0));
            assert_eq!(*other, DomainId::Explicit(1));
        }
        other => panic!("{:?}", other),
    }
}

#[test]
fn bundle_in_one_domain_is_clean() {
    let mut b = B::new();
    bundle_module(&mut b, true);
    let r = b.run();
    assert_eq!(count(&r, "E3013"), 0, "{:?}", codes(&r));
}

// ── expressions ──────────────────────────────────────────────────────

/// `in a : u8 @Fast`, `in b : u8 @Slow`, `in c : bool @Fast`.
fn ports3(b: &mut B, t: &TwoClock) -> (Vec<PortIr>, u32, u32, u32) {
    let fa = b.ann("Fast", Some(t.fast));
    let (pa, a) = b.port("a", false, fa);
    let sa = b.ann("Slow", Some(t.slow));
    let (pb, bb) = b.port("b", false, sa);
    let fc = b.ann("Fast", Some(t.fast));
    let (pc, c) = b.port("c", false, fc);
    let mut ports = t.ports.clone();
    ports.push(pa);
    ports.push(pb);
    ports.push(pc);
    (ports, a, bb, c)
}

#[test]
fn literals_are_timeless_and_take_the_domain_of_the_other_operand() {
    let mut b = B::new();
    let t = b.two_clock();
    let (ports, a, _, _) = ports3(&mut b, &t);
    let three = b.lit(3);
    let (l1, k) = b.let_("k", three);
    let av = b.path("a", a, Some(8));
    let one = b.lit(1);
    let sum = b.add(av, one);
    let (l2, x) = b.let_("x", sum);
    b.module("M", ports, vec![l1, l2]);
    let r = b.run();
    assert_eq!(dom(&r, k), DomainId::Timeless);
    assert_eq!(name_of(&r, x), s("Fast"));
}

#[test]
fn binary_mix_of_two_domains_is_e3001_and_yields_error() {
    let mut b = B::new();
    let t = b.two_clock();
    let (ports, a, bb, _) = ports3(&mut b, &t);
    let av = b.path("a", a, Some(8));
    let bv = b.path("b", bb, Some(8));
    let sum = b.add(av, bv);
    let (l, x) = b.let_("x", sum);
    b.module("M", ports, vec![l]);
    let r = b.run();
    assert_eq!(codes(&r), ["E3001"]);
    assert_eq!(dom(&r, x), DomainId::Error);
}

#[test]
fn error_domain_suppresses_cascades() {
    let mut b = B::new();
    let t = b.two_clock();
    let (ports, a, bb, _) = ports3(&mut b, &t);
    let av = b.path("a", a, Some(8));
    let bv = b.path("b", bb, Some(8));
    let sum = b.add(av, bv);
    let (l1, x) = b.let_("x", sum);
    let xv = b.path("x", x, Some(8));
    let bv2 = b.path("b", bb, Some(8));
    let s2 = b.add(xv, bv2);
    let (l2, y) = b.let_("y", s2);
    let yv = b.path("y", y, Some(8));
    let av2 = b.path("a", a, Some(8));
    let s3 = b.add(yv, av2);
    let (l3, _) = b.let_("z", s3);
    b.module("M", ports, vec![l1, l2, l3]);
    let r = b.run();
    assert_eq!(codes(&r), ["E3001"]);
}

#[test]
fn if_expression_joins_condition_and_both_branches() {
    for bad in [false, true] {
        let mut b = B::new();
        let t = b.two_clock();
        let (ports, a, bb, c) = ports3(&mut b, &t);
        let cv = b.path("c", c, Some(1));
        let av = b.path("a", a, Some(8));
        let other = if bad { b.path("b", bb, Some(8)) } else { b.lit(0) };
        let e = b.expr(ExprKind::If { cond: cv, then_expr: av, else_expr: other }, Some(8));
        let (l, x) = b.let_("x", e);
        b.module("M", ports, vec![l]);
        let r = b.run();
        if bad {
            assert_eq!(codes(&r), ["E3001"]);
        } else {
            assert_eq!(name_of(&r, x), s("Fast"));
        }
    }
}

#[test]
fn index_joins_base_and_index() {
    let mut b = B::new();
    let t = b.two_clock();
    let (mut ports, a, _, _) = ports3(&mut b, &t);
    let sa = b.ann("Slow", Some(t.slow));
    let (pi, i) = b.port("i", false, sa);
    ports.push(pi);
    let av = b.path("a", a, Some(8));
    let iv = b.path("i", i, Some(3));
    let e = b.expr(ExprKind::Index { base: av, index: iv }, Some(1));
    let (l, _) = b.let_("x", e);
    b.module("M", ports, vec![l]);
    let r = b.run();
    assert_eq!(codes(&r), ["E3001"]);
}

#[test]
fn call_arguments_are_joined_left_to_right() {
    let mut b = B::new();
    let t = b.two_clock();
    let (ports, a, bb, _) = ports3(&mut b, &t);
    let max = b.unresolved("max");
    let av = b.path("a", a, Some(8));
    let bv = b.path("b", bb, Some(8));
    let call = b.call(max, vec![av, bv]);
    let (l, _) = b.let_("x", call);
    b.module("M", ports, vec![l]);
    let r = b.run();
    assert_eq!(codes(&r), ["E3001"]);
    match &r.diagnostics[0] {
        volt_hir::domain::DomainDiag::CdcCombinational { left, right, .. } => {
            assert_eq!(r.domains[*left as usize].name, "Fast");
            assert_eq!(r.domains[*right as usize].name, "Slow");
        }
        other => panic!("{:?}", other),
    }
}

/// `module Inner { in clk : clock; in d : u8; out q : u8; out busy : bool }`
fn inner_module(b: &mut B) -> usize {
    let (pclk, _) = b.port("clk", true, None);
    let (pd, d) = b.port("d", false, None);
    let (pq, q) = b.port_dir("q", PortDir::Out, false, None);
    let (pbusy, busy) = b.port_dir("busy", PortDir::Out, false, None);
    let dv = b.path("d", d, Some(8));
    let s1 = b.assign(q, dv);
    let tru = b.expr(ExprKind::BoolLit(true), Some(1));
    let s2 = b.assign(busy, tru);
    b.module("Inner", vec![pclk, pd, pq, pbusy], vec![s1, s2])
}

#[test]
fn instance_port_read_uses_the_instance_map() {
    let mut b = B::new();
    let inner = inner_module(&mut b);
    let t = b.two_clock();
    let sc = b.path("slow_clk", t.slow_clk, None);
    let bind = b.binding("clk", Some(sc), None);
    let (inst, u) = b.instance("u", InstanceTarget::Item(inner), vec![bind]);
    let uv = b.path("u", u, None);
    let busy = b.field(uv, "busy");
    let (l, x) = b.let_("x", busy);
    b.module("M", t.ports, vec![inst, l]);
    let r = b.run();
    assert_eq!(name_of(&r, x), s("Slow"));
}

// ── extern modules ───────────────────────────────────────────────────

#[test]
fn symbolic_domain_without_a_clock_port_is_reported_once() {
    let mut b = B::new();
    let src = b.def("Src", DefKind::DomainParam, false);
    let dst = b.def("Dst", DefKind::DomainParam, false);
    let a1 = b.ann("Src", Some(src));
    let (pclk, _) = b.port("clk", true, a1);
    let a2 = b.ann("Src", Some(src));
    let (pa, _) = b.port("a", false, a2);
    let a3 = b.ann("Dst", Some(dst));
    let (pq, _) = b.port_dir("q", PortDir::Out, false, a3);
    let a4 = b.ann("Dst", Some(dst));
    let (pv, _) = b.port_dir("v", PortDir::Out, false, a4);
    b.extern_module("X", vec![pclk, pa, pq, pv]);
    let r = b.run();
    assert_eq!(codes(&r), ["E3002"]);
    match &r.diagnostics[0] {
        volt_hir::domain::DomainDiag::SymbolicWithoutClock { annotation, module, .. } => {
            assert_eq!(annotation, "Dst");
            assert_eq!(module, "X");
        }
        other => panic!("{:?}", other),
    }
}

#[test]
fn multi_clock_extern_requires_annotations() {
    let mut b = B::new();
    let da = b.def("A", DefKind::DomainParam, false);
    let db = b.def("B", DefKind::DomainParam, false);
    let a1 = b.ann("A", Some(da));
    let (pc1, _) = b.port("c1", true, a1);
    let a2 = b.ann("B", Some(db));
    let (pc2, _) = b.port("c2", true, a2);
    let (pa, _) = b.port("a", false, None);
    let a3 = b.ann("B", Some(db));
    let (pq, _) = b.port_dir("q", PortDir::Out, false, a3);
    b.extern_module("X", vec![pc1, pc2, pa, pq]);
    let r = b.run();
    assert_eq!(codes(&r), ["E3010"]);
    match &r.diagnostics[0] {
        volt_hir::domain::DomainDiag::Ambiguous { candidates, in_extern, .. } => {
            assert!(*in_extern);
            assert_eq!(candidates[0].1, "@A");
        }
        other => panic!("{:?}", other),
    }
}

#[test]
fn single_clock_and_clockless_externs_need_no_annotation() {
    let mut b = B::new();
    let (pclk, _) = b.port("clk", true, None);
    let (pa, _) = b.port("a", false, None);
    let (pq, _) = b.port_dir("q", PortDir::Out, false, None);
    b.extern_module("X", vec![pclk, pa, pq]);
    let (pa2, _) = b.port("a", false, None);
    let (pq2, _) = b.port_dir("q", PortDir::Out, false, None);
    b.extern_module("Y", vec![pa2, pq2]);
    let r = b.run();
    assert!(codes(&r).is_empty(), "{:?}", codes(&r));
}

#[test]
fn port_annotation_must_name_a_clock_port() {
    let mut b = B::new();
    let (pclk, _) = b.port("clk", true, None);
    let (pa, a) = b.port("a", false, None);
    let an = b.ann("a", Some(a));
    let (pq, _) = b.port_dir("q", PortDir::Out, false, an);
    b.extern_module("X", vec![pclk, pa, pq]);
    let r = b.run();
    assert_eq!(codes(&r), ["E3002"]);
}

#[test]
fn extern_declarations_are_checked_too() {
    let mut b = B::new();
    let sym = b.def("Sym", DefKind::DomainParam, false);
    let an = b.ann("Sym", Some(sym));
    let (pa, _) = b.port("a", false, an);
    b.extern_module("X", vec![pa]);
    let r = b.run();
    assert_eq!(codes(&r), ["E3002"]);
}

// ── instances ────────────────────────────────────────────────────────

#[test]
fn target_ports_follow_the_bound_clock() {
    let mut b = B::new();
    let inner = inner_module(&mut b);
    let t = b.two_clock();
    let sa = b.ann("Slow", Some(t.slow));
    let (pa, a) = b.port("a", false, sa);
    let sy = b.ann("Slow", Some(t.slow));
    let (py, y) = b.port_dir("y", PortDir::Out, false, sy);
    let sc = b.path("slow_clk", t.slow_clk, None);
    let b1 = b.binding("clk", Some(sc), None);
    let av = b.path("a", a, Some(8));
    let b2 = b.binding("d", Some(av), None);
    let (inst, i) = b.instance("i", InstanceTarget::Item(inner), vec![b1, b2]);
    let iv = b.path("i", i, None);
    let q = b.field(iv, "q");
    let st = b.assign(y, q);
    let mut ports = t.ports;
    ports.push(pa);
    ports.push(py);
    b.module("M", ports, vec![inst, st]);
    let r = b.run();
    assert!(codes(&r).is_empty(), "{:?}", codes(&r));
}

#[test]
fn binding_from_another_domain_is_e3001() {
    let mut b = B::new();
    let inner = inner_module(&mut b);
    let t = b.two_clock();
    let fa = b.ann("Fast", Some(t.fast));
    let (pa, a) = b.port("a", false, fa);
    let sc = b.path("slow_clk", t.slow_clk, None);
    let b1 = b.binding("clk", Some(sc), None);
    let av = b.path("a", a, Some(8));
    let b2 = b.binding("d", Some(av), None);
    let (inst, _) = b.instance("i", InstanceTarget::Item(inner), vec![b1, b2]);
    let mut ports = t.ports;
    ports.push(pa);
    b.module("M", ports, vec![inst]);
    let r = b.run();
    assert_eq!(codes(&r), ["E3001"]);
}

#[test]
fn shorthand_binding_uses_the_local_signal_of_the_same_name() {
    let mut b = B::new();
    let inner = inner_module(&mut b);
    let (pclk, clk) = b.port("clk", true, None);
    let (pd, d) = b.port("d", false, None);
    let b1 = b.binding("clk", None, Some(clk));
    let b2 = b.binding("d", None, Some(d));
    let (inst, _) = b.instance("i", InstanceTarget::Item(inner), vec![b1, b2]);
    b.module("Top", vec![pclk, pd], vec![inst]);
    let r = b.run();
    assert!(codes(&r).is_empty(), "{:?}", codes(&r));
}

/// `extern module Ext { in wr_clk : clock @Core; in rd_clk : clock @Core;
/// in d : u8 @Core; out q : u8 @Core }` instantiated from the two-clock
/// module with `wr_clk: fast_clk, rd_clk: <rd>, d: a` and `in a : u8 @Fast`.
fn ext_module(b: &mut B, rd_slow: bool) {
    let core = b.def("Core", DefKind::DomainParam, false);
    let a1 = b.ann("Core", Some(core));
    let (p1, _) = b.port("wr_clk", true, a1);
    let a2 = b.ann("Core", Some(core));
    let (p2, _) = b.port("rd_clk", true, a2);
    let a3 = b.ann("Core", Some(core));
    let (p3, _) = b.port("d", false, a3);
    let a4 = b.ann("Core", Some(core));
    let (p4, _) = b.port_dir("q", PortDir::Out, false, a4);
    let ext = b.extern_module("Ext", vec![p1, p2, p3, p4]);
    let t = b.two_clock();
    let fa = b.ann("Fast", Some(t.fast));
    let (pa, a) = b.port("a", false, fa);
    let fc = b.path("fast_clk", t.fast_clk, None);
    let b1 = b.binding("wr_clk", Some(fc), None);
    let rc = if rd_slow {
        b.path("slow_clk", t.slow_clk, None)
    } else {
        b.path("fast_clk", t.fast_clk, None)
    };
    let b2 = b.binding("rd_clk", Some(rc), None);
    let av = b.path("a", a, Some(8));
    let b3 = b.binding("d", Some(av), None);
    let (inst, _) = b.instance("e", InstanceTarget::Item(ext), vec![b1, b2, b3]);
    let mut ports = t.ports;
    ports.push(pa);
    b.module("M", ports, vec![inst]);
}

#[test]
fn one_symbolic_domain_bound_to_two_clocks_is_e3014() {
    let mut b = B::new();
    ext_module(&mut b, true);
    let r = b.run();
    assert_eq!(codes(&r), ["E3014"]);
    match &r.diagnostics[0] {
        volt_hir::domain::DomainDiag::ClockConflict { prev, actual, .. } => {
            assert_eq!(*prev, DomainId::Explicit(0));
            assert_eq!(*actual, DomainId::Explicit(1));
        }
        other => panic!("{:?}", other),
    }
}

#[test]
fn same_clock_on_both_ports_of_one_symbolic_domain_is_clean() {
    let mut b = B::new();
    ext_module(&mut b, false);
    let r = b.run();
    assert!(codes(&r).is_empty(), "{:?}", codes(&r));
}

// ── files and modules ────────────────────────────────────────────────

#[test]
fn every_module_in_the_file_is_inferred() {
    let mut b = B::new();
    let (pclk, _) = b.port("clk", true, None);
    let (pa, a) = b.port("a", false, None);
    b.module("A", vec![pclk, pa], vec![]);
    let (pclk2, _) = b.port("clk2", true, None);
    let (pb, bb) = b.port("b", false, None);
    b.module("B", vec![pclk2, pb], vec![]);
    let r = b.run();
    assert_eq!(name_of(&r, a), s("clk"));
    assert_eq!(name_of(&r, bb), s("clk2"));
    assert!(codes(&r).is_empty(), "{:?}", codes(&r));
}

#[test]
fn decl_domains_maps_declarations_to_indices() {
    let mut b = B::new();
    let d = b.domain("D", false);
    let an = b.ann("D", Some(d));
    let (pclk, clk) = b.port("clk", true, an);
    b.module("M", vec![pclk], vec![]);
    let r = b.run();
    let id = r.decl_domains[d as usize].expect("D has a domain");
    assert_eq!(r.domains[id as usize].source, DomainSource::Decl(DefId(d)));
    assert_eq!(dom(&r, clk), DomainId::Explicit(id));
}

#[test]
fn clockless_module_is_timeless() {
    let mut b = B::new();
    let (pa, a) = b.port("a", false, None);
    let (pq, q) = b.port_dir("q", PortDir::Out, false, None);
    let av = b.path("a", a, Some(8));
    let st = b.assign(q, av);
    b.module("M", vec![pa, pq], vec![st]);
    let r = b.run();
    assert_eq!(dom(&r, a), DomainId::Timeless);
    assert!(r.domains.is_empty());
}

#[test]
fn single_clock_rule_assigns_every_port_silently() {
    let mut b = B::new();
    let (pclk, _) = b.port("clk", true, None);
    let (pa, a) = b.port("a", false, None);
    let (pq, q) = b.port_dir("q", PortDir::Out, false, None);
    let av = b.path("a", a, Some(8));
    let st = b.assign(q, av);
    b.module("M", vec![pclk, pa, pq], vec![st]);
    let r = b.run();
    assert_eq!(name_of(&r, a), s("clk"));
    assert_eq!(name_of(&r, q), s("clk"));
    assert!(codes(&r).is_empty(), "{:?}", codes(&r));
}

#[test]
fn unannotated_port_is_ambiguous_with_two_clocks() {
    let mut b = B::new();
    let t = b.two_clock();
    let (pa, a) = b.port("a", false, None);
    let fa = b.ann("Fast", Some(t.fast));
    let (pb, _) = b.port("b", false, fa);
    let mut ports = t.ports;
    ports.push(pa);
    ports.push(pb);
    b.module("M", ports, vec![]);
    let r = b.run();
    assert_eq!(codes(&r), ["E3010"]);
    assert_eq!(dom(&r, a), DomainId::Error);
    match &r.diagnostics[0] {
        volt_hir::domain::DomainDiag::Ambiguous { candidates, .. } => {
            assert_eq!(candidates.len(), 2);
            assert_eq!(candidates[0].1, "@Fast");
        }
        other => panic!("{:?}", other),
    }
}

#[test]
fn module_state_does_not_leak_into_the_next_module() {
    let mut b = B::new();
    let t = b.two_clock();
    let fa = b.ann("Fast", Some(t.fast));
    let (pa, _) = b.port("a", false, fa);
    let mut ports = t.ports;
    ports.push(pa);
    b.module("M", ports, vec![]);
    let (pclk, _) = b.port("clk", true, None);
    let (px, x) = b.port("x", false, None);
    b.module("N", vec![pclk, px], vec![]);
    let r = b.run();
    assert_eq!(name_of(&r, x), s("clk"));
    assert!(codes(&r).is_empty(), "{:?}", codes(&r));
}

#[test]
fn contracts_mixing_domains_are_reported() {
    let mut b = B::new();
    let t = b.two_clock();
    let fa = b.ann("Fast", Some(t.fast));
    let (pa, a) = b.port("a", false, fa);
    let sa = b.ann("Slow", Some(t.slow));
    let (pb, bb) = b.port("b", false, sa);
    let av = b.path("a", a, Some(1));
    let bv = b.path("b", bb, Some(1));
    let eq = b.expr(ExprKind::Binary { op: BinOp::Eq, lhs: av, rhs: bv }, Some(1));
    let mut ports = t.ports;
    ports.push(pa);
    ports.push(pb);
    b.module_with_contracts("M", ports, vec![], vec![eq]);
    let r = b.run();
    assert_eq!(count(&r, "E3001"), 1, "{:?}", codes(&r));
}

// ── registers ────────────────────────────────────────────────────────

#[test]
fn register_takes_the_domain_of_its_writer_block() {
    let mut b = B::new();
    let t = b.two_clock();
    let sa = b.ann("Slow", Some(t.slow));
    let (pd, d) = b.port("d", false, sa);
    let (reg, r_def) = b.reg("r", None);
    let dv = b.path("d", d, Some(8));
    let w = b.block_assign(r_def, dv);
    let blk = b.block(vec![w]);
    let on = b.on(t.slow_clk, blk);
    let mut ports = t.ports;
    ports.push(pd);
    b.module("M", ports, vec![reg, on]);
    let r = b.run();
    assert_eq!(name_of(&r, r_def), s("Slow"));
    assert!(codes(&r).is_empty(), "{:?}", codes(&r));
}

#[test]
fn writes_nested_in_if_and_match_are_found() {
    let mut b = B::new();
    let t = b.two_clock();
    let fa = b.ann("Fast", Some(t.fast));
    let (pc, c) = b.port("c", false, fa);
    let fs = b.ann("Fast", Some(t.fast));
    let (ps, sdef) = b.port("s", false, fs);
    let (rega, a) = b.reg("a", None);
    let (regb, bb) = b.reg("b", None);
    let one = b.lit(1);
    let wa = b.block_assign(a, one);
    let then_block = b.block(vec![wa]);
    let two = b.lit(2);
    let wb1 = b.block_assign(bb, two);
    let arm1 = b.block(vec![wb1]);
    let three = b.lit(3);
    let wb2 = b.block_assign(bb, three);
    let arm2 = b.block(vec![wb2]);
    let sel = b.path("s", sdef, Some(2));
    let else_block = b.block(vec![BlockStmt::Match {
        scrutinee: sel,
        arms: vec![ArmBody::Block(arm1), ArmBody::Block(arm2)],
    }]);
    let cv = b.path("c", c, Some(1));
    let blk = b.block(vec![BlockStmt::If { cond: cv, then_block, else_block: Some(else_block) }]);
    let on = b.on(t.fast_clk, blk);
    let mut ports = t.ports;
    ports.push(pc);
    ports.push(ps);
    b.module("M", ports, vec![rega, regb, on]);
    let r = b.run();
    assert_eq!(name_of(&r, a), s("Fast"));
    assert_eq!(name_of(&r, bb), s("Fast"));
}

#[test]
fn register_written_from_two_clocks_is_e3011() {
    let mut b = B::new();
    let t = b.two_clock();
    let (reg, r_def) = b.reg("r", None);
    let one = b.lit(1);
    let w1 = b.block_assign(r_def, one);
    let blk1 = b.block(vec![w1]);
    let on1 = b.on(t.fast_clk, blk1);
    let two = b.lit(2);
    let w2 = b.block_assign(r_def, two);
    let blk2 = b.block(vec![w2]);
    let on2 = b.on(t.slow_clk, blk2);
    b.module("M", t.ports, vec![reg, on1, on2]);
    let r = b.run();
    assert_eq!(count(&r, "E3011"), 1, "{:?}", codes(&r));
    assert_eq!(dom(&r, r_def), DomainId::Error);
    match r.diagnostics.iter().find(|d| d.code() == "E3011").unwrap() {
        volt_hir::domain::DomainDiag::TwoWriterDomains { writers, .. } => {
            assert_eq!(writers.len(), 2);
            assert_eq!(r.domains[writers[0].0 as usize].name, "Fast");
            assert_eq!(r.domains[writers[1].0 as usize].name, "Slow");
        }
        other => panic!("{:?}", other),
    }
}

#[test]
fn never_written_register_is_timeless_with_w3001() {
    let mut b = B::new();
    let (pclk, _) = b.port("clk", true, None);
    let (pq, q) = b.port_dir("q", PortDir::Out, false, None);
    let (reg, r_def) = b.reg("r", None);
    let rv = b.path("r", r_def, Some(8));
    let st = b.assign(q, rv);
    b.module("M", vec![pclk, pq], vec![reg, st]);
    let r = b.run();
    assert_eq!(codes(&r), ["W3001"]);
    assert_eq!(dom(&r, r_def), DomainId::Timeless);
}

#[test]
fn two_blocks_of_the_same_clock_are_one_domain() {
    let mut b = B::new();
    let (pclk, clk) = b.port("clk", true, None);
    let (reg, r_def) = b.reg("r", None);
    let one = b.lit(1);
    let w1 = b.block_assign(r_def, one);
    let blk1 = b.block(vec![w1]);
    let on1 = b.on(clk, blk1);
    let two = b.lit(2);
    let w2 = b.block_assign(r_def, two);
    let blk2 = b.block(vec![w2]);
    let on2 = b.on(clk, blk2);
    b.module("M", vec![pclk], vec![reg, on1, on2]);
    let r = b.run();
    assert_eq!(count(&r, "E3011"), 0, "{:?}", codes(&r));
    assert_eq!(name_of(&r, r_def), s("clk"));
}

// ── sync ─────────────────────────────────────────────────────────────

/// `in a : <width> @<dom>` and `let s = sync(a, slow_clk)`.
fn sync_module(b: &mut B, a_fast: bool, width: u32, with_out: bool) -> u32 {
    let t = b.two_clock();
    let an = if a_fast { b.ann("Fast", Some(t.fast)) } else { b.ann("Slow", Some(t.slow)) };
    let (pa, a) = b.port("a", false, an);
    let sync = b.builtin("sync", BuiltinKind::Sync);
    let av = b.path("a", a, Some(width));
    let sc = b.path("slow_clk", t.slow_clk, None);
    let call = b.call(sync, vec![av, sc]);
    let (l, sdef) = b.let_("s", call);
    let mut ports = t.ports;
    ports.push(pa);
    let mut body = vec![l];
    if with_out {
        let sa = b.ann("Slow", Some(t.slow));
        let (pq, q) = b.port_dir("q", PortDir::Out, false, sa);
        ports.push(pq);
        let sv = b.path("s", sdef, Some(width));
        body.push(b.assign(q, sv));
    }
    b.module("M", ports, body);
    sdef
}

#[test]
fn sync_output_is_in_the_destination_clock_domain() {
    let mut b = B::new();
    let sdef = sync_module(&mut b, true, 1, true);
    let r = b.run();
    assert_eq!(name_of(&r, sdef), s("Slow"));
    assert!(codes(&r).is_empty(), "{:?}", codes(&r));
}

#[test]
fn sync_within_one_domain_warns_w3002() {
    let mut b = B::new();
    sync_module(&mut b, false, 1, false);
    let r = b.run();
    assert_eq!(codes(&r), ["W3002"]);
}

#[test]
fn multi_bit_sync_warns_w3003() {
    let mut b = B::new();
    sync_module(&mut b, true, 8, false);
    let r = b.run();
    assert_eq!(codes(&r), ["W3003"]);
    assert!(matches!(r.diagnostics[0], volt_hir::domain::DomainDiag::MultiBitSync { width: 8, .. }));
}

#[test]
fn same_domain_multi_bit_sync_warns_in_order() {
    let mut b = B::new();
    sync_module(&mut b, false, 8, false);
    let r = b.run();
    assert_eq!(codes(&r), ["W3002", "W3003"]);
}

// ── domain table ─────────────────────────────────────────────────────

#[test]
fn unannotated_clock_port_opens_one_implicit_domain() {
    let mut b = B::new();
    let (pclk, clk) = b.port("clk", true, None);
    let (pa, a) = b.port("a", false, None);
    let (pb, bb) = b.port("b", false, None);
    b.module("M", vec![pclk, pa, pb], vec![]);
    let r = b.run();
    assert_eq!(r.domains.len(), 1);
    let d = &r.domains[0];
    assert_eq!(d.name, "clk");
    assert_eq!(d.source, DomainSource::ClockPort(DefId(clk)));
    assert_eq!(d.trust, None);
    assert_eq!(dom(&r, a), dom(&r, bb));
}

// ── trust aliases ────────────────────────────────────────────────────

#[test]
fn trust_only_alias_stays_in_the_single_clock_domain() {
    let mut b = B::new();
    let keys = b.domain("Keys", true);
    let (pclk, _) = b.port("clk", true, None);
    let ka = b.ann("Keys", Some(keys));
    let (pkey, key) = b.port("key", false, ka);
    let (pd, d) = b.port("d", false, None);
    b.module("M", vec![pclk, pkey, pd], vec![]);
    let r = b.run();
    assert_eq!(name_of(&r, key), s("clk"));
    assert_eq!(dom(&r, key), dom(&r, d));
    assert!(codes(&r).is_empty(), "{:?}", codes(&r));
}

#[test]
fn trust_only_alias_is_ambiguous_with_several_clocks() {
    let mut b = B::new();
    let keys = b.domain("Keys", true);
    let (pc1, _) = b.port("c1", true, None);
    let (pc2, _) = b.port("c2", true, None);
    let ka = b.ann("Keys", Some(keys));
    let (pkey, key) = b.port("key", false, ka);
    b.module("M", vec![pc1, pc2, pkey], vec![]);
    let r = b.run();
    assert_eq!(codes(&r), ["E3010"]);
    assert_eq!(dom(&r, key), DomainId::Error);
}

#[test]
fn anchored_trust_domain_is_a_real_clock_domain() {
    let mut b = B::new();
    let keys = b.domain("Keys", true);
    let ca = b.ann("Keys", Some(keys));
    let (pclk, _) = b.port("clk", true, ca);
    let (pc2, _) = b.port("c2", true, None);
    let ka = b.ann("Keys", Some(keys));
    let (pkey, key) = b.port("key", false, ka);
    b.module("M", vec![pclk, pc2, pkey], vec![]);
    let r = b.run();
    assert_eq!(name_of(&r, key), s("Keys"));
    assert!(codes(&r).is_empty(), "{:?}", codes(&r));
}

#[test]
fn domain_without_trust_level_keeps_opening_a_clock_domain() {
    let mut b = B::new();
    let plain = b.domain("Plain", false);
    let (pclk, _) = b.port("clk", true, None);
    let pa_ann = b.ann("Plain", Some(plain));
    let (pa, a) = b.port("a", false, pa_ann);
    b.module("M", vec![pclk, pa], vec![]);
    let r = b.run();
    assert_eq!(name_of(&r, a), s("Plain"));
}

#[test]
fn alias_on_an_instance_target_port_falls_back_to_its_single_clock() {
    let mut b = B::new();
    let keys = b.domain("Keys", true);
    let (pclk, _) = b.port("clk", true, None);
    let ka = b.ann("Keys", Some(keys));
    let (pkey, _) = b.port("key", false, ka);
    let inner = b.module("Inner", vec![pclk, pkey], vec![]);
    let (pclk2, clk2) = b.port("clk", true, None);
    let (pk, k) = b.port("k", false, None);
    let cv = b.path("clk", clk2, None);
    let b1 = b.binding("clk", Some(cv), None);
    let kv = b.path("k", k, Some(8));
    let b2 = b.binding("key", Some(kv), None);
    let (inst, _) = b.instance("i", InstanceTarget::Item(inner), vec![b1, b2]);
    b.module("Top", vec![pclk2, pk], vec![inst]);
    let r = b.run();
    assert!(codes(&r).is_empty(), "{:?}", codes(&r));
}

// ── statements ───────────────────────────────────────────────────────

#[test]
fn let_takes_the_domain_of_its_value() {
    let mut b = B::new();
    let t = b.two_clock();
    let sa = b.ann("Slow", Some(t.slow));
    let (pa, a) = b.port("a", false, sa);
    let av = b.path("a", a, Some(8));
    let one = b.lit(1);
    let sum = b.add(av, one);
    let (l, x) = b.let_("x", sum);
    let mut ports = t.ports;
    ports.push(pa);
    b.module("M", ports, vec![l]);
    let r = b.run();
    assert_eq!(name_of(&r, x), s("Slow"));
}

#[test]
fn wire_uses_the_default_domain_with_a_single_clock() {
    let mut b = B::new();
    let (pclk, _) = b.port("clk", true, None);
    let (pa, a) = b.port("a", false, None);
    let (wire, w) = b.wire("w");
    let av = b.path("a", a, Some(8));
    let st = b.assign(w, av);
    b.module("M", vec![pclk, pa], vec![wire, st]);
    let r = b.run();
    assert_eq!(name_of(&r, w), s("clk"));
}

#[test]
fn wire_is_a_constraint_variable_with_several_clocks() {
    let mut b = B::new();
    let t = b.two_clock();
    let sa = b.ann("Slow", Some(t.slow));
    let (pa, a) = b.port("a", false, sa);
    let (wire, w) = b.wire("w");
    let av = b.path("a", a, Some(8));
    let st = b.assign(w, av);
    let mut ports = t.ports;
    ports.push(pa);
    b.module("M", ports, vec![wire, st]);
    let r = b.run();
    assert!(matches!(dom(&r, w), DomainId::Unresolved(_)));
    assert!(codes(&r).is_empty(), "{:?}", codes(&r));
}

#[test]
fn constrained_wire_conflicts_with_the_other_domain() {
    let mut b = B::new();
    let t = b.two_clock();
    let sa = b.ann("Slow", Some(t.slow));
    let (pa, a) = b.port("a", false, sa);
    let fq = b.ann("Fast", Some(t.fast));
    let (pq, q) = b.port_dir("q", PortDir::Out, false, fq);
    let (wire, w) = b.wire("w");
    let av = b.path("a", a, Some(8));
    let s1 = b.assign(w, av);
    let wv = b.path("w", w, Some(8));
    let s2 = b.assign(q, wv);
    let mut ports = t.ports;
    ports.push(pa);
    ports.push(pq);
    b.module("M", ports, vec![wire, s1, s2]);
    let r = b.run();
    assert_eq!(codes(&r), ["E3001"]);
}

#[test]
fn comb_block_assignments_are_checked() {
    let mut b = B::new();
    let t = b.two_clock();
    let sa = b.ann("Slow", Some(t.slow));
    let (pa, a) = b.port("a", false, sa);
    let fq = b.ann("Fast", Some(t.fast));
    let (pq, q) = b.port_dir("q", PortDir::Out, false, fq);
    let av = b.path("a", a, Some(8));
    let w = b.block_assign(q, av);
    let blk = b.block(vec![w]);
    let mut ports = t.ports;
    ports.push(pa);
    ports.push(pq);
    b.module("M", ports, vec![Stmt::Comb(blk)]);
    let r = b.run();
    assert_eq!(codes(&r), ["E3001"]);
}

#[test]
fn raw_reset_port_belongs_to_no_clock_domain() {
    let mut b = B::new();
    let da = b.domain("A", false);
    let db = b.domain("B", false);
    let aa = b.ann("A", Some(da));
    let (pa, _) = b.port("a_clk", true, aa);
    let ab = b.ann("B", Some(db));
    let (pb, _) = b.port("b_clk", true, ab);
    let (mut prst, rst) = b.port("rst", false, None);
    prst.is_reset = true;
    b.module("M", vec![pa, pb, prst], vec![]);
    let r = b.run();
    assert_eq!(dom(&r, rst), DomainId::Timeless);
    assert!(codes(&r).is_empty(), "not E3010 among several clocks: {:?}", codes(&r));
}
