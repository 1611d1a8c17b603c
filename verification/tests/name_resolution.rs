use volt_hir::ast::Span;
use volt_hir::defs::{DefKind, PortDir};
use volt_hir::resolve::ir::{
    Name, RArm, RArmBody, RBlock, RBlockStmt, RBundleOrigin, RExpr, RExprKind, RFile, RGeneric, RItem, RItemKind,
    RLValue, RPath, RPattern, RPort, RPrim, RStmt, RSuffix, RType,
};
use volt_hir::resolve::walk::resolve_file;
use volt_hir::resolve::{ResolveCode, ResolveResult};

/// Builds the parsed file of a test source.
struct F {
    file: RFile,
    next: u32,
}

impl F {
    fn new() -> F {
        F {
            file: RFile {
                imports: Vec::new(),
                items: Vec::new(),
                exprs: Vec::new(),
                types: Vec::new(),
                patterns: Vec::new(),
                blocks: Vec::new(),
                prims: Vec::new(),
            },
            next: 0,
        }
    }

    fn sp(&mut self) -> Span {
        self.next += 1;
        Span { file: 0, start: self.next * 10, end: self.next * 10 + 3 }
    }

    fn n(&mut self, text: &str) -> Name {
        let span = self.sp();
        Name { text: text.to_string(), span }
    }

    fn rpath(&mut self, segs: &[&str]) -> RPath {
        let segments: Vec<Name> = segs.iter().map(|s| self.n(s)).collect();
        let span = self.sp();
        RPath { segments, span }
    }

    fn e(&mut self, kind: RExprKind) -> usize {
        let span = self.sp();
        self.file.exprs.push(RExpr { kind, span });
        self.file.exprs.len() - 1
    }

    fn p(&mut self, text: &str) -> usize {
        let path = self.rpath(&[text]);
        self.e(RExprKind::Path(path))
    }

    fn lit(&mut self, v: u128) -> usize {
        self.e(RExprKind::IntLit(v))
    }

    fn bin(&mut self, lhs: usize, rhs: usize) -> usize {
        self.e(RExprKind::Binary { lhs, rhs })
    }

    fn ty(&mut self, t: RType) -> usize {
        self.file.types.push(t);
        self.file.types.len() - 1
    }

    fn builtin(&mut self) -> usize {
        self.ty(RType::Builtin)
    }

    fn port(&mut self, name: &str, dir: PortDir) -> RPort {
        let name = self.n(name);
        let ty = self.builtin();
        RPort { name, dir, ty, domain: None, bundle: None }
    }

    fn port_at(&mut self, name: &str, domain: &str) -> RPort {
        let mut p = self.port(name, PortDir::In);
        p.domain = Some(self.n(domain));
        p
    }

    fn assign(&mut self, target: &str, rhs: usize) -> RStmt {
        let base = self.n(target);
        RStmt::Assign { lhs: RLValue { base, suffixes: Vec::new() }, rhs }
    }

    fn let_(&mut self, name: &str, value: usize) -> RStmt {
        let name = self.n(name);
        RStmt::Let { name, ty: None, value }
    }

    fn block(&mut self, stmts: Vec<RBlockStmt>) -> usize {
        self.file.blocks.push(RBlock { stmts, tail: None });
        self.file.blocks.len() - 1
    }

    fn on(&mut self, clk: &str, body: usize) -> RStmt {
        let trigger = Some(self.n(clk));
        RStmt::On { trigger, body }
    }

    fn instance(&mut self, name: &str, target: &str, bindings: Vec<(&str, Option<usize>)>) -> RStmt {
        let name = self.n(name);
        let path = self.rpath(&[target]);
        let bindings = bindings.into_iter().map(|(p, v)| (self.n(p), v)).collect();
        RStmt::Instance { name, path, prim: None, generic_args: Vec::new(), bindings }
    }

    fn module(&mut self, name: &str, ports: Vec<RPort>, body: Vec<RStmt>) {
        self.module_full(name, Vec::new(), ports, body, Vec::new());
    }

    fn module_full(&mut self, name: &str, generics: Vec<RGeneric>, ports: Vec<RPort>, body: Vec<RStmt>, contracts: Vec<usize>) {
        let name = self.n(name);
        self.file.items.push(RItem { kind: RItemKind::Module { name, generics, ports, body, contracts }, is_public: false });
    }

    fn run(&self) -> ResolveResult {
        resolve_file(&self.file)
    }
}

fn codes(r: &ResolveResult) -> Vec<&'static str> {
    r.error_codes()
}

/// `module M { in a : u8 out y : u8 y = <rhs> }` with the statements
/// after the assignment.
fn in_a_out_y(f: &mut F, rhs: usize, rest: Vec<RStmt>) {
    let a = f.port("a", PortDir::In);
    let y = f.port("y", PortDir::Out);
    let mut body = vec![f.assign("y", rhs)];
    body.extend(rest);
    f.module("M", vec![a, y], body);
}

#[test]
fn generic_parameters_are_visible_to_ports_and_body() {
    let mut f = F::new();
    let u32_ty = f.builtin();
    let n = f.n("N");
    let generics = vec![RGeneric { name: n, const_ty: Some(u32_ty) }];
    let clk = f.port("clk", PortDir::In);
    let x = f.port("x", PortDir::In);
    let y = f.port("y", PortDir::Out);
    let elem = f.builtin();
    let len = f.p("N");
    let ty = f.ty(RType::Array { elem, len });
    let zero = f.lit(0);
    let count = f.p("N");
    let init = f.e(RExprKind::Repeat { value: zero, count });
    let rname = f.n("line");
    let reg = RStmt::Reg { name: rname, ty: Some(ty), domain: None, init };
    let idx = f.lit(0);
    let xv = f.p("x");
    let base = f.n("line");
    let write = RBlockStmt::Assign { lhs: RLValue { base, suffixes: vec![RSuffix::Index(idx)] }, rhs: xv };
    let body_block = f.block(vec![write]);
    let on = f.on("clk", body_block);
    let line = f.p("line");
    let nv = f.p("N");
    let one = f.lit(1);
    let last = f.bin(nv, one);
    let rd = f.e(RExprKind::Index { base: line, index: last });
    let out = f.assign("y", rd);
    f.module_full("Delay", generics, vec![clk, x, y], vec![reg, on, out], Vec::new());
    let r = f.run();
    assert!(codes(&r).is_empty(), "{:?}", codes(&r));
}

#[test]
fn module_body_is_sequential() {
    let mut f = F::new();
    let t = f.p("t");
    let a = f.p("a");
    let l = f.let_("t", a);
    in_a_out_y(&mut f, t, vec![l]);
    assert_eq!(codes(&f.run()), ["E1002", "W1001"]);
}

#[test]
fn use_before_declaration_is_e1002_not_e1001() {
    let mut f = F::new();
    let t = f.p("t");
    let a = f.p("a");
    let l = f.let_("t", a);
    in_a_out_y(&mut f, t, vec![l]);
    assert_eq!(codes(&f.run()), ["E1002", "W1001"]);
}

#[test]
fn unknown_name_suggests_the_closest_visible_name() {
    let mut f = F::new();
    let data = f.port("data", PortDir::In);
    let y = f.port("y", PortDir::Out);
    let dta = f.p("dta");
    let st = f.assign("y", dta);
    f.module("M", vec![data, y], vec![st]);
    let r = f.run();
    let diag = r.diagnostics.iter().find(|d| d.code == ResolveCode::E1001).expect("E1001");
    assert_eq!(diag.suggestion.as_deref(), Some("data"));
}

#[test]
fn unknown_module_port_is_e1009_with_a_rename_fix_it() {
    let mut f = F::new();
    let data = f.port("data", PortDir::In);
    let s = f.port("s", PortDir::Out);
    let dv = f.p("data");
    let st = f.assign("s", dv);
    f.module("Alt", vec![data, s], vec![st]);
    let x = f.port("x", PortDir::In);
    let y = f.port("y", PortDir::Out);
    let xv = f.p("x");
    let inst = f.instance("u", "Alt", vec![("dta", Some(xv))]);
    let u = f.p("u");
    let field = f.n("s");
    let us = f.e(RExprKind::Field { base: u, field });
    let out = f.assign("y", us);
    f.module("Top", vec![x, y], vec![inst, out]);
    let r = f.run();
    let diag = r.diagnostics.iter().find(|d| d.code == ResolveCode::E1009).expect("E1009");
    assert_eq!(diag.suggestion.as_deref(), Some("data"));
}

#[test]
fn unread_definitions_warn_by_kind() {
    let mut f = F::new();
    let a = f.port("a", PortDir::In);
    let b = f.port("b", PortDir::In);
    let y = f.port("y", PortDir::Out);
    let av = f.p("a");
    let st = f.assign("y", av);
    f.module("M", vec![a, b, y], vec![st]);
    assert_eq!(codes(&f.run()), ["W1001"]);

    let mut f = F::new();
    let clk = f.port("clk", PortDir::In);
    let a = f.port("a", PortDir::In);
    let y = f.port("y", PortDir::Out);
    let zero = f.lit(0);
    let rname = f.n("r");
    let u8_ty = f.builtin();
    let reg = RStmt::Reg { name: rname, ty: Some(u8_ty), domain: None, init: zero };
    let av = f.p("a");
    let base = f.n("r");
    let write = RBlockStmt::Assign { lhs: RLValue { base, suffixes: Vec::new() }, rhs: av };
    let blk = f.block(vec![write]);
    let on = f.on("clk", blk);
    let av2 = f.p("a");
    let out = f.assign("y", av2);
    f.module("M", vec![clk, a, y], vec![reg, on, out]);
    assert_eq!(codes(&f.run()), ["W1004"]);

    let mut f = F::new();
    let imp = f.n("Yok");
    f.file.imports.push(imp);
    let av = f.p("a");
    in_a_out_y(&mut f, av, Vec::new());
    assert_eq!(codes(&f.run()), ["W1005"]);
}

#[test]
fn underscore_public_and_extern_definitions_are_exempt() {
    let mut f = F::new();
    let a = f.port("_a", PortDir::In);
    let b = f.port("b", PortDir::In);
    let y = f.port("y", PortDir::Out);
    let bv = f.p("b");
    let st = f.assign("y", bv);
    f.module("M", vec![a, b, y], vec![st]);
    assert!(codes(&f.run()).is_empty());

    let mut f = F::new();
    let clk = f.port("clk", PortDir::In);
    let d = f.port("d", PortDir::In);
    let q = f.port("q", PortDir::Out);
    let name = f.n("X");
    f.file.items.push(RItem {
        kind: RItemKind::Extern { name, generics: Vec::new(), ports: vec![clk, d, q] },
        is_public: false,
    });
    let c = codes(&f.run());
    assert!(c.is_empty(), "{c:?}");
}

#[test]
fn error_def_is_the_first_definition_and_lives_in_the_prelude() {
    let mut f = F::new();
    let av = f.p("a");
    in_a_out_y(&mut f, av, Vec::new());
    let r = f.run();
    assert_eq!(r.defs[0].kind, DefKind::Error);
    assert_eq!(r.defs[0].name, "<hata>");
    assert_eq!(r.defs[0].scope.0, 0);
}

#[test]
fn usage_warnings_come_after_body_diagnostics() {
    let mut f = F::new();
    let a = f.port("a", PortDir::In);
    let b = f.port("b", PortDir::In);
    let y = f.port("y", PortDir::Out);
    let av = f.p("a");
    let yok = f.p("yok");
    let sum = f.bin(av, yok);
    let st = f.assign("y", sum);
    f.module("M", vec![a, b, y], vec![st]);
    assert_eq!(codes(&f.run()), ["E1001", "W1001"]);
}

#[test]
fn duplicate_in_the_same_scope_is_e1003_and_keeps_the_first_definition() {
    let mut f = F::new();
    let a1 = f.port("a", PortDir::In);
    let a2 = f.port("a", PortDir::In);
    let y = f.port("y", PortDir::Out);
    let av = f.p("a");
    let st = f.assign("y", av);
    f.module("M", vec![a1, a2, y], vec![st]);
    let r = f.run();
    assert_eq!(r.error_codes(), ["E1003"]);
    assert_eq!(r.defs.iter().filter(|d| d.name == "a").count(), 1);
}

/// `module M { in x : u8 out y : u8 y = match x { <pattern> [if guard] => <body> } }`
fn match_module(f: &mut F, pattern: RPattern, guard_on: Option<&str>, body_name: &str, extra_arm: bool) {
    let x = f.port("x", PortDir::In);
    let y = f.port("y", PortDir::Out);
    let scrutinee = f.p("x");
    f.file.patterns.push(pattern);
    let pat = f.file.patterns.len() - 1;
    let guard = match guard_on {
        Some(g) => {
            let gv = f.p(g);
            let four = f.lit(4);
            Some(f.bin(gv, four))
        }
        None => None,
    };
    let body = f.p(body_name);
    let mut arms = vec![RArm { pattern: pat, guard, body: RArmBody::Expr(body) }];
    if extra_arm {
        f.file.patterns.push(RPattern::Wildcard);
        let w = f.file.patterns.len() - 1;
        let zero = f.lit(0);
        arms.push(RArm { pattern: w, guard: None, body: RArmBody::Expr(zero) });
    }
    let m = f.e(RExprKind::Match { scrutinee, arms });
    let st = f.assign("y", m);
    f.module("M", vec![x, y], vec![st]);
}

#[test]
fn match_arm_binding_is_scoped_to_its_arm() {
    let mut f = F::new();
    let n = f.n("n");
    match_module(&mut f, RPattern::Binding(n), Some("n"), "n", true);
    let r = f.run();
    assert!(r.error_codes().is_empty(), "{:?}", r.error_codes());
    let d = r.def_by_name("n").expect("n");
    assert_eq!(r.defs[d.0 as usize].kind, DefKind::PatternBinding);
}

#[test]
fn inner_binding_shadowing_an_outer_definition_is_w1002() {
    let mut f = F::new();
    let x = f.n("x");
    match_module(&mut f, RPattern::Binding(x), None, "x", false);
    let c = codes(&f.run());
    assert!(c.contains(&"W1002"), "{c:?}");
}

#[test]
fn shadowing_a_builtin_is_w1003_not_w1002() {
    let mut f = F::new();
    let a = f.port("a", PortDir::In);
    let y = f.port("y", PortDir::Out);
    let av = f.p("a");
    let l = f.let_("sync", av);
    let s = f.p("sync");
    let st = f.assign("y", s);
    f.module("M", vec![a, y], vec![l, st]);
    let c = codes(&f.run());
    assert!(c.contains(&"W1003") && !c.contains(&"W1002"), "{c:?}");
}

#[test]
fn declared_names_are_bound_with_their_kind() {
    let mut f = F::new();
    let av = f.p("a");
    let l = f.let_("t", av);
    let tv = f.p("t");
    let a = f.port("a", PortDir::In);
    let y = f.port("y", PortDir::Out);
    let st = f.assign("y", tv);
    f.module("M", vec![a, y], vec![l, st]);
    let r = f.run();
    let t = r.def_by_name("t").expect("t");
    assert_eq!(r.defs[t.0 as usize].kind, DefKind::LocalBinding);
}

#[test]
fn loop_variable_is_not_visible_after_the_loop() {
    let mut f = F::new();
    let clk = f.port("clk", PortDir::In);
    let y = f.port("y", PortDir::Out);
    let elem = f.builtin();
    let four = f.lit(4);
    let ty = f.ty(RType::Array { elem, len: four });
    let zero = f.lit(0);
    let four2 = f.lit(4);
    let init = f.e(RExprKind::Repeat { value: zero, count: four2 });
    let rname = f.n("line");
    let reg = RStmt::Reg { name: rname, ty: Some(ty), domain: None, init };
    // for i in 1..4 { line[i] <= line[i - 1] }
    let iv = f.p("i");
    let line = f.p("line");
    let iv2 = f.p("i");
    let one = f.lit(1);
    let prev = f.bin(iv2, one);
    let rd = f.e(RExprKind::Index { base: line, index: prev });
    let base = f.n("line");
    let inner = f.block(vec![RBlockStmt::Assign { lhs: RLValue { base, suffixes: vec![RSuffix::Index(iv)] }, rhs: rd }]);
    let var = f.n("i");
    let start = f.lit(1);
    let end = f.lit(4);
    let for_stmt = RBlockStmt::For { var, start, end, body: inner };
    // line[0] <= i
    let z = f.lit(0);
    let i_after = f.p("i");
    let base2 = f.n("line");
    let after = RBlockStmt::Assign { lhs: RLValue { base: base2, suffixes: vec![RSuffix::Index(z)] }, rhs: i_after };
    let blk = f.block(vec![for_stmt, after]);
    let on = f.on("clk", blk);
    let line2 = f.p("line");
    let three = f.lit(3);
    let rd2 = f.e(RExprKind::Index { base: line2, index: three });
    let out = f.assign("y", rd2);
    f.module("M", vec![clk, y], vec![reg, on, out]);
    let c = codes(&f.run());
    assert!(c.contains(&"E1001"), "{c:?}");
}

fn alt_and_top(f: &mut F, bind_value: &str, second: bool) {
    let a = f.port("a", PortDir::In);
    let s = f.port("s", PortDir::Out);
    let av = f.p("a");
    let st = f.assign("s", av);
    f.module("Alt", vec![a, s], vec![st]);
    let x = f.port("x", PortDir::In);
    let y = f.port("y", PortDir::Out);
    let v = f.p(bind_value);
    let inst = f.instance("u", "Alt", vec![("a", Some(v))]);
    let mut body = vec![inst];
    let u = f.p("u");
    let field = f.n("s");
    let mut out = f.e(RExprKind::Field { base: u, field });
    if second {
        let xv = f.p("x");
        let inst2 = f.instance("v", "Alt", vec![("a", Some(xv))]);
        body.push(inst2);
        let vv = f.p("v");
        let field2 = f.n("s");
        let vs = f.e(RExprKind::Field { base: vv, field: field2 });
        out = f.bin(out, vs);
    }
    body.push(f.assign("y", out));
    f.module("Top", vec![x, y], body);
}

#[test]
fn instance_edges_are_recorded_for_module_targets() {
    let mut f = F::new();
    alt_and_top(&mut f, "x", false);
    let r = f.run();
    let u = r.def_by_name("u").expect("u");
    let alt = r.def_by_name("Alt").expect("Alt");
    assert!(r.instance_module.iter().any(|(i, t)| *i == u && *t == alt));
}

#[test]
fn acyclic_instantiation_is_clean() {
    let mut f = F::new();
    alt_and_top(&mut f, "x", true);
    assert!(!f.run().error_codes().contains(&"E1006"));
}

#[test]
fn instance_name_is_not_visible_in_its_own_bindings() {
    let mut f = F::new();
    alt_and_top(&mut f, "u", false);
    let c = codes(&f.run());
    assert!(c.contains(&"E1002"), "{c:?}");
}

#[test]
fn items_are_declared_before_any_body_is_resolved() {
    let mut f = F::new();
    // Top first, Alt after it.
    let x = f.port("x", PortDir::In);
    let y = f.port("y", PortDir::Out);
    let xv = f.p("x");
    let inst = f.instance("u", "Alt", vec![("a", Some(xv))]);
    let u = f.p("u");
    let field = f.n("s");
    let us = f.e(RExprKind::Field { base: u, field });
    let out = f.assign("y", us);
    f.module("Top", vec![x, y], vec![inst, out]);
    let a = f.port("a", PortDir::In);
    let s = f.port("s", PortDir::Out);
    let av = f.p("a");
    let one = f.lit(1);
    let sum = f.bin(av, one);
    let st = f.assign("s", sum);
    f.module("Alt", vec![a, s], vec![st]);
    let r = f.run();
    assert!(r.error_codes().is_empty(), "{:?}", r.error_codes());
    let alt = r.def_by_name("Alt").expect("Alt");
    assert!(r.item_of_def.iter().any(|(d, _)| *d == alt));
}

#[test]
fn a_cycle_is_reported_once_from_its_smallest_def_id() {
    let mut f = F::new();
    // module A { in x out y  let b = B { p: x }  y = b.q }
    let x = f.port("x", PortDir::In);
    let y = f.port("y", PortDir::Out);
    let xv = f.p("x");
    let ib = f.instance("b", "B", vec![("p", Some(xv))]);
    let bv = f.p("b");
    let q = f.n("q");
    let bq = f.e(RExprKind::Field { base: bv, field: q });
    let ya = f.assign("y", bq);
    f.module("A", vec![x, y], vec![ib, ya]);
    // module B { in p out q  let a = A { x: p }  q = a.y }
    let p = f.port("p", PortDir::In);
    let qp = f.port("q", PortDir::Out);
    let pv = f.p("p");
    let ia = f.instance("a", "A", vec![("x", Some(pv))]);
    let av = f.p("a");
    let yn = f.n("y");
    let ay = f.e(RExprKind::Field { base: av, field: yn });
    let qb = f.assign("q", ay);
    f.module("B", vec![p, qp], vec![ia, qb]);
    let r = f.run();
    let cycles: Vec<_> = r.diagnostics.iter().filter(|d| d.code == ResolveCode::E1006).collect();
    assert_eq!(cycles.len(), 1);
    let a = r.def_by_name("A").expect("A");
    assert_eq!(cycles[0].span, r.defs[a.0 as usize].span);
}

#[test]
fn undefined_domain_annotation_is_e3002_not_e1001() {
    let mut f = F::new();
    let clk = f.port("clk", PortDir::In);
    let a = f.port_at("a", "Yok");
    let y = f.port("y", PortDir::Out);
    let av = f.p("a");
    let st = f.assign("y", av);
    f.module("M", vec![clk, a, y], vec![st]);
    let c = codes(&f.run());
    assert!(c.contains(&"E3002") && !c.contains(&"E1001"), "{c:?}");
}

#[test]
fn annotation_naming_a_non_domain_is_e3002() {
    let mut f = F::new();
    let kn = f.n("K");
    let kty = f.builtin();
    let one = f.lit(1);
    f.file.items.push(RItem { kind: RItemKind::Const { name: kn, ty: kty, value: one }, is_public: false });
    let a = f.port_at("a", "K");
    let y = f.port("y", PortDir::Out);
    let av = f.p("a");
    let kv = f.p("K");
    let sum = f.bin(av, kv);
    let st = f.assign("y", sum);
    f.module("M", vec![a, y], vec![st]);
    let c = codes(&f.run());
    assert!(c.contains(&"E3002"), "{c:?}");
}

#[test]
fn undefined_annotation_in_extern_opens_one_symbolic_domain() {
    let mut f = F::new();
    let clk = f.port_at("clk", "Src");
    let d = f.port_at("d", "Src");
    let mut q = f.port_at("q", "Src");
    q.dir = PortDir::Out;
    let name = f.n("X");
    f.file.items.push(RItem { kind: RItemKind::Extern { name, generics: Vec::new(), ports: vec![clk, d, q] }, is_public: false });
    let r = f.run();
    assert!(r.error_codes().is_empty(), "{:?}", r.error_codes());
    assert_eq!(r.defs.iter().filter(|d| d.kind == DefKind::DomainParam).count(), 1);
}

#[test]
fn every_path_expression_gets_a_resolution() {
    let mut f = F::new();
    let a = f.port("a", PortDir::In);
    let b = f.port("b", PortDir::In);
    let y = f.port("y", PortDir::Out);
    let av = f.p("a");
    let bv = f.p("b");
    let sum = f.bin(av, bv);
    let st = f.assign("y", sum);
    f.module("M", vec![a, b, y], vec![st]);
    let r = f.run();
    let ad = r.def_by_name("a").expect("a");
    let bd = r.def_by_name("b").expect("b");
    let mut targets: Vec<_> = r.resolutions.iter().filter_map(|x| *x).collect();
    targets.sort();
    assert_eq!(targets, [ad, bd]);
}

#[test]
fn operands_are_resolved_left_to_right() {
    let mut f = F::new();
    let y = f.port("y", PortDir::Out);
    let sol = f.p("sol");
    let sag = f.p("sag");
    let sum = f.bin(sol, sag);
    let st = f.assign("y", sum);
    f.module("M", vec![y], vec![st]);
    let r = f.run();
    let spans: Vec<u32> = r.diagnostics.iter().filter(|d| d.code == ResolveCode::E1001).map(|d| d.span.start).collect();
    assert_eq!(spans.len(), 2);
    assert!(spans[0] < spans[1]);
}

#[test]
fn prev_outside_a_contract_is_e5017() {
    let mut f = F::new();
    let callee = f.p("prev");
    let av = f.p("a");
    let call = f.e(RExprKind::Call { callee, args: vec![av] });
    in_a_out_y(&mut f, call, Vec::new());
    let c = codes(&f.run());
    assert!(c.contains(&"E5017"), "{c:?}");
}

#[test]
fn widened_int_type_is_not_looked_up_as_a_name() {
    let mut f = F::new();
    let an = f.n("a");
    let p1 = f.rpath(&["u100"]);
    let t1 = f.ty(RType::Path { path: p1, args: Vec::new() });
    let yn = f.n("y");
    let p2 = f.rpath(&["u100"]);
    let t2 = f.ty(RType::Path { path: p2, args: Vec::new() });
    let a = RPort { name: an, dir: PortDir::In, ty: t1, domain: None, bundle: None };
    let y = RPort { name: yn, dir: PortDir::Out, ty: t2, domain: None, bundle: None };
    let av = f.p("a");
    let st = f.assign("y", av);
    f.module("M", vec![a, y], vec![st]);
    let c = codes(&f.run());
    assert!(!c.contains(&"E1001"), "{c:?}");
}

#[test]
fn single_file_use_registers_an_import_in_the_root_scope() {
    let mut f = F::new();
    let imp = f.n("SABIT");
    f.file.imports.push(imp);
    let av = f.p("a");
    let s = f.p("SABIT");
    let sum = f.bin(av, s);
    in_a_out_y(&mut f, sum, Vec::new());
    let r = f.run();
    assert!(r.error_codes().is_empty(), "{:?}", r.error_codes());
    let d = r.def_by_name("SABIT").expect("SABIT");
    assert_eq!(r.defs[d.0 as usize].kind, DefKind::Import);
}

#[test]
fn importing_the_same_name_twice_is_e1010() {
    let mut f = F::new();
    let a = f.n("Ortak");
    let b = f.n("Ortak");
    f.file.imports.push(a);
    f.file.imports.push(b);
    let x = f.port("x", PortDir::In);
    let y = f.port("y", PortDir::Out);
    let xv = f.p("x");
    let st = f.assign("y", xv);
    f.module("M", vec![x, y], vec![st]);
    let c = codes(&f.run());
    assert!(c.contains(&"E1010"), "{c:?}");
}

#[test]
fn instantiating_a_non_module_is_e1001() {
    let mut f = F::new();
    let kn = f.n("K");
    let kty = f.builtin();
    let one = f.lit(1);
    f.file.items.push(RItem { kind: RItemKind::Const { name: kn, ty: kty, value: one }, is_public: false });
    let x = f.port("x", PortDir::In);
    let y = f.port("y", PortDir::Out);
    let xv = f.p("x");
    let inst = f.instance("u", "K", vec![("a", Some(xv))]);
    let xv2 = f.p("x");
    let st = f.assign("y", xv2);
    f.module("Top", vec![x, y], vec![inst, st]);
    let c = codes(&f.run());
    assert!(c.contains(&"E1001"), "{c:?}");
}

#[test]
fn unknown_enum_variant_is_e1007_and_non_namespace_is_e1005() {
    let mut f = F::new();
    let en = f.n("Durum");
    let b = f.n("Bekle");
    let c0 = f.lit(0);
    let cn = f.n("Calis");
    let c1 = f.lit(1);
    f.file.items.push(RItem {
        kind: RItemKind::Enum { name: en, repr: None, variants: vec![(b, Some(c0)), (cn, Some(c1))] },
        is_public: false,
    });
    let path = f.rpath(&["Durum", "Kos"]);
    let pat = RPattern::Path { path, tuple: Vec::new(), fields: Vec::new() };
    f.file.patterns.push(pat);
    let x = f.port("x", PortDir::In);
    let y = f.port("y", PortDir::Out);
    let scrutinee = f.p("x");
    let zero = f.lit(0);
    let one = f.lit(1);
    f.file.patterns.push(RPattern::Wildcard);
    let arms = vec![
        RArm { pattern: 0, guard: None, body: RArmBody::Expr(zero) },
        RArm { pattern: 1, guard: None, body: RArmBody::Expr(one) },
    ];
    let m = f.e(RExprKind::Match { scrutinee, arms });
    let st = f.assign("y", m);
    f.module("M", vec![x, y], vec![st]);
    let c = codes(&f.run());
    assert!(c.contains(&"E1007"), "{c:?}");

    let mut f = F::new();
    let path = f.rpath(&["x", "alan"]);
    let e = f.e(RExprKind::Path(path));
    let x = f.port("x", PortDir::In);
    let y = f.port("y", PortDir::Out);
    let st = f.assign("y", e);
    f.module("M", vec![x, y], vec![st]);
    let c = codes(&f.run());
    assert!(c.contains(&"E1005"), "{c:?}");
}

#[test]
fn enum_variants_record_parent_order_and_discriminant() {
    let mut f = F::new();
    let en = f.n("Durum");
    let b = f.n("Bekle");
    let c0 = f.lit(0);
    let cn = f.n("Calis");
    let c1 = f.lit(1);
    f.file.items.push(RItem {
        kind: RItemKind::Enum { name: en, repr: None, variants: vec![(b, Some(c0)), (cn, Some(c1))] },
        is_public: false,
    });
    let av = f.p("a");
    in_a_out_y(&mut f, av, Vec::new());
    let r = f.run();
    let durum = r.def_by_name("Durum").expect("Durum");
    let calis = r.def_by_name("Calis").expect("Calis");
    assert_eq!(r.defs[calis.0 as usize].kind, DefKind::EnumVariant { parent: durum.0 });
    let (_, order, disc) = r.variant_info.iter().find(|(d, _, _)| *d == calis).copied().expect("Calis");
    assert_eq!(order, 1);
    assert!(disc.is_some());
}

#[test]
fn declaration_statements_bind_their_kinds() {
    let mut f = F::new();
    let clk = f.port("clk", PortDir::In);
    let a = f.port("a", PortDir::In);
    let y = f.port("y", PortDir::Out);
    let zero = f.lit(0);
    let rn = f.n("r");
    let reg = RStmt::Reg { name: rn, ty: None, domain: None, init: zero };
    let wn = f.n("w");
    let wty = f.builtin();
    let wire = RStmt::Wire { name: wn, ty: wty };
    let av = f.p("a");
    let base = f.n("r");
    let blk = f.block(vec![RBlockStmt::Assign { lhs: RLValue { base, suffixes: Vec::new() }, rhs: av }]);
    let on = f.on("clk", blk);
    let rv = f.p("r");
    let w_eq = f.assign("w", rv);
    let wv = f.p("w");
    let y_eq = f.assign("y", wv);
    f.module("M", vec![clk, a, y], vec![reg, wire, on, w_eq, y_eq]);
    let r = f.run();
    assert!(r.error_codes().is_empty(), "{:?}", r.error_codes());
    let rd = r.def_by_name("r").expect("r");
    let wd = r.def_by_name("w").expect("w");
    assert_eq!(r.defs[rd.0 as usize].kind, DefKind::Register);
    assert_eq!(r.defs[wd.0 as usize].kind, DefKind::Wire);
}

#[test]
fn direct_assignment_to_a_bidirectional_port_is_e4008() {
    let mut f = F::new();
    let clk = f.port("clk", PortDir::In);
    let dq = f.port("dq", PortDir::InOut);
    let zero = f.lit(0);
    let base = f.n("dq");
    let blk = f.block(vec![RBlockStmt::Assign { lhs: RLValue { base, suffixes: Vec::new() }, rhs: zero }]);
    let on = f.on("clk", blk);
    f.module("M", vec![clk, dq], vec![on]);
    let c = codes(&f.run());
    assert!(c.contains(&"E4008"), "{c:?}");
}

#[test]
fn ports_see_each_other_regardless_of_order() {
    let mut f = F::new();
    let d = f.port_at("d", "clk");
    let clk = f.port("clk", PortDir::In);
    let y = f.port("y", PortDir::Out);
    let dv = f.p("d");
    let st = f.assign("y", dv);
    f.module("M", vec![d, clk, y], vec![st]);
    let c = codes(&f.run());
    assert!(!c.contains(&"E3002") && !c.contains(&"E1002"), "{c:?}");
}

#[test]
fn prelude_holds_ten_builtins_and_no_trit() {
    let mut f = F::new();
    let av = f.p("a");
    in_a_out_y(&mut f, av, Vec::new());
    let r = f.run();
    let builtins: Vec<&str> = r
        .defs
        .iter()
        .filter(|d| matches!(d.kind, DefKind::Builtin(_)))
        .map(|d| d.name.as_str())
        .collect();
    assert_eq!(builtins.len(), 10);
    assert_eq!(builtins[0], "sync");
    assert!(!builtins.contains(&"Trit"));
}

/// `PulseSync` with its ports: clocks and the pulse in, the pulse out.
fn pulse_sync(f: &mut F) -> usize {
    f.file.prims.push(RPrim {
        name: "PulseSync".to_string(),
        ports: vec![
            ("src_clk".to_string(), PortDir::In),
            ("dst_clk".to_string(), PortDir::In),
            ("pulse_in".to_string(), PortDir::In),
            ("pulse_out".to_string(), PortDir::Out),
        ],
    });
    f.file.prims.len() - 1
}

#[test]
fn builtin_primitive_ports_are_checked_by_name_and_direction() {
    // ps = PulseSync { src_clk: a, dst_clk: a, pulse_inn: a, pulse_out: a }
    let mut f = F::new();
    let prim = pulse_sync(&mut f);
    let vals: Vec<usize> = (0..4).map(|_| f.p("a")).collect();
    let mut inst = f.instance(
        "ps",
        "PulseSync",
        vec![("src_clk", Some(vals[0])), ("dst_clk", Some(vals[1])), ("pulse_inn", Some(vals[2])), ("pulse_out", Some(vals[3]))],
    );
    if let RStmt::Instance { prim: p, .. } = &mut inst {
        *p = Some(prim);
    }
    // y = ps.pulse_out; reading an input through the instance is E1009.
    let ps1 = f.p("ps");
    let out_field = f.n("pulse_out");
    let read_out = f.e(RExprKind::Field { base: ps1, field: out_field });
    let ps2 = f.p("ps");
    let in_field = f.n("pulse_in");
    let read_in = f.e(RExprKind::Field { base: ps2, field: in_field });
    let z = f.let_("z", read_in);
    in_a_out_y(&mut f, read_out, vec![inst, z]);
    let r = f.run();
    let e1009: Vec<(Option<String>, Span)> = r
        .diagnostics
        .iter()
        .filter(|d| d.code == ResolveCode::E1009)
        .map(|d| (d.suggestion.clone(), d.span))
        .collect();
    assert_eq!(e1009.len(), 3, "{:?}", codes(&r));
    // Unknown port, with the closest port as a rename.
    assert_eq!(e1009[0].0.as_deref(), Some("pulse_in"));
    // An output bound as a value, and an input read as a field.
    assert_eq!(e1009[1].0, None);
    assert_eq!(e1009[2].0, None);
}

#[test]
fn a_user_module_named_like_a_primitive_wins() {
    let mut f = F::new();
    let prim = pulse_sync(&mut f);
    let clk = f.port("clk", PortDir::In);
    f.module("PulseSync", vec![clk], vec![]);
    let v = f.p("a");
    let mut inst = f.instance("ps", "PulseSync", vec![("clk", Some(v))]);
    if let RStmt::Instance { prim: p, .. } = &mut inst {
        *p = Some(prim);
    }
    in_a_out_y(&mut f, v, vec![inst]);
    let r = f.run();
    assert!(!codes(&r).contains(&"E1009"), "{:?}", codes(&r));
}

#[test]
fn whole_bundle_payload_as_a_value_is_e0003() {
    // in req_data_a : u8 (from `req : Bundle`, field path `data.a`); y = req.data
    let mut f = F::new();
    let mut leaf = f.port("req_data_a", PortDir::In);
    leaf.bundle = Some(RBundleOrigin { port: "req".to_string(), path: "data.a".to_string(), bundle: "Handshake".to_string() });
    let y = f.port("y", PortDir::Out);
    let base = f.p("req");
    let field = f.n("data");
    let whole = f.e(RExprKind::Field { base, field });
    let body = vec![f.assign("y", whole)];
    f.module("M", vec![leaf, y], body);
    let r = f.run();
    assert!(codes(&r).contains(&"E0003"), "{:?}", codes(&r));
    assert!(!codes(&r).contains(&"E1001"), "no misleading undefined-name error");
}

#[test]
fn assigning_a_bundle_input_field_is_e4005() {
    let mut f = F::new();
    let mut leaf = f.port("req_valid", PortDir::In);
    leaf.bundle = Some(RBundleOrigin { port: "req".to_string(), path: "valid".to_string(), bundle: "Handshake".to_string() });
    let one = f.lit(1);
    let body = vec![f.assign("req_valid", one)];
    f.module("M", vec![leaf], body);
    let r = f.run();
    assert!(codes(&r).contains(&"E4005"), "{:?}", codes(&r));
}
