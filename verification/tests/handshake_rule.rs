use volt_hir::ast::{Expr, ExprKind, Span};
use volt_hir::defs::PortDir;
use volt_hir::domain::ir::{BundleOrigin, PortIr};
use volt_hir::handshake::{check_handshakes, CombGraph, Dep, HsBlock, HsBlockStmt, HsInput, HsModule, HsStmt};

fn sp(n: u32) -> Span {
    Span { file: 0, start: n * 10, end: n * 10 + 5 }
}

/// A port flattened out of `port : Handshake<T>`, field `field`.
fn hs_port(port: &str, field: &str, dir: PortDir, def: u32) -> PortIr {
    PortIr {
        name: format!("{port}.{field}"),
        span: sp(def),
        def: Some(def),
        dir,
        domain: None,
        bundle: Some(BundleOrigin {
            port: port.to_string(),
            port_span: sp(100),
            path: field.to_string(),
            bundle: "Handshake".to_string(),
        }),
        is_reset: false,
    }
}

fn path(name: &str, def: u32, span: u32) -> Expr {
    Expr { kind: ExprKind::Path { segments: vec![name.to_string()], def: Some(def) }, span: sp(span) }
}

fn names(n: &[&str]) -> Vec<String> {
    n.iter().map(|s| s.to_string()).collect()
}

/// Producer `tx` (valid out = def 0, ready in = def 1) with the given body.
fn producer(body: Vec<HsStmt>, exprs: Vec<Expr>, blocks: Vec<HsBlock>, extra: &[&str]) -> HsInput {
    let mut n = names(&["tx.valid", "tx.ready"]);
    n.extend(names(extra));
    HsInput {
        names: n,
        exprs,
        blocks,
        modules: vec![HsModule {
            ports: vec![hs_port("tx", "valid", PortDir::Out, 0), hs_port("tx", "ready", PortDir::In, 1)],
            body,
        }],
    }
}

#[test]
fn valid_driven_from_ready_is_reported() {
    // tx.valid = tx.ready
    let inp = producer(
        vec![HsStmt::Assign { target: Some(0), rhs: 0, span: sp(50) }],
        vec![path("tx.ready", 1, 51)],
        vec![],
        &[],
    );
    let out = check_handshakes(&inp);
    assert_eq!(out.len(), 1);
    assert_eq!(out[0].code(), "E4007");
    assert_eq!(out[0].port, "tx");
    assert_eq!(out[0].port_span, sp(100));
    assert_eq!(out[0].chain, vec![Dep { def: 1, site: sp(51), stmt: sp(50) }]);
}

#[test]
fn path_through_a_let_binding_is_reported_with_its_chain() {
    // let t = tx.ready;  tx.valid = t
    let inp = producer(
        vec![
            HsStmt::Let { def: Some(2), value: 0, span: sp(60) },
            HsStmt::Assign { target: Some(0), rhs: 1, span: sp(61) },
        ],
        vec![path("tx.ready", 1, 62), path("t", 2, 63)],
        vec![],
        &["t"],
    );
    let out = check_handshakes(&inp);
    assert_eq!(out.len(), 1);
    assert_eq!(
        out[0].chain,
        vec![Dep { def: 2, site: sp(63), stmt: sp(61) }, Dep { def: 1, site: sp(62), stmt: sp(60) }]
    );
}

#[test]
fn registered_valid_is_clean() {
    // reg valid_r; on clk { ... }; tx.valid = valid_r
    let inp = producer(
        vec![HsStmt::Other, HsStmt::Assign { target: Some(0), rhs: 0, span: sp(50) }],
        vec![path("valid_r", 2, 51)],
        vec![],
        &["valid_r"],
    );
    assert!(check_handshakes(&inp).is_empty());
}

#[test]
fn comb_condition_on_ready_is_a_dependency() {
    // comb { if tx.ready { tx.valid = true } }
    let inp = producer(
        vec![HsStmt::Comb(1)],
        vec![path("tx.ready", 1, 70), Expr { kind: ExprKind::BoolLit(true), span: sp(71) }],
        vec![
            HsBlock { stmts: vec![HsBlockStmt::Assign { target: Some(0), rhs: 1, span: sp(72) }], tail: None },
            HsBlock { stmts: vec![HsBlockStmt::If { cond: 0, then_block: 0, else_block: None }], tail: None },
        ],
        &[],
    );
    let out = check_handshakes(&inp);
    assert_eq!(out.len(), 1);
    assert_eq!(out[0].chain, vec![Dep { def: 1, site: sp(70), stmt: sp(72) }]);
}

#[test]
fn consumer_deriving_ready_from_valid_is_clean() {
    // in rx : Handshake (valid in, ready out);  rx.ready = rx.valid
    let inp = HsInput {
        names: names(&["rx.valid", "rx.ready"]),
        exprs: vec![path("rx.valid", 0, 51)],
        blocks: vec![],
        modules: vec![HsModule {
            ports: vec![hs_port("rx", "valid", PortDir::In, 0), hs_port("rx", "ready", PortDir::Out, 1)],
            body: vec![HsStmt::Assign { target: Some(1), rhs: 0, span: sp(50) }],
        }],
    };
    assert!(check_handshakes(&inp).is_empty());
}

#[test]
fn find_path_follows_edges_and_reports_no_path() {
    let inp = HsInput { names: names(&["a", "b", "c", "d"]), exprs: vec![], blocks: vec![], modules: vec![] };
    let d = |def: u32| Dep { def, site: sp(def), stmt: sp(def + 10) };
    // a <- b, b <- c, c <- b (cycle), d isolated
    let g = CombGraph { edges: vec![(0, d(1)), (1, d(2)), (2, d(1))] };
    assert_eq!(g.find_path(&inp, 0, 2), Some(vec![d(1), d(2)]));
    assert_eq!(g.find_path(&inp, 0, 3), None);
    assert_eq!(g.find_path(&inp, 1, 1), Some(vec![d(2), d(1)]));
    assert_eq!(g.find_path(&inp, 3, 0), None);
}
