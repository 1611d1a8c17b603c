use volt_hir::ast::{ClockEdge, Span};
use volt_hir::defs::{DefId, DefKind};
use volt_hir::domain::ir::{
    DefInfo, DomainDecl, DomainField, DomainInput, ResetPolarity, ResetSpec, ResetSync, TrustLevel,
};
use volt_hir::domain::{DomainDiag, DomainId, DomainSource, InferVar, Inferencer};

fn sp(n: u32) -> Span {
    Span { file: 0, start: n, end: n + 1 }
}

fn decl(inp: &mut DomainInput, name: &str, fields: Vec<DomainField>) {
    let def = inp.defs.len() as u32;
    inp.defs.push(DefInfo { kind: DefKind::Domain, name: name.to_string(), span: sp(100 + def), is_clock: false });
    inp.domain_decls.push(DomainDecl { def: Some(def), name: name.to_string(), span: sp(200 + def), fields });
}

fn plain() -> Vec<DomainField> {
    vec![
        DomainField::Clock(ClockEdge::Posedge),
        DomainField::Reset(ResetSpec { sync: ResetSync::Sync, polarity: ResetPolarity::ActiveHigh }),
    ]
}

/// `domain Fast { ... }` and `domain Slow { ... }`.
fn two_domains() -> DomainInput {
    let mut inp = DomainInput {
        defs: Vec::new(),
        exprs: Vec::new(),
        expr_widths: Vec::new(),
        blocks: Vec::new(),
        domain_decls: Vec::new(),
        items: Vec::new(),
    };
    decl(&mut inp, "Fast", plain());
    decl(&mut inp, "Slow", plain());
    inp
}

fn with_inferencer<R>(f: impl FnOnce(&mut Inferencer) -> R) -> R {
    let inp = two_domains();
    let mut inf = Inferencer::new(&inp);
    inf.collect_domain_decls(&inp);
    f(&mut inf)
}

fn join(a: DomainId, b: DomainId) -> (DomainId, usize) {
    with_inferencer(|inf| {
        let d = inf.join(a, b, sp(0), sp(2));
        (d, inf.diagnostics.len())
    })
}

use DomainId::{Error, Explicit, Timeless};

#[test]
fn timeless_is_the_identity_on_both_sides() {
    assert_eq!(join(Timeless, Explicit(0)), (Explicit(0), 0));
    assert_eq!(join(Explicit(1), Timeless), (Explicit(1), 0));
    assert_eq!(join(Timeless, Timeless), (Timeless, 0));
}

#[test]
fn error_absorbs_everything_silently() {
    assert_eq!(join(Error, Explicit(0)), (Error, 0));
    assert_eq!(join(Explicit(0), Error), (Error, 0));
    assert_eq!(join(Timeless, Error), (Error, 0));
}

#[test]
fn same_domain_joins_to_itself() {
    assert_eq!(join(Explicit(1), Explicit(1)), (Explicit(1), 0));
}

#[test]
fn different_domains_are_a_cdc_violation() {
    with_inferencer(|inf| {
        let d = inf.join(Explicit(0), Explicit(1), sp(0), sp(2));
        assert_eq!(d, Error);
        assert_eq!(inf.diagnostics.len(), 1);
        let diag = &inf.diagnostics[0];
        assert_eq!(diag.code(), "E3001");
        match diag {
            DomainDiag::CdcCombinational { left, right, left_span, right_span } => {
                assert_eq!(*left_span, sp(0));
                assert_eq!(inf.domains[*left as usize].name, "Fast");
                assert_eq!(*right_span, sp(2));
                assert_eq!(inf.domains[*right as usize].name, "Slow");
            }
            other => panic!("{:?}", other),
        }
    });
}

#[test]
fn unresolved_variable_is_bound_by_join() {
    with_inferencer(|inf| {
        let v = inf.fresh_var();
        assert_eq!(inf.join(v, Explicit(1), sp(0), sp(2)), Explicit(1));
        assert_eq!(inf.resolve_dom(v), Explicit(1));
        assert_eq!(inf.join(v, Explicit(0), sp(0), sp(2)), Error);
        assert_eq!(inf.diagnostics.len(), 1);
    });
}

#[test]
fn timeless_does_not_bind_a_variable() {
    with_inferencer(|inf| {
        let v = inf.fresh_var();
        assert_eq!(inf.join(Timeless, v, sp(0), sp(2)), v);
        assert_eq!(inf.resolve_dom(v), v);
    });
}

#[test]
fn variable_is_never_bound_to_itself() {
    with_inferencer(|inf| {
        let v = inf.fresh_var();
        inf.bind_if_var(v, v);
        assert_eq!(inf.join(v, v, sp(0), sp(2)), v);
        assert_eq!(inf.resolve_dom(v), v);
    });
}

#[test]
fn resolve_dom_follows_binding_chains() {
    with_inferencer(|inf| {
        let (a, b) = (inf.fresh_var(), inf.fresh_var());
        inf.bind_if_var(a, b);
        inf.bind_if_var(b, Explicit(0));
        assert_eq!(inf.resolve_dom(a), Explicit(0));
    });
}

#[test]
fn display_names_every_kind_of_domain() {
    with_inferencer(|inf| {
        assert_eq!(inf.display(Explicit(1)), "@Slow");
        let timeless = inf.display(Timeless);
        let error = inf.display(Error);
        let var = inf.fresh_var();
        let unresolved = inf.display(var);
        assert!(!timeless.starts_with('@') && !timeless.is_empty());
        assert_ne!(timeless, error);
        assert_ne!(error, unresolved);
    });
}

#[test]
fn display_follows_variable_bindings() {
    with_inferencer(|inf| {
        let v = inf.fresh_var();
        inf.bind_if_var(v, Explicit(0));
        assert_eq!(inf.display(v), "@Fast");
    });
}

#[test]
fn domain_declaration_fields_are_collected() {
    let mut inp = two_domains();
    inp.domain_decls.clear();
    inp.defs.clear();
    decl(
        &mut inp,
        "D",
        vec![
            DomainField::Clock(ClockEdge::Negedge),
            DomainField::Reset(ResetSpec { sync: ResetSync::Async, polarity: ResetPolarity::ActiveLow }),
            DomainField::Trust { level: TrustLevel(3), span: sp(50) },
        ],
    );
    let mut inf = Inferencer::new(&inp);
    inf.collect_domain_decls(&inp);
    let d = &inf.domains[0];
    assert_eq!(d.name, "D");
    assert_eq!(d.clock.edge, ClockEdge::Negedge);
    assert_eq!(d.reset.sync, ResetSync::Async);
    assert_eq!(d.reset.polarity, ResetPolarity::ActiveLow);
    assert_eq!(d.trust, Some(TrustLevel(3)));
    assert!(d.trust_span.is_some());
    assert_eq!(d.source, DomainSource::Decl(DefId(0)));
}

#[test]
fn exhausted_chain_stops_after_the_step_limit() {
    with_inferencer(|inf| {
        // A cycle of two variables resolves to one of them, without looping.
        let (a, b) = (inf.fresh_var(), inf.fresh_var());
        inf.bind_if_var(a, b);
        inf.vars[1] = Some(a);
        let r = inf.resolve_dom(a);
        assert!(r == a || r == b);
        assert_eq!(b, DomainId::Unresolved(InferVar(1)));
    });
}
