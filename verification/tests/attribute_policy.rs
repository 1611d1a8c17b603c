use volt_hir::ast::{AttrArg, Attribute, Expr, ExprKind, Span};
use volt_hir::attrs::{check_attributes, unenforced_attributes, unenforced_list, AttrDiag, ItemAttrs, ItemShape, UnenforcedLint};

fn sp(n: u32) -> Span {
    Span { file: 0, start: n * 10, end: n * 10 + 5 }
}

fn ident(name: &str, span: u32) -> Expr {
    Expr { kind: ExprKind::Path { segments: vec![name.to_string()], def: None }, span: sp(span) }
}

/// `@name(args)` starting at `at * 10`: the whole attribute is nine
/// characters long, its `@name` three.
fn attr(name: &str, args: Vec<AttrArg>, at: u32) -> Attribute {
    Attribute {
        name: name.to_string(),
        name_span: Span { file: 0, start: at * 10, end: at * 10 + 3 },
        span: whole(at),
        args,
    }
}

fn whole(at: u32) -> Span {
    Span { file: 0, start: at * 10, end: at * 10 + 9 }
}

/// Expression 0 is `unenforced`, expression 1 is `unenforcd`.
fn exprs() -> Vec<Expr> {
    vec![ident("unenforced", 1), ident("unenforcd", 2)]
}

fn allow() -> Attribute {
    attr("allow", vec![AttrArg::Positional(0)], 90)
}

fn module(attrs: Vec<Attribute>, members: Vec<Vec<Attribute>>) -> ItemAttrs {
    ItemAttrs { shape: ItemShape::Module, name: "M".to_string(), name_span: sp(99), attrs, members, instances: vec![] }
}

fn codes(d: &[AttrDiag]) -> Vec<&'static str> {
    d.iter().map(|x| x.code()).collect()
}

#[test]
fn unenforced_attribute_warns_under_the_name() {
    let items = vec![module(vec![attr("budget", vec![], 10)], vec![])];
    let d = check_attributes(&exprs(), &items, UnenforcedLint::Warn);
    assert_eq!(d.len(), 1);
    assert_eq!(d[0].code(), "W0021");
    match &d[0] {
        AttrDiag::Unenforced { name, span, attr_span } => {
            assert_eq!(name, "budget");
            // From the `@` to the end of the name, without the arguments.
            assert_eq!(*span, Span { file: 0, start: 100, end: 103 });
            assert_eq!(*attr_span, whole(10));
        },
        other => panic!("{other:?}"),
    }
}

#[test]
fn enforced_attributes_do_not_warn() {
    let items = vec![module(vec![attr("timing", vec![], 10), attr("false_path", vec![], 20)], vec![vec![attr("multicycle", vec![], 30)]])];
    assert!(check_attributes(&exprs(), &items, UnenforcedLint::Warn).is_empty());
}

#[test]
fn allow_on_the_item_silences_its_members() {
    let items = vec![module(vec![allow(), attr("dft", vec![], 10)], vec![vec![attr("debug_trace", vec![], 20)]])];
    assert!(check_attributes(&exprs(), &items, UnenforcedLint::Warn).is_empty());
}

#[test]
fn allow_on_a_member_silences_only_that_member() {
    let items = vec![module(
        vec![attr("version", vec![], 10)],
        vec![vec![allow(), attr("dft", vec![], 20)], vec![attr("debug_visible", vec![], 30)]],
    )];
    let d = check_attributes(&exprs(), &items, UnenforcedLint::Warn);
    let names: Vec<String> = d
        .iter()
        .map(|x| match x {
            AttrDiag::Unenforced { name, .. } => name.clone(),
            AttrDiag::InvalidAllow { .. } => "E0009".to_string(),
        })
        .collect();
    assert_eq!(names, ["version", "debug_visible"]);
}

#[test]
fn misspelled_allow_is_e0009_at_the_bad_argument_and_silences_nothing() {
    let bad = attr("allow", vec![AttrArg::Positional(1)], 80);
    let items = vec![module(vec![bad, attr("budget", vec![], 10)], vec![])];
    let d = check_attributes(&exprs(), &items, UnenforcedLint::Warn);
    assert_eq!(codes(&d), ["E0009", "W0021"]);
    assert!(matches!(d[0], AttrDiag::InvalidAllow { span } if span == sp(2)));
}

#[test]
fn allow_without_arguments_is_e0009_at_the_attribute() {
    let items = vec![module(vec![attr("allow", vec![], 80)], vec![])];
    let d = check_attributes(&exprs(), &items, UnenforcedLint::Warn);
    assert!(matches!(d[..], [AttrDiag::InvalidAllow { span }] if span == whole(80)));
    // A named argument is reported at its name.
    let named = attr("allow", vec![AttrArg::Named { name: "lint".to_string(), name_span: sp(70), value: 0 }], 80);
    let d = check_attributes(&exprs(), &vec![module(vec![named], vec![])], UnenforcedLint::Warn);
    assert!(matches!(d[..], [AttrDiag::InvalidAllow { span }] if span == sp(70)));
}

#[test]
fn allow_policy_silences_warnings_but_not_errors() {
    let bad = attr("allow", vec![AttrArg::Positional(1)], 80);
    let items = vec![module(vec![bad, attr("budget", vec![], 10)], vec![vec![attr("dft", vec![], 20)]])];
    let d = check_attributes(&exprs(), &items, UnenforcedLint::Allow);
    assert_eq!(codes(&d), ["E0009"]);
}

#[test]
fn one_warning_per_attribute_span() {
    // The same attribute reached twice (shared by two nodes) warns once.
    let shared = attr("budget", vec![], 10);
    let items = vec![module(vec![shared.clone()], vec![vec![shared]])];
    assert_eq!(codes(&check_attributes(&exprs(), &items, UnenforcedLint::Warn)), ["W0021"]);
}

#[test]
fn members_of_other_items_are_not_checked() {
    let other = ItemAttrs {
        shape: ItemShape::Other,
        name: "c".to_string(),
        name_span: sp(98),
        attrs: vec![],
        members: vec![vec![attr("budget", vec![], 10)]],
        instances: vec![],
    };
    assert!(check_attributes(&exprs(), &vec![other], UnenforcedLint::Warn).is_empty());
}

#[test]
fn unenforced_list_names_every_attribute_in_order() {
    assert_eq!(
        unenforced_list(),
        "@domain, @budget, @version, @abi_version, @dft, @debug_visible, @debug_trace, @synthesis_target"
    );
    assert_eq!(unenforced_attributes().len(), 8);
}
