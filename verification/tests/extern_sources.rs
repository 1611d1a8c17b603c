use volt_hir::ast::{AttrArg, Attribute, Expr, ExprKind, Span};
use volt_hir::attrs::{ItemAttrs, ItemShape};
use volt_hir::extern_source::{
    check_source_attributes, collect_extern_sources, extern_source_decls, instantiated_externs, missing_sources,
    resolve_extern_sources, source_requests, string_args, LocateError, SourceAttrError, SourceLocator,
};
use volt_hir::resolve::walk::synthetic_span;

fn sp(n: u32) -> Span {
    Span { file: 0, start: n * 10, end: n * 10 + 5 }
}

fn string(s: &str, span: u32) -> Expr {
    Expr { kind: ExprKind::StringLit(s.to_string()), span: sp(span) }
}

fn attr(name: &str, args: Vec<AttrArg>, span: u32) -> Attribute {
    Attribute { name: name.to_string(), name_span: sp(span), span: sp(span + 1), args }
}

fn item(shape: ItemShape, name: &str, attrs: Vec<Attribute>, members: Vec<Vec<Attribute>>, instances: &[&str]) -> ItemAttrs {
    ItemAttrs {
        shape,
        name: name.to_string(),
        name_span: sp(500),
        attrs,
        members,
        instances: instances.iter().map(|s| s.to_string()).collect(),
    }
}

/// `extern module Foo { in clk : clock  in d : u8  out q : u8 }` with the
/// given item attributes.
fn ext(attrs: Vec<Attribute>) -> ItemAttrs {
    item(ItemShape::Extern, "Foo", attrs, vec![vec![], vec![], vec![]], &[])
}

#[test]
fn source_on_extern_with_string_args_is_clean() {
    let exprs = vec![string("rtl/foo.sv", 1), string("rtl/foo_pkg.sv", 2)];
    let items = vec![ext(vec![attr("source", vec![AttrArg::Positional(0), AttrArg::Positional(1)], 10)])];
    assert!(check_source_attributes(&exprs, &items).is_empty());
    let decls = extern_source_decls(&exprs, &items);
    assert_eq!(decls.len(), 1);
    let paths: Vec<&str> = decls[0].paths.iter().map(|(p, _)| p.as_str()).collect();
    assert_eq!(paths, ["rtl/foo.sv", "rtl/foo_pkg.sv"]);
}

#[test]
fn source_without_string_args_is_e0009() {
    // @source, @source(), @source(foo), @source(path = "x.sv")
    let exprs = vec![
        Expr { kind: ExprKind::Path { segments: vec!["foo".to_string()], def: None }, span: sp(1) },
        string("x.sv", 2),
    ];
    let forms = vec![
        vec![],
        vec![],
        vec![AttrArg::Positional(0)],
        vec![AttrArg::Named { name: "path".to_string(), name_span: sp(3), value: 1 }],
    ];
    for args in forms {
        let items = vec![ext(vec![attr("source", args.clone(), 10)])];
        let d = check_source_attributes(&exprs, &items);
        assert_eq!(d.len(), 1, "{args:?}: {d:?}");
        assert_eq!(d[0].code(), "E0009", "{args:?}");
        assert_eq!(d[0], SourceAttrError::BadArguments { span: sp(11) });
    }
}

#[test]
fn source_on_a_volt_module_is_e0009() {
    let exprs = vec![string("m.sv", 1)];
    let items = vec![item(
        ItemShape::Module,
        "M",
        vec![attr("source", vec![AttrArg::Positional(0)], 10)],
        vec![vec![], vec![], vec![]],
        &[],
    )];
    let d = check_source_attributes(&exprs, &items);
    assert_eq!(d.len(), 1);
    // "applies only to an 'extern module'"
    assert_eq!(d[0], SourceAttrError::Misplaced { span: sp(11) });
}

#[test]
fn source_on_a_port_or_statement_is_e0009() {
    let exprs = vec![string("p.sv", 1)];
    let on_port = attr("source", vec![AttrArg::Positional(0)], 10);
    let port = vec![item(ItemShape::Module, "M", vec![], vec![vec![on_port.clone()], vec![], vec![]], &[])];
    let d = check_source_attributes(&exprs, &port);
    assert_eq!(d.len(), 1, "{d:?}");
    assert_eq!(d[0].code(), "E0009");
    let ext_port = vec![item(ItemShape::Extern, "X", vec![], vec![vec![on_port]], &[])];
    assert_eq!(check_source_attributes(&exprs, &ext_port).len(), 1);
}

#[test]
fn missing_source_only_for_instantiated_externs() {
    let exprs = vec![string("foo.sv", 1)];
    let top = item(ItemShape::Module, "Top", vec![], vec![vec![], vec![], vec![], vec![]], &["Foo"]);
    let used = vec![ext(vec![]), top.clone()];
    let d = missing_sources(&exprs, &used, "test");
    assert_eq!(d.len(), 1);
    assert_eq!(d[0].code(), "E1012");
    assert_eq!(d[0].command, "test", "'volt test' needs the body");
    assert_eq!(d[0].module, "Foo");
    assert_eq!(d[0].name_span, sp(500));
    // An extern that is not instantiated needs no source.
    assert!(missing_sources(&exprs, &vec![ext(vec![])], "test").is_empty());
    // An instantiated extern with a source is fine.
    let with = vec![ext(vec![attr("source", vec![AttrArg::Positional(0)], 10)]), top];
    assert!(missing_sources(&exprs, &with, "verify").is_empty());
}

#[test]
fn synthetic_span_belongs_to_no_real_file() {
    assert_eq!(synthetic_span().file, u32::MAX);
}

#[test]
fn string_args_keep_order_and_reject_mixed_arguments() {
    let exprs = vec![string("a.sv", 1), Expr { kind: ExprKind::IntLit(3), span: sp(2) }, string("b.sv", 3)];
    let ok = attr("source", vec![AttrArg::Positional(2), AttrArg::Positional(0)], 10);
    assert_eq!(string_args(&exprs, &ok), Some(vec![("b.sv".to_string(), sp(3)), ("a.sv".to_string(), sp(1))]));
    let mixed = attr("source", vec![AttrArg::Positional(0), AttrArg::Positional(1)], 10);
    assert_eq!(string_args(&exprs, &mixed), None);
    assert_eq!(string_args(&exprs, &attr("source", vec![], 10)), None);
}

#[test]
fn malformed_sources_contribute_no_paths_and_members_are_checked() {
    let exprs = vec![string("a.sv", 1), Expr { kind: ExprKind::IntLit(3), span: sp(2) }, string("b.sv", 3)];
    let items = vec![
        ext(vec![
            attr("source", vec![AttrArg::Positional(0)], 10),
            attr("source", vec![AttrArg::Positional(1)], 20),
            attr("source", vec![AttrArg::Positional(2)], 30),
        ]),
        item(ItemShape::Struct, "S", vec![], vec![vec![attr("source", vec![AttrArg::Positional(0)], 40)]], &[]),
        // Other items' members are not looked at.
        item(ItemShape::Other, "C", vec![], vec![vec![attr("source", vec![AttrArg::Positional(0)], 50)]], &[]),
    ];
    assert_eq!(
        check_source_attributes(&exprs, &items),
        vec![SourceAttrError::BadArguments { span: sp(21) }, SourceAttrError::Misplaced { span: sp(41) }]
    );
    let decls = extern_source_decls(&exprs, &items);
    assert_eq!(decls.len(), 1);
    assert_eq!(decls[0].paths, vec![("a.sv".to_string(), sp(1)), ("b.sv".to_string(), sp(3))]);
}

#[test]
fn instantiated_externs_in_declaration_order_once_each() {
    let exprs: Vec<Expr> = vec![];
    let items = vec![
        item(ItemShape::Extern, "A", vec![], vec![], &[]),
        item(ItemShape::Extern, "B", vec![], vec![], &[]),
        item(ItemShape::Extern, "C", vec![], vec![], &[]),
        item(ItemShape::Module, "Top", vec![], vec![], &["C", "A", "C", "Other"]),
    ];
    assert_eq!(instantiated_externs(&exprs, &items), vec!["A".to_string(), "C".to_string()]);
}

/// Resolves `rtl/*` paths to `/p/rtl/*`, `../*` leaves the project, and
/// anything else is missing.
struct FakeLocator;

impl SourceLocator for FakeLocator {
    fn locate(&self, _file: u32, rel_path: &str) -> Result<String, LocateError> {
        if rel_path.starts_with("../") {
            Err(LocateError::OutsideProject)
        } else if let Some(rest) = rel_path.strip_prefix("rtl/") {
            Ok(format!("/p/rtl/{}", rest.trim_start_matches("./")))
        } else {
            Err(LocateError::NotFound("no such file".to_string()))
        }
    }
}

#[test]
fn sources_resolve_once_per_file_and_failures_are_e1012() {
    let exprs = vec![
        string("rtl/a.sv", 1),
        string("rtl/./a.sv", 2),
        string("../x.sv", 3),
        string("b.sv", 4),
        string("rtl/c.sv", 5),
    ];
    let items = vec![
        item(ItemShape::Extern, "A", vec![attr("source", vec![AttrArg::Positional(0), AttrArg::Positional(1)], 10)], vec![], &[]),
        item(ItemShape::Extern, "B", vec![attr("source", vec![AttrArg::Positional(2), AttrArg::Positional(3)], 20)], vec![], &[]),
        item(ItemShape::Extern, "C", vec![attr("source", vec![AttrArg::Positional(4)], 30)], vec![], &[]),
    ];
    let requests = source_requests(&exprs, &items);
    let rels: Vec<&str> = requests.iter().map(|q| q.1.as_str()).collect();
    assert_eq!(rels, ["rtl/a.sv", "rtl/./a.sv", "../x.sv", "b.sv", "rtl/c.sv"]);
    let (files, errors) = resolve_extern_sources(&exprs, &items, &FakeLocator);
    let got: Vec<(&str, &str)> = files.iter().map(|f| (f.module.as_str(), f.path.as_str())).collect();
    assert_eq!(got, [("A", "/p/rtl/a.sv"), ("C", "/p/rtl/c.sv")]);
    assert_eq!(errors.len(), 2);
    assert_eq!(errors[0].code(), "E1012");
    assert_eq!((errors[0].module.as_str(), errors[0].rel.as_str()), ("B", "../x.sv"));
    assert_eq!(errors[0].error, LocateError::OutsideProject);
    assert_eq!(errors[0].span, sp(3));
    assert!(matches!(&errors[1].error, LocateError::NotFound(_)));
}

#[test]
fn collected_sources_follow_the_results_in_order() {
    let q = |m: &str, rel: &str, at: u32| (m.to_string(), rel.to_string(), sp(at));
    let requests = vec![q("A", "a.sv", 1), q("B", "b.sv", 2), q("B", "a2.sv", 3)];
    let results = vec![Ok("/a.sv".to_string()), Err(LocateError::OutsideProject), Ok("/a.sv".to_string())];
    let (files, errors) = collect_extern_sources(&requests, &results);
    assert_eq!(files.len(), 1);
    assert_eq!(files[0].module, "A");
    assert_eq!(errors.len(), 1);
    assert_eq!(errors[0].rel, "b.sv");
}
