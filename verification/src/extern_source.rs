//! SystemVerilog sources of extern modules: the project a `@source` path
//! must stay inside.

use vstd::prelude::*;

use crate::ast::{AttrArg, Attribute, Expr, ExprKind, Span};
use crate::attrs::{ItemAttrs, ItemShape};
use crate::paths::{path_starts_with, starts_with_path};
use crate::text::{chars_of, eq_str};

verus! {

/// A resolved source file of an extern module.
#[derive(Clone, Debug, PartialEq, Eq)]
pub struct ExternSourceFile {
    pub module: String,
    /// The canonical path of the file.
    pub path: String,
}

/// The project root for `base`: the manifest's directory where `base`
/// lies under it, else `base` itself. Returns `(base, root)`; the caller
/// passes `base` canonicalized where it can be, and the directory of the
/// nearest manifest, if any.
pub fn project_root(base: String, manifest_root: Option<String>) -> (r: (String, String))
    ensures
        r.0@ == base@,
        match manifest_root {
            Some(m) => if path_starts_with(base@, m@) {
                r.1@ == m@
            } else {
                r.1@ == base@
            },
            None => r.1@ == base@,
        },
{
    match manifest_root {
        Some(m) => {
            let bc = chars_of(base.as_str());
            let mc = chars_of(m.as_str());
            if starts_with_path(&bc, &mc) {
                (base, m)
            } else {
                let b2 = base.clone();
                (base, b2)
            }
        },
        None => {
            let b2 = base.clone();
            (base, b2)
        },
    }
}

/// The attribute naming an extern module's SystemVerilog sources.
pub const SOURCE_ATTRIBUTE: &'static str = "source";

/// The SystemVerilog sources an extern module declares, as written.
#[derive(Clone, Debug)]
pub struct ExternSourceDecl {
    pub module: String,
    /// The extern's name (a source-less use points here).
    pub name_span: Span,
    /// (relative path, span of its string literal), in order.
    pub paths: Vec<(String, Span)>,
}

/// A misuse of `@source` (E0009).
#[derive(Clone, Copy, PartialEq, Eq, Debug, Structural)]
pub enum SourceAttrError {
    /// On an extern module, but not one or more string literals.
    BadArguments { span: Span },
    /// On anything but an extern module.
    Misplaced { span: Span },
}

impl SourceAttrError {
    /// The diagnostic code.
    pub fn code(&self) -> (r: &'static str)
        ensures
            r@ == "E0009"@,
    {
        "E0009"
    }
}

/// The string literal an argument is, with its span.
pub open spec fn string_arg_spec(exprs: Seq<Expr>, arg: AttrArg) -> Option<(Seq<char>, Span)> {
    match arg {
        AttrArg::Positional(e) => if 0 <= e < exprs.len() {
            match exprs[e as int].kind {
                ExprKind::StringLit(s) => Some((s@, exprs[e as int].span)),
                _ => None,
            }
        } else {
            None
        },
        AttrArg::Named { .. } => None,
    }
}

/// The arguments are one or more string literals.
pub open spec fn all_strings(exprs: Seq<Expr>, a: Attribute) -> bool {
    a.args@.len() > 0 && forall|k: int| 0 <= k < a.args@.len() ==> string_arg_spec(exprs, #[trigger] a.args@[k]) is Some
}

/// The paths of `@source("a.sv", "b.sv")`, where every argument is a
/// string literal and there is at least one.
pub fn string_args(exprs: &Vec<Expr>, attr: &Attribute) -> (r: Option<Vec<(String, Span)>>)
    ensures
        r is Some == all_strings(exprs@, *attr),
        r matches Some(v) ==> v@.len() == attr.args@.len() && forall|k: int|
            0 <= k < v@.len() ==> string_arg_spec(exprs@, attr.args@[k]) == Some(((#[trigger] v@[k]).0@, v@[k].1)),
{
    if attr.args.len() == 0 {
        return None;
    }
    let mut out: Vec<(String, Span)> = Vec::new();
    let mut k: usize = 0;
    while k < attr.args.len()
        invariant
            k <= attr.args@.len(),
            out@.len() == k,
            forall|j: int| 0 <= j < k ==> string_arg_spec(exprs@, attr.args@[j]) == Some(((#[trigger] out@[j]).0@, out@[j].1)),
        decreases attr.args@.len() - k,
    {
        match &attr.args[k] {
            AttrArg::Positional(e) => {
                if *e < exprs.len() {
                    match &exprs[*e].kind {
                        ExprKind::StringLit(s) => {
                            out.push((s.clone(), exprs[*e].span));
                        },
                        _ => {
                            return None;
                        },
                    }
                } else {
                    return None;
                }
            },
            AttrArg::Named { .. } => {
                return None;
            },
        }
        k = k + 1;
    }
    assert forall|j: int| 0 <= j < attr.args@.len() implies string_arg_spec(exprs@, #[trigger] attr.args@[j]) is Some by {
        assert(string_arg_spec(exprs@, attr.args@[j]) == Some((out@[j].0@, out@[j].1)));
    }
    Some(out)
}

/// `a` is a `@source` attribute.
pub open spec fn is_source(a: Attribute) -> bool {
    a.name@ == SOURCE_ATTRIBUTE@
}

/// The errors of `@source` attributes among an item's own attributes.
pub open spec fn own_errors(exprs: Seq<Expr>, is_extern: bool, attrs: Seq<Attribute>) -> Seq<SourceAttrError>
    decreases attrs.len(),
{
    if attrs.len() == 0 {
        Seq::empty()
    } else {
        let a = attrs.last();
        own_errors(exprs, is_extern, attrs.drop_last()) + if !is_source(a) {
            Seq::empty()
        } else if !is_extern {
            seq![SourceAttrError::Misplaced { span: a.span }]
        } else if !all_strings(exprs, a) {
            seq![SourceAttrError::BadArguments { span: a.span }]
        } else {
            Seq::empty()
        }
    }
}

/// A `@source` on a member is misplaced wherever it stands.
pub open spec fn misplaced_in(attrs: Seq<Attribute>) -> Seq<SourceAttrError>
    decreases attrs.len(),
{
    if attrs.len() == 0 {
        Seq::empty()
    } else {
        misplaced_in(attrs.drop_last()) + if is_source(attrs.last()) {
            seq![SourceAttrError::Misplaced { span: attrs.last().span }]
        } else {
            Seq::empty()
        }
    }
}

/// The errors on the members' attributes, member by member.
pub open spec fn member_errors(members: Seq<Vec<Attribute>>) -> Seq<SourceAttrError>
    decreases members.len(),
{
    if members.len() == 0 {
        Seq::empty()
    } else {
        member_errors(members.drop_last()) + misplaced_in(members.last()@)
    }
}

/// The errors of one item: its own attributes, then its members'.
pub open spec fn item_errors(exprs: Seq<Expr>, item: ItemAttrs) -> Seq<SourceAttrError> {
    own_errors(exprs, item.shape == ItemShape::Extern, item.attrs@) + if item.shape == ItemShape::Other {
        Seq::empty()
    } else {
        member_errors(item.members@)
    }
}

/// The errors of all items, in item order.
pub open spec fn source_errors(exprs: Seq<Expr>, items: Seq<ItemAttrs>) -> Seq<SourceAttrError>
    decreases items.len(),
{
    if items.len() == 0 {
        Seq::empty()
    } else {
        source_errors(exprs, items.drop_last()) + item_errors(exprs, items.last())
    }
}

/// `@source` checks: only on an extern module, with one or more string
/// literals; the driver and the editor report the same.
pub fn check_source_attributes(exprs: &Vec<Expr>, items: &Vec<ItemAttrs>) -> (out: Vec<SourceAttrError>)
    ensures
        out@ == source_errors(exprs@, items@),
{
    let mut out: Vec<SourceAttrError> = Vec::new();
    let mut i: usize = 0;
    while i < items.len()
        invariant
            i <= items@.len(),
            out@ == source_errors(exprs@, items@.subrange(0, i as int)),
        decreases items@.len() - i,
    {
        let item = &items[i];
        let ghost before = out@;
        let is_extern = item.shape == ItemShape::Extern;
        let mut a: usize = 0;
        while a < item.attrs.len()
            invariant
                a <= item.attrs@.len(),
                is_extern == (item.shape == ItemShape::Extern),
                out@ == before + own_errors(exprs@, is_extern, item.attrs@.subrange(0, a as int)),
            decreases item.attrs@.len() - a,
        {
            let attr = &item.attrs[a];
            proof {
                assert(item.attrs@.subrange(0, a + 1).drop_last() =~= item.attrs@.subrange(0, a as int));
                reveal_strlit("source");
            }
            if eq_str(attr.name.as_str(), SOURCE_ATTRIBUTE) {
                if is_extern {
                    if string_args(exprs, attr).is_none() {
                        out.push(SourceAttrError::BadArguments { span: attr.span });
                    }
                } else {
                    out.push(SourceAttrError::Misplaced { span: attr.span });
                }
            }
            a = a + 1;
            proof {
                assert(out@ =~= before + own_errors(exprs@, is_extern, item.attrs@.subrange(0, a as int)));
            }
        }
        assert(item.attrs@.subrange(0, item.attrs@.len() as int) =~= item.attrs@);
        let ghost mid = out@;
        if item.shape != ItemShape::Other {
            let mut m: usize = 0;
            while m < item.members.len()
                invariant
                    m <= item.members@.len(),
                    out@ == mid + member_errors(item.members@.subrange(0, m as int)),
                decreases item.members@.len() - m,
            {
                let attrs = &item.members[m];
                let ghost inner = out@;
                let mut a: usize = 0;
                while a < attrs.len()
                    invariant
                        a <= attrs@.len(),
                        out@ == inner + misplaced_in(attrs@.subrange(0, a as int)),
                    decreases attrs@.len() - a,
                {
                    proof {
                        assert(attrs@.subrange(0, a + 1).drop_last() =~= attrs@.subrange(0, a as int));
                        reveal_strlit("source");
                    }
                    if eq_str(attrs[a].name.as_str(), SOURCE_ATTRIBUTE) {
                        out.push(SourceAttrError::Misplaced { span: attrs[a].span });
                    }
                    a = a + 1;
                    proof {
                        assert(out@ =~= inner + misplaced_in(attrs@.subrange(0, a as int)));
                    }
                }
                proof {
                    assert(attrs@.subrange(0, attrs@.len() as int) =~= attrs@);
                    assert(item.members@.subrange(0, m + 1).drop_last() =~= item.members@.subrange(0, m as int));
                }
                m = m + 1;
                proof {
                    assert(out@ =~= mid + member_errors(item.members@.subrange(0, m as int)));
                }
            }
            assert(item.members@.subrange(0, item.members@.len() as int) =~= item.members@);
        }
        proof {
            assert(items@.subrange(0, i + 1).drop_last() =~= items@.subrange(0, i as int));
        }
        i = i + 1;
        proof {
            assert(out@ =~= source_errors(exprs@, items@.subrange(0, i as int)));
        }
    }
    assert(items@.subrange(0, items@.len() as int) =~= items@);
    out
}

/// A declaration as plain values: module name, name span, paths.
pub open spec fn decl_view(d: ExternSourceDecl) -> (Seq<char>, Span, Seq<(Seq<char>, Span)>) {
    (d.module@, d.name_span, d.paths@.map_values(|p: (String, Span)| (p.0@, p.1)))
}

/// The paths of a well-formed `@source` attribute; nothing from another.
pub open spec fn attr_paths(exprs: Seq<Expr>, a: Attribute) -> Seq<(Seq<char>, Span)> {
    if is_source(a) && all_strings(exprs, a) {
        Seq::new(a.args@.len(), |k: int| string_arg_spec(exprs, a.args@[k]).unwrap())
    } else {
        Seq::empty()
    }
}

/// The paths of all well-formed `@source` attributes, in order.
pub open spec fn source_paths(exprs: Seq<Expr>, attrs: Seq<Attribute>) -> Seq<(Seq<char>, Span)>
    decreases attrs.len(),
{
    if attrs.len() == 0 {
        Seq::empty()
    } else {
        source_paths(exprs, attrs.drop_last()) + attr_paths(exprs, attrs.last())
    }
}

/// One declaration per extern module, in item order.
pub open spec fn decls_spec(exprs: Seq<Expr>, items: Seq<ItemAttrs>) -> Seq<(Seq<char>, Span, Seq<(Seq<char>, Span)>)>
    decreases items.len(),
{
    if items.len() == 0 {
        Seq::empty()
    } else {
        let it = items.last();
        decls_spec(exprs, items.drop_last()) + if it.shape == ItemShape::Extern {
            seq![(it.name@, it.name_span, source_paths(exprs, it.attrs@))]
        } else {
            Seq::empty()
        }
    }
}

/// Every extern module with the paths of its well-formed `@source`
/// attributes (malformed ones already had their E0009), in item order.
pub fn extern_source_decls(exprs: &Vec<Expr>, items: &Vec<ItemAttrs>) -> (out: Vec<ExternSourceDecl>)
    ensures
        out@.map_values(|d: ExternSourceDecl| decl_view(d)) == decls_spec(exprs@, items@),
{
    let mut out: Vec<ExternSourceDecl> = Vec::new();
    let mut i: usize = 0;
    while i < items.len()
        invariant
            i <= items@.len(),
            out@.map_values(|d: ExternSourceDecl| decl_view(d)) == decls_spec(exprs@, items@.subrange(0, i as int)),
        decreases items@.len() - i,
    {
        let item = &items[i];
        proof {
            assert(items@.subrange(0, i + 1).drop_last() =~= items@.subrange(0, i as int));
        }
        if item.shape == ItemShape::Extern {
            let mut paths: Vec<(String, Span)> = Vec::new();
            let mut a: usize = 0;
            while a < item.attrs.len()
                invariant
                    a <= item.attrs@.len(),
                    paths@.map_values(|p: (String, Span)| (p.0@, p.1)) == source_paths(
                        exprs@,
                        item.attrs@.subrange(0, a as int),
                    ),
                decreases item.attrs@.len() - a,
            {
                let attr = &item.attrs[a];
                let ghost p0 = paths@.map_values(|p: (String, Span)| (p.0@, p.1));
                proof {
                    assert(item.attrs@.subrange(0, a + 1).drop_last() =~= item.attrs@.subrange(0, a as int));
                    reveal_strlit("source");
                }
                if eq_str(attr.name.as_str(), SOURCE_ATTRIBUTE) {
                    match string_args(exprs, attr) {
                        Some(v) => {
                            let mut j: usize = 0;
                            while j < v.len()
                                invariant
                                    j <= v@.len(),
                                    v@.len() == attr.args@.len(),
                                    forall|k: int|
                                        0 <= k < v@.len() ==> string_arg_spec(exprs@, attr.args@[k]) == Some(
                                            ((#[trigger] v@[k]).0@, v@[k].1),
                                        ),
                                    paths@.map_values(|p: (String, Span)| (p.0@, p.1)) == p0 + Seq::new(
                                        j as nat,
                                        |k: int| string_arg_spec(exprs@, attr.args@[k]).unwrap(),
                                    ),
                                decreases v@.len() - j,
                            {
                                let s = v[j].0.clone();
                                let ghost q0 = paths@;
                                proof {
                                    assert(string_arg_spec(exprs@, attr.args@[j as int]) == Some((v@[j as int].0@, v@[j as int].1)));
                                }
                                paths.push((s, v[j].1));
                                proof {
                                    assert(paths@ =~= q0.push((s, v@[j as int].1)));
                                    assert(q0.push((s, v@[j as int].1)).map_values(|p: (String, Span)| (p.0@, p.1)) =~= q0.map_values(|p: (String, Span)| (p.0@, p.1)).push((s@, v@[j as int].1)));
                                }
                                j = j + 1;
                                proof {
                                    assert(paths@.map_values(|p: (String, Span)| (p.0@, p.1)) =~= p0 + Seq::new(
                                        j as nat,
                                        |k: int| string_arg_spec(exprs@, attr.args@[k]).unwrap(),
                                    ));
                                }
                            }
                        },
                        None => {},
                    }
                }
                a = a + 1;
                proof {
                    assert(paths@.map_values(|p: (String, Span)| (p.0@, p.1)) =~= source_paths(
                        exprs@,
                        item.attrs@.subrange(0, a as int),
                    ));
                }
            }
            assert(item.attrs@.subrange(0, item.attrs@.len() as int) =~= item.attrs@);
            let d = ExternSourceDecl { module: item.name.clone(), name_span: item.name_span, paths };
            out.push(d);
        }
        i = i + 1;
        proof {
            assert(out@.map_values(|d: ExternSourceDecl| decl_view(d)) =~= decls_spec(
                exprs@,
                items@.subrange(0, i as int),
            ));
        }
    }
    assert(items@.subrange(0, items@.len() as int) =~= items@);
    out
}


/// Some module of `items` instantiates `name`.
pub open spec fn instantiated(items: Seq<ItemAttrs>, name: Seq<char>) -> bool {
    exists|i: int, k: int|
        0 <= i < items.len() && items[i].shape == ItemShape::Module && 0 <= k < items[i].instances@.len()
            && (#[trigger] items[i].instances@[k])@ == name
}

fn is_instantiated(items: &Vec<ItemAttrs>, name: &str) -> (r: bool)
    ensures
        r == instantiated(items@, name@),
{
    let mut i: usize = 0;
    while i < items.len()
        invariant
            i <= items@.len(),
            forall|a: int, k: int|
                0 <= a < i && items@[a].shape == ItemShape::Module && 0 <= k < items@[a].instances@.len()
                    ==> (#[trigger] items@[a].instances@[k])@ != name@,
        decreases items@.len() - i,
    {
        if items[i].shape == ItemShape::Module {
            let insts = &items[i].instances;
            let mut k: usize = 0;
            while k < insts.len()
                invariant
                    k <= insts@.len(),
                    i < items@.len(),
                    *insts == items@[i as int].instances,
                    items@[i as int].shape == ItemShape::Module,
                    forall|j: int| 0 <= j < k ==> (#[trigger] insts@[j])@ != name@,
                decreases insts@.len() - k,
            {
                if eq_str(insts[k].as_str(), name) {
                    assert(items@[i as int].instances@[k as int]@ == name@);
                    return true;
                }
                k = k + 1;
            }
        }
        i = i + 1;
    }
    false
}

/// The extern names of `decls` that some module instantiates, in order.
pub open spec fn used_names(items: Seq<ItemAttrs>, decls: Seq<(Seq<char>, Span, Seq<(Seq<char>, Span)>)>) -> Seq<Seq<char>>
    decreases decls.len(),
{
    if decls.len() == 0 {
        Seq::empty()
    } else {
        used_names(items, decls.drop_last()) + if instantiated(items, decls.last().0) {
            seq![decls.last().0]
        } else {
            Seq::empty()
        }
    }
}

/// The extern modules that module bodies instantiate, in declaration
/// order.
pub fn instantiated_externs(exprs: &Vec<Expr>, items: &Vec<ItemAttrs>) -> (out: Vec<String>)
    ensures
        out@.map_values(|s: String| s@) == used_names(items@, decls_spec(exprs@, items@)),
{
    let decls = extern_source_decls(exprs, items);
    let ghost dv = decls@.map_values(|d: ExternSourceDecl| decl_view(d));
    let mut out: Vec<String> = Vec::new();
    let mut k: usize = 0;
    while k < decls.len()
        invariant
            k <= decls@.len(),
            dv == decls@.map_values(|d: ExternSourceDecl| decl_view(d)),
            out@.map_values(|s: String| s@) == used_names(items@, dv.subrange(0, k as int)),
        decreases decls@.len() - k,
    {
        proof {
            assert(dv.subrange(0, k + 1).drop_last() =~= dv.subrange(0, k as int));
            assert(dv[k as int].0 == decls@[k as int].module@);
        }
        if is_instantiated(items, decls[k].module.as_str()) {
            out.push(decls[k].module.clone());
        }
        k = k + 1;
        proof {
            assert(out@.map_values(|s: String| s@) =~= used_names(items@, dv.subrange(0, k as int)));
        }
    }
    assert(dv.subrange(0, dv.len() as int) =~= dv);
    out
}

/// The name and name span of each declaration of `decls` without paths
/// whose module is instantiated, in order.
pub open spec fn missing_spec(items: Seq<ItemAttrs>, decls: Seq<(Seq<char>, Span, Seq<(Seq<char>, Span)>)>) -> Seq<(Seq<char>, Span)>
    decreases decls.len(),
{
    if decls.len() == 0 {
        Seq::empty()
    } else {
        let d = decls.last();
        missing_spec(items, decls.drop_last()) + if d.2.len() == 0 && instantiated(items, d.0) {
            seq![(d.0, d.1)]
        } else {
            Seq::empty()
        }
    }
}

/// E1012: extern module `module`, declared at `name_span`, is
/// instantiated but has no SystemVerilog source, which `volt <command>`
/// needs.
#[derive(Clone, Debug, PartialEq, Eq)]
pub struct MissingSource {
    pub module: String,
    pub name_span: Span,
    pub command: String,
}

impl MissingSource {
    /// The diagnostic code.
    pub fn code(&self) -> (r: &'static str)
        ensures
            r@ == "E1012"@,
    {
        "E1012"
    }
}

/// For `run`, `test` and `verify` (E1012): the instantiated extern
/// modules without a `@source`; the simulator and the solver need their
/// bodies. `command` is the command that needs them.
pub fn missing_sources(exprs: &Vec<Expr>, items: &Vec<ItemAttrs>, command: &str) -> (out: Vec<MissingSource>)
    ensures
        out@.map_values(|d: MissingSource| (d.module@, d.name_span)) == missing_spec(
            items@,
            decls_spec(exprs@, items@),
        ),
        forall|k: int| 0 <= k < out@.len() ==> (#[trigger] out@[k]).command@ == command@,
{
    let decls = extern_source_decls(exprs, items);
    let ghost dv = decls@.map_values(|d: ExternSourceDecl| decl_view(d));
    let mut out: Vec<MissingSource> = Vec::new();
    let mut k: usize = 0;
    while k < decls.len()
        invariant
            k <= decls@.len(),
            dv == decls@.map_values(|d: ExternSourceDecl| decl_view(d)),
            out@.map_values(|d: MissingSource| (d.module@, d.name_span)) == missing_spec(
                items@,
                dv.subrange(0, k as int),
            ),
            forall|j: int| 0 <= j < out@.len() ==> (#[trigger] out@[j]).command@ == command@,
        decreases decls@.len() - k,
    {
        proof {
            assert(dv.subrange(0, k + 1).drop_last() =~= dv.subrange(0, k as int));
            assert(dv[k as int] == decl_view(decls@[k as int]));
        }
        if decls[k].paths.len() == 0 && is_instantiated(items, decls[k].module.as_str()) {
            let d = MissingSource {
                module: decls[k].module.clone(),
                name_span: decls[k].name_span,
                command: crate::text::string_of(chars_of(command).as_slice()),
            };
            out.push(d);
        }
        k = k + 1;
        proof {
            assert(out@.map_values(|d: MissingSource| (d.module@, d.name_span)) =~= missing_spec(
                items@,
                dv.subrange(0, k as int),
            ));
        }
    }
    assert(dv.subrange(0, dv.len() as int) =~= dv);
    out
}

/// Why a `@source` path could not be resolved.
#[derive(Clone, Debug, PartialEq, Eq)]
pub enum LocateError {
    /// The path leaves the project directory.
    OutsideProject,
    /// No such file; the reason as the file system gave it.
    NotFound(String),
}

impl LocateError {
    /// An equal value.
    pub fn copy(&self) -> (r: LocateError)
        ensures
            r == *self,
    {
        match self {
            LocateError::OutsideProject => LocateError::OutsideProject,
            LocateError::NotFound(s) => LocateError::NotFound(s.clone()),
        }
    }
}

/// Resolves a `@source` path against the file system, relative to the
/// directory of the file that holds the attribute (`file`).
pub trait SourceLocator {
    fn locate(&self, file: u32, rel_path: &str) -> Result<String, LocateError>;
}

/// E1012 — a `@source` path of extern module `module` that could not be
/// resolved, at the span of its string literal.
#[derive(Clone, Debug, PartialEq, Eq)]
pub struct SourceError {
    pub module: String,
    pub rel: String,
    pub span: Span,
    pub error: LocateError,
}

impl SourceError {
    /// The diagnostic code.
    pub fn code(&self) -> (r: &'static str)
        ensures
            r@ == "E1012"@,
    {
        "E1012"
    }
}

/// One path to resolve: the extern module, the path as written, and the
/// span of its literal.
pub type SourceRequest = (String, String, Span);

/// The paths of `decls`, declaration by declaration, each with its module.
pub open spec fn requests_spec(decls: Seq<(Seq<char>, Span, Seq<(Seq<char>, Span)>)>) -> Seq<(Seq<char>, Seq<char>, Span)>
    decreases decls.len(),
{
    if decls.len() == 0 {
        Seq::empty()
    } else {
        let d = decls.last();
        requests_spec(decls.drop_last()) + d.2.map_values(|p: (Seq<char>, Span)| (d.0, p.0, p.1))
    }
}

pub open spec fn request_view(q: SourceRequest) -> (Seq<char>, Seq<char>, Span) {
    (q.0@, q.1@, q.2)
}

/// Every `@source` path of every extern module, in order.
pub fn source_requests(exprs: &Vec<Expr>, items: &Vec<ItemAttrs>) -> (r: Vec<SourceRequest>)
    ensures
        r@.map_values(|q: SourceRequest| request_view(q)) == requests_spec(decls_spec(exprs@, items@)),
{
    let decls = extern_source_decls(exprs, items);
    let ghost dv = decls@.map_values(|d: ExternSourceDecl| decl_view(d));
    let mut out: Vec<SourceRequest> = Vec::new();
    let mut k: usize = 0;
    while k < decls.len()
        invariant
            k <= decls@.len(),
            dv == decls@.map_values(|d: ExternSourceDecl| decl_view(d)),
            out@.map_values(|q: SourceRequest| request_view(q)) == requests_spec(dv.subrange(0, k as int)),
        decreases decls@.len() - k,
    {
        proof {
            assert(dv.subrange(0, k + 1).drop_last() =~= dv.subrange(0, k as int));
        }
        let d = &decls[k];
        let ghost o0 = out@.map_values(|q: SourceRequest| request_view(q));
        let ghost pv = d.paths@.map_values(|p: (String, Span)| (p.0@, p.1));
        assert(dv[k as int] == decl_view(*d));
        let mut j: usize = 0;
        while j < d.paths.len()
            invariant
                j <= d.paths@.len(),
                pv == d.paths@.map_values(|p: (String, Span)| (p.0@, p.1)),
                out@.map_values(|q: SourceRequest| request_view(q)) == o0 + pv.subrange(0, j as int).map_values(
                    |p: (Seq<char>, Span)| (d.module@, p.0, p.1),
                ),
            decreases d.paths@.len() - j,
        {
            let ghost o1 = out@;
            let q = (d.module.clone(), d.paths[j].0.clone(), d.paths[j].1);
            out.push(q);
            proof {
                assert(out@ == o1.push(q));
                assert(out@.map_values(|q: SourceRequest| request_view(q)) =~= o1.map_values(
                    |q: SourceRequest| request_view(q),
                ).push(request_view(q)));
                assert(pv[j as int] == (d.paths@[j as int].0@, d.paths@[j as int].1));
                assert(pv.subrange(0, j + 1).map_values(|p: (Seq<char>, Span)| (d.module@, p.0, p.1)) =~= pv.subrange(
                    0,
                    j as int,
                ).map_values(|p: (Seq<char>, Span)| (d.module@, p.0, p.1)).push((d.module@, pv[j as int].0, pv[j as int].1)));
            }
            j = j + 1;
            proof {
                assert(out@.map_values(|q: SourceRequest| request_view(q)) =~= o0 + pv.subrange(0, j as int).map_values(
                    |p: (Seq<char>, Span)| (d.module@, p.0, p.1),
                ));
            }
        }
        assert(pv.subrange(0, pv.len() as int) =~= pv);
        k = k + 1;
        proof {
            assert(out@.map_values(|q: SourceRequest| request_view(q)) =~= requests_spec(dv.subrange(0, k as int)));
        }
    }
    assert(dv.subrange(0, dv.len() as int) =~= dv);
    out
}

/// The files and errors from resolving each request with its result:
/// a located file is kept the first time its path comes, a failure is
/// an error naming the module and the path.
pub open spec fn collect_spec(
    requests: Seq<SourceRequest>,
    results: Seq<Result<String, LocateError>>,
) -> (Seq<(Seq<char>, Seq<char>)>, Seq<(Seq<char>, Seq<char>, Span, LocateError)>)
    decreases requests.len(),
{
    if requests.len() == 0 || results.len() != requests.len() {
        (Seq::empty(), Seq::empty())
    } else {
        let (files, errors) = collect_spec(requests.drop_last(), results.drop_last());
        let q = requests.last();
        match results.last() {
            Ok(path) => if exists|i: int| 0 <= i < files.len() && files[i].1 == path@ {
                (files, errors)
            } else {
                (files.push((q.0@, path@)), errors)
            },
            Err(e) => (files, errors.push((q.0@, q.1@, q.2, e))),
        }
    }
}

/// The files and errors for `requests` given each one's location result.
pub fn collect_extern_sources(requests: &Vec<SourceRequest>, results: &Vec<Result<String, LocateError>>) -> (r: (
    Vec<ExternSourceFile>,
    Vec<SourceError>,
))
    requires
        requests@.len() == results@.len(),
    ensures
        r.0@.map_values(|f: ExternSourceFile| (f.module@, f.path@)) == collect_spec(requests@, results@).0,
        r.1@.map_values(|e: SourceError| (e.module@, e.rel@, e.span, e.error)) == collect_spec(requests@, results@).1,
{
    let mut files: Vec<ExternSourceFile> = Vec::new();
    let mut errors: Vec<SourceError> = Vec::new();
    let mut k: usize = 0;
    while k < requests.len()
        invariant
            requests@.len() == results@.len(),
            k <= requests@.len(),
            files@.map_values(|f: ExternSourceFile| (f.module@, f.path@)) == collect_spec(
                requests@.subrange(0, k as int),
                results@.subrange(0, k as int),
            ).0,
            errors@.map_values(|e: SourceError| (e.module@, e.rel@, e.span, e.error)) == collect_spec(
                requests@.subrange(0, k as int),
                results@.subrange(0, k as int),
            ).1,
        decreases requests@.len() - k,
    {
        proof {
            assert(requests@.subrange(0, k + 1).drop_last() =~= requests@.subrange(0, k as int));
            assert(results@.subrange(0, k + 1).drop_last() =~= results@.subrange(0, k as int));
        }
        let ghost fv = files@.map_values(|f: ExternSourceFile| (f.module@, f.path@));
        match &results[k] {
            Ok(path) => {
                let mut seen = false;
                let mut i: usize = 0;
                while i < files.len()
                    invariant
                        i <= files@.len(),
                        fv == files@.map_values(|f: ExternSourceFile| (f.module@, f.path@)),
                        seen == exists|j: int| 0 <= j < i && fv[j].1 == path@,
                    decreases files@.len() - i,
                {
                    assert(fv[i as int] == (files@[i as int].module@, files@[i as int].path@));
                    if crate::text::eq_str(files[i].path.as_str(), path.as_str()) {
                        seen = true;
                    }
                    i = i + 1;
                }
                if !seen {
                    files.push(ExternSourceFile { module: requests[k].0.clone(), path: path.clone() });
                }
            },
            Err(e) => {
                errors.push(
                    SourceError {
                        module: requests[k].0.clone(),
                        rel: requests[k].1.clone(),
                        span: requests[k].2,
                        error: e.copy(),
                    },
                );
            },
        }
        k = k + 1;
        proof {
            assert(files@.map_values(|f: ExternSourceFile| (f.module@, f.path@)) =~= collect_spec(
                requests@.subrange(0, k as int),
                results@.subrange(0, k as int),
            ).0);
            assert(errors@.map_values(|e: SourceError| (e.module@, e.rel@, e.span, e.error)) =~= collect_spec(
                requests@.subrange(0, k as int),
                results@.subrange(0, k as int),
            ).1);
        }
    }
    assert(requests@.subrange(0, requests@.len() as int) =~= requests@);
    assert(results@.subrange(0, results@.len() as int) =~= results@);
    (files, errors)
}

/// Resolves every `@source` path with `locator`; a path that leaves the
/// project or names no file is E1012, and paths that name the same file
/// give it once (first occurrence). Each request is handed to the
/// locator with the file of its literal.
pub fn resolve_extern_sources<L: SourceLocator>(exprs: &Vec<Expr>, items: &Vec<ItemAttrs>, locator: &L) -> (r: (
    Vec<ExternSourceFile>,
    Vec<SourceError>,
))
    ensures
        exists|results: Seq<Result<String, LocateError>>, requests: Seq<SourceRequest>|
            requests.map_values(|q: SourceRequest| request_view(q)) == requests_spec(decls_spec(exprs@, items@))
                && results.len() == requests.len() && r.0@.map_values(|f: ExternSourceFile| (f.module@, f.path@))
                == collect_spec(requests, results).0 && r.1@.map_values(
                |e: SourceError| (e.module@, e.rel@, e.span, e.error),
            ) == collect_spec(requests, results).1,
{
    let requests = source_requests(exprs, items);
    let mut results: Vec<Result<String, LocateError>> = Vec::new();
    let mut k: usize = 0;
    while k < requests.len()
        invariant
            k <= requests@.len(),
            results@.len() == k,
        decreases requests@.len() - k,
    {
        results.push(locator.locate(requests[k].2.file, requests[k].1.as_str()));
        k = k + 1;
    }
    collect_extern_sources(&requests, &results)
}

} // verus!
