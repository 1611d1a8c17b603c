//! The policy for attributes that the grammar accepts but no pass
//! interprets: each use warns, unless silenced by `@allow(unenforced)` on
//! the node or its item, or by `unenforced_attributes = "allow"` under
//! `[lint]` in `Volt.toml`.

use vstd::prelude::*;

use crate::ast::{AttrArg, Attribute, Expr, ExprKind, Span};
use crate::text::{
    chars_of, find_char, index_of, range_eq, strip_range, trim_quotes_spec, trim_spec,
};

verus! {

/// The `[lint] unenforced_attributes` policy of a manifest.
#[derive(Clone, Copy, PartialEq, Eq, Debug, Structural)]
pub enum UnenforcedLint {
    /// Every unenforced attribute warns (the default).
    Warn,
    /// No warning; invalid `@allow` arguments are still errors.
    Allow,
}

impl Default for UnenforcedLint {
    fn default() -> (r: Self)
        ensures
            r == UnenforcedLint::Warn,
    {
        UnenforcedLint::Warn
    }
}

/// The policy a value text names: surrounding whitespace, then quotes,
/// are ignored.
pub open spec fn parse_spec(s: Seq<char>) -> Option<UnenforcedLint> {
    let t = trim_quotes_spec(trim_spec(s));
    if t == "allow"@ {
        Some(UnenforcedLint::Allow)
    } else if t == "warn"@ {
        Some(UnenforcedLint::Warn)
    } else {
        None
    }
}

/// The policy a manifest text selects, scanning line by line; `in_lint`
/// says whether the current table is `[lint]`. The first
/// `unenforced_attributes` key of a `[lint]` table decides; an unknown
/// value, or no such key, is `Warn`.
pub open spec fn manifest_scan(text: Seq<char>, in_lint: bool) -> UnenforcedLint
    decreases text.len(),
{
    let e = index_of(text, '\n');
    let raw = text.subrange(0, e);
    let line = trim_spec(raw.subrange(0, index_of(raw, '#')));
    let more = 0 <= e < text.len();
    let q = index_of(line, '=');
    if line.len() > 0 && line[0] == '[' {
        if more {
            manifest_scan(text.subrange(e + 1, text.len() as int), line == "[lint]"@)
        } else {
            UnenforcedLint::Warn
        }
    } else if in_lint && q < line.len() && trim_spec(line.subrange(0, q))
        == "unenforced_attributes"@ {
        match parse_spec(line.subrange(q + 1, line.len() as int)) {
            Some(p) => p,
            None => UnenforcedLint::Warn,
        }
    } else if more {
        manifest_scan(text.subrange(e + 1, text.len() as int), in_lint)
    } else {
        UnenforcedLint::Warn
    }
}

/// The policy `s[lo..hi]` names.
fn parse_range(s: &Vec<char>, lo: usize, hi: usize) -> (r: Option<UnenforcedLint>)
    requires
        lo <= hi <= s@.len(),
    ensures
        r == parse_spec(s@.subrange(lo as int, hi as int)),
{
    let (a, b) = strip_range(s, lo, hi, false);
    let (c, d) = strip_range(s, a, b, true);
    if range_eq(s, c, d, "allow") {
        Some(UnenforcedLint::Allow)
    } else if range_eq(s, c, d, "warn") {
        Some(UnenforcedLint::Warn)
    } else {
        None
    }
}

impl UnenforcedLint {
    /// Reads `"allow"` or `"warn"` (quoted or not, whitespace around
    /// ignored); anything else is `None`.
    pub fn parse(s: &str) -> (r: Option<Self>)
        ensures
            r == parse_spec(s@),
    {
        let cs = chars_of(s);
        let r = parse_range(&cs, 0, cs.len());
        assert(cs@.subrange(0, cs@.len() as int) =~= s@);
        r
    }

    /// The `[lint] unenforced_attributes` policy of a `Volt.toml` text;
    /// `Warn` where it is missing or unknown, so a typo can only turn
    /// warnings on.
    pub fn from_manifest(text: &str) -> (r: Self)
        ensures
            r == manifest_scan(text@, false),
    {
        let cs = chars_of(text);
        let n = cs.len();
        let mut pos: usize = 0;
        let mut in_lint = false;
        assert(cs@.subrange(0, n as int) =~= cs@);
        loop
            invariant
                cs@ == text@,
                n == cs@.len(),
                pos <= n,
                manifest_scan(cs@.subrange(pos as int, n as int), in_lint) == manifest_scan(
                    text@,
                    false,
                ),
            decreases n - pos,
        {
            let ghost t = cs@.subrange(pos as int, n as int);
            let e = find_char(&cs, pos, n, '\n');
            let h = find_char(&cs, pos, e, '#');
            proof {
                let raw = t.subrange(0, e - pos);
                assert(raw =~= cs@.subrange(pos as int, e as int));
                assert(raw.subrange(0, h - pos) =~= cs@.subrange(pos as int, h as int));
                if e < n {
                    assert(t.subrange(e - pos + 1, t.len() as int) =~= cs@.subrange(
                        e + 1,
                        n as int,
                    ));
                }
            }
            let (a, b) = strip_range(&cs, pos, h, false);
            let ghost line = cs@.subrange(a as int, b as int);
            if a < b && cs[a] == '[' {
                if e < n {
                    in_lint = range_eq(&cs, a, b, "[lint]");
                    pos = e + 1;
                } else {
                    return UnenforcedLint::Warn;
                }
            } else {
                let q = find_char(&cs, a, b, '=');
                assert(index_of(line, '=') == q - a);
                let mut hit = false;
                if in_lint && q < b {
                    let (ka, kb) = strip_range(&cs, a, q, false);
                    assert(line.subrange(0, q - a) =~= cs@.subrange(a as int, q as int));
                    if range_eq(&cs, ka, kb, "unenforced_attributes") {
                        hit = true;
                    }
                }
                if hit {
                    assert(line.subrange(q - a + 1, line.len() as int) =~= cs@.subrange(
                        q + 1,
                        b as int,
                    ));
                    let p = parse_range(&cs, q + 1, b);
                    return match p {
                        Some(v) => v,
                        None => UnenforcedLint::Warn,
                    };
                }
                if e < n {
                    pos = e + 1;
                } else {
                    return UnenforcedLint::Warn;
                }
            }
        }
    }
}

/// The shape of an item, as far as attributes go.
#[derive(Clone, Copy, PartialEq, Eq, Debug, Structural)]
pub enum ItemShape {
    Module,
    Extern,
    Struct,
    Other,
}

/// An item with its attributes and the attributes of its members: the
/// ports then the body statements of a module, the ports of an extern
/// module, the fields of a struct.
#[derive(Clone, Debug)]
pub struct ItemAttrs {
    pub shape: ItemShape,
    pub name: String,
    pub name_span: Span,
    pub attrs: Vec<Attribute>,
    pub members: Vec<Vec<Attribute>>,
    /// For a module: the last path segment of each instance's target, in
    /// body order.
    pub instances: Vec<String>,
}

/// A finding of the attribute checks.
#[derive(Clone, Debug)]
pub enum AttrDiag {
    /// W0021: the attribute is parsed but no pass enforces it; `span`
    /// covers `@name` without the arguments, `attr_span` the whole
    /// attribute.
    Unenforced { name: String, span: Span, attr_span: Span },
    /// E0009: an `@allow` argument other than `unenforced`.
    InvalidAllow { span: Span },
}

impl AttrDiag {
    /// The diagnostic code.
    pub fn code(&self) -> (r: &'static str)
        ensures
            r@ == match self {
                AttrDiag::Unenforced { .. } => "W0021"@,
                AttrDiag::InvalidAllow { .. } => "E0009"@,
            },
    {
        match self {
            AttrDiag::Unenforced { .. } => "W0021",
            AttrDiag::InvalidAllow { .. } => "E0009",
        }
    }
}

/// The attributes the grammar accepts but no pass interprets, in grammar
/// order.
pub open spec fn unenforced_spec() -> Seq<Seq<char>> {
    seq![
        "domain"@,
        "budget"@,
        "version"@,
        "abi_version"@,
        "dft"@,
        "debug_visible"@,
        "debug_trace"@,
        "synthesis_target"@,
    ]
}

/// The unenforced attributes.
pub fn unenforced_attributes() -> (r: Vec<&'static str>)
    ensures
        r@.len() == unenforced_spec().len(),
        forall|i: int| 0 <= i < r@.len() ==> (#[trigger] r@[i])@ == unenforced_spec()[i],
{
    vec!["domain", "budget", "version", "abi_version", "dft", "debug_visible", "debug_trace", "synthesis_target"]
}

/// `name` is an unenforced attribute.
pub open spec fn is_unenforced(name: Seq<char>) -> bool {
    exists|i: int| 0 <= i < unenforced_spec().len() && unenforced_spec()[i] == name
}

fn unenforced_name(name: &str) -> (r: bool)
    ensures
        r == is_unenforced(name@),
{
    let list = unenforced_attributes();
    let mut k: usize = 0;
    while k < list.len()
        invariant
            list@.len() == unenforced_spec().len(),
            forall|i: int| 0 <= i < list@.len() ==> (#[trigger] list@[i])@ == unenforced_spec()[i],
            k <= list@.len(),
            forall|i: int| 0 <= i < k ==> unenforced_spec()[i] != name@,
        decreases list@.len() - k,
    {
        if crate::text::eq_str(list[k], name) {
            return true;
        }
        k = k + 1;
    }
    false
}

/// The names `@a, @b, ...` of the first `k` entries of `names`.
pub open spec fn joined(names: Seq<Seq<char>>, k: nat) -> Seq<char>
    decreases k,
{
    if k == 0 {
        Seq::empty()
    } else if k == 1 {
        seq!['@'] + names[0]
    } else {
        joined(names, (k - 1) as nat) + seq![',', ' ', '@'] + names[k - 1]
    }
}

/// `@domain, @budget, ...`: the unenforced attributes, as the W0021 note
/// lists them.
pub fn unenforced_list() -> (r: String)
    ensures
        r@ == joined(unenforced_spec(), unenforced_spec().len()),
{
    let list = unenforced_attributes();
    let mut v: Vec<char> = Vec::new();
    let mut k: usize = 0;
    while k < list.len()
        invariant
            list@.len() == unenforced_spec().len(),
            forall|i: int| 0 <= i < list@.len() ==> (#[trigger] list@[i])@ == unenforced_spec()[i],
            k <= list@.len(),
            v@ == joined(unenforced_spec(), k as nat),
        decreases list@.len() - k,
    {
        let ghost before = v@;
        if k > 0 {
            v.push(',');
            v.push(' ');
        }
        v.push('@');
        crate::text::extend_chars(&mut v, list[k]);
        proof {
            if k == 0 {
                assert(v@ =~= seq!['@'] + unenforced_spec()[0]);
            } else {
                assert(v@ =~= before + seq![',', ' ', '@'] + unenforced_spec()[k as int]);
            }
        }
        k = k + 1;
    }
    crate::text::string_of(&v)
}

/// The single identifier of a positional argument, if it is one.
pub open spec fn positional_ident(exprs: Seq<Expr>, arg: AttrArg) -> Option<Seq<char>> {
    match arg {
        AttrArg::Positional(e) => if 0 <= e < exprs.len() {
            crate::ast::single_name(exprs[e as int])
        } else {
            None
        },
        AttrArg::Named { .. } => None,
    }
}

/// `@allow(unenforced)`, exactly.
pub open spec fn is_allow_unenforced(exprs: Seq<Expr>, a: Attribute) -> bool {
    a.name@ == "allow"@ && a.args@.len() == 1 && positional_ident(exprs, a.args@[0]) == Some(
        "unenforced"@,
    )
}

/// Some attribute of `attrs` is `@allow(unenforced)`.
pub open spec fn allows(exprs: Seq<Expr>, attrs: Seq<Attribute>) -> bool {
    exists|k: int| 0 <= k < attrs.len() && is_allow_unenforced(exprs, #[trigger] attrs[k])
}

fn positional_is(exprs: &Vec<Expr>, arg: &AttrArg, word: &str) -> (r: bool)
    ensures
        r == (positional_ident(exprs@, *arg) == Some(word@)),
{
    match arg {
        AttrArg::Positional(e) => {
            if *e < exprs.len() {
                match crate::ast::path_name(exprs, *e) {
                    Some(n) => crate::text::eq_str(n.as_str(), word),
                    None => false,
                }
            } else {
                false
            }
        },
        AttrArg::Named { .. } => false,
    }
}

fn allow_unenforced(exprs: &Vec<Expr>, a: &Attribute) -> (r: bool)
    ensures
        r == is_allow_unenforced(exprs@, *a),
{
    crate::text::eq_str(a.name.as_str(), "allow") && a.args.len() == 1 && positional_is(
        exprs,
        &a.args[0],
        "unenforced",
    )
}

/// The attribute span of a W0021.
pub open spec fn unenforced_at(d: AttrDiag) -> Option<Span> {
    match d {
        AttrDiag::Unenforced { attr_span, .. } => Some(attr_span),
        _ => None,
    }
}

/// What the checks hold of their findings: a W0021 names an unenforced
/// attribute and is produced only under the `Warn` policy, and no two
/// W0021 share a span.
pub open spec fn findings_ok(diags: Seq<AttrDiag>, lint: UnenforcedLint) -> bool {
    &&& forall|i: int|
        0 <= i < diags.len() ==> ((#[trigger] diags[i]) matches AttrDiag::Unenforced { name, .. }
            ==> is_unenforced(name@) && lint == UnenforcedLint::Warn)
    &&& forall|i: int, j: int|
        0 <= i < j < diags.len() && unenforced_at(diags[i]) is Some ==> unenforced_at(diags[i])
            != unenforced_at(diags[j])
}

/// The W0021 spans reported so far.
pub open spec fn seen_ok(diags: Seq<AttrDiag>, seen: Seq<Span>) -> bool {
    forall|i: int|
        0 <= i < diags.len() ==> ((#[trigger] diags[i]) matches AttrDiag::Unenforced { attr_span, .. }
            ==> seen.contains(attr_span))
}

/// Where an argument of `@allow` is reported: a named argument at its
/// name, a positional one at its expression, else at `dflt`.
pub open spec fn arg_span(exprs: Seq<Expr>, arg: AttrArg, dflt: Span) -> Span {
    match arg {
        AttrArg::Named { name_span, .. } => name_span,
        AttrArg::Positional(e) => if 0 <= e < exprs.len() {
            exprs[e as int].span
        } else {
            dflt
        },
    }
}

/// The span of the first argument that is not `unenforced`; `dflt` where
/// there is none.
pub open spec fn first_bad_span(exprs: Seq<Expr>, args: Seq<AttrArg>, dflt: Span) -> Span
    decreases args.len(),
{
    if args.len() == 0 {
        dflt
    } else if positional_ident(exprs, args[0]) != Some("unenforced"@) {
        arg_span(exprs, args[0], dflt)
    } else {
        first_bad_span(exprs, args.drop_first(), dflt)
    }
}

/// The findings so far and the W0021 attribute spans already reported.
pub type AttrState = (Seq<AttrDiag>, Seq<Span>);

/// One attribute of a node: a malformed `@allow` is E0009; an unenforced
/// attribute that is not allowed warns under `Warn`, once per span.
pub open spec fn attr_step(exprs: Seq<Expr>, a: Attribute, allowed: bool, lint: UnenforcedLint, st: AttrState) -> AttrState {
    if a.name@ == "allow"@ {
        if is_allow_unenforced(exprs, a) {
            st
        } else {
            (st.0.push(AttrDiag::InvalidAllow { span: first_bad_span(exprs, a.args@, a.span) }), st.1)
        }
    } else if !allowed && lint == UnenforcedLint::Warn && is_unenforced(a.name@) && !st.1.contains(a.span) {
        (
            st.0.push(
                AttrDiag::Unenforced {
                    name: a.name,
                    span: Span { file: a.span.file, start: a.span.start, end: a.name_span.end },
                    attr_span: a.span,
                },
            ),
            st.1.push(a.span),
        )
    } else {
        st
    }
}

/// The attributes of one node, in order.
pub open spec fn node_fold(exprs: Seq<Expr>, attrs: Seq<Attribute>, allowed: bool, lint: UnenforcedLint, st: AttrState) -> AttrState
    decreases attrs.len(),
{
    if attrs.len() == 0 {
        st
    } else {
        attr_step(exprs, attrs.last(), allowed, lint, node_fold(exprs, attrs.drop_last(), allowed, lint, st))
    }
}

/// The member nodes of an item, each allowed by itself or by the item.
pub open spec fn members_fold(exprs: Seq<Expr>, members: Seq<Vec<Attribute>>, inherited: bool, lint: UnenforcedLint, st: AttrState) -> AttrState
    decreases members.len(),
{
    if members.len() == 0 {
        st
    } else {
        let m = members.last()@;
        node_fold(exprs, m, inherited || allows(exprs, m), lint, members_fold(exprs, members.drop_last(), inherited, lint, st))
    }
}

/// The items in order: each item's own attributes, then (but for
/// `Other` items) its members'.
pub open spec fn items_fold(exprs: Seq<Expr>, items: Seq<ItemAttrs>, lint: UnenforcedLint) -> AttrState
    decreases items.len(),
{
    if items.len() == 0 {
        (Seq::empty(), Seq::empty())
    } else {
        let it = items.last();
        let allow = allows(exprs, it.attrs@);
        let st = node_fold(exprs, it.attrs@, allow, lint, items_fold(exprs, items.drop_last(), lint));
        if it.shape == ItemShape::Other {
            st
        } else {
            members_fold(exprs, it.members@, allow, lint, st)
        }
    }
}

/// The findings of `diags` that are not W0021, in order.
pub open spec fn without_unenforced(diags: Seq<AttrDiag>) -> Seq<AttrDiag>
    decreases diags.len(),
{
    if diags.len() == 0 {
        Seq::empty()
    } else {
        let r = without_unenforced(diags.drop_last());
        if diags.last() is Unenforced {
            r
        } else {
            r.push(diags.last())
        }
    }
}

proof fn lemma_without_push(d: Seq<AttrDiag>, x: AttrDiag)
    ensures
        without_unenforced(d.push(x)) == if x is Unenforced {
            without_unenforced(d)
        } else {
            without_unenforced(d).push(x)
        },
{
    assert(d.push(x).drop_last() =~= d);
}

proof fn lemma_node_allow_warn(exprs: Seq<Expr>, attrs: Seq<Attribute>, allowed: bool, sa: AttrState, sw: AttrState)
    requires
        sa.0 == without_unenforced(sw.0),
    ensures
        node_fold(exprs, attrs, allowed, UnenforcedLint::Allow, sa).0 == without_unenforced(
            node_fold(exprs, attrs, allowed, UnenforcedLint::Warn, sw).0,
        ),
    decreases attrs.len(),
{
    if attrs.len() > 0 {
        lemma_node_allow_warn(exprs, attrs.drop_last(), allowed, sa, sw);
        let pa = node_fold(exprs, attrs.drop_last(), allowed, UnenforcedLint::Allow, sa);
        let pw = node_fold(exprs, attrs.drop_last(), allowed, UnenforcedLint::Warn, sw);
        let a = attrs.last();
        if a.name@ == "allow"@ {
            if !is_allow_unenforced(exprs, a) {
                lemma_without_push(pw.0, AttrDiag::InvalidAllow { span: first_bad_span(exprs, a.args@, a.span) });
            }
        } else if !allowed && is_unenforced(a.name@) && !pw.1.contains(a.span) {
            lemma_without_push(
                pw.0,
                AttrDiag::Unenforced {
                    name: a.name,
                    span: Span { file: a.span.file, start: a.span.start, end: a.name_span.end },
                    attr_span: a.span,
                },
            );
        }
    }
}

proof fn lemma_members_allow_warn(exprs: Seq<Expr>, members: Seq<Vec<Attribute>>, inherited: bool, sa: AttrState, sw: AttrState)
    requires
        sa.0 == without_unenforced(sw.0),
    ensures
        members_fold(exprs, members, inherited, UnenforcedLint::Allow, sa).0 == without_unenforced(
            members_fold(exprs, members, inherited, UnenforcedLint::Warn, sw).0,
        ),
    decreases members.len(),
{
    if members.len() > 0 {
        lemma_members_allow_warn(exprs, members.drop_last(), inherited, sa, sw);
        let m = members.last()@;
        lemma_node_allow_warn(
            exprs,
            m,
            inherited || allows(exprs, m),
            members_fold(exprs, members.drop_last(), inherited, UnenforcedLint::Allow, sa),
            members_fold(exprs, members.drop_last(), inherited, UnenforcedLint::Warn, sw),
        );
    }
}

/// Under the `Allow` policy the findings are those under `Warn` with
/// every W0021 taken out.
pub proof fn law_allow_is_warn_without_unenforced(exprs: Seq<Expr>, items: Seq<ItemAttrs>)
    ensures
        items_fold(exprs, items, UnenforcedLint::Allow).0 == without_unenforced(
            items_fold(exprs, items, UnenforcedLint::Warn).0,
        ),
    decreases items.len(),
{
    if items.len() == 0 {
        assert(without_unenforced(Seq::<AttrDiag>::empty()) == Seq::<AttrDiag>::empty());
    } else {
        law_allow_is_warn_without_unenforced(exprs, items.drop_last());
        let it = items.last();
        let allow = allows(exprs, it.attrs@);
        let pa = items_fold(exprs, items.drop_last(), UnenforcedLint::Allow);
        let pw = items_fold(exprs, items.drop_last(), UnenforcedLint::Warn);
        lemma_node_allow_warn(exprs, it.attrs@, allow, pa, pw);
        if it.shape != ItemShape::Other {
            lemma_members_allow_warn(
                exprs,
                it.members@,
                allow,
                node_fold(exprs, it.attrs@, allow, UnenforcedLint::Allow, pa),
                node_fold(exprs, it.attrs@, allow, UnenforcedLint::Warn, pw),
            );
        }
    }
}

/// Checks one node's attributes; `inherited` says whether the enclosing
/// item allows unenforced attributes. Returns whether this node does.
fn check_node(
    exprs: &Vec<Expr>,
    attrs: &Vec<Attribute>,
    inherited: bool,
    lint: UnenforcedLint,
    seen: &mut Vec<Span>,
    diags: &mut Vec<AttrDiag>,
) -> (allowed: bool)
    requires
        findings_ok(old(diags)@, lint),
        seen_ok(old(diags)@, old(seen)@),
    ensures
        allowed == (inherited || allows(exprs@, attrs@)),
        (final(diags)@, final(seen)@) == node_fold(exprs@, attrs@, allowed, lint, (old(diags)@, old(seen)@)),
        findings_ok(final(diags)@, lint),
        seen_ok(final(diags)@, final(seen)@),
        allowed ==> forall|i: int|
            old(diags)@.len() <= i < final(diags)@.len() ==> (#[trigger] final(diags)@[i]) is InvalidAllow,
{
    let mut allowed = inherited;
    let mut k: usize = 0;
    while k < attrs.len()
        invariant
            k <= attrs@.len(),
            allowed == (inherited || exists|j: int| 0 <= j < k && is_allow_unenforced(exprs@, #[trigger] attrs@[j])),
        decreases attrs@.len() - k,
    {
        if allow_unenforced(exprs, &attrs[k]) {
            allowed = true;
        }
        k = k + 1;
    }
    let ghost d0 = diags@;
    let ghost s0 = seen@;
    let mut k: usize = 0;
    while k < attrs.len()
        invariant
            k <= attrs@.len(),
            (diags@, seen@) == node_fold(exprs@, attrs@.subrange(0, k as int), allowed, lint, (d0, s0)),
            findings_ok(diags@, lint),
            seen_ok(diags@, seen@),
            d0.len() <= diags@.len(),
            allowed ==> forall|i: int| d0.len() <= i < diags@.len() ==> (#[trigger] diags@[i]) is InvalidAllow,
        decreases attrs@.len() - k,
    {
        let attr = &attrs[k];
        proof {
            assert(attrs@.subrange(0, k + 1).drop_last() =~= attrs@.subrange(0, k as int));
            reveal_strlit("allow");
        }
        if crate::text::eq_str(attr.name.as_str(), "allow") {
            if !allow_unenforced(exprs, attr) {
                // The first argument that is not `unenforced`; the whole
                // attribute where there is none.
                let mut span = attr.span;
                let mut a: usize = 0;
                let mut found = false;
                assert(attr.args@.subrange(0, attr.args@.len() as int) =~= attr.args@);
                while a < attr.args.len() && !found
                    invariant
                        a <= attr.args@.len(),
                        found ==> span == first_bad_span(exprs@, attr.args@, attr.span),
                        !found ==> span == attr.span && first_bad_span(exprs@, attr.args@, attr.span)
                            == first_bad_span(exprs@, attr.args@.subrange(a as int, attr.args@.len() as int), attr.span),
                    decreases attr.args@.len() - a, if found { 0int } else { 1int },
                {
                    proof {
                        let rest = attr.args@.subrange(a as int, attr.args@.len() as int);
                        assert(rest[0] == attr.args@[a as int]);
                        assert(rest.drop_first() =~= attr.args@.subrange(a + 1, attr.args@.len() as int));
                    }
                    if !positional_is(exprs, &attr.args[a], "unenforced") {
                        found = true;
                        span = match &attr.args[a] {
                            AttrArg::Named { name_span, .. } => *name_span,
                            AttrArg::Positional(e) => if *e < exprs.len() {
                                exprs[*e].span
                            } else {
                                attr.span
                            },
                        };
                    } else {
                        a = a + 1;
                    }
                }
                proof {
                    if !found {
                        assert(attr.args@.subrange(a as int, attr.args@.len() as int).len() == 0);
                    }
                }
                diags.push(AttrDiag::InvalidAllow { span });
            }
        } else if !allowed && lint == UnenforcedLint::Warn && unenforced_name(attr.name.as_str()) {
            let key = attr.span;
            let mut fresh = true;
            let mut j: usize = 0;
            while j < seen.len()
                invariant
                    j <= seen@.len(),
                    fresh == forall|m: int| 0 <= m < j ==> seen@[m] != key,
                decreases seen@.len() - j,
            {
                if seen[j] == key {
                    fresh = false;
                }
                j = j + 1;
            }
            if fresh {
                let ghost sq = seen@;
                assert(!sq.contains(key));
                proof {
                    reveal_strlit("allow");
                }
                seen.push(key);
                let span = Span { file: key.file, start: key.start, end: attr.name_span.end };
                diags.push(AttrDiag::Unenforced { name: attr.name.clone(), span, attr_span: key });
                proof {
                    assert forall|i: int| 0 <= i < diags@.len() implies ((#[trigger] diags@[i]) matches AttrDiag::Unenforced { attr_span, .. }
                        ==> seen@.contains(attr_span)) by {
                        if i < diags@.len() - 1 {
                            if let AttrDiag::Unenforced { attr_span, .. } = diags@[i] {
                                assert(sq.contains(attr_span));
                                let w = choose|w: int| 0 <= w < sq.len() && sq[w] == attr_span;
                                assert(seen@[w] == attr_span);
                            }
                        } else {
                            assert(seen@[seen@.len() - 1] == key);
                        }
                    }
                }
            }
        }
        k = k + 1;
        proof {
            assert((diags@, seen@) =~= node_fold(exprs@, attrs@.subrange(0, k as int), allowed, lint, (d0, s0)));
        }
    }
    assert(attrs@.subrange(0, attrs@.len() as int) =~= attrs@);
    allowed
}

/// Checks the attributes of every item, its ports, fields and body
/// statements. An `@allow(unenforced)` on a node silences its own
/// unenforced attributes; on an item, those of its members too. An
/// `@allow` with any other argument is E0009 whatever the policy.
pub fn check_attributes(exprs: &Vec<Expr>, items: &Vec<ItemAttrs>, lint: UnenforcedLint) -> (out: Vec<AttrDiag>)
    ensures
        out@ == items_fold(exprs@, items@, lint).0,
        findings_ok(out@, lint),
        lint == UnenforcedLint::Allow ==> forall|i: int| 0 <= i < out@.len() ==> (#[trigger] out@[i]) is InvalidAllow,
{
    let mut diags: Vec<AttrDiag> = Vec::new();
    let mut seen: Vec<Span> = Vec::new();
    let mut k: usize = 0;
    while k < items.len()
        invariant
            k <= items@.len(),
            (diags@, seen@) == items_fold(exprs@, items@.subrange(0, k as int), lint),
            findings_ok(diags@, lint),
            seen_ok(diags@, seen@),
        decreases items@.len() - k,
    {
        let item = &items[k];
        proof {
            assert(items@.subrange(0, k + 1).drop_last() =~= items@.subrange(0, k as int));
        }
        let item_allows = check_node(exprs, &item.attrs, false, lint, &mut seen, &mut diags);
        if item.shape != ItemShape::Other {
            let ghost st = (diags@, seen@);
            let mut m: usize = 0;
            while m < item.members.len()
                invariant
                    m <= item.members@.len(),
                    (diags@, seen@) == members_fold(exprs@, item.members@.subrange(0, m as int), item_allows, lint, st),
                    findings_ok(diags@, lint),
                    seen_ok(diags@, seen@),
                decreases item.members@.len() - m,
            {
                proof {
                    assert(item.members@.subrange(0, m + 1).drop_last() =~= item.members@.subrange(0, m as int));
                }
                check_node(exprs, &item.members[m], item_allows, lint, &mut seen, &mut diags);
                m = m + 1;
            }
            assert(item.members@.subrange(0, item.members@.len() as int) =~= item.members@);
        }
        k = k + 1;
    }
    assert(items@.subrange(0, items@.len() as int) =~= items@);
    diags
}

} // verus!
