//! The passes of name resolution: imports, item collection, item bodies,
//! instantiation cycles and usage warnings. The walk over nested
//! expressions, types, patterns and blocks is bounded by the number of
//! nodes of the file (a tree is never deeper than that).

use vstd::prelude::*;

use crate::ast::Span;
use crate::defs::{DefId, DefKind, PortDir};
use crate::names::{is_widened_int_type, prelude_builtins, BuiltinKind};
use crate::resolve::ir::{
    Name, RArm, RArmBody, RBlockStmt, RBundleOrigin, RExprKind, RFile, RGeneric, RGenericArg, RItemKind,
    RLValue, RPath, RPattern, RPort, RPrim, RStmt, RSuffix, RType,
};
use crate::resolve::{binding_of, bindings_kept, diags_kept, lookup_spec, unknown_name_diag, ResolveCode, ResolveDiag, ResolveResult, Resolver, Scope, ScopeId, ScopeKind};
use crate::suggest::suggestion_for;
use crate::text::eq_str;

verus! {

/// `path` lies under field `field`: it starts with `field` and a dot.
pub open spec fn under_field_spec(path: Seq<char>, field: Seq<char>) -> bool {
    path.len() > field.len() && path.subrange(0, field.len() as int) == field && path[field.len() as int] == '.'
}

fn under_field(path: &str, field: &str) -> (r: bool)
    ensures
        r == under_field_spec(path@, field@),
{
    let p = crate::text::chars_of(path);
    let f = crate::text::chars_of(field);
    if p.len() <= f.len() {
        return false;
    }
    let mut k: usize = 0;
    while k < f.len()
        invariant
            k <= f@.len(),
            f@.len() < p@.len(),
            p@ == path@,
            f@ == field@,
            forall|j: int| 0 <= j < k ==> p@[j] == f@[j],
        decreases f@.len() - k,
    {
        if p[k] != f[k] {
            assert(p@.subrange(0, f@.len() as int)[k as int] != f@[k as int]);
            assert(p@.subrange(0, f@.len() as int) != f@);
            return false;
        }
        k = k + 1;
    }
    assert(p@.subrange(0, f@.len() as int) =~= f@);
    p[f.len()] == '.'
}

/// The ports of the module or extern module item recorded for `def`.
pub open spec fn item_ports_spec(file: RFile, item_of_def: Seq<(DefId, usize)>, def: DefId) -> Option<Seq<RPort>> {
    match assoc_first(item_of_def, def) {
        Some(i) => if i < file.items@.len() {
            match file.items@[i as int].kind {
                RItemKind::Module { ports, .. } => Some(ports@),
                RItemKind::Extern { ports, .. } => Some(ports@),
                _ => None,
            }
        } else {
            None
        },
        None => None,
    }
}

/// Some port of `ports` is named `n`.
pub open spec fn has_rport(ports: Seq<RPort>, n: Seq<char>) -> bool {
    exists|k: int| 0 <= k < ports.len() && (#[trigger] ports[k]).name.text@ == n
}

/// The direction of the first port of a primitive named `n`.
pub open spec fn prim_dir(ports: Seq<(String, PortDir)>, n: Seq<char>) -> Option<PortDir>
    decreases ports.len(),
{
    if ports.len() == 0 {
        None
    } else if ports[0].0@ == n {
        Some(ports[0].1)
    } else {
        prim_dir(ports.drop_first(), n)
    }
}

/// The last finding is `code` about `name`, at its span.
pub open spec fn pushed_diag(after: Seq<ResolveDiag>, before: Seq<ResolveDiag>, code: ResolveCode, name: Name) -> bool {
    &&& after.len() == before.len() + 1
    &&& after.subrange(0, before.len() as int) == before
    &&& after.last().code == code
    &&& after.last().span == name.span
    &&& after.last().name@ == name.text@
}

/// `h` is the member of least definition in `ms`.
pub open spec fn least_member(ms: Seq<DefId>, h: DefId) -> bool {
    &&& ms.contains(h)
    &&& forall|i: int| 0 <= i < ms.len() ==> h.0 <= (#[trigger] ms[i]).0
}

/// What reporting the cycle headed by `h` does: nothing when `h` was
/// reported before; else `h` is recorded, and one E1006 at the head's
/// definition is added when the head is a definition.
pub open spec fn cycle_outcome(
    rep_before: Seq<DefId>,
    rep_after: Seq<DefId>,
    diags_before: Seq<ResolveDiag>,
    diags_after: Seq<ResolveDiag>,
    defs: Seq<crate::resolve::DefData>,
    h: DefId,
) -> bool {
    if rep_before.contains(h) {
        rep_after == rep_before && diags_after == diags_before
    } else {
        &&& rep_after == rep_before.push(h)
        &&& if (h.0 as int) < defs.len() {
            &&& diags_after.len() == diags_before.len() + 1
            &&& diags_after.subrange(0, diags_before.len() as int) == diags_before
            &&& diags_after.last().code == ResolveCode::E1006
            &&& diags_after.last().span == defs[h.0 as int].span
        } else {
            diags_after == diags_before
        }
    }
}

/// The value of the last entry of `s` keyed `d`.
pub open spec fn assoc_last<V>(s: Seq<(DefId, V)>, d: DefId) -> Option<V>
    decreases s.len(),
{
    if s.len() == 0 {
        None
    } else if s.last().0 == d {
        Some(s.last().1)
    } else {
        assoc_last(s.drop_last(), d)
    }
}

/// The declared fields of struct `def`, found through its item.
pub open spec fn struct_fields_spec(file: RFile, defs: Seq<crate::resolve::DefData>, item_of_def: Seq<(DefId, usize)>, def: DefId) -> Option<Seq<(Name, usize)>> {
    if (def.0 as int) < defs.len() && defs[def.0 as int].kind == DefKind::Struct {
        match assoc_last(item_of_def, def) {
            Some(i) => if i < file.items@.len() {
                match file.items@[i as int].kind {
                    RItemKind::Struct { fields, .. } => Some(fields@),
                    _ => None,
                }
            } else {
                None
            },
            None => None,
        }
    } else {
        None
    }
}

/// Some field of `known` is named `n`.
pub open spec fn has_field(known: Seq<(Name, usize)>, n: Seq<char>) -> bool {
    exists|k: int| 0 <= k < known.len() && (#[trigger] known[k]).0.text@ == n
}

/// The names of a struct literal's fields that the struct lacks, in order.
pub open spec fn unknown_fields(fields: Seq<(Name, Option<usize>)>, known: Seq<(Name, usize)>) -> Seq<Name>
    decreases fields.len(),
{
    if fields.len() == 0 {
        Seq::empty()
    } else {
        let u = unknown_fields(fields.drop_last(), known);
        if has_field(known, fields.last().0.text@) {
            u
        } else {
            u.push(fields.last().0)
        }
    }
}

/// `after` is `before` followed by one finding `code` for each of `names`.
pub open spec fn added_diags(after: Seq<ResolveDiag>, before: Seq<ResolveDiag>, code: ResolveCode, names: Seq<Name>) -> bool {
    &&& after.len() == before.len() + names.len()
    &&& after.subrange(0, before.len() as int) == before
    &&& forall|i: int| 0 <= i < names.len() ==> {
        &&& (#[trigger] after[before.len() + i]).code == code
        &&& after[before.len() + i].span == names[i].span
        &&& after[before.len() + i].name@ == names[i].text@
    }
}

/// The imports of `imports` whose name was bound already: in `bound`,
/// or by an earlier import.
pub open spec fn dup_imports(imports: Seq<Name>, bound: Seq<(String, DefId)>) -> Seq<Name>
    decreases imports.len(),
{
    if imports.len() == 0 {
        Seq::empty()
    } else {
        let p = imports.drop_last();
        let u = dup_imports(p, bound);
        let n = imports.last();
        if binding_of(bound, n.text@) is Some || exists|j: int| 0 <= j < p.len() && (#[trigger] p[j]).text@ == n.text@ {
            u.push(n)
        } else {
            u
        }
    }
}

/// Item `i` declares a name that an import or an earlier item already
/// declares.
pub open spec fn item_name_taken(file: RFile, i: int, n: Seq<char>) -> bool {
    (exists|j: int| 0 <= j < file.imports@.len() && (#[trigger] file.imports@[j]).text@ == n) || exists|k: int|
        0 <= k < i && (item_name((#[trigger] file.items@[k]).kind) matches Some(n2) && n2.text@ == n)
}

/// Some finding of `diags` is E1003 (a name declared twice) at `span`.
pub open spec fn duplicate_reported(diags: Seq<ResolveDiag>, span: Span) -> bool {
    exists|q: int| 0 <= q < diags.len() && (#[trigger] diags[q]).code == ResolveCode::E1003 && diags[q].span == span
}

/// The name an item declares in the root scope.
pub open spec fn item_name(kind: RItemKind) -> Option<Name> {
    match kind {
        RItemKind::Module { name, .. } => Some(name),
        RItemKind::Extern { name, .. } => Some(name),
        RItemKind::Domain { name, .. } => Some(name),
        RItemKind::Function { name, .. } => Some(name),
        RItemKind::Struct { name, .. } => Some(name),
        RItemKind::Const { name, .. } => Some(name),
        RItemKind::TypeAlias { name, .. } => Some(name),
        RItemKind::Enum { name, .. } => Some(name),
        RItemKind::Other => None,
    }
}

/// The warning for definition `i` when it is never read, where one is
/// owed: names starting with `_`, public items and extern ports are
/// exempt.
pub open spec fn unused_code(r: Resolver, i: int) -> Option<ResolveCode> {
    let d = r.defs@[i];
    let name = d.name@;
    let exempt = (name.len() > 0 && name[0] == '_') || d.is_public
        || r.scopes@[d.scope.0 as int].kind is Extern;
    if exempt || r.reads@[i] {
        None
    } else {
        match d.kind {
            DefKind::Port { dir: PortDir::In } => Some(ResolveCode::W1001),
            DefKind::Register => Some(ResolveCode::W1004),
            DefKind::Wire | DefKind::LocalBinding => Some(ResolveCode::W1001),
            DefKind::Domain => Some(ResolveCode::W3004),
            DefKind::Import => Some(ResolveCode::W1005),
            _ => None,
        }
    }
}

/// The unused-definition findings for the first `n` definitions, in
/// order: code, the definition's span and its name.
pub open spec fn unused_list(r: Resolver, n: int) -> Seq<(ResolveCode, Span, Seq<char>)>
    decreases n,
{
    if n <= 0 {
        Seq::empty()
    } else {
        let u = unused_list(r, n - 1);
        match unused_code(r, n - 1) {
            Some(c) => u.push((c, r.defs@[n - 1].span, r.defs@[n - 1].name@)),
            None => u,
        }
    }
}

/// `after` is `before` followed by the findings of `list`.
pub open spec fn unused_reported(after: Seq<ResolveDiag>, before: Seq<ResolveDiag>, list: Seq<(ResolveCode, Span, Seq<char>)>) -> bool {
    &&& after.len() == before.len() + list.len()
    &&& after.subrange(0, before.len() as int) == before
    &&& forall|i: int| 0 <= i < list.len() ==> {
        &&& (#[trigger] after[before.len() + i]).code == list[i].0
        &&& after[before.len() + i].span == list[i].1
        &&& after[before.len() + i].name@ == list[i].2
    }
}

/// Every path expression the walk of `e` reaches (within `fuel` levels)
/// has a resolution in `res`.
pub open spec fn walked_expr(file: RFile, res: Seq<Option<DefId>>, e: int, fuel: nat) -> bool
    decreases fuel,
{
    if fuel == 0 || !(0 <= e < file.exprs@.len()) || e >= res.len() {
        true
    } else {
        let f = (fuel - 1) as nat;
        match file.exprs@[e].kind {
            RExprKind::Path(_) => res[e] is Some,
            RExprKind::Binary { lhs, rhs } => walked_expr(file, res, lhs as int, f) && walked_expr(file, res, rhs as int, f),
            RExprKind::Unary(x) => walked_expr(file, res, x as int, f),
            RExprKind::Index { base, index } => walked_expr(file, res, base as int, f) && walked_expr(file, res, index as int, f),
            RExprKind::Range { base, hi, lo } => walked_expr(file, res, base as int, f) && walked_expr(file, res, hi as int, f)
                && walked_expr(file, res, lo as int, f),
            RExprKind::PartSelect { base, start, width } => walked_expr(file, res, base as int, f) && walked_expr(
                file,
                res,
                start as int,
                f,
            ) && walked_expr(file, res, width as int, f),
            RExprKind::Call { callee, args } => walked_expr(file, res, callee as int, f) && forall|k: int|
                0 <= k < args@.len() ==> walked_expr(file, res, #[trigger] args@[k] as int, f),
            RExprKind::Cast { expr, .. } => walked_expr(file, res, expr as int, f),
            RExprKind::If { cond, then_expr, else_expr } => walked_expr(file, res, cond as int, f) && walked_expr(
                file,
                res,
                then_expr as int,
                f,
            ) && walked_expr(file, res, else_expr as int, f),
            RExprKind::Match { scrutinee, .. } => walked_expr(file, res, scrutinee as int, f),
            RExprKind::StructLit { .. } => res[e] is Some,
            RExprKind::List(items) => forall|k: int| 0 <= k < items@.len() ==> walked_expr(file, res, #[trigger] items@[k] as int, f),
            RExprKind::Repeat { value, count } => walked_expr(file, res, value as int, f) && walked_expr(file, res, count as int, f),
            _ => true,
        }
    }
}

/// Resolutions once made stay made, so a walked expression stays walked.
pub proof fn lemma_walked_kept(file: RFile, a: Seq<Option<DefId>>, b: Seq<Option<DefId>>, e: int, fuel: nat)
    requires
        walked_expr(file, a, e, fuel),
        b.len() == a.len(),
        forall|i: int| 0 <= i < a.len() && (#[trigger] a[i]) is Some ==> b[i] is Some,
    ensures
        walked_expr(file, b, e, fuel),
    decreases fuel,
{
    if fuel > 0 && 0 <= e < file.exprs@.len() && e < a.len() {
        let f = (fuel - 1) as nat;
        match file.exprs@[e].kind {
            RExprKind::Binary { lhs, rhs } => {
                lemma_walked_kept(file, a, b, lhs as int, f);
                lemma_walked_kept(file, a, b, rhs as int, f);
            },
            RExprKind::Unary(x) => lemma_walked_kept(file, a, b, x as int, f),
            RExprKind::Index { base, index } => {
                lemma_walked_kept(file, a, b, base as int, f);
                lemma_walked_kept(file, a, b, index as int, f);
            },
            RExprKind::Range { base, hi, lo } => {
                lemma_walked_kept(file, a, b, base as int, f);
                lemma_walked_kept(file, a, b, hi as int, f);
                lemma_walked_kept(file, a, b, lo as int, f);
            },
            RExprKind::PartSelect { base, start, width } => {
                lemma_walked_kept(file, a, b, base as int, f);
                lemma_walked_kept(file, a, b, start as int, f);
                lemma_walked_kept(file, a, b, width as int, f);
            },
            RExprKind::Call { callee, args } => {
                lemma_walked_kept(file, a, b, callee as int, f);
                assert forall|k: int| 0 <= k < args@.len() implies walked_expr(file, b, #[trigger] args@[k] as int, f) by {
                    lemma_walked_kept(file, a, b, args@[k] as int, f);
                }
            },
            RExprKind::Cast { expr, .. } => lemma_walked_kept(file, a, b, expr as int, f),
            RExprKind::If { cond, then_expr, else_expr } => {
                lemma_walked_kept(file, a, b, cond as int, f);
                lemma_walked_kept(file, a, b, then_expr as int, f);
                lemma_walked_kept(file, a, b, else_expr as int, f);
            },
            RExprKind::Match { scrutinee, .. } => lemma_walked_kept(file, a, b, scrutinee as int, f),
            RExprKind::List(items) => {
                assert forall|k: int| 0 <= k < items@.len() implies walked_expr(file, b, #[trigger] items@[k] as int, f) by {
                    lemma_walked_kept(file, a, b, items@[k] as int, f);
                }
            },
            RExprKind::Repeat { value, count } => {
                lemma_walked_kept(file, a, b, value as int, f);
                lemma_walked_kept(file, a, b, count as int, f);
            },
            _ => {},
        }
    }
}

/// The first variant of `vs` named `n` that is a definition (below
/// `ndefs`).
pub open spec fn first_variant(vs: Seq<(String, DefId)>, n: Seq<char>, ndefs: int) -> Option<DefId>
    decreases vs.len(),
{
    if vs.len() == 0 {
        None
    } else if vs[0].0@ == n && (vs[0].1.0 as int) < ndefs {
        Some(vs[0].1)
    } else {
        first_variant(vs.drop_first(), n, ndefs)
    }
}

/// The variant `n` of enum `e`, searching the variant tables in order.
pub open spec fn variant_lookup(ev: Seq<(DefId, Vec<(String, DefId)>)>, e: DefId, n: Seq<char>, ndefs: int) -> Option<DefId>
    decreases ev.len(),
{
    if ev.len() == 0 {
        None
    } else {
        match if ev[0].0 == e {
            first_variant(ev[0].1@, n, ndefs)
        } else {
            None
        } {
            Some(d) => Some(d),
            None => variant_lookup(ev.drop_first(), e, n, ndefs),
        }
    }
}

/// A call of `prev` that needs E5017: outside a contract, or with other
/// than one or two arguments, or a depth that is no literal of at least
/// one.
pub open spec fn prev_misused(file: RFile, in_contract: bool, args: Seq<usize>) -> bool {
    !in_contract || args.len() == 0 || args.len() > 2 || (args.len() == 2 && !(args[1] < file.exprs@.len()
        && (file.exprs@[args[1] as int].kind matches RExprKind::IntLit(v) && v >= 1)))
}

/// The value of the first entry of `s` for `d`.
pub open spec fn assoc_first<V>(s: Seq<(DefId, V)>, d: DefId) -> Option<V>
    decreases s.len(),
{
    if s.len() == 0 {
        None
    } else if s[0].0 == d {
        Some(s[0].1)
    } else {
        assoc_first(s.drop_first(), d)
    }
}

/// The span of definitions that have no source position.
pub fn synthetic_span() -> (r: Span)
    ensures
        r.file == u32::MAX && r.start == 0 && r.end == 0,
{
    Span { file: 4294967295u32, start: 0, end: 0 }
}

/// What an instance statement instantiates.
#[derive(Clone, Copy, PartialEq, Eq, Debug, Structural)]
pub enum InstanceTarget {
    Module(DefId),
    /// A builtin primitive, by its index in the file's primitives.
    Builtin(usize),
    Unknown,
}

impl Resolver {
    /// Scopes and definitions only grow.
    /// What a path of at most one segment denotes from `scope`: the
    /// nearest binding of its name on the chain of scopes, else the error
    /// definition.
    /// Where the segments of a path from the `k`-th on lead from `cur`:
    /// an enum's variant (the error definition where it has none); past
    /// any other definition, the error definition.
    pub open spec fn follow_segments(self, segs: Seq<Name>, cur: DefId, k: int) -> DefId
        decreases segs.len() - k,
    {
        if k >= segs.len() || k < 0 {
            cur
        } else if (cur.0 as int) < self.defs@.len() && self.defs@[cur.0 as int].kind == DefKind::Enum {
            let next = match variant_lookup(self.enum_variants@, cur, segs[k].text@, self.defs@.len() as int) {
                Some(d) => d,
                None => self.error_def,
            };
            self.follow_segments(segs, next, k + 1)
        } else {
            self.error_def
        }
    }

    /// The definition a path names: its first segment as a simple name,
    /// the rest through `follow_segments`.
    pub open spec fn path_resolution(self, path: RPath, scope: ScopeId) -> DefId {
        if path.segments@.len() <= 1 {
            self.simple_resolution(path, scope)
        } else {
            self.follow_segments(path.segments@, self.simple_resolution(path, scope), 1)
        }
    }

    pub open spec fn simple_resolution(self, path: RPath, scope: ScopeId) -> DefId {
        if path.segments@.len() == 0 {
            self.error_def
        } else {
            match lookup_spec(self.scopes@, scope.0 as int, path.segments@[0].text@) {
                Some(d) => d,
                None => self.error_def,
            }
        }
    }

    /// The name a register, `let`, wire or instance statement declares.
    pub open spec fn declared_name(st: RStmt) -> Option<Seq<char>> {
        match st {
            RStmt::Reg { name, .. } => Some(name.text@),
            RStmt::Let { name, .. } => Some(name.text@),
            RStmt::Wire { name, .. } => Some(name.text@),
            RStmt::Instance { name, .. } => Some(name.text@),
            _ => None,
        }
    }

    pub open spec fn grows(&self, old: &Resolver) -> bool {
        &&& self.wf()
        &&& self.scopes@.len() >= old.scopes@.len()
        &&& self.defs@.len() >= old.defs@.len()
        &&& self.resolutions@.len() == old.resolutions@.len()
        &&& forall|i: int| 0 <= i < old.resolutions@.len() && (#[trigger] old.resolutions@[i]) is Some
            ==> self.resolutions@[i] is Some
        &&& bindings_kept(old.scopes@, self.scopes@)
        &&& diags_kept(old.diagnostics@, self.diagnostics@)
    }

    fn diag(&mut self, code: ResolveCode, name: &Name, secondary: Option<Span>, suggestion: Option<String>)
        requires
            old(self).wf(),
        ensures
            final(self).root == old(self).root,
            final(self).enum_variants == old(self).enum_variants,
            final(self).error_def == old(self).error_def,
            final(self).resolutions == old(self).resolutions,
            final(self).grows(old(self)),
            final(self).scopes == old(self).scopes,
            final(self).defs == old(self).defs,
            final(self).reads == old(self).reads,
            final(self).instance_edges == old(self).instance_edges,
            final(self).diagnostics@ == old(self).diagnostics@.push(
                ResolveDiag { code, span: name.span, name: name.text, secondary, suggestion },
            ),
    {
        self.diagnostics.push(ResolveDiag { code, span: name.span, name: name.text.clone(), secondary, suggestion });
    }

    /// A fresh resolver: the prelude scope with the builtins, the root
    /// scope under it, and the error definition first of all.
    pub fn new(file: &RFile) -> (r: Resolver)
        ensures
            r.wf(),
            r.defs@.len() >= 1,
            r.root == ScopeId(1),
            r.scopes@.len() >= 2,
            r.scopes@[1].bindings@.len() == 0,
            r.diagnostics@.len() == 0,
            r.resolutions@.len() == file.exprs@.len(),
    {
        let mut resolutions: Vec<Option<DefId>> = Vec::new();
        let mut i: usize = 0;
        while i < file.exprs.len()
            invariant
                i <= file.exprs@.len(),
                resolutions@.len() == i,
            decreases file.exprs@.len() - i,
        {
            resolutions.push(None);
            i = i + 1;
        }
        let mut r = Resolver {
            defs: Vec::new(),
            scopes: Vec::new(),
            diagnostics: Vec::new(),
            resolutions,
            decl_spans: Vec::new(),
            use_spans: Vec::new(),
            reads: Vec::new(),
            writes: Vec::new(),
            pending: Vec::new(),
            item_of_def: Vec::new(),
            enum_variants: Vec::new(),
            instance_module: Vec::new(),
            instance_builtin: Vec::new(),
            bundle_origins: Vec::new(),
            variant_info: Vec::new(),
            bidir_ports: Vec::new(),
            bundle_inputs: Vec::new(),
            instance_edges: Vec::new(),
            in_contract: false,
            prelude: ScopeId(0),
            root: ScopeId(1),
            error_def: DefId(0),
        };
        r.scopes.push(Scope { kind: ScopeKind::Prelude, parent: None, bindings: Vec::new() });
        r.scopes.push(Scope { kind: ScopeKind::Root, parent: Some(ScopeId(0)), bindings: Vec::new() });
        r.defs.push(
            crate::resolve::DefData {
                kind: DefKind::Error,
                name: "<hata>".to_string(),
                span: synthetic_span(),
                scope: ScopeId(0),
                is_public: true,
            },
        );
        r.reads.push(false);
        r.writes.push(false);
        let builtins = prelude_builtins();
        let mut k: usize = 0;
        while k < builtins.len()
            invariant
                r.wf(),
                r.defs@.len() >= 1,
                k <= builtins@.len(),
                r.root == ScopeId(1),
                r.scopes@.len() == 2,
                r.scopes@[1].bindings@.len() == 0,
                r.diagnostics@.len() == 0,
                r.resolutions@.len() == file.exprs@.len(),
            decreases builtins@.len() - k,
        {
            let (name, kind) = builtins[k];
            let def = r.add_def(DefKind::Builtin(kind), name, synthetic_span(), ScopeId(0), true);
            r.bind(ScopeId(0), name, def);
            k = k + 1;
        }
        r
    }

    /// `use` names are bound in the root scope; a name brought twice is
    /// E1010.
    fn collect_imports(&mut self, file: &RFile)
        requires
            old(self).wf(),
        ensures
            final(self).root == old(self).root,
            final(self).grows(old(self)),
            forall|n: Seq<char>| binding_of(final(self).scopes@[old(self).root.0 as int].bindings@, n) is Some
                <==> (binding_of(old(self).scopes@[old(self).root.0 as int].bindings@, n) is Some
                || exists|j: int| 0 <= j < file.imports@.len() && (#[trigger] file.imports@[j]).text@ == n),
            added_diags(
                final(self).diagnostics@,
                old(self).diagnostics@,
                ResolveCode::E1010,
                dup_imports(file.imports@, old(self).scopes@[old(self).root.0 as int].bindings@),
            ),
    {
        let root = self.root;
        let ghost ob = self.scopes@[root.0 as int].bindings@;
        let ghost d0 = self.diagnostics@;
        assert(self.diagnostics@.subrange(0, d0.len() as int) == d0);
        assert(file.imports@.subrange(0, 0).len() == 0);
        let mut k: usize = 0;
        while k < file.imports.len()
            invariant
                self.grows(old(self)),
                self.scopes@.len() == old(self).scopes@.len(),
                root == old(self).root,
                self.root == old(self).root,
                (root.0 as int) < self.scopes@.len(),
                ob == old(self).scopes@[root.0 as int].bindings@,
                d0 == old(self).diagnostics@,
                k <= file.imports@.len(),
                forall|n: Seq<char>| binding_of(self.scopes@[root.0 as int].bindings@, n) is Some
                    <==> (binding_of(ob, n) is Some
                    || exists|j: int| 0 <= j < k && (#[trigger] file.imports@[j]).text@ == n),
                added_diags(self.diagnostics@, d0, ResolveCode::E1010, dup_imports(file.imports@.subrange(0, k as int), ob)),
            decreases file.imports@.len() - k,
        {
            let name = &file.imports[k];
            let ghost sub = file.imports@.subrange(0, k + 1);
            assert(sub.drop_last() == file.imports@.subrange(0, k as int));
            assert(sub.last() == file.imports@[k as int]);
            let ghost dj = self.diagnostics@;
            let ghost bj = self.scopes@[root.0 as int].bindings@;
            let ghost dup = binding_of(ob, name.text@) is Some
                || exists|j: int| 0 <= j < k && (#[trigger] file.imports@[j]).text@ == name.text@;
            assert(dup == (binding_of(ob, name.text@) is Some || exists|j: int|
                0 <= j < sub.drop_last().len() && (#[trigger] sub.drop_last()[j]).text@ == name.text@)) by {
                if exists|j: int| 0 <= j < k && (#[trigger] file.imports@[j]).text@ == name.text@ {
                    let j = choose|j: int| 0 <= j < k && (#[trigger] file.imports@[j]).text@ == name.text@;
                    assert(sub.drop_last()[j] == file.imports@[j]);
                }
            }
            match self.scope_get(root, name.text.as_str()) {
                Some(prev) => {
                    let prev_span = self.defs[prev.0 as usize].span;
                    self.diag(ResolveCode::E1010, name, Some(prev_span), None);
                    proof {
                        let u = dup_imports(file.imports@.subrange(0, k as int), ob);
                        let u2 = dup_imports(sub, ob);
                        assert(u2 == u.push(*name));
                        assert(self.diagnostics@.subrange(0, d0.len() as int) == d0) by {
                            assert(self.diagnostics@.subrange(0, dj.len() as int) == dj);
                            assert(dj.subrange(0, d0.len() as int) == d0);
                        }
                        assert forall|i: int| 0 <= i < u2.len() implies {
                            &&& (#[trigger] self.diagnostics@[d0.len() + i]).code == ResolveCode::E1010
                            &&& self.diagnostics@[d0.len() + i].span == u2[i].span
                            &&& self.diagnostics@[d0.len() + i].name@ == u2[i].text@
                        } by {
                            if i < u.len() {
                                assert(self.diagnostics@[d0.len() + i] == dj[d0.len() + i]);
                            }
                        }
                        assert forall|n: Seq<char>| binding_of(self.scopes@[root.0 as int].bindings@, n) is Some
                            <==> (binding_of(ob, n) is Some
                            || exists|j: int| 0 <= j < k + 1 && (#[trigger] file.imports@[j]).text@ == n) by {
                            if n == name.text@ {
                                assert(file.imports@[k as int].text@ == n);
                            }
                            if exists|j: int| 0 <= j < k + 1 && (#[trigger] file.imports@[j]).text@ == n {
                                let j = choose|j: int| 0 <= j < k + 1 && (#[trigger] file.imports@[j]).text@ == n;
                                if j < k {
                                } else {
                                    assert(n == name.text@);
                                }
                            }
                        }
                    }
                },
                None => {
                    self.declare(name, DefKind::Import, root, false);
                    proof {
                        let u = dup_imports(file.imports@.subrange(0, k as int), ob);
                        let u2 = dup_imports(sub, ob);
                        assert(u2 == u);
                        assert forall|n: Seq<char>| binding_of(self.scopes@[root.0 as int].bindings@, n) is Some
                            <==> (binding_of(ob, n) is Some
                            || exists|j: int| 0 <= j < k + 1 && (#[trigger] file.imports@[j]).text@ == n) by {
                            if n == name.text@ {
                                assert(file.imports@[k as int].text@ == n);
                            } else {
                                if exists|j: int| 0 <= j < k + 1 && (#[trigger] file.imports@[j]).text@ == n {
                                    let j = choose|j: int| 0 <= j < k + 1 && (#[trigger] file.imports@[j]).text@ == n;
                                    assert(j < k);
                                }
                            }
                        }
                    }
                },
            }
            k = k + 1;
        }
        assert(file.imports@.subrange(0, k as int) == file.imports@);
    }

    /// Pass one: every item is declared in the root scope before any body
    /// is resolved, so items may be used before their declaration.
    fn collect_item(&mut self, file: &RFile, i: usize)
        requires
            old(self).wf(),
            i < file.items@.len(),
        ensures
            final(self).root == old(self).root,
            final(self).grows(old(self)),
            ({
                let ob = old(self).scopes@[old(self).root.0 as int].bindings@;
                let nb = final(self).scopes@[old(self).root.0 as int].bindings@;
                let d = final(self).item_of_def@.last().0;
                match item_name(file.items@[i as int].kind) {
                    None => *final(self) == *old(self),
                    Some(n) => {
                        &&& final(self).item_of_def@ == old(self).item_of_def@.push((d, i))
                        &&& binding_of(ob, n.text@) is Some ==> exists|q: int| old(self).diagnostics@.len() <= q < final(self).diagnostics@.len()
                            && (#[trigger] final(self).diagnostics@[q]).code == ResolveCode::E1003 && final(self).diagnostics@[q].span == n.span
                        &&& binding_of(ob, n.text@) is Some ==> d == old(self).error_def
                        &&& binding_of(ob, n.text@) is None ==> binding_of(nb, n.text@) == Some(d)
                    },
                }
            }),
            match file.items@[i as int].kind {
                RItemKind::Enum { variants, .. } => {
                    let list = final(self).enum_variants@.last().1@;
                    &&& final(self).enum_variants@ == old(self).enum_variants@.push(
                        (final(self).item_of_def@.last().0, final(self).enum_variants@.last().1),
                    )
                    &&& list.len() == variants@.len()
                    &&& forall|v: int| 0 <= v < list.len() ==> (#[trigger] list[v]).0@ == variants@[v].0.text@
                },
                _ => final(self).enum_variants == old(self).enum_variants,
            },
    {
        let item = &file.items[i];
        let public = item.is_public;
        let root = self.root;
        let def = match &item.kind {
            RItemKind::Module { name, .. } => Some(self.declare_checked(name, DefKind::Module, root, public)),
            RItemKind::Extern { name, .. } => Some(self.declare_checked(name, DefKind::ExternModule, root, public)),
            RItemKind::Domain { name, .. } => Some(self.declare_checked(name, DefKind::Domain, root, public)),
            RItemKind::Function { name, .. } => Some(self.declare_checked(name, DefKind::Function, root, public)),
            RItemKind::Struct { name, .. } => Some(self.declare_checked(name, DefKind::Struct, root, public)),
            RItemKind::Const { name, .. } => Some(self.declare_checked(name, DefKind::Const, root, public)),
            RItemKind::TypeAlias { name, .. } => Some(self.declare_checked(name, DefKind::TypeAlias, root, public)),
            RItemKind::Enum { name, variants, .. } => {
                let enum_def = self.declare_checked(name, DefKind::Enum, root, public);
                let ghost mid = *self;
                let mut list: Vec<(String, DefId)> = Vec::new();
                let mut v: usize = 0;
                while v < variants.len()
                    invariant
                        self.grows(old(self)),
                        (root.0 as int) < self.scopes@.len(),
                        v <= variants@.len(),
                        self.scopes == mid.scopes,
                        self.diagnostics == mid.diagnostics,
                        self.item_of_def == mid.item_of_def,
                        self.enum_variants == mid.enum_variants,
                        self.error_def == mid.error_def,
                        self.root == mid.root,
                        list@.len() == v,
                        forall|w: int| 0 <= w < v ==> (#[trigger] list@[w]).0@ == variants@[w].0.text@,
                    decreases variants@.len() - v,
                {
                    let vn = &variants[v].0;
                    let vd = self.add_def(DefKind::EnumVariant { parent: enum_def.0 }, vn.text.as_str(), vn.span, root, public);
                    list.push((vn.text.clone(), vd));
                    self.variant_info.push((vd, v as u64, variants[v].1));
                    v = v + 1;
                }
                self.enum_variants.push((enum_def, list));
                Some(enum_def)
            },
            RItemKind::Other => None,
        };
        match def {
            Some(d) => {
                self.item_of_def.push((d, i));
            },
            None => {},
        }
        proof {
            if let Some(n) = item_name(file.items@[i as int].kind) {
                if binding_of(old(self).scopes@[old(self).root.0 as int].bindings@, n.text@) is Some {
                    let q = self.diagnostics@.len() - 1;
                    assert(self.diagnostics@[q].code == ResolveCode::E1003 && self.diagnostics@[q].span == n.span);
                }
            }
        }
    }

    /// The root definition of an item name, or the error definition.
    fn lookup_item_def(&self, name: &str) -> (r: DefId)
        requires
            self.wf(),
        ensures
            (r.0 as int) < self.defs@.len(),
            r == match binding_of(self.scopes@[self.root.0 as int].bindings@, name@) {
                Some(d) => d,
                None => self.error_def,
            },
    {
        match self.scope_get(self.root, name) {
            Some(d) => d,
            None => self.error_def,
        }
    }

    /// Generic parameters are the first declarations of their scope.
    fn declare_generics(&mut self, file: &RFile, generics: &Vec<RGeneric>, scope: ScopeId, fuel: u64)
        requires
            old(self).wf(),
            (scope.0 as int) < old(self).scopes@.len(),
        ensures
            final(self).grows(old(self)),
    {
        let mut k: usize = 0;
        while k < generics.len()
            invariant
                self.grows(old(self)),
                (scope.0 as int) < self.scopes@.len(),
                k <= generics@.len(),
            decreases generics@.len() - k,
        {
            self.declare_checked(&generics[k].name, DefKind::GenericParam, scope, false);
            match generics[k].const_ty {
                Some(t) => {
                    self.resolve_type(file, t, scope, fuel);
                },
                None => {},
            }
            k = k + 1;
        }
    }

    /// A type: sizes and lengths are expressions, named types are paths
    /// (the widened integer family `u9`, `i128` is no name).
    pub fn resolve_type(&mut self, file: &RFile, t: usize, scope: ScopeId, fuel: u64)
        requires
            old(self).wf(),
            (scope.0 as int) < old(self).scopes@.len(),
        ensures
            final(self).grows(old(self)),
        decreases fuel, 0int,
    {
        if fuel == 0 || t >= file.types.len() {
            return;
        }
        match &file.types[t] {
            RType::Sized(e) => {
                self.resolve_expr(file, *e, scope, fuel - 1);
            },
            RType::Array { elem, len } => {
                self.resolve_type(file, *elem, scope, fuel - 1);
                self.resolve_expr(file, *len, scope, fuel - 1);
            },
            RType::Tuple(items) => {
                let mut k: usize = 0;
                while k < items.len()
                    invariant
                        self.grows(old(self)),
                        (scope.0 as int) < self.scopes@.len(),
                        fuel > 0,
                        k <= items@.len(),
                    decreases items@.len() - k,
                {
                    self.resolve_type(file, items[k], scope, fuel - 1);
                    k = k + 1;
                }
            },
            RType::Path { path, args } => {
                if path.segments.len() == 1 && is_widened_int_type(path.segments[0].text.as_str()) {
                    return;
                }
                self.resolve_path(path, scope);
                self.resolve_generic_args(file, args, scope, fuel - 1);
            },
            RType::Builtin => {},
        }
    }

    fn resolve_generic_args(&mut self, file: &RFile, args: &Vec<RGenericArg>, scope: ScopeId, fuel: u64)
        requires
            old(self).wf(),
            (scope.0 as int) < old(self).scopes@.len(),
        ensures
            final(self).grows(old(self)),
        decreases fuel, 1int,
    {
        let mut k: usize = 0;
        while k < args.len()
            invariant
                self.grows(old(self)),
                (scope.0 as int) < self.scopes@.len(),
                k <= args@.len(),
            decreases args@.len() - k,
        {
            match args[k] {
                RGenericArg::Type(t) => {
                    self.resolve_type(file, t, scope, fuel);
                },
                RGenericArg::Const(e) => {
                    self.resolve_expr(file, e, scope, fuel);
                },
            }
            k = k + 1;
        }
    }

    /// A path: one name, or `Enum::Variant`; `::` after anything else is
    /// E1005, an unknown variant E1007.
    pub fn resolve_path(&mut self, path: &RPath, scope: ScopeId) -> (r: DefId)
        requires
            old(self).wf(),
            (scope.0 as int) < old(self).scopes@.len(),
        ensures
            final(self).grows(old(self)),
            (r.0 as int) < final(self).defs@.len(),
            path.segments@.len() <= 1 ==> r == old(self).simple_resolution(*path, scope),
            r == old(self).path_resolution(*path, scope),
            path.segments@.len() == 1 && lookup_spec(old(self).scopes@, scope.0 as int, path.segments@[0].text@) is None
                ==> final(self).diagnostics@ == old(self).diagnostics@.push(final(self).diagnostics@.last()) && unknown_name_diag(
                old(self).scopes@,
                old(self).pending@,
                scope.0 as int,
                path.segments@[0],
                final(self).diagnostics@.last(),
            ),
    {
        if path.segments.len() == 0 {
            return self.error_def;
        }
        let mut current = self.resolve_simple(&path.segments[0], scope, true);
        if path.segments.len() == 1 {
            return current;
        }
        let mut k: usize = 1;
        while k < path.segments.len()
            invariant
                self.grows(old(self)),
                (scope.0 as int) < self.scopes@.len(),
                (current.0 as int) < self.defs@.len(),
                1 <= k <= path.segments@.len(),
                self.defs == old(self).defs,
                self.enum_variants == old(self).enum_variants,
                self.error_def == old(self).error_def,
                old(self).path_resolution(*path, scope) == old(self).follow_segments(path.segments@, current, k as int),
            decreases path.segments@.len() - k,
        {
            let kind = self.defs[current.0 as usize].kind;
            match kind {
                DefKind::Enum => {
                    current = self.lookup_variant(current, &path.segments[k]);
                },
                DefKind::Error | DefKind::Import => {
                    return self.error_def;
                },
                _ => {
                    let name = Name { text: self.defs[current.0 as usize].name.clone(), span: path.span };
                    self.diag(ResolveCode::E1005, &name, None, None);
                    return self.error_def;
                },
            }
            k = k + 1;
        }
        current
    }

    fn lookup_variant(&mut self, enum_def: DefId, seg: &Name) -> (r: DefId)
        requires
            old(self).wf(),
        ensures
            final(self).grows(old(self)),
            final(self).scopes == old(self).scopes,
            final(self).defs == old(self).defs,
            final(self).enum_variants == old(self).enum_variants,
            final(self).error_def == old(self).error_def,
            (r.0 as int) < final(self).defs@.len(),
            match variant_lookup(old(self).enum_variants@, enum_def, seg.text@, old(self).defs@.len() as int) {
                Some(d) => r == d && final(self).reads@[d.0 as int] && final(self).diagnostics == old(self).diagnostics,
                None => r == old(self).error_def && pushed_diag(
                    final(self).diagnostics@,
                    old(self).diagnostics@,
                    ResolveCode::E1007,
                    *seg,
                ),
            },
    {
        let ghost nd = self.defs@.len() as int;
        let ghost ev = self.enum_variants@;
        let mut names: Vec<String> = Vec::new();
        let mut e: usize = 0;
        assert(ev.subrange(0, ev.len() as int) =~= ev);
        while e < self.enum_variants.len()
            invariant
                self.wf(),
                *self == *old(self),
                e <= self.enum_variants@.len(),
                ev == self.enum_variants@,
                nd == self.defs@.len(),
                variant_lookup(ev, enum_def, seg.text@, nd) == variant_lookup(
                    ev.subrange(e as int, ev.len() as int),
                    enum_def,
                    seg.text@,
                    nd,
                ),
            decreases self.enum_variants@.len() - e,
        {
            proof {
                let rest = ev.subrange(e as int, ev.len() as int);
                assert(rest[0] == ev[e as int]);
                assert(rest.drop_first() =~= ev.subrange(e + 1, ev.len() as int));
            }
            if self.enum_variants[e].0 == enum_def {
                let vs = &self.enum_variants[e].1;
                let mut v: usize = 0;
                assert(vs@.subrange(0, vs@.len() as int) =~= vs@);
                while v < vs.len()
                    invariant
                        self.wf(),
                        *self == *old(self),
                        v <= vs@.len(),
                        ev == self.enum_variants@,
                        nd == self.defs@.len(),
                        e < ev.len(),
                        *vs == ev[e as int].1,
                        ev[e as int].0 == enum_def,
                        variant_lookup(ev, enum_def, seg.text@, nd) == variant_lookup(
                            ev.subrange(e as int, ev.len() as int),
                            enum_def,
                            seg.text@,
                            nd,
                        ),
                        first_variant(vs@, seg.text@, nd) == first_variant(
                            vs@.subrange(v as int, vs@.len() as int),
                            seg.text@,
                            nd,
                        ),
                    decreases vs@.len() - v,
                {
                    proof {
                        let rest = vs@.subrange(v as int, vs@.len() as int);
                        assert(rest[0] == vs@[v as int]);
                        assert(rest.drop_first() =~= vs@.subrange(v + 1, vs@.len() as int));
                    }
                    if eq_str(vs[v].0.as_str(), seg.text.as_str()) {
                        let d = vs[v].1;
                        if (d.0 as usize) < self.defs.len() {
                            proof {
                                let rest = ev.subrange(e as int, ev.len() as int);
                                assert(rest[0] == ev[e as int]);
                                assert(first_variant(vs@, seg.text@, nd) == Some(d));
                            }
                            self.reads.set(d.0 as usize, true);
                            return d;
                        }
                    }
                    names.push(vs[v].0.clone());
                    v = v + 1;
                }
                assert(first_variant(vs@, seg.text@, nd) is None);
            }
            e = e + 1;
        }
        assert(ev.subrange(ev.len() as int, ev.len() as int) =~= Seq::<(DefId, Vec<(String, DefId)>)>::empty());
        let suggestion = suggestion_for(seg.text.as_str(), names.as_slice());
        let ghost d0 = self.diagnostics@;
        let err = self.error_def;
        self.diag(ResolveCode::E1007, seg, None, suggestion);
        assert(self.diagnostics@.subrange(0, d0.len() as int) =~= d0);
        err
    }

    /// A `@Name` annotation: a domain, a symbolic domain, an import or a
    /// port; an undefined name is E3002 (not E1001), with the closest
    /// domain name as a suggestion.
    fn resolve_domain_ref(&mut self, name: &Name, scope: ScopeId)
        requires
            old(self).wf(),
            (scope.0 as int) < old(self).scopes@.len(),
        ensures
            final(self).grows(old(self)),
            match lookup_spec(old(self).scopes@, scope.0 as int, name.text@) {
                None => pushed_diag(final(self).diagnostics@, old(self).diagnostics@, ResolveCode::E3002, *name),
                Some(d) => final(self).reads@[d.0 as int] && match old(self).defs@[d.0 as int].kind {
                    DefKind::Domain | DefKind::DomainParam | DefKind::Error | DefKind::Import | DefKind::Port {
                        ..
                    } => final(self).diagnostics == old(self).diagnostics,
                    _ => pushed_diag(final(self).diagnostics@, old(self).diagnostics@, ResolveCode::E3002, *name),
                },
            },
    {
        let ghost d0 = self.diagnostics@;
        match self.lookup_visible(name.text.as_str(), scope) {
            None => {
                let mut candidates: Vec<String> = Vec::new();
                let mut d: usize = 0;
                while d < self.defs.len()
                    invariant
                        self.wf(),
                        *self == *old(self),
                        d <= self.defs@.len(),
                    decreases self.defs@.len() - d,
                {
                    if self.defs[d].kind == DefKind::Domain {
                        candidates.push(self.defs[d].name.clone());
                    }
                    d = d + 1;
                }
                let suggestion = suggestion_for(name.text.as_str(), candidates.as_slice());
                self.diag(ResolveCode::E3002, name, None, suggestion);
                assert(self.diagnostics@.subrange(0, d0.len() as int) =~= d0);
            },
            Some(def) => {
                self.reads.set(def.0 as usize, true);
                self.use_spans.push((name.span, def));
                let kind = self.defs[def.0 as usize].kind;
                match kind {
                    DefKind::Domain | DefKind::DomainParam | DefKind::Error | DefKind::Import
                    | DefKind::Port { .. } => {},
                    _ => {
                        self.diag(ResolveCode::E3002, name, None, None);
                        assert(self.diagnostics@.subrange(0, d0.len() as int) =~= d0);
                    },
                }
            },
        }
    }

    /// The ports of the module or extern module an item definition names.
    fn ports_of<'a>(&self, file: &'a RFile, def: DefId) -> (r: Option<&'a Vec<RPort>>)
        ensures
            match r {
                Some(ps) => item_ports_spec(*file, self.item_of_def@, def) == Some(ps@),
                None => item_ports_spec(*file, self.item_of_def@, def) is None,
            },
    {
        let mut k: usize = 0;
        assert(self.item_of_def@.subrange(0, self.item_of_def@.len() as int) =~= self.item_of_def@);
        while k < self.item_of_def.len()
            invariant
                k <= self.item_of_def@.len(),
                assoc_first(self.item_of_def@, def) == assoc_first(
                    self.item_of_def@.subrange(k as int, self.item_of_def@.len() as int),
                    def,
                ),
            decreases self.item_of_def@.len() - k,
        {
            proof {
                let rest = self.item_of_def@.subrange(k as int, self.item_of_def@.len() as int);
                assert(rest[0] == self.item_of_def@[k as int]);
                assert(rest.drop_first() =~= self.item_of_def@.subrange(k + 1, self.item_of_def@.len() as int));
            }
            if self.item_of_def[k].0 == def {
                let i = self.item_of_def[k].1;
                if i < file.items.len() {
                    return match &file.items[i].kind {
                        RItemKind::Module { ports, .. } => Some(ports),
                        RItemKind::Extern { ports, .. } => Some(ports),
                        _ => None,
                    };
                }
                return None;
            }
            k = k + 1;
        }
        None
    }

    /// E1009 where the module has no port `port`, suggesting the closest
    /// port name as a rename.
    fn check_port_exists(&mut self, file: &RFile, module_def: DefId, port: &Name)
        requires
            old(self).wf(),
        ensures
            final(self).grows(old(self)),
            final(self).scopes == old(self).scopes,
            match item_ports_spec(*file, old(self).item_of_def@, module_def) {
                Some(ps) => if has_rport(ps, port.text@) {
                    final(self).diagnostics == old(self).diagnostics
                } else {
                    pushed_diag(final(self).diagnostics@, old(self).diagnostics@, ResolveCode::E1009, *port)
                },
                None => final(self).diagnostics == old(self).diagnostics,
            },
    {
        let ports = match self.ports_of(file, module_def) {
            Some(p) => p,
            None => {
                return;
            },
        };
        let mut names: Vec<String> = Vec::new();
        let mut k: usize = 0;
        while k < ports.len()
            invariant
                self.wf(),
                *self == *old(self),
                k <= ports@.len(),
                forall|j: int| 0 <= j < k ==> (#[trigger] ports@[j]).name.text@ != port.text@,
                item_ports_spec(*file, self.item_of_def@, module_def) == Some(ports@),
            decreases ports@.len() - k,
        {
            if eq_str(ports[k].name.text.as_str(), port.text.as_str()) {
                assert(ports@[k as int].name.text@ == port.text@);
                assert(has_rport(ports@, port.text@));
                return;
            }
            names.push(ports[k].name.text.clone());
            k = k + 1;
        }
        let suggestion = suggestion_for(port.text.as_str(), names.as_slice());
        let ghost d0 = self.diagnostics@;
        self.diag(ResolveCode::E1009, port, None, suggestion);
        assert(self.diagnostics@.subrange(0, d0.len() as int) =~= d0);
    }

    /// The builtin primitive an instance definition was recorded with.
    fn instance_builtin_of(&self, def: DefId) -> (r: Option<usize>)
        ensures
            r == assoc_first(self.instance_builtin@, def),
    {
        let mut k: usize = 0;
        assert(self.instance_builtin@.subrange(0, self.instance_builtin@.len() as int) =~= self.instance_builtin@);
        while k < self.instance_builtin.len()
            invariant
                k <= self.instance_builtin@.len(),
                assoc_first(self.instance_builtin@, def) == assoc_first(self.instance_builtin@.subrange(k as int, self.instance_builtin@.len() as int), def),
            decreases self.instance_builtin@.len() - k,
        {
            proof {
                let rest = self.instance_builtin@.subrange(k as int, self.instance_builtin@.len() as int);
                assert(rest[0] == self.instance_builtin@[k as int]);
                assert(rest.drop_first() =~= self.instance_builtin@.subrange(k + 1, self.instance_builtin@.len() as int));
            }
            if self.instance_builtin[k].0 == def {
                return Some(self.instance_builtin[k].1);
            }
            k = k + 1;
        }
        None
    }

    /// E1009 for a port of a builtin primitive: a name it does not have
    /// (with the closest port name as a rename), or a port of direction
    /// `wrong` (an output bound as a value, an input read as a field).
    fn check_builtin_port(&mut self, prim: &RPrim, port: &Name, wrong: PortDir)
        requires
            old(self).wf(),
        ensures
            final(self).grows(old(self)),
            final(self).scopes == old(self).scopes,
            if prim_dir(prim.ports@, port.text@) == Some(wrong) || prim_dir(prim.ports@, port.text@) is None {
                pushed_diag(final(self).diagnostics@, old(self).diagnostics@, ResolveCode::E1009, *port)
            } else {
                final(self).diagnostics == old(self).diagnostics
            },
    {
        let mut names: Vec<String> = Vec::new();
        let mut k: usize = 0;
        assert(prim.ports@.subrange(0, prim.ports@.len() as int) =~= prim.ports@);
        while k < prim.ports.len()
            invariant
                k <= prim.ports@.len(),
                self.wf(),
                *self == *old(self),
                prim_dir(prim.ports@, port.text@) == prim_dir(
                    prim.ports@.subrange(k as int, prim.ports@.len() as int),
                    port.text@,
                ),
            decreases prim.ports@.len() - k,
        {
            proof {
                let rest = prim.ports@.subrange(k as int, prim.ports@.len() as int);
                assert(rest[0] == prim.ports@[k as int]);
                assert(rest.drop_first() =~= prim.ports@.subrange(k + 1, prim.ports@.len() as int));
            }
            if eq_str(prim.ports[k].0.as_str(), port.text.as_str()) {
                if prim.ports[k].1 == wrong {
                    let ghost d0 = self.diagnostics@;
                    self.diag(ResolveCode::E1009, port, None, None);
                    assert(self.diagnostics@.subrange(0, d0.len() as int) =~= d0);
                }
                return;
            }
            names.push(prim.ports[k].0.clone());
            k = k + 1;
        }
        let suggestion = suggestion_for(port.text.as_str(), names.as_slice());
        let ghost d0 = self.diagnostics@;
        self.diag(ResolveCode::E1009, port, None, suggestion);
        assert(self.diagnostics@.subrange(0, d0.len() as int) =~= d0);
    }

    /// `req.data` where `req` is no name in scope but a bundle port whose
    /// flattened fields lie under `data.`: the whole payload used as a
    /// value has no mapping yet (E0003 at `span`). Returns whether it was.
    fn whole_bundle_field(&mut self, base: &Name, field: &Name, span: Span, scope: ScopeId) -> (r: bool)
        requires
            old(self).wf(),
            (scope.0 as int) < old(self).scopes@.len(),
        ensures
            final(self).grows(old(self)),
            final(self).scopes == old(self).scopes,
            r == (lookup_spec(old(self).scopes@, scope.0 as int, base.text@) is None && exists|k: int|
                0 <= k < old(self).bundle_origins@.len() && (#[trigger] old(self).bundle_origins@[k]).port@
                    == base.text@ && under_field_spec(old(self).bundle_origins@[k].path@, field.text@)),
            r ==> final(self).diagnostics@.len() == old(self).diagnostics@.len() + 1
                && final(self).diagnostics@.last().code == ResolveCode::E0003 && final(self).diagnostics@.last().span
                == span,
            !r ==> final(self).diagnostics == old(self).diagnostics,
    {
        if self.lookup_visible(base.text.as_str(), scope).is_some() {
            return false;
        }
        let mut k: usize = 0;
        while k < self.bundle_origins.len()
            invariant
                self.wf(),
                *self == *old(self),
                k <= self.bundle_origins@.len(),
                forall|j: int|
                    0 <= j < k ==> !((#[trigger] self.bundle_origins@[j]).port@ == base.text@ && under_field_spec(
                        self.bundle_origins@[j].path@,
                        field.text@,
                    )),
                lookup_spec(old(self).scopes@, scope.0 as int, base.text@) is None,
            decreases self.bundle_origins@.len() - k,
        {
            if eq_str(self.bundle_origins[k].port.as_str(), base.text.as_str())
                && under_field(self.bundle_origins[k].path.as_str(), field.text.as_str()) {
                assert(old(self).bundle_origins@[k as int].port@ == base.text@);
                let name = Name { text: crate::constraint_walk::concat(base.text.as_str(), "."), span };
                let whole = Name { text: crate::constraint_walk::concat(name.text.as_str(), field.text.as_str()), span };
                self.diag(ResolveCode::E0003, &whole, None, None);
                return true;
            }
            k = k + 1;
        }
        false
    }

    /// The module target an instance definition was recorded with.
    fn instance_target_of(&self, def: DefId) -> (r: Option<DefId>)
        ensures
            r == assoc_first(self.instance_module@, def),
    {
        let mut k: usize = 0;
        assert(self.instance_module@.subrange(0, self.instance_module@.len() as int) =~= self.instance_module@);
        while k < self.instance_module.len()
            invariant
                k <= self.instance_module@.len(),
                assoc_first(self.instance_module@, def) == assoc_first(self.instance_module@.subrange(k as int, self.instance_module@.len() as int), def),
            decreases self.instance_module@.len() - k,
        {
            proof {
                let rest = self.instance_module@.subrange(k as int, self.instance_module@.len() as int);
                assert(rest[0] == self.instance_module@[k as int]);
                assert(rest.drop_first() =~= self.instance_module@.subrange(k + 1, self.instance_module@.len() as int));
            }
            if self.instance_module[k].0 == def {
                return Some(self.instance_module[k].1);
            }
            k = k + 1;
        }
        None
    }

    /// An expression; paths record what they resolved to.
    pub fn resolve_expr(&mut self, file: &RFile, e: usize, scope: ScopeId, fuel: u64)
        requires
            old(self).wf(),
            (scope.0 as int) < old(self).scopes@.len(),
        ensures
            final(self).grows(old(self)),
            fuel > 0 && e < file.exprs@.len() && e < final(self).resolutions@.len() ==> match file.exprs@[e as int].kind {
                RExprKind::Path(path) => {
                    &&& final(self).resolutions@[e as int] == Some(old(self).path_resolution(path, scope))
                    &&& path.segments@.len() == 1 && lookup_spec(old(self).scopes@, scope.0 as int, path.segments@[0].text@) is None
                        ==> final(self).diagnostics@ == old(self).diagnostics@.push(final(self).diagnostics@.last())
                        && unknown_name_diag(old(self).scopes@, old(self).pending@, scope.0 as int, path.segments@[0],
                        final(self).diagnostics@.last())
                },
                _ => true,
            },
            walked_expr(*file, final(self).resolutions@, e as int, fuel as nat),
        decreases fuel, 0int,
    {
        if fuel == 0 || e >= file.exprs.len() {
            return;
        }
        let f = fuel - 1;
        let span = file.exprs[e].span;
        match &file.exprs[e].kind {
            RExprKind::Path(path) => {
                let def = self.resolve_path(path, scope);
                if e < self.resolutions.len() {
                    self.resolutions.set(e, Some(def));
                }
            },
            RExprKind::IntLit(_) => {},
            RExprKind::Binary { lhs, rhs } => {
                let ghost r0 = self.resolutions@;
                self.resolve_expr(file, *lhs, scope, f);
                let ghost r1 = self.resolutions@;
                self.resolve_expr(file, *rhs, scope, f);
                proof {
                    lemma_walked_kept(*file, r1, self.resolutions@, *lhs as int, f as nat);
                }
            },
            RExprKind::Unary(x) => {
                self.resolve_expr(file, *x, scope, f);
            },
            RExprKind::Index { base, index } => {
                let ghost r0 = self.resolutions@;
                self.resolve_expr(file, *base, scope, f);
                let ghost r1 = self.resolutions@;
                self.resolve_expr(file, *index, scope, f);
                proof {
                    lemma_walked_kept(*file, r1, self.resolutions@, *base as int, f as nat);
                }
            },
            RExprKind::Range { base, hi, lo } => {
                self.resolve_expr(file, *base, scope, f);
                let ghost r1 = self.resolutions@;
                self.resolve_expr(file, *hi, scope, f);
                let ghost r2 = self.resolutions@;
                self.resolve_expr(file, *lo, scope, f);
                proof {
                    lemma_walked_kept(*file, r1, r2, *base as int, f as nat);
                    lemma_walked_kept(*file, r1, self.resolutions@, *base as int, f as nat);
                    lemma_walked_kept(*file, r2, self.resolutions@, *hi as int, f as nat);
                }
            },
            RExprKind::PartSelect { base, start, width } => {
                self.resolve_expr(file, *base, scope, f);
                let ghost r1 = self.resolutions@;
                self.resolve_expr(file, *start, scope, f);
                let ghost r2 = self.resolutions@;
                self.resolve_expr(file, *width, scope, f);
                proof {
                    lemma_walked_kept(*file, r1, r2, *base as int, f as nat);
                    lemma_walked_kept(*file, r1, self.resolutions@, *base as int, f as nat);
                    lemma_walked_kept(*file, r2, self.resolutions@, *start as int, f as nat);
                }
            },
            RExprKind::Field { base, field } => {
                if *base < file.exprs.len() {
                    match &file.exprs[*base].kind {
                        RExprKind::Path(p) => {
                            if p.segments.len() == 1 {
                                let seg = &p.segments[0];
                                let whole = Span { file: seg.span.file, start: seg.span.start, end: field.span.end };
                                if self.whole_bundle_field(seg, field, whole, scope) {
                                    return;
                                }
                            }
                        },
                        _ => {},
                    }
                }
                self.resolve_expr(file, *base, scope, f);
                if *base < self.resolutions.len() {
                    match self.resolutions[*base] {
                        Some(bd) => match self.instance_target_of(bd) {
                            Some(t) => {
                                self.check_port_exists(file, t, field);
                            },
                            None => match self.instance_builtin_of(bd) {
                                Some(i) => {
                                    if i < file.prims.len() {
                                        self.check_builtin_port(&file.prims[i], field, PortDir::In);
                                    }
                                },
                                None => {},
                            },
                        },
                        None => {},
                    }
                }
            },
            RExprKind::Call { callee, args } => {
                self.resolve_expr(file, *callee, scope, f);
                let ghost r1 = self.resolutions@;
                self.resolve_list(file, args, scope, f);
                let ghost r2 = self.resolutions@;
                self.check_prev_call(file, *callee, args, span);
                proof {
                    lemma_walked_kept(*file, r1, r2, *callee as int, f as nat);
                    lemma_walked_kept(*file, r2, self.resolutions@, *callee as int, f as nat);
                    assert forall|k: int| 0 <= k < args@.len() implies walked_expr(*file, self.resolutions@, #[trigger] args@[k] as int, f as nat) by {
                        lemma_walked_kept(*file, r2, self.resolutions@, args@[k] as int, f as nat);
                    }
                }
            },
            RExprKind::Cast { expr, ty } => {
                self.resolve_expr(file, *expr, scope, f);
                let ghost r1 = self.resolutions@;
                self.resolve_type(file, *ty, scope, f);
                proof {
                    lemma_walked_kept(*file, r1, self.resolutions@, *expr as int, f as nat);
                }
            },
            RExprKind::If { cond, then_expr, else_expr } => {
                self.resolve_expr(file, *cond, scope, f);
                let ghost r1 = self.resolutions@;
                self.resolve_expr(file, *then_expr, scope, f);
                let ghost r2 = self.resolutions@;
                self.resolve_expr(file, *else_expr, scope, f);
                proof {
                    lemma_walked_kept(*file, r1, r2, *cond as int, f as nat);
                    lemma_walked_kept(*file, r1, self.resolutions@, *cond as int, f as nat);
                    lemma_walked_kept(*file, r2, self.resolutions@, *then_expr as int, f as nat);
                }
            },
            RExprKind::Match { scrutinee, arms } => {
                self.resolve_expr(file, *scrutinee, scope, f);
                let ghost r1 = self.resolutions@;
                self.resolve_arms(file, arms, scope, f);
                proof {
                    lemma_walked_kept(*file, r1, self.resolutions@, *scrutinee as int, f as nat);
                }
            },
            RExprKind::StructLit { path, fields } => {
                let def = self.resolve_path(path, scope);
                if e < self.resolutions.len() {
                    self.resolutions.set(e, Some(def));
                }
                self.check_struct_fields(file, def, fields);
                let mut k: usize = 0;
                while k < fields.len()
                    invariant
                        self.grows(old(self)),
                        (scope.0 as int) < self.scopes@.len(),
                        f < fuel,
                        k <= fields@.len(),
                        e < self.resolutions@.len() ==> self.resolutions@[e as int] is Some,
                    decreases fields@.len() - k,
                {
                    match fields[k].1 {
                        Some(v) => {
                            self.resolve_expr(file, v, scope, f);
                        },
                        None => {
                            self.resolve_simple(&fields[k].0, scope, true);
                        },
                    }
                    k = k + 1;
                }
            },
            RExprKind::List(items) => {
                self.resolve_list(file, items, scope, f);
            },
            RExprKind::Repeat { value, count } => {
                let ghost r0 = self.resolutions@;
                self.resolve_expr(file, *value, scope, f);
                let ghost r1 = self.resolutions@;
                self.resolve_expr(file, *count, scope, f);
                proof {
                    lemma_walked_kept(*file, r1, self.resolutions@, *value as int, f as nat);
                }
            },
            RExprKind::Other => {},
        }
    }

    fn resolve_list(&mut self, file: &RFile, items: &Vec<usize>, scope: ScopeId, fuel: u64)
        requires
            old(self).wf(),
            (scope.0 as int) < old(self).scopes@.len(),
        ensures
            final(self).grows(old(self)),
            forall|k: int| 0 <= k < items@.len() ==> walked_expr(*file, final(self).resolutions@, #[trigger] items@[k] as int, fuel as nat),
        decreases fuel, 1int,
    {
        let mut k: usize = 0;
        while k < items.len()
            invariant
                self.grows(old(self)),
                (scope.0 as int) < self.scopes@.len(),
                k <= items@.len(),
                forall|j: int| 0 <= j < k ==> walked_expr(*file, self.resolutions@, #[trigger] items@[j] as int, fuel as nat),
            decreases items@.len() - k,
        {
            let ghost r0 = self.resolutions@;
            self.resolve_expr(file, items[k], scope, fuel);
            proof {
                assert forall|j: int| 0 <= j < k + 1 implies walked_expr(*file, self.resolutions@, #[trigger] items@[j] as int, fuel as nat) by {
                    if j < k {
                        lemma_walked_kept(*file, r0, self.resolutions@, items@[j] as int, fuel as nat);
                    }
                }
            }
            k = k + 1;
        }
    }

    fn resolve_arms(&mut self, file: &RFile, arms: &Vec<RArm>, scope: ScopeId, fuel: u64)
        requires
            old(self).wf(),
            (scope.0 as int) < old(self).scopes@.len(),
        ensures
            final(self).grows(old(self)),
        decreases fuel, 1int,
    {
        let mut k: usize = 0;
        while k < arms.len()
            invariant
                self.grows(old(self)),
                (scope.0 as int) < self.scopes@.len(),
                k <= arms@.len(),
            decreases arms@.len() - k,
        {
            let arm = arms[k];
            let arm_scope = self.new_scope(ScopeKind::MatchArm, Some(scope));
            self.resolve_pattern(file, arm.pattern, arm_scope, fuel);
            match arm.guard {
                Some(g) => {
                    self.resolve_expr(file, g, arm_scope, fuel);
                },
                None => {},
            }
            match arm.body {
                RArmBody::Block(b) => {
                    self.resolve_block(file, b, arm_scope, fuel);
                },
                RArmBody::Expr(x) => {
                    self.resolve_expr(file, x, arm_scope, fuel);
                },
            }
            k = k + 1;
        }
    }

    /// A pattern: bindings are declared in the arm's scope, paths resolved.
    fn resolve_pattern(&mut self, file: &RFile, p: usize, scope: ScopeId, fuel: u64)
        requires
            old(self).wf(),
            (scope.0 as int) < old(self).scopes@.len(),
        ensures
            final(self).grows(old(self)),
        decreases fuel, 0int,
    {
        if fuel == 0 || p >= file.patterns.len() {
            return;
        }
        let f = fuel - 1;
        match &file.patterns[p] {
            RPattern::Wildcard => {},
            RPattern::Literal(e) => {
                self.resolve_expr(file, *e, scope, f);
            },
            RPattern::Binding(name) => {
                self.declare_checked(name, DefKind::PatternBinding, scope, false);
            },
            RPattern::Path { path, tuple, fields } => {
                self.resolve_path(path, scope);
                let mut k: usize = 0;
                while k < tuple.len()
                    invariant
                        self.grows(old(self)),
                        (scope.0 as int) < self.scopes@.len(),
                        f < fuel,
                        k <= tuple@.len(),
                    decreases tuple@.len() - k,
                {
                    self.resolve_pattern(file, tuple[k], scope, f);
                    k = k + 1;
                }
                let mut j: usize = 0;
                while j < fields.len()
                    invariant
                        self.grows(old(self)),
                        (scope.0 as int) < self.scopes@.len(),
                        f < fuel,
                        j <= fields@.len(),
                    decreases fields@.len() - j,
                {
                    match fields[j].1 {
                        Some(q) => {
                            self.resolve_pattern(file, q, scope, f);
                        },
                        None => {
                            self.declare_checked(&fields[j].0, DefKind::PatternBinding, scope, false);
                        },
                    }
                    j = j + 1;
                }
            },
            RPattern::List(items) => {
                let mut k: usize = 0;
                while k < items.len()
                    invariant
                        self.grows(old(self)),
                        (scope.0 as int) < self.scopes@.len(),
                        f < fuel,
                        k <= items@.len(),
                    decreases items@.len() - k,
                {
                    self.resolve_pattern(file, items[k], scope, f);
                    k = k + 1;
                }
            },
        }
    }

    /// E1008 for each field a struct literal names that the struct lacks.
    fn check_struct_fields(&mut self, file: &RFile, def: DefId, fields: &Vec<(Name, Option<usize>)>)
        requires
            old(self).wf(),
        ensures
            final(self).resolutions == old(self).resolutions,
            final(self).grows(old(self)),
            final(self).defs == old(self).defs,
            final(self).scopes == old(self).scopes,
            final(self).reads == old(self).reads,
            match struct_fields_spec(*file, old(self).defs@, old(self).item_of_def@, def) {
                Some(known) => added_diags(
                    final(self).diagnostics@,
                    old(self).diagnostics@,
                    ResolveCode::E1008,
                    unknown_fields(fields@, known),
                ),
                None => final(self).diagnostics == old(self).diagnostics,
            },
    {
        if (def.0 as usize) >= self.defs.len() || self.defs[def.0 as usize].kind != DefKind::Struct {
            return;
        }
        let mut item: Option<usize> = None;
        let mut k: usize = 0;
        while k < self.item_of_def.len()
            invariant
                self.wf(),
                *self == *old(self),
                k <= self.item_of_def@.len(),
                item == assoc_last(self.item_of_def@.subrange(0, k as int), def),
            decreases self.item_of_def@.len() - k,
        {
            assert(self.item_of_def@.subrange(0, k + 1).drop_last() == self.item_of_def@.subrange(0, k as int));
            if self.item_of_def[k].0 == def {
                item = Some(self.item_of_def[k].1);
            }
            k = k + 1;
        }
        assert(self.item_of_def@.subrange(0, k as int) == self.item_of_def@);
        let i = match item {
            Some(i) => i,
            None => {
                return;
            },
        };
        if i >= file.items.len() {
            return;
        }
        let known = match &file.items[i].kind {
            RItemKind::Struct { fields, .. } => fields,
            _ => {
                return;
            },
        };
        let mut names: Vec<String> = Vec::new();
        let mut k: usize = 0;
        while k < known.len()
            invariant
                self.wf(),
                *self == *old(self),
                k <= known@.len(),
                names@.len() == k,
                forall|m: int| 0 <= m < k ==> (#[trigger] names@[m])@ == known@[m].0.text@,
            decreases known@.len() - k,
        {
            names.push(known[k].0.text.clone());
            k = k + 1;
        }
        let ghost d0 = self.diagnostics@;
        assert(self.diagnostics@.subrange(0, d0.len() as int) == d0);
        assert(fields@.subrange(0, 0).len() == 0);
        let mut j: usize = 0;
        while j < fields.len()
            invariant
                self.grows(old(self)),
                self.defs == old(self).defs,
                self.scopes == old(self).scopes,
                self.reads == old(self).reads,
                self.resolutions == old(self).resolutions,
                d0 == old(self).diagnostics@,
                names@.len() == known@.len(),
                forall|m: int| 0 <= m < names@.len() ==> (#[trigger] names@[m])@ == known@[m].0.text@,
                j <= fields@.len(),
                added_diags(self.diagnostics@, d0, ResolveCode::E1008, unknown_fields(fields@.subrange(0, j as int), known@)),
            decreases fields@.len() - j,
        {
            let mut found = false;
            let mut k: usize = 0;
            while k < names.len()
                invariant
                    k <= names@.len(),
                    j < fields@.len(),
                    found <==> exists|m: int| 0 <= m < k && (#[trigger] names@[m])@ == fields@[j as int].0.text@,
                decreases names@.len() - k,
            {
                if eq_str(names[k].as_str(), fields[j].0.text.as_str()) {
                    found = true;
                }
                k = k + 1;
            }
            let ghost sub = fields@.subrange(0, j + 1);
            assert(sub.drop_last() == fields@.subrange(0, j as int));
            assert(sub.last() == fields@[j as int]);
            proof {
                if found {
                    let m = choose|m: int| 0 <= m < k && (#[trigger] names@[m])@ == fields@[j as int].0.text@;
                    assert(known@[m].0.text@ == fields@[j as int].0.text@);
                } else {
                    assert forall|m: int| 0 <= m < known@.len() implies (#[trigger] known@[m]).0.text@ != fields@[j as int].0.text@ by {
                        assert(names@[m]@ == known@[m].0.text@);
                    }
                }
            }
            let ghost dj = self.diagnostics@;
            if !found {
                let suggestion = suggestion_for(fields[j].0.text.as_str(), names.as_slice());
                self.diag(ResolveCode::E1008, &fields[j].0, None, suggestion);
                proof {
                    let u = unknown_fields(fields@.subrange(0, j as int), known@);
                    let u2 = unknown_fields(sub, known@);
                    assert(u2 == u.push(fields@[j as int].0));
                    assert(self.diagnostics@.subrange(0, d0.len() as int) == d0) by {
                        assert(self.diagnostics@.subrange(0, dj.len() as int) == dj);
                        assert(dj.subrange(0, d0.len() as int) == d0);
                    }
                    assert forall|i: int| 0 <= i < u2.len() implies {
                        &&& (#[trigger] self.diagnostics@[d0.len() + i]).code == ResolveCode::E1008
                        &&& self.diagnostics@[d0.len() + i].span == u2[i].span
                        &&& self.diagnostics@[d0.len() + i].name@ == u2[i].text@
                    } by {
                        if i < u.len() {
                            assert(self.diagnostics@[d0.len() + i] == dj[d0.len() + i]);
                        }
                    }
                }
            }
            j = j + 1;
        }
        assert(fields@.subrange(0, j as int) == fields@);
    }

    /// E5017: `prev(x[, N])` only in contracts, with a signal and an
    /// optional positive literal count.
    fn check_prev_call(&mut self, file: &RFile, callee: usize, args: &Vec<usize>, span: Span)
        requires
            old(self).wf(),
        ensures
            final(self).grows(old(self)),
            ({
                let is_prev = callee < old(self).resolutions@.len() && (old(self).resolutions@[callee as int] matches Some(
                    d,
                ) && (d.0 as int) < old(self).defs@.len() && old(self).defs@[d.0 as int].kind == DefKind::Builtin(
                    BuiltinKind::Prev,
                ));
                if is_prev && prev_misused(*file, old(self).in_contract, args@) {
                    pushed_diag(
                        final(self).diagnostics@,
                        old(self).diagnostics@,
                        ResolveCode::E5017,
                        Name { text: final(self).diagnostics@.last().name, span },
                    ) && final(self).diagnostics@.last().name@ == "prev"@
                } else {
                    final(self).diagnostics == old(self).diagnostics
                }
            }),
    {
        if callee >= self.resolutions.len() {
            return;
        }
        let def = match self.resolutions[callee] {
            Some(d) => d,
            None => {
                return;
            },
        };
        if (def.0 as usize) >= self.defs.len() || self.defs[def.0 as usize].kind != DefKind::Builtin(BuiltinKind::Prev) {
            return;
        }
        let name = Name { text: "prev".to_string(), span };
        proof {
            reveal_strlit("prev");
        }
        let ghost d0 = self.diagnostics@;
        if !self.in_contract {
            self.diag(ResolveCode::E5017, &name, None, None);
            assert(self.diagnostics@.subrange(0, d0.len() as int) =~= d0);
            return;
        }
        let depth_ok = if args.len() > 1 {
            let n = args[1];
            n < file.exprs.len() && match file.exprs[n].kind {
                RExprKind::IntLit(v) => v >= 1,
                _ => false,
            }
        } else {
            true
        };
        if args.len() == 0 || args.len() > 2 || !depth_ok {
            self.diag(ResolveCode::E5017, &name, None, None);
            assert(self.diagnostics@.subrange(0, d0.len() as int) =~= d0);
        }
    }

    /// An assignment target: its base is a write; a field of an instance
    /// must be a port of the instantiated module.
    fn resolve_lvalue(&mut self, file: &RFile, lv: &RLValue, scope: ScopeId, fuel: u64)
        requires
            old(self).wf(),
            (scope.0 as int) < old(self).scopes@.len(),
        ensures
            final(self).grows(old(self)),
        decreases fuel, 1int,
    {
        let def = self.resolve_simple(&lv.base, scope, false);
        if contains_def(&self.bundle_inputs, def) {
            self.diag(ResolveCode::E4005, &lv.base, None, None);
        }
        if contains_def(&self.bidir_ports, def) {
            self.diag(ResolveCode::E4008, &lv.base, None, None);
        }
        let mut current = Some(def);
        let mut k: usize = 0;
        while k < lv.suffixes.len()
            invariant
                self.grows(old(self)),
                (scope.0 as int) < self.scopes@.len(),
                k <= lv.suffixes@.len(),
            decreases lv.suffixes@.len() - k,
        {
            match &lv.suffixes[k] {
                RSuffix::Index(e) => {
                    self.resolve_expr(file, *e, scope, fuel);
                    current = None;
                },
                RSuffix::Range { hi, lo } => {
                    self.resolve_expr(file, *hi, scope, fuel);
                    self.resolve_expr(file, *lo, scope, fuel);
                    current = None;
                },
                RSuffix::PartSelect { start, width } => {
                    self.resolve_expr(file, *start, scope, fuel);
                    self.resolve_expr(file, *width, scope, fuel);
                    current = None;
                },
                RSuffix::Field(field) => {
                    match current {
                        Some(b) => match self.instance_target_of(b) {
                            Some(t) => {
                                self.check_port_exists(file, t, field);
                            },
                            None => match self.instance_builtin_of(b) {
                                Some(i) => {
                                    if i < file.prims.len() {
                                        self.check_builtin_port(&file.prims[i], field, PortDir::In);
                                    }
                                },
                                None => {},
                            },
                        },
                        None => {},
                    }
                    current = None;
                },
            }
            k = k + 1;
        }
    }

    /// `for var in start..end { body }`: the loop variable lives in the
    /// loop's own scope.
    fn resolve_for(&mut self, file: &RFile, var: &Name, start: usize, end: usize, body: usize, scope: ScopeId, fuel: u64)
        requires
            old(self).wf(),
            (scope.0 as int) < old(self).scopes@.len(),
        ensures
            final(self).grows(old(self)),
        decreases fuel, 1int,
    {
        self.resolve_expr(file, start, scope, fuel);
        self.resolve_expr(file, end, scope, fuel);
        let loop_scope = self.new_scope(ScopeKind::Loop, Some(scope));
        self.declare_checked(var, DefKind::LoopVar, loop_scope, false);
        self.resolve_block(file, body, loop_scope, fuel);
    }

    /// A block: a new scope, ordered (a `let` must come before its uses).
    pub fn resolve_block(&mut self, file: &RFile, b: usize, parent: ScopeId, fuel: u64)
        requires
            old(self).wf(),
            (parent.0 as int) < old(self).scopes@.len(),
        ensures
            final(self).grows(old(self)),
        decreases fuel, 0int,
    {
        if fuel == 0 || b >= file.blocks.len() {
            return;
        }
        let f = fuel - 1;
        let blk = &file.blocks[b];
        let scope = self.new_scope(ScopeKind::Block, Some(parent));
        let mut later: Vec<(String, Span)> = Vec::new();
        let mut k: usize = 0;
        while k < blk.stmts.len()
            invariant
                k <= blk.stmts@.len(),
            decreases blk.stmts@.len() - k,
        {
            match &blk.stmts[k] {
                RBlockStmt::Let { name, .. } => {
                    add_first(&mut later, name);
                },
                _ => {},
            }
            k = k + 1;
        }
        self.pending.push(later);
        let mut k: usize = 0;
        while k < blk.stmts.len()
            invariant
                self.grows(old(self)),
                (scope.0 as int) < self.scopes@.len(),
                f < fuel,
                k <= blk.stmts@.len(),
            decreases blk.stmts@.len() - k,
        {
            match &blk.stmts[k] {
                RBlockStmt::Assign { lhs, rhs } => {
                    self.resolve_lvalue(file, lhs, scope, f);
                    self.resolve_expr(file, *rhs, scope, f);
                },
                RBlockStmt::If { cond, then_block, else_block } => {
                    self.resolve_expr(file, *cond, scope, f);
                    self.resolve_block(file, *then_block, scope, f);
                    match else_block {
                        Some(x) => {
                            self.resolve_block(file, *x, scope, f);
                        },
                        None => {},
                    }
                },
                RBlockStmt::Match { scrutinee, arms } => {
                    self.resolve_expr(file, *scrutinee, scope, f);
                    self.resolve_arms(file, arms, scope, f);
                },
                RBlockStmt::Let { name, ty, value } => {
                    match ty {
                        Some(t) => {
                            self.resolve_type(file, *t, scope, f);
                        },
                        None => {},
                    }
                    self.resolve_expr(file, *value, scope, f);
                    self.declare_local(name, DefKind::LocalBinding, scope);
                },
                RBlockStmt::For { var, start, end, body } => {
                    self.resolve_for(file, var, *start, *end, *body, scope, f);
                },
                RBlockStmt::Error => {},
            }
            k = k + 1;
        }
        match blk.tail {
            Some(t) => {
                self.resolve_expr(file, t, scope, f);
            },
            None => {},
        }
        self.pending.pop();
    }
}

/// Adds `name` to `later` unless an earlier declaration of the same name
/// is there (the first declaration is the one reported).
fn add_first(later: &mut Vec<(String, Span)>, name: &Name)
    ensures
        (exists|j: int| 0 <= j < old(later)@.len() && (#[trigger] old(later)@[j]).0@ == name.text@)
            ==> final(later)@ == old(later)@,
        !(exists|j: int| 0 <= j < old(later)@.len() && (#[trigger] old(later)@[j]).0@ == name.text@)
            ==> final(later)@ == old(later)@.push((name.text, name.span)),
{
    let mut k: usize = 0;
    while k < later.len()
        invariant
            k <= later@.len(),
            *later == *old(later),
            forall|j: int| 0 <= j < k ==> (#[trigger] later@[j]).0@ != name.text@,
        decreases later@.len() - k,
    {
        if eq_str(later[k].0.as_str(), name.text.as_str()) {
            return;
        }
        k = k + 1;
    }
    later.push((name.text.clone(), name.span));
}

fn contains_def(v: &Vec<DefId>, d: DefId) -> (r: bool)
    ensures
        r == v@.contains(d),
{
    let mut k: usize = 0;
    while k < v.len()
        invariant
            k <= v@.len(),
            forall|j: int| 0 <= j < k ==> v@[j] != d,
        decreases v@.len() - k,
    {
        if v[k] == d {
            assert(v@[k as int] == d);
            return true;
        }
        k = k + 1;
    }
    false
}

/// The name a register, `let`, wire or instance statement declares.
pub open spec fn stmt_name(st: RStmt) -> Option<Name> {
    match st {
        RStmt::Reg { name, .. } => Some(name),
        RStmt::Let { name, .. } => Some(name),
        RStmt::Wire { name, .. } => Some(name),
        RStmt::Instance { name, .. } => Some(name),
        _ => None,
    }
}

/// The name a module statement declares, if any.
fn declared_name(st: &RStmt) -> (r: Option<&Name>)
    ensures
        match r {
            Some(n) => stmt_name(*st) == Some(*n),
            None => stmt_name(*st) is None,
        },
{
    match st {
        RStmt::Reg { name, .. } => Some(name),
        RStmt::Let { name, .. } => Some(name),
        RStmt::Wire { name, .. } => Some(name),
        RStmt::Instance { name, .. } => Some(name),
        _ => None,
    }
}

impl Resolver {
    /// A module statement. Declarations come after their initializers and
    /// bindings, so a name is not visible in its own definition.
    fn resolve_stmt(&mut self, file: &RFile, st: &RStmt, scope: ScopeId, module_def: DefId, fuel: u64)
        requires
            old(self).wf(),
            (scope.0 as int) < old(self).scopes@.len(),
        ensures
            final(self).grows(old(self)),
            Self::declared_name(*st) matches Some(n) ==> binding_of(final(self).scopes@[scope.0 as int].bindings@, n) is Some,
    {
        match st {
            RStmt::Reg { name, ty, domain, init } => {
                match ty {
                    Some(t) => {
                        self.resolve_type(file, *t, scope, fuel);
                    },
                    None => {},
                }
                match domain {
                    Some(d) => {
                        self.resolve_domain_ref(d, scope);
                    },
                    None => {},
                }
                self.resolve_expr(file, *init, scope, fuel);
                self.declare_local(name, DefKind::Register, scope);
            },
            RStmt::Let { name, ty, value } => {
                match ty {
                    Some(t) => {
                        self.resolve_type(file, *t, scope, fuel);
                    },
                    None => {},
                }
                self.resolve_expr(file, *value, scope, fuel);
                self.declare_local(name, DefKind::LocalBinding, scope);
            },
            RStmt::Wire { name, ty } => {
                self.resolve_type(file, *ty, scope, fuel);
                self.declare_local(name, DefKind::Wire, scope);
            },
            RStmt::Instance { name, path, prim, generic_args, bindings } => {
                let target = self.resolve_instance_target(path, *prim, scope);
                self.resolve_generic_args(file, generic_args, scope, fuel);
                let mut k: usize = 0;
                while k < bindings.len()
                    invariant
                        self.grows(old(self)),
                        (scope.0 as int) < self.scopes@.len(),
                        k <= bindings@.len(),
                    decreases bindings@.len() - k,
                {
                    match target {
                        InstanceTarget::Module(t) => {
                            self.check_port_exists(file, t, &bindings[k].0);
                        },
                        InstanceTarget::Builtin(i) => {
                            if i < file.prims.len() {
                                self.check_builtin_port(&file.prims[i], &bindings[k].0, PortDir::Out);
                            }
                        },
                        _ => {},
                    }
                    match bindings[k].1 {
                        Some(e) => {
                            self.resolve_expr(file, e, scope, fuel);
                        },
                        None => {
                            self.resolve_simple(&bindings[k].0, scope, true);
                        },
                    }
                    k = k + 1;
                }
                let inst_def = self.declare_local(name, DefKind::Instance, scope);
                match target {
                    InstanceTarget::Module(t) => {
                        self.instance_module.push((inst_def, t));
                        self.instance_edges.push((module_def, t));
                    },
                    InstanceTarget::Builtin(i) => {
                        self.instance_builtin.push((inst_def, i));
                    },
                    _ => {},
                }
            },
            RStmt::On { trigger, body } => {
                match trigger {
                    Some(t) => {
                        self.resolve_simple(t, scope, true);
                    },
                    None => {},
                }
                self.resolve_block(file, *body, scope, fuel);
            },
            RStmt::Comb(b) => {
                self.resolve_block(file, *b, scope, fuel);
            },
            RStmt::Assign { lhs, rhs } => {
                self.resolve_lvalue(file, lhs, scope, fuel);
                self.resolve_expr(file, *rhs, scope, fuel);
            },
            RStmt::For { var, start, end, body } => {
                self.resolve_for(file, var, *start, *end, *body, scope, fuel);
            },
            RStmt::Expr(e) => {
                self.resolve_expr(file, *e, scope, fuel);
            },
            RStmt::Error => {},
        }
    }

    /// An instance target: a single name that nothing visible binds may be
    /// a builtin primitive (a user module of that name wins); a module or
    /// extern module is a target; any other definition is E1001.
    fn resolve_instance_target(&mut self, path: &RPath, prim: Option<usize>, scope: ScopeId) -> (r: InstanceTarget)
        requires
            old(self).wf(),
            (scope.0 as int) < old(self).scopes@.len(),
        ensures
            final(self).grows(old(self)),
            r matches InstanceTarget::Module(d) ==> (d.0 as int) < final(self).defs@.len(),
    {
        if path.segments.len() == 0 {
            return InstanceTarget::Unknown;
        }
        let first = &path.segments[0];
        match prim {
            Some(i) => {
                if path.segments.len() == 1 && self.lookup_visible(first.text.as_str(), scope).is_none() {
                    return InstanceTarget::Builtin(i);
                }
            },
            None => {},
        }
        let def = self.resolve_simple(first, scope, true);
        match self.defs[def.0 as usize].kind {
            DefKind::Module | DefKind::ExternModule => InstanceTarget::Module(def),
            DefKind::Error | DefKind::Import | DefKind::Struct => InstanceTarget::Unknown,
            _ => {
                self.diag(ResolveCode::E1001, first, None, None);
                InstanceTarget::Unknown
            },
        }
    }

    /// A module: generics, then ports (which see each other), then the
    /// ordered body, then the contracts (which see the body).
    fn resolve_module_body(
        &mut self,
        file: &RFile,
        name: &Name,
        generics: &Vec<RGeneric>,
        ports: &Vec<RPort>,
        body: &Vec<RStmt>,
        contracts: &Vec<usize>,
        fuel: u64,
    )
        requires
            old(self).wf(),
        ensures
            final(self).grows(old(self)),
    {
        let module_def = self.lookup_item_def(name.text.as_str());
        let root = self.root;
        let scope = self.new_scope(ScopeKind::Module(module_def), Some(root));
        self.declare_generics(file, generics, scope, fuel);
        self.bidir_ports = Vec::new();
        self.bundle_inputs = Vec::new();
        self.bundle_origins = Vec::new();
        let mut k: usize = 0;
        while k < ports.len()
            invariant
                self.grows(old(self)),
                (scope.0 as int) < self.scopes@.len(),
                k <= ports@.len(),
            decreases ports@.len() - k,
        {
            let def = self.declare_checked(&ports[k].name, DefKind::Port { dir: ports[k].dir }, scope, false);
            match &ports[k].bundle {
                Some(origin) => {
                    if ports[k].dir == PortDir::In {
                        self.bundle_inputs.push(def);
                    }
                    self.bundle_origins.push(origin.clone());
                },
                None => {},
            }
            if ports[k].dir.is_bidirectional() {
                self.bidir_ports.push(def);
            }
            k = k + 1;
        }
        let mut k: usize = 0;
        while k < ports.len()
            invariant
                self.grows(old(self)),
                (scope.0 as int) < self.scopes@.len(),
                k <= ports@.len(),
            decreases ports@.len() - k,
        {
            self.resolve_type(file, ports[k].ty, scope, fuel);
            match &ports[k].domain {
                Some(d) => {
                    self.resolve_domain_ref(d, scope);
                },
                None => {},
            }
            k = k + 1;
        }
        let mut later: Vec<(String, Span)> = Vec::new();
        let mut k: usize = 0;
        while k < body.len()
            invariant
                k <= body@.len(),
            decreases body@.len() - k,
        {
            match declared_name(&body[k]) {
                Some(n) => {
                    add_first(&mut later, n);
                },
                None => {},
            }
            k = k + 1;
        }
        self.pending.push(later);
        let mut k: usize = 0;
        while k < body.len()
            invariant
                self.grows(old(self)),
                (scope.0 as int) < self.scopes@.len(),
                (module_def.0 as int) < self.defs@.len(),
                k <= body@.len(),
            decreases body@.len() - k,
        {
            self.resolve_stmt(file, &body[k], scope, module_def, fuel);
            k = k + 1;
        }
        self.pending.pop();
        self.in_contract = true;
        let mut k: usize = 0;
        while k < contracts.len()
            invariant
                self.grows(old(self)),
                (scope.0 as int) < self.scopes@.len(),
                k <= contracts@.len(),
            decreases contracts@.len() - k,
        {
            self.resolve_expr(file, contracts[k], scope, fuel);
            k = k + 1;
        }
        self.in_contract = false;
    }

    /// An extern module: its ports are declared (a duplicate is E1003, no
    /// shadowing warning); an `@Name` that names no domain, symbolic
    /// domain, import or port opens a symbolic domain of the extern.
    fn resolve_extern_body(&mut self, file: &RFile, name: &Name, generics: &Vec<RGeneric>, ports: &Vec<RPort>, fuel: u64)
        requires
            old(self).wf(),
        ensures
            final(self).grows(old(self)),
    {
        let extern_def = self.lookup_item_def(name.text.as_str());
        let root = self.root;
        let scope = self.new_scope(ScopeKind::Extern(extern_def), Some(root));
        self.declare_generics(file, generics, scope, fuel);
        let mut k: usize = 0;
        while k < ports.len()
            invariant
                self.grows(old(self)),
                (scope.0 as int) < self.scopes@.len(),
                k <= ports@.len(),
            decreases ports@.len() - k,
        {
            if !self.report_duplicate(&ports[k].name, scope) {
                self.declare(&ports[k].name, DefKind::Port { dir: ports[k].dir }, scope, false);
            }
            k = k + 1;
        }
        let mut k: usize = 0;
        while k < ports.len()
            invariant
                self.grows(old(self)),
                (scope.0 as int) < self.scopes@.len(),
                k <= ports@.len(),
            decreases ports@.len() - k,
        {
            self.resolve_type(file, ports[k].ty, scope, fuel);
            match &ports[k].domain {
                Some(d) => {
                    let existing = self.lookup_visible(d.text.as_str(), scope);
                    let domain_like = match existing {
                        Some(e) => match self.defs[e.0 as usize].kind {
                            DefKind::Domain | DefKind::DomainParam | DefKind::Import
                            | DefKind::Port { .. } | DefKind::Error => true,
                            _ => false,
                        },
                        None => false,
                    };
                    if domain_like {
                        self.resolve_domain_ref(d, scope);
                    } else {
                        let def = self.add_def(DefKind::DomainParam, d.text.as_str(), d.span, scope, false);
                        self.bind(scope, d.text.as_str(), def);
                        self.reads.set(def.0 as usize, true);
                        self.use_spans.push((d.span, def));
                    }
                },
                None => {},
            }
            k = k + 1;
        }
    }

    /// Pass two for one item.
    fn resolve_item_body(&mut self, file: &RFile, i: usize, fuel: u64)
        requires
            old(self).wf(),
            i < file.items@.len(),
        ensures
            final(self).grows(old(self)),
    {
        let root = self.root;
        match &file.items[i].kind {
            RItemKind::Module { name, generics, ports, body, contracts } => {
                self.resolve_module_body(file, name, generics, ports, body, contracts, fuel);
            },
            RItemKind::Extern { name, generics, ports } => {
                self.resolve_extern_body(file, name, generics, ports, fuel);
            },
            RItemKind::Domain { values, .. } => {
                self.resolve_list(file, values, root, fuel);
            },
            RItemKind::Function { name, generics, params, ret, contracts, body } => {
                let fn_def = self.lookup_item_def(name.text.as_str());
                let scope = self.new_scope(ScopeKind::Function(fn_def), Some(root));
                self.declare_generics(file, generics, scope, fuel);
                let mut k: usize = 0;
                while k < params.len()
                    invariant
                        self.grows(old(self)),
                        (scope.0 as int) < self.scopes@.len(),
                        k <= params@.len(),
                    decreases params@.len() - k,
                {
                    self.declare_checked(&params[k].0, DefKind::LocalBinding, scope, false);
                    self.resolve_type(file, params[k].1, scope, fuel);
                    k = k + 1;
                }
                match ret {
                    Some(t) => {
                        self.resolve_type(file, *t, scope, fuel);
                    },
                    None => {},
                }
                self.in_contract = true;
                self.resolve_list(file, contracts, scope, fuel);
                self.in_contract = false;
                self.resolve_block(file, *body, scope, fuel);
            },
            RItemKind::Struct { generics, fields, .. } => {
                let scope = self.new_scope(ScopeKind::Block, Some(root));
                self.declare_generics(file, generics, scope, fuel);
                let mut k: usize = 0;
                while k < fields.len()
                    invariant
                        self.grows(old(self)),
                        (scope.0 as int) < self.scopes@.len(),
                        k <= fields@.len(),
                    decreases fields@.len() - k,
                {
                    self.resolve_type(file, fields[k].1, scope, fuel);
                    k = k + 1;
                }
            },
            RItemKind::Enum { repr, variants, .. } => {
                match repr {
                    Some(t) => {
                        self.resolve_type(file, *t, root, fuel);
                    },
                    None => {},
                }
                let mut k: usize = 0;
                while k < variants.len()
                    invariant
                        self.grows(old(self)),
                        (root.0 as int) < self.scopes@.len(),
                        k <= variants@.len(),
                    decreases variants@.len() - k,
                {
                    match variants[k].1 {
                        Some(e) => {
                            self.resolve_expr(file, e, root, fuel);
                        },
                        None => {},
                    }
                    k = k + 1;
                }
            },
            RItemKind::Const { ty, value, .. } => {
                self.resolve_type(file, *ty, root, fuel);
                self.resolve_expr(file, *value, root, fuel);
            },
            RItemKind::TypeAlias { generics, target, .. } => {
                let scope = self.new_scope(ScopeKind::Block, Some(root));
                self.declare_generics(file, generics, scope, fuel);
                self.resolve_type(file, *target, scope, fuel);
            },
            RItemKind::Other => {},
        }
    }

    /// W1001 (input port, wire, binding), W1004 (register), W1005
    /// (import), W3004 (domain) for each definition never read; names
    /// starting with `_`, public items and the ports of extern modules
    /// are exempt.
    fn report_unused(&mut self)
        requires
            old(self).wf(),
        ensures
            final(self).grows(old(self)),
            unused_reported(final(self).diagnostics@, old(self).diagnostics@,
                unused_list(*old(self), old(self).defs@.len() as int)),
            final(self).defs == old(self).defs,
            final(self).scopes == old(self).scopes,
            final(self).reads == old(self).reads,
    {
        let ghost d0 = self.diagnostics@;
        assert(self.diagnostics@.subrange(0, d0.len() as int) == d0);
        let mut i: usize = 0;
        while i < self.defs.len()
            invariant
                self.grows(old(self)),
                self.defs == old(self).defs,
                self.scopes == old(self).scopes,
                self.reads == old(self).reads,
                d0 == old(self).diagnostics@,
                i <= self.defs@.len(),
                unused_reported(self.diagnostics@, d0, unused_list(*old(self), i as int)),
            decreases self.defs@.len() - i,
        {
            let ghost dj = self.diagnostics@;
            let ghost u = unused_list(*old(self), i as int);
            let exempt = starts_with_underscore(self.defs[i].name.as_str()) || self.defs[i].is_public
                || match self.scopes[self.defs[i].scope.0 as usize].kind {
                ScopeKind::Extern(_) => true,
                _ => false,
            };
            if !exempt && !self.reads[i] {
                let code = match self.defs[i].kind {
                    DefKind::Port { dir: PortDir::In } => Some(ResolveCode::W1001),
                    DefKind::Register => Some(ResolveCode::W1004),
                    DefKind::Wire | DefKind::LocalBinding => Some(ResolveCode::W1001),
                    DefKind::Domain => Some(ResolveCode::W3004),
                    DefKind::Import => Some(ResolveCode::W1005),
                    _ => None,
                };
                assert(code == unused_code(*old(self), i as int));
                match code {
                    Some(c) => {
                        let d = &self.defs[i];
                        let n = Name { text: d.name.clone(), span: d.span };
                        self.diag(c, &n, None, None);
                        proof {
                            let u2 = unused_list(*old(self), i + 1);
                            assert(u2 == u.push((c, old(self).defs@[i as int].span, old(self).defs@[i as int].name@)));
                            assert(self.diagnostics@.subrange(0, d0.len() as int) == d0) by {
                                assert(self.diagnostics@.subrange(0, dj.len() as int) == dj);
                                assert(dj.subrange(0, d0.len() as int) == d0);
                            }
                            assert forall|m: int| 0 <= m < u2.len() implies {
                                &&& (#[trigger] self.diagnostics@[d0.len() + m]).code == u2[m].0
                                &&& self.diagnostics@[d0.len() + m].span == u2[m].1
                                &&& self.diagnostics@[d0.len() + m].name@ == u2[m].2
                            } by {
                                if m < u.len() {
                                    assert(self.diagnostics@[d0.len() + m] == dj[d0.len() + m]);
                                }
                            }
                        }
                    },
                    None => {},
                }
            } else {
                assert(unused_code(*old(self), i as int) is None);
            }
            i = i + 1;
        }
    }
}

fn starts_with_underscore(s: &str) -> (r: bool)
    ensures
        r == (s@.len() > 0 && s@[0] == '_'),
{
    if s.unicode_len() == 0 {
        false
    } else {
        s.get_char(0) == '_'
    }
}

impl Resolver {
    /// The distinct sources of the instantiation edges, ascending.
    fn cycle_starts(&self) -> (r: Vec<DefId>)
        ensures
            forall|i: int, j: int| 0 <= i < j < r@.len() ==> r@[i].0 < r@[j].0,
            forall|d: DefId| r@.contains(d) <==> exists|k: int|
                0 <= k < self.instance_edges@.len() && (#[trigger] self.instance_edges@[k]).0 == d,
    {
        let mut starts: Vec<DefId> = Vec::new();
        let mut k: usize = 0;
        while k < self.instance_edges.len()
            invariant
                k <= self.instance_edges@.len(),
                forall|i: int, j: int| 0 <= i < j < starts@.len() ==> starts@[i].0 < starts@[j].0,
                forall|d: DefId| starts@.contains(d) <==> exists|m: int|
                    0 <= m < k && (#[trigger] self.instance_edges@[m]).0 == d,
            decreases self.instance_edges@.len() - k,
        {
            let from = self.instance_edges[k].0;
            let mut seen = false;
            let mut j: usize = 0;
            while j < starts.len()
                invariant
                    j <= starts@.len(),
                    seen <==> exists|i: int| 0 <= i < j && starts@[i] == from,
                decreases starts@.len() - j,
            {
                if starts[j] == from {
                    seen = true;
                }
                j = j + 1;
            }
            let ghost before = starts@;
            if !seen {
                let mut pos: usize = starts.len();
                while pos > 0 && starts[pos - 1].0 > from.0
                    invariant
                        pos <= starts@.len(),
                        forall|i: int| pos <= i < starts@.len() ==> starts@[i].0 > from.0,
                    decreases pos,
                {
                    pos = pos - 1;
                }
                proof {
                    if pos > 0 {
                        assert(starts@[pos - 1] != from);
                        assert(starts@[pos - 1].0 != from.0);
                    }
                }
                starts.insert(pos, from);
                proof {
                    assert forall|i: int, j: int| 0 <= i < j < starts@.len() implies starts@[i].0 < starts@[j].0 by {
                        if i < pos && j > pos {
                            assert(before[i].0 <= before[pos - 1].0);
                        }
                    }
                    assert forall|d: DefId| starts@.contains(d) <==> exists|m: int|
                        0 <= m < k + 1 && (#[trigger] self.instance_edges@[m]).0 == d by {
                        if starts@.contains(d) {
                            let i = choose|i: int| 0 <= i < starts@.len() && starts@[i] == d;
                            if i != pos {
                                let i2 = if i < pos { i } else { i - 1 };
                                assert(before[i2] == d);
                                assert(before.contains(d));
                            }
                        }
                        if exists|m: int| 0 <= m < k + 1 && (#[trigger] self.instance_edges@[m]).0 == d {
                            let m = choose|m: int| 0 <= m < k + 1 && (#[trigger] self.instance_edges@[m]).0 == d;
                            if m == k {
                                assert(starts@[pos as int] == d);
                            } else {
                                assert(before.contains(d));
                                let i = choose|i: int| 0 <= i < before.len() && before[i] == d;
                                if i < pos {
                                    assert(starts@[i] == d);
                                } else {
                                    assert(starts@[i + 1] == d);
                                }
                            }
                        }
                    }
                }
            } else {
                proof {
                    assert forall|d: DefId| starts@.contains(d) <==> exists|m: int|
                        0 <= m < k + 1 && (#[trigger] self.instance_edges@[m]).0 == d by {
                        if exists|m: int| 0 <= m < k + 1 && (#[trigger] self.instance_edges@[m]).0 == d {
                            let m = choose|m: int| 0 <= m < k + 1 && (#[trigger] self.instance_edges@[m]).0 == d;
                            if m == k {
                                let i = choose|i: int| 0 <= i < j && starts@[i] == from;
                                assert(starts@[i] == d);
                            }
                        }
                    }
                }
            }
            k = k + 1;
        }
        starts
    }

    /// E1006 for each module instantiation cycle, reported once, from the
    /// module of least definition in the cycle.
    fn check_instance_cycles(&mut self)
        requires
            old(self).wf(),
        ensures
            final(self).grows(old(self)),
    {
        let n = self.defs.len();
        let starts = self.cycle_starts();
        let mut visited: Vec<bool> = Vec::new();
        let mut i: usize = 0;
        while i < n
            invariant
                i <= n,
                visited@.len() == i,
            decreases n - i,
        {
            visited.push(false);
            i = i + 1;
        }
        let mut reported: Vec<DefId> = Vec::new();
        let mut s: usize = 0;
        while s < starts.len()
            invariant
                self.grows(old(self)),
                visited@.len() == n,
                s <= starts@.len(),
            decreases starts@.len() - s,
        {
            let mut stack: Vec<DefId> = vec![starts[s]];
            let mut on_path: Vec<bool> = Vec::new();
            let mut i: usize = 0;
            while i < n
                invariant
                    i <= n,
                    on_path@.len() == i,
                decreases n - i,
            {
                on_path.push(false);
                i = i + 1;
            }
            let ghost fuel = crate::handshake::num_unvisited(visited@);
            self.dfs_cycle(starts[s], &mut visited, &mut on_path, &mut stack, &mut reported, Ghost(fuel));
            s = s + 1;
        }
    }

    fn dfs_cycle(
        &mut self,
        node: DefId,
        visited: &mut Vec<bool>,
        on_path: &mut Vec<bool>,
        stack: &mut Vec<DefId>,
        reported: &mut Vec<DefId>,
        Ghost(fuel): Ghost<nat>,
    )
        requires
            old(self).wf(),
            old(visited)@.len() == old(on_path)@.len(),
            fuel == crate::handshake::num_unvisited(old(visited)@),
        ensures
            final(self).grows(old(self)),
            final(self).instance_edges == old(self).instance_edges,
            final(visited)@.len() == old(visited)@.len(),
            final(on_path)@.len() == old(on_path)@.len(),
            forall|i: int| 0 <= i < old(visited)@.len() && old(visited)@[i] ==> final(visited)@[i],
        decreases fuel,
    {
        let v = node.0 as usize;
        if v >= visited.len() {
            return;
        }
        if on_path[v] {
            // The stack ends with the second visit of `node`: the cycle
            // starts at its first.
            let mut first: usize = 0;
            while first < stack.len() && stack[first] != node
                invariant
                    first <= stack@.len(),
                decreases stack@.len() - first,
            {
                first = first + 1;
            }
            if stack.len() > 0 && first < stack.len() - 1 {
                let mut members: Vec<DefId> = Vec::new();
                let mut k: usize = first;
                while k < stack.len() - 1
                    invariant
                        stack@.len() > 0,
                        first <= k <= stack@.len() - 1,
                    decreases stack@.len() - 1 - k,
                {
                    members.push(stack[k]);
                    k = k + 1;
                }
                self.report_cycle(&members, reported);
            }
            return;
        }
        if visited[v] {
            return;
        }
        let ghost v0 = visited@;
        visited.set(v, true);
        proof {
            crate::handshake::lemma_mark(v0, v as int);
        }
        on_path.set(v, true);
        let mut k: usize = 0;
        while k < self.instance_edges.len()
            invariant
                self.grows(old(self)),
                self.instance_edges == old(self).instance_edges,
                visited@.len() == old(visited)@.len(),
                on_path@.len() == old(on_path)@.len(),
                old(visited)@.len() == old(on_path)@.len(),
                v < visited@.len(),
                crate::handshake::num_unvisited(visited@) < fuel,
                forall|i: int| 0 <= i < old(visited)@.len() && old(visited)@[i] ==> visited@[i],
                k <= self.instance_edges@.len(),
            decreases self.instance_edges@.len() - k,
        {
            if self.instance_edges[k].0 == node {
                let next = self.instance_edges[k].1;
                stack.push(next);
                let ghost vb = visited@;
                let ghost fuel2 = crate::handshake::num_unvisited(visited@);
                self.dfs_cycle(next, visited, on_path, stack, reported, Ghost(fuel2));
                proof {
                    crate::handshake::lemma_mono(vb, visited@);
                }
                stack.pop();
            }
            k = k + 1;
        }
        on_path.set(v, false);
    }

    /// Reports a cycle once, starting at its member of least definition.
    fn report_cycle(&mut self, members: &Vec<DefId>, reported: &mut Vec<DefId>)
        requires
            old(self).wf(),
        ensures
            final(self).grows(old(self)),
            final(self).instance_edges == old(self).instance_edges,
            final(self).defs == old(self).defs,
            final(self).scopes == old(self).scopes,
            final(self).reads == old(self).reads,
            members@.len() == 0 ==> final(reported)@ == old(reported)@
                && final(self).diagnostics@ == old(self).diagnostics@,
            members@.len() > 0 ==> exists|h: DefId| least_member(members@, h) && cycle_outcome(
                old(reported)@, final(reported)@, old(self).diagnostics@, final(self).diagnostics@,
                old(self).defs@, h),
    {
        if members.len() == 0 {
            return;
        }
        let mut pivot: usize = 0;
        let mut k: usize = 1;
        while k < members.len()
            invariant
                self.wf(),
                *self == *old(self),
                members@.len() > 0,
                pivot < members@.len(),
                k <= members@.len(),
                forall|i: int| 0 <= i < k ==> members@[pivot as int].0 <= (#[trigger] members@[i]).0,
            decreases members@.len() - k,
        {
            if members[k].0 < members[pivot].0 {
                pivot = k;
            }
            k = k + 1;
        }
        let head = members[pivot];
        assert(least_member(members@, head)) by {
            assert(members@[pivot as int] == head);
        }
        let mut j: usize = 0;
        while j < reported.len()
            invariant
                self.wf(),
                *self == *old(self),
                *reported == *old(reported),
                least_member(members@, head),
                j <= reported@.len(),
                forall|i: int| 0 <= i < j ==> reported@[i] != head,
            decreases reported@.len() - j,
        {
            if reported[j] == head {
                assert(reported@[j as int] == head);
                assert(cycle_outcome(old(reported)@, reported@, old(self).diagnostics@, self.diagnostics@,
                    old(self).defs@, head));
                return;
            }
            j = j + 1;
        }
        assert(!old(reported)@.contains(head));
        reported.push(head);
        if (head.0 as usize) >= self.defs.len() {
            assert(cycle_outcome(old(reported)@, reported@, old(self).diagnostics@, self.diagnostics@,
                old(self).defs@, head));
            return;
        }
        // `A -> B -> A`, from the head around.
        let mut text: Vec<char> = Vec::new();
        let len = members.len();
        let mut i: usize = 0;
        while i < len
            invariant
                len == members@.len(),
                len > 0,
                pivot < len,
                i <= len,
                self.wf(),
                *self == *old(self),
            decreases len - i,
        {
            let idx = if i < len - pivot {
                pivot + i
            } else {
                i - (len - pivot)
            };
            let d = members[idx];
            if i > 0 {
                crate::text::extend_chars(&mut text, " -> ");
            }
            if (d.0 as usize) < self.defs.len() {
                crate::text::extend_chars(&mut text, self.defs[d.0 as usize].name.as_str());
            }
            i = i + 1;
        }
        crate::text::extend_chars(&mut text, " -> ");
        crate::text::extend_chars(&mut text, self.defs[head.0 as usize].name.as_str());
        let span = self.defs[head.0 as usize].span;
        let name = Name { text: crate::text::string_of(&text), span };
        self.diag(ResolveCode::E1006, &name, None, None);
        assert(self.diagnostics@.subrange(0, old(self).diagnostics@.len() as int) == old(self).diagnostics@);
        assert(cycle_outcome(old(reported)@, reported@, old(self).diagnostics@, self.diagnostics@,
            old(self).defs@, head));
    }
}

/// The walk bound of a file: one more than its node count, capped.
pub open spec fn walk_bound_spec(file: RFile) -> int {
    let cap = 0x1000_0000_0000_0000int;
    let n: int = (1 + file.exprs@.len() + file.types@.len() + file.patterns@.len() + file.blocks@.len()) as int;
    if n < cap {
        n
    } else {
        cap
    }
}

/// `total + n`, capped.
fn sat_add(total: u64, n: usize) -> (r: u64)
    requires
        total <= 0x1000_0000_0000_0000u64,
    ensures
        r == if total + n < 0x1000_0000_0000_0000int {
            total + n
        } else {
            0x1000_0000_0000_0000int
        },
{
    let cap: u64 = 0x1000_0000_0000_0000;
    if n as u128 >= cap as u128 {
        cap
    } else if total >= cap - n as u64 {
        cap
    } else {
        total + n as u64
    }
}

/// One more than the number of nodes of the file (capped): no tree walk
/// of the file goes deeper.
fn walk_bound(file: &RFile) -> (r: u64)
    ensures
        r as int == walk_bound_spec(*file),
{
    let t1 = sat_add(1, file.exprs.len());
    let t2 = sat_add(t1, file.types.len());
    let t3 = sat_add(t2, file.patterns.len());
    sat_add(t3, file.blocks.len())
}

/// Resolves every name of a file: imports, then the items (pass one),
/// then their bodies (pass two), then instantiation cycles, then the
/// usage warnings.
pub fn resolve_file(file: &RFile) -> (r: ResolveResult)
    ensures
        r.defs@.len() >= 1,
        r.defs@.len() < u32::MAX,
        r.reads@.len() == r.defs@.len(),
        forall|s: int|
            0 <= s < r.scopes@.len() ==> ((#[trigger] r.scopes@[s]).parent matches Some(p) ==> p.0 < s),
        forall|s: int, k: int|
            0 <= s < r.scopes@.len() && 0 <= k < r.scopes@[s].bindings@.len() ==> ((
            #[trigger] r.scopes@[s].bindings@[k]).1.0 as int) < r.defs@.len(),
        exists|before: Resolver|
            before.defs == r.defs && before.scopes == r.scopes && before.reads == r.reads && unused_reported(
                r.diagnostics@,
                before.diagnostics@,
                unused_list(before, r.defs@.len() as int),
            ),
        r.scopes@.len() >= 2,
        forall|j: int| 0 <= j < file.imports@.len() ==> binding_of(r.scopes@[1].bindings@, (#[trigger] file.imports@[j]).text@) is Some,
        forall|i: int| 0 <= i < file.items@.len() ==> (item_name((#[trigger] file.items@[i]).kind) matches Some(n) ==> binding_of(
            r.scopes@[1].bindings@,
            n.text@,
        ) is Some),
        forall|i: int| 0 <= i < file.items@.len() ==> (item_name((#[trigger] file.items@[i]).kind) matches Some(n)
            ==> (item_name_taken(*file, i, n.text@) ==> duplicate_reported(r.diagnostics@, n.span))),
        ({
            let dups = dup_imports(file.imports@, Seq::empty());
            &&& r.diagnostics@.len() >= dups.len()
            &&& added_diags(r.diagnostics@.subrange(0, dups.len() as int), Seq::empty(), ResolveCode::E1010, dups)
        }),
{
    let mut res = Resolver::new(file);
    let ghost r0 = res;
    res.collect_imports(file);
    let ghost r1 = res;
    proof {
        let dups = dup_imports(file.imports@, Seq::empty());
        assert(r0.scopes@[1].bindings@ =~= Seq::<(String, DefId)>::empty());
        assert forall|j: int| 0 <= j < file.imports@.len() implies binding_of(r1.scopes@[1].bindings@, (#[trigger] file.imports@[j]).text@) is Some by {
        }
    }
    let fuel = walk_bound(file);
    let mut i: usize = 0;
    while i < file.items.len()
        invariant
            res.wf(),
            res.defs@.len() >= 1,
            i <= file.items@.len(),
            res.grows(&r1),
            res.root == ScopeId(1),
            r1.scopes@.len() >= 2,
            forall|k: int| 0 <= k < i ==> (item_name((#[trigger] file.items@[k]).kind) matches Some(n) ==> binding_of(
                res.scopes@[1].bindings@,
                n.text@,
            ) is Some),
            forall|k: int| 0 <= k < i ==> (item_name((#[trigger] file.items@[k]).kind) matches Some(n)
                ==> (item_name_taken(*file, k, n.text@) ==> duplicate_reported(res.diagnostics@, n.span))),
            forall|j: int| 0 <= j < file.imports@.len() ==> binding_of(r1.scopes@[1].bindings@, (#[trigger] file.imports@[j]).text@) is Some,
        decreases file.items@.len() - i,
    {
        let ghost t0 = res;
        proof {
            if let Some(n) = item_name(file.items@[i as int].kind) {
                if item_name_taken(*file, i as int, n.text@) {
                    if exists|j: int| 0 <= j < file.imports@.len() && (#[trigger] file.imports@[j]).text@ == n.text@ {
                        let j = choose|j: int| 0 <= j < file.imports@.len() && (#[trigger] file.imports@[j]).text@ == n.text@;
                        assert(binding_of(r1.scopes@[1].bindings@, file.imports@[j].text@) is Some);
                    } else {
                        let k = choose|k: int|
                            0 <= k < i && (item_name((#[trigger] file.items@[k]).kind) matches Some(n2) && n2.text@ == n.text@);
                        assert(item_name(file.items@[k].kind) matches Some(n2) && binding_of(res.scopes@[1].bindings@, n2.text@) is Some);
                    }
                    assert(binding_of(res.scopes@[1].bindings@, n.text@) is Some);
                }
            }
        }
        res.collect_item(file, i);
        proof {
            assert forall|k: int| 0 <= k < i + 1 implies (item_name((#[trigger] file.items@[k]).kind) matches Some(n)
                ==> (item_name_taken(*file, k, n.text@) ==> duplicate_reported(res.diagnostics@, n.span))) by {
                if let Some(n) = item_name(file.items@[k].kind) {
                    if item_name_taken(*file, k, n.text@) {
                        if k < i {
                            let q = choose|q: int| 0 <= q < t0.diagnostics@.len() && (#[trigger] t0.diagnostics@[q]).code == ResolveCode::E1003
                                && t0.diagnostics@[q].span == n.span;
                            assert(res.diagnostics@[q] == t0.diagnostics@[q]);
                        }
                    }
                }
            }
        }
        proof {
            assert forall|k: int| 0 <= k < i + 1 implies (item_name((#[trigger] file.items@[k]).kind) matches Some(n) ==> binding_of(
                res.scopes@[1].bindings@,
                n.text@,
            ) is Some) by {
                if let Some(n) = item_name(file.items@[k].kind) {
                    if k < i {
                        assert(binding_of(t0.scopes@[1].bindings@, n.text@) is Some);
                    }
                }
            }
        }
        i = i + 1;
    }
    let ghost r2 = res;
    let mut i: usize = 0;
    while i < file.items.len()
        invariant
            res.wf(),
            res.defs@.len() >= 1,
            i <= file.items@.len(),
            res.grows(&r2),
            r2.grows(&r1),
        decreases file.items@.len() - i,
    {
        let ghost t0 = res;
        res.resolve_item_body(file, i, fuel);
        i = i + 1;
    }
    res.check_instance_cycles();
    proof {
        let dups = dup_imports(file.imports@, Seq::empty());
        assert(diags_kept(r1.diagnostics@, res.diagnostics@));
        assert(res.diagnostics@.subrange(0, dups.len() as int) =~= r1.diagnostics@);
    }
    let ghost before = res;
    res.report_unused();
    assert(before.defs == res.defs && before.scopes == res.scopes && before.reads == res.reads);
    proof {
        let dups = dup_imports(file.imports@, Seq::empty());
        assert(r0.scopes@[r0.root.0 as int].bindings@ =~= Seq::<(String, DefId)>::empty());
        assert(r0.diagnostics@ =~= Seq::<ResolveDiag>::empty());
        assert(added_diags(r1.diagnostics@, Seq::empty(), ResolveCode::E1010, dups));
        assert(diags_kept(r1.diagnostics@, res.diagnostics@));
        assert(res.diagnostics@.subrange(0, dups.len() as int) =~= r1.diagnostics@);
        assert(diags_kept(r2.diagnostics@, res.diagnostics@));
        assert forall|i: int| 0 <= i < file.items@.len() implies (item_name((#[trigger] file.items@[i]).kind) matches Some(n)
            ==> (item_name_taken(*file, i, n.text@) ==> duplicate_reported(res.diagnostics@, n.span))) by {
            if let Some(n) = item_name(file.items@[i].kind) {
                if item_name_taken(*file, i, n.text@) {
                    let q = choose|q: int| 0 <= q < r2.diagnostics@.len() && (#[trigger] r2.diagnostics@[q]).code == ResolveCode::E1003
                        && r2.diagnostics@[q].span == n.span;
                    assert(res.diagnostics@[q] == r2.diagnostics@[q]);
                }
            }
        }
    }
    assert(unused_reported(res.diagnostics@, before.diagnostics@, unused_list(before, res.defs@.len() as int)));
    let r = ResolveResult {
        defs: res.defs,
        diagnostics: res.diagnostics,
        resolutions: res.resolutions,
        decl_spans: res.decl_spans,
        use_spans: res.use_spans,
        reads: res.reads,
        instance_module: res.instance_module,
        scopes: res.scopes,
        item_of_def: res.item_of_def,
        variant_info: res.variant_info,
    };
    assert(before.defs == r.defs && before.scopes == r.scopes && before.reads == r.reads);
    r
}

} // verus!
