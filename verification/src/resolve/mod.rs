//! Name resolution in two passes: items are collected first, so item
//! names may be used before their declaration; then bodies are resolved
//! in order, where a module or block name must be declared before it is
//! used (E1002). Prelude builtins live in the outermost scope.

pub mod ir;
pub mod walk;

use vstd::prelude::*;

use crate::ast::Span;
use crate::defs::{DefId, DefKind};
use crate::names::prelude_builtins;
use crate::resolve::ir::{Name, RBundleOrigin, RFile};
use crate::suggest::suggestion_for;
use crate::text::eq_str;

verus! {

/// A scope, numbered in creation order.
#[derive(Clone, Copy, PartialEq, Eq, Debug, Structural)]
pub struct ScopeId(pub u32);

/// What a scope belongs to.
#[derive(Clone, Copy, PartialEq, Eq, Debug, Structural)]
pub enum ScopeKind {
    Root,
    Prelude,
    Module(DefId),
    /// The port scope of an extern module: its ports belong to the
    /// external SystemVerilog module, so usage warnings skip them.
    Extern(DefId),
    Function(DefId),
    Block,
    Loop,
    MatchArm,
}

/// A scope: its parent and its bindings (one per name).
#[derive(Clone, Debug)]
pub struct Scope {
    pub kind: ScopeKind,
    pub parent: Option<ScopeId>,
    pub bindings: Vec<(String, DefId)>,
}

/// A definition.
#[derive(Clone, Debug)]
pub struct DefData {
    pub kind: DefKind,
    pub name: String,
    /// Where it is declared.
    pub span: Span,
    pub scope: ScopeId,
    pub is_public: bool,
}

/// Diagnostic codes of name resolution.
#[derive(Clone, Copy, PartialEq, Eq, Debug, Structural)]
pub enum ResolveCode {
    /// A construct without a code-generation mapping yet: the whole
    /// payload of a flattened bundle field used as a value.
    E0003,
    /// Undefined name, or a non-module instantiated.
    E1001,
    /// Used before its declaration in an ordered body.
    E1002,
    /// Defined twice in one scope.
    E1003,
    /// `::` on something that is not a namespace.
    E1005,
    /// Cyclic module instantiation.
    E1006,
    /// Unknown enum variant.
    E1007,
    /// Unknown struct field.
    E1008,
    /// Unknown module port.
    E1009,
    /// The same name imported twice.
    E1010,
    /// An annotation that names no clock domain.
    E3002,
    /// Assignment to a bundle field whose direction is input.
    E4005,
    /// Direct assignment to a bidirectional port.
    E4008,
    /// `prev()` outside a contract, or with bad arguments.
    E5017,
    /// Unused input port or binding.
    W1001,
    /// A definition shadowing one of an outer scope.
    W1002,
    /// A definition shadowing a builtin.
    W1003,
    /// Unused register.
    W1004,
    /// Unused import.
    W1005,
    /// Unused domain definition.
    W3004,
}

/// A finding of name resolution.
#[derive(Clone, Debug)]
pub struct ResolveDiag {
    pub code: ResolveCode,
    /// The primary span.
    pub span: Span,
    /// The name the finding is about.
    pub name: String,
    /// The related definition (previous definition, later declaration,
    /// shadowed definition).
    pub secondary: Option<Span>,
    /// The closest known name, offered as a rename.
    pub suggestion: Option<String>,
}

impl ResolveDiag {
    /// The code of each finding, as text.
    pub open spec fn code_spec(&self) -> Seq<char> {
        match self.code {
            ResolveCode::E0003 => "E0003"@,
            ResolveCode::E1001 => "E1001"@,
            ResolveCode::E1002 => "E1002"@,
            ResolveCode::E1003 => "E1003"@,
            ResolveCode::E1005 => "E1005"@,
            ResolveCode::E1006 => "E1006"@,
            ResolveCode::E1007 => "E1007"@,
            ResolveCode::E1008 => "E1008"@,
            ResolveCode::E1009 => "E1009"@,
            ResolveCode::E1010 => "E1010"@,
            ResolveCode::E3002 => "E3002"@,
            ResolveCode::E4005 => "E4005"@,
            ResolveCode::E4008 => "E4008"@,
            ResolveCode::E5017 => "E5017"@,
            ResolveCode::W1001 => "W1001"@,
            ResolveCode::W1002 => "W1002"@,
            ResolveCode::W1003 => "W1003"@,
            ResolveCode::W1004 => "W1004"@,
            ResolveCode::W1005 => "W1005"@,
            ResolveCode::W3004 => "W3004"@,
        }
    }

    /// The code as text.
    pub fn code_str(&self) -> (r: &'static str)
        ensures
            r@ == self.code_spec(),
    {
        match self.code {
            ResolveCode::E0003 => "E0003",
            ResolveCode::E1001 => "E1001",
            ResolveCode::E1002 => "E1002",
            ResolveCode::E1003 => "E1003",
            ResolveCode::E1005 => "E1005",
            ResolveCode::E1006 => "E1006",
            ResolveCode::E1007 => "E1007",
            ResolveCode::E1008 => "E1008",
            ResolveCode::E1009 => "E1009",
            ResolveCode::E1010 => "E1010",
            ResolveCode::E3002 => "E3002",
            ResolveCode::E4005 => "E4005",
            ResolveCode::E4008 => "E4008",
            ResolveCode::E5017 => "E5017",
            ResolveCode::W1001 => "W1001",
            ResolveCode::W1002 => "W1002",
            ResolveCode::W1003 => "W1003",
            ResolveCode::W1004 => "W1004",
            ResolveCode::W1005 => "W1005",
            ResolveCode::W3004 => "W3004",
        }
    }
}

/// The first binding of `name` in `bindings`.
pub open spec fn binding_of(bindings: Seq<(String, DefId)>, name: Seq<char>) -> Option<DefId>
    decreases bindings.len(),
{
    if bindings.len() == 0 {
        None
    } else if bindings[0].0@ == name {
        Some(bindings[0].1)
    } else {
        binding_of(bindings.drop_first(), name)
    }
}

/// No two bindings of a scope share a name.
pub open spec fn names_unique(bindings: Seq<(String, DefId)>) -> bool {
    forall|i: int, j: int| 0 <= i < j < bindings.len() ==> (#[trigger] bindings[i]).0@ != (#[trigger] bindings[j]).0@
}

/// `b` starts with the findings of `a`.
pub open spec fn diags_kept(a: Seq<ResolveDiag>, b: Seq<ResolveDiag>) -> bool {
    &&& a.len() <= b.len()
    &&& forall|i: int| 0 <= i < a.len() ==> #[trigger] b[i] == a[i]
}

/// Every name bound in a scope of `a` is still bound there in `b`.
pub open spec fn bindings_kept(a: Seq<Scope>, b: Seq<Scope>) -> bool {
    forall|s: int, n: Seq<char>|
        0 <= s < a.len() && (#[trigger] binding_of(a[s].bindings@, n)) is Some ==> binding_of(b[s].bindings@, n) is Some
}

/// Appending an entry keeps every binding and adds the entry's where
/// its name was unbound.
pub proof fn lemma_binding_of_push(b: Seq<(String, DefId)>, x: (String, DefId), n: Seq<char>)
    ensures
        binding_of(b.push(x), n) == match binding_of(b, n) {
            Some(d) => Some(d),
            None => if x.0@ == n {
                Some(x.1)
            } else {
                None
            },
        },
    decreases b.len(),
{
    if b.len() > 0 {
        assert(b.push(x).drop_first() == b.drop_first().push(x));
        assert(b.push(x)[0] == b[0]);
        lemma_binding_of_push(b.drop_first(), x, n);
    } else {
        assert(b.push(x)[0] == x);
        assert(b.push(x).drop_first().len() == 0);
        assert(binding_of(b.push(x).drop_first(), n) == None::<DefId>);
        assert(binding_of(b, n) == None::<DefId>);
    }
}

/// The definition `name` denotes from scope `s`: the nearest binding on
/// the chain of parents.
pub open spec fn lookup_spec(scopes: Seq<Scope>, s: int, name: Seq<char>) -> Option<DefId>
    decreases s,
{
    if s < 0 || s >= scopes.len() {
        None
    } else {
        match binding_of(scopes[s].bindings@, name) {
            Some(d) => Some(d),
            None => match scopes[s].parent {
                Some(p) => if 0 <= p.0 < s {
                    lookup_spec(scopes, p.0 as int, name)
                } else {
                    None
                },
                None => None,
            },
        }
    }
}

/// The span of the first entry of `level` named `n`.
pub open spec fn first_span(level: Seq<(String, Span)>, n: Seq<char>) -> Option<Span>
    decreases level.len(),
{
    if level.len() == 0 {
        None
    } else if level[0].0@ == n {
        Some(level[0].1)
    } else {
        first_span(level.drop_first(), n)
    }
}

/// A later declaration of `n` in the pending levels, innermost first.
pub open spec fn later_spec(pending: Seq<Vec<(String, Span)>>, n: Seq<char>) -> Option<Span>
    decreases pending.len(),
{
    if pending.len() == 0 {
        None
    } else {
        match first_span(pending.last()@, n) {
            Some(sp) => Some(sp),
            None => later_spec(pending.drop_last(), n),
        }
    }
}

/// The shadowing finding for `name` declared in `scope`: W1003 over a
/// builtin, W1002 (with the outer definition's span) over another
/// definition of an enclosing scope, nothing otherwise.
pub open spec fn shadow_diag(r: Resolver, name: Name, scope: ScopeId) -> Option<ResolveDiag> {
    match r.scopes@[scope.0 as int].parent {
        None => None,
        Some(p) => match lookup_spec(r.scopes@, p.0 as int, name.text@) {
            None => None,
            Some(d) => match r.defs@[d.0 as int].kind {
                DefKind::Builtin(_) => Some(
                    ResolveDiag { code: ResolveCode::W1003, span: name.span, name: name.text, secondary: None, suggestion: None },
                ),
                DefKind::Error => None,
                DefKind::Import => None,
                _ => Some(
                    ResolveDiag {
                        code: ResolveCode::W1002,
                        span: name.span,
                        name: name.text,
                        secondary: Some(r.defs@[d.0 as int].span),
                        suggestion: None,
                    },
                ),
            },
        },
    }
}

/// Some string of `v` is `n`.
pub open spec fn has_string(v: Seq<String>, n: Seq<char>) -> bool {
    exists|i: int| 0 <= i < v.len() && (#[trigger] v[i])@ == n
}

/// The finding for a name `name` that `scope` does not see: E1002 with
/// the later declaration where an enclosing ordered body declares it
/// later (`pending`), else E1001 whose suggestion, if any, is a visible
/// name near enough to be suggested.
pub open spec fn unknown_name_diag(scopes: Seq<Scope>, pending: Seq<Vec<(String, Span)>>, scope: int, name: Name, d: ResolveDiag) -> bool {
    &&& d.span == name.span
    &&& d.name@ == name.text@
    &&& match later_spec(pending, name.text@) {
        Some(decl) => d.code == ResolveCode::E1002 && d.secondary == Some(decl) && d.suggestion is None,
        None => {
            &&& d.code == ResolveCode::E1001
            &&& d.secondary is None
            &&& d.suggestion matches Some(sg) ==> chain_has(scopes, scope, sg@) && crate::suggest::suggestable(name.text@, sg@)
        },
    }
}

/// Some entry of `v` carries the name `n`.
pub open spec fn pair_has(v: Seq<(DefId, String)>, n: Seq<char>) -> bool {
    exists|i: int| 0 <= i < v.len() && (#[trigger] v[i]).1@ == n
}

/// One of the first `k` bindings of `b` binds `n`.
pub open spec fn binds_upto(b: Seq<(String, DefId)>, k: int, n: Seq<char>) -> bool {
    exists|i: int| 0 <= i < k && (#[trigger] b[i]).0@ == n
}

/// Some scope on the chain of parents from `s` binds `n`.
pub open spec fn chain_has(scopes: Seq<Scope>, s: int, n: Seq<char>) -> bool
    decreases s,
{
    if s < 0 || s >= scopes.len() {
        false
    } else {
        (exists|k: int| 0 <= k < scopes[s].bindings@.len() && (#[trigger] scopes[s].bindings@[k]).0@ == n)
            || match scopes[s].parent {
            Some(p) => 0 <= p.0 < s && chain_has(scopes, p.0 as int, n),
            None => false,
        }
    }
}

/// The result of name resolution.
pub struct ResolveResult {
    pub defs: Vec<DefData>,
    pub diagnostics: Vec<ResolveDiag>,
    /// By expression index: the definition a path expression resolved to.
    pub resolutions: Vec<Option<DefId>>,
    /// Declaration name spans and their definitions.
    pub decl_spans: Vec<(Span, DefId)>,
    /// Use name spans and their definitions.
    pub use_spans: Vec<(Span, DefId)>,
    /// By definition index: the definition is read somewhere.
    pub reads: Vec<bool>,
    /// Instance definitions and the module they instantiate.
    pub instance_module: Vec<(DefId, DefId)>,
    pub scopes: Vec<Scope>,
    /// Item definitions and their item index.
    pub item_of_def: Vec<(DefId, usize)>,
    /// Enum variants: definition, position, explicit discriminant.
    pub variant_info: Vec<(DefId, u64, Option<usize>)>,
}

impl ResolveResult {
    /// The codes of the findings, in order.
    pub fn error_codes(&self) -> (r: Vec<&'static str>)
        ensures
            r@.len() == self.diagnostics@.len(),
            forall|i: int| 0 <= i < r@.len() ==> (#[trigger] r@[i])@ == self.diagnostics@[i].code_spec(),
    {
        let mut r: Vec<&'static str> = Vec::new();
        let mut i: usize = 0;
        while i < self.diagnostics.len()
            invariant
                i <= self.diagnostics@.len(),
                r@.len() == i,
                forall|j: int| 0 <= j < i ==> (#[trigger] r@[j])@ == self.diagnostics@[j].code_spec(),
            decreases self.diagnostics@.len() - i,
        {
            r.push(self.diagnostics[i].code_str());
            i = i + 1;
        }
        r
    }

    /// The kind of a definition.
    pub fn def_kind(&self, def: DefId) -> (r: Option<DefKind>)
        ensures
            (def.0 as int) < self.defs@.len() ==> r == Some(self.defs@[def.0 as int].kind),
    {
        if (def.0 as usize) < self.defs.len() {
            Some(self.defs[def.0 as usize].kind)
        } else {
            None
        }
    }

    /// The first definition named `name`.
    pub fn def_by_name(&self, name: &str) -> (r: Option<DefId>)
        requires
            self.defs@.len() <= u32::MAX,
        ensures
            match r {
                Some(d) => (d.0 as int) < self.defs@.len() && self.defs@[d.0 as int].name@ == name@
                    && forall|j: int| 0 <= j < d.0 ==> (#[trigger] self.defs@[j]).name@ != name@,
                None => forall|j: int| 0 <= j < self.defs@.len() ==> (#[trigger] self.defs@[j]).name@ != name@,
            },
    {
        let mut i: usize = 0;
        while i < self.defs.len()
            invariant
                i <= self.defs@.len(),
                self.defs@.len() <= u32::MAX,
                forall|j: int| 0 <= j < i ==> (#[trigger] self.defs@[j]).name@ != name@,
            decreases self.defs@.len() - i,
        {
            if eq_str(self.defs[i].name.as_str(), name) {
                return Some(DefId(i as u32));
            }
            i = i + 1;
        }
        None
    }
}

/// The resolver's state.
pub struct Resolver {
    pub defs: Vec<DefData>,
    pub scopes: Vec<Scope>,
    pub diagnostics: Vec<ResolveDiag>,
    pub resolutions: Vec<Option<DefId>>,
    pub decl_spans: Vec<(Span, DefId)>,
    pub use_spans: Vec<(Span, DefId)>,
    /// By definition index.
    pub reads: Vec<bool>,
    /// By definition index.
    pub writes: Vec<bool>,
    /// Names declared later in the ordered bodies being resolved.
    pub pending: Vec<Vec<(String, Span)>>,
    /// Item definitions and their item index.
    pub item_of_def: Vec<(DefId, usize)>,
    /// Enum definitions and their variants.
    pub enum_variants: Vec<(DefId, Vec<(String, DefId)>)>,
    pub instance_module: Vec<(DefId, DefId)>,
    /// Instances of builtin primitives, by primitive index.
    pub instance_builtin: Vec<(DefId, usize)>,
    /// The bundle origins of the ports of the module being resolved.
    pub bundle_origins: Vec<RBundleOrigin>,
    /// Enum variants: definition, position, explicit discriminant.
    pub variant_info: Vec<(DefId, u64, Option<usize>)>,
    /// Bidirectional ports of the module being resolved (E4008).
    pub bidir_ports: Vec<DefId>,
    /// Input fields flattened out of bundle ports (E4005).
    pub bundle_inputs: Vec<DefId>,
    /// Module instantiation edges (E1006).
    pub instance_edges: Vec<(DefId, DefId)>,
    /// A contract expression is being resolved (`prev()` is allowed).
    pub in_contract: bool,
    pub prelude: ScopeId,
    pub root: ScopeId,
    /// The definition unresolvable names are bound to.
    pub error_def: DefId,
}

impl Resolver {
    /// Scope and definition tables are consistent: parents are created
    /// before their children, bindings name existing definitions.
    pub open spec fn wf(&self) -> bool {
        &&& (self.prelude.0 as int) < self.scopes@.len()
        &&& (self.root.0 as int) < self.scopes@.len()
        &&& (self.error_def.0 as int) < self.defs@.len()
        &&& self.reads@.len() == self.defs@.len()
        &&& self.writes@.len() == self.defs@.len()
        &&& self.defs@.len() < u32::MAX
        &&& self.scopes@.len() < u32::MAX
        &&& forall|s: int|
            0 <= s < self.scopes@.len() ==> ((#[trigger] self.scopes@[s]).parent matches Some(p) ==> p.0
                < s)
        &&& forall|s: int, k: int|
            0 <= s < self.scopes@.len() && 0 <= k < self.scopes@[s].bindings@.len() ==> ((
            #[trigger] self.scopes@[s].bindings@[k]).1.0 as int) < self.defs@.len()
        &&& forall|d: int| 0 <= d < self.defs@.len() ==> ((#[trigger] self.defs@[d]).scope.0 as int) < self.scopes@.len()
    }

    /// A new scope under `parent`.
    pub fn new_scope(&mut self, kind: ScopeKind, parent: Option<ScopeId>) -> (r: ScopeId)
        requires
            old(self).wf(),
            parent matches Some(p) ==> (p.0 as int) < old(self).scopes@.len(),
        ensures
            bindings_kept(old(self).scopes@, final(self).scopes@),
            final(self).resolutions == old(self).resolutions,
            final(self).wf(),
            final(self).defs == old(self).defs,
            final(self).diagnostics == old(self).diagnostics,
            (r.0 as int) < final(self).scopes@.len(),
            old(self).scopes@.len() + 1 < u32::MAX ==> r.0 == old(self).scopes@.len() && final(self).scopes@
                == old(self).scopes@.push(Scope { kind, parent, bindings: final(self).scopes@[r.0 as int].bindings })
                && final(self).scopes@[r.0 as int].bindings@.len() == 0,
            forall|s: int| 0 <= s < old(self).scopes@.len() ==> #[trigger] final(self).scopes@[s] == old(self).scopes@[s],
            final(self).scopes@.len() >= old(self).scopes@.len(),
    {
        let n = self.scopes.len();
        if n + 1 >= 4294967295usize {
            // The scope table is full: the root stands in.
            return self.root;
        }
        self.scopes.push(Scope { kind, parent, bindings: Vec::new() });
        ScopeId(n as u32)
    }

    /// A new definition (not bound to any name).
    pub fn add_def(&mut self, kind: DefKind, name: &str, span: Span, scope: ScopeId, is_public: bool) -> (r: DefId)
        requires
            old(self).wf(),
            (scope.0 as int) < old(self).scopes@.len(),
        ensures
            final(self).resolutions == old(self).resolutions,
            final(self).item_of_def == old(self).item_of_def,
            final(self).enum_variants == old(self).enum_variants,
            final(self).error_def == old(self).error_def,
            final(self).root == old(self).root,
            final(self).wf(),
            final(self).scopes == old(self).scopes,
            final(self).diagnostics == old(self).diagnostics,
            (r.0 as int) < final(self).defs@.len(),
            old(self).defs@.len() + 1 < u32::MAX ==> r.0 == old(self).defs@.len() && final(self).defs@.len()
                == old(self).defs@.len() + 1 && final(self).defs@[r.0 as int].name@ == name@
                && final(self).defs@[r.0 as int].kind == kind && final(self).defs@[r.0 as int].span == span,
            forall|d: int| 0 <= d < old(self).defs@.len() ==> #[trigger] final(self).defs@[d] == old(self).defs@[d],
            final(self).defs@.len() >= old(self).defs@.len(),
            forall|d: int| 0 <= d < old(self).defs@.len() ==> #[trigger] final(self).reads@[d] == old(self).reads@[d],
    {
        let n = self.defs.len();
        if n + 1 >= 4294967295usize {
            // The definition table is full: the error definition stands in.
            return self.error_def;
        }
        self.defs.push(DefData { kind, name: crate::text::string_of(crate::text::chars_of(name).as_slice()), span, scope, is_public });
        self.reads.push(false);
        self.writes.push(false);
        DefId(n as u32)
    }

    /// Binds `name` to `def` in `scope`, replacing an earlier binding of
    /// the same name.
    pub fn bind(&mut self, scope: ScopeId, name: &str, def: DefId)
        requires
            old(self).wf(),
            (scope.0 as int) < old(self).scopes@.len(),
            (def.0 as int) < old(self).defs@.len(),
        ensures
            bindings_kept(old(self).scopes@, final(self).scopes@),
            final(self).resolutions == old(self).resolutions,
            final(self).item_of_def == old(self).item_of_def,
            final(self).enum_variants == old(self).enum_variants,
            final(self).error_def == old(self).error_def,
            final(self).root == old(self).root,
            final(self).wf(),
            final(self).defs == old(self).defs,
            final(self).diagnostics == old(self).diagnostics,
            final(self).scopes@.len() == old(self).scopes@.len(),
            binding_of(final(self).scopes@[scope.0 as int].bindings@, name@) == Some(def),
            forall|s: int| 0 <= s < old(self).scopes@.len() && s != scope.0 ==> #[trigger] final(self).scopes@[s] == old(self).scopes@[s],
            final(self).scopes@[scope.0 as int].parent == old(self).scopes@[scope.0 as int].parent,
            final(self).scopes@[scope.0 as int].kind == old(self).scopes@[scope.0 as int].kind,
            forall|n: Seq<char>| n != name@ ==> binding_of(final(self).scopes@[scope.0 as int].bindings@, n)
                == binding_of(old(self).scopes@[scope.0 as int].bindings@, n),
            names_unique(old(self).scopes@[scope.0 as int].bindings@) ==> names_unique(
                final(self).scopes@[scope.0 as int].bindings@,
            ),
    {
        let si = scope.0 as usize;
        let mut bindings: Vec<(String, DefId)> = Vec::new();
        bindings.push((crate::text::string_of(crate::text::chars_of(name).as_slice()), def));
        let old_len = self.scopes[si].bindings.len();
        assert forall|n: Seq<char>| n != name@ implies binding_of(bindings@, n)
            == binding_of(self.scopes@[si as int].bindings@.subrange(0, 0), n) by {
            assert(bindings@.drop_first().len() == 0);
            assert(binding_of(bindings@.drop_first(), n) == None::<DefId>);
            assert(binding_of(self.scopes@[si as int].bindings@.subrange(0, 0), n) == None::<DefId>);
        }
        let mut k: usize = 0;
        while k < old_len
            invariant
                self.wf(),
                *self == *old(self),
                (scope.0 as int) < self.scopes@.len(),
                si == scope.0,
                old_len == self.scopes@[si as int].bindings@.len(),
                k <= old_len,
                bindings@.len() >= 1,
                bindings@[0].0@ == name@,
                bindings@[0].1 == def,
                forall|j: int| 0 <= j < bindings@.len() ==> ((#[trigger] bindings@[j]).1.0 as int) < self.defs@.len(),
                forall|n: Seq<char>| n != name@ ==> binding_of(bindings@, n)
                    == binding_of(self.scopes@[si as int].bindings@.subrange(0, k as int), n),
                names_unique(self.scopes@[si as int].bindings@) ==> names_unique(bindings@),
                forall|j: int| 1 <= j < bindings@.len() ==> exists|q: int| 0 <= q < k
                    && (#[trigger] bindings@[j]).0@ == (#[trigger] self.scopes@[si as int].bindings@[q]).0@,
            decreases old_len - k,
        {
            let ghost ob = self.scopes@[si as int].bindings@;
            let ghost b0 = bindings@;
            let (n, d) = (&self.scopes[si].bindings[k].0, self.scopes[si].bindings[k].1);
            if !eq_str(n.as_str(), name) {
                bindings.push((n.clone(), d));
            }
            proof {
                if bindings@.len() > b0.len() {
                    assert forall|j: int| 1 <= j < bindings@.len() implies exists|q: int| 0 <= q < k + 1
                        && (#[trigger] bindings@[j]).0@ == (#[trigger] ob[q]).0@ by {
                        if j < b0.len() {
                            let q = choose|q: int| 0 <= q < k && (#[trigger] b0[j]).0@ == (#[trigger] ob[q]).0@;
                            assert(bindings@[j] == b0[j]);
                        } else {
                            assert(bindings@[j].0@ == ob[k as int].0@);
                        }
                    }
                    if names_unique(ob) {
                        assert forall|a: int, c: int| 0 <= a < c < bindings@.len() implies (#[trigger] bindings@[a]).0@ != (#[trigger] bindings@[c]).0@ by {
                            if c == b0.len() {
                                if a == 0 {
                                } else {
                                    let q = choose|q: int| 0 <= q < k && (#[trigger] b0[a]).0@ == (#[trigger] ob[q]).0@;
                                    assert(bindings@[a] == b0[a]);
                                    assert(ob[q].0@ != ob[k as int].0@);
                                }
                            } else {
                                assert(bindings@[a] == b0[a]);
                                assert(bindings@[c] == b0[c]);
                            }
                        }
                    }
                } else {
                    assert forall|j: int| 1 <= j < bindings@.len() implies exists|q: int| 0 <= q < k + 1
                        && (#[trigger] bindings@[j]).0@ == (#[trigger] ob[q]).0@ by {
                        let q = choose|q: int| 0 <= q < k && (#[trigger] b0[j]).0@ == (#[trigger] ob[q]).0@;
                    }
                }
            }
            proof {
                assert(ob.subrange(0, k + 1) == ob.subrange(0, k as int).push(ob[k as int]));
                assert forall|m: Seq<char>| m != name@ implies binding_of(bindings@, m)
                    == binding_of(ob.subrange(0, k + 1), m) by {
                    lemma_binding_of_push(ob.subrange(0, k as int), ob[k as int], m);
                    if bindings@.len() > b0.len() {
                        lemma_binding_of_push(b0, bindings@.last(), m);
                    }
                }
            }
            k = k + 1;
        }
        assert(self.scopes@[si as int].bindings@.subrange(0, old_len as int) == self.scopes@[si as int].bindings@);
        let kind = self.scopes[si].kind;
        let parent = self.scopes[si].parent;
        self.scopes.set(si, Scope { kind, parent, bindings });
        assert(binding_of(self.scopes@[si as int].bindings@, name@) == Some(def));
    }

    /// The binding of `name` in `scope` itself.
    pub fn scope_get(&self, scope: ScopeId, name: &str) -> (r: Option<DefId>)
        requires
            self.wf(),
            (scope.0 as int) < self.scopes@.len(),
        ensures
            r == binding_of(self.scopes@[scope.0 as int].bindings@, name@),
            r matches Some(d) ==> (d.0 as int) < self.defs@.len(),
    {
        let b = &self.scopes[scope.0 as usize].bindings;
        let mut k: usize = 0;
        assert(b@.subrange(0, b@.len() as int) =~= b@);
        while k < b.len()
            invariant
                self.wf(),
                (scope.0 as int) < self.scopes@.len(),
                *b == self.scopes@[scope.0 as int].bindings,
                k <= b@.len(),
                binding_of(b@, name@) == binding_of(b@.subrange(k as int, b@.len() as int), name@),
            decreases b@.len() - k,
        {
            assert(b@.subrange(k as int, b@.len() as int).drop_first() =~= b@.subrange(k + 1, b@.len() as int));
            assert(b@.subrange(k as int, b@.len() as int)[0] == b@[k as int]);
            if eq_str(b[k].0.as_str(), name) {
                return Some(b[k].1);
            }
            k = k + 1;
        }
        None
    }

    /// The definition `name` denotes from `scope`: the nearest binding on
    /// the chain of parents; no diagnostic.
    pub fn lookup_visible(&self, name: &str, scope: ScopeId) -> (r: Option<DefId>)
        requires
            self.wf(),
            (scope.0 as int) < self.scopes@.len(),
        ensures
            r == lookup_spec(self.scopes@, scope.0 as int, name@),
            r matches Some(d) ==> (d.0 as int) < self.defs@.len(),
    {
        let mut cur: u32 = scope.0;
        loop
            invariant
                self.wf(),
                (cur as int) < self.scopes@.len(),
                lookup_spec(self.scopes@, cur as int, name@) == lookup_spec(self.scopes@, scope.0 as int, name@),
            decreases cur,
        {
            match self.scope_get(ScopeId(cur), name) {
                Some(d) => {
                    return Some(d);
                },
                None => {},
            }
            match self.scopes[cur as usize].parent {
                Some(p) => {
                    cur = p.0;
                },
                None => {
                    return None;
                },
            }
        }
    }

    /// The names visible from `scope`, innermost scope first and, within a
    /// scope, in declaration order (so that suggestions do not depend on
    /// storage order).
    pub fn visible_names(&self, scope: ScopeId) -> (r: Vec<String>)
        requires
            self.wf(),
            (scope.0 as int) < self.scopes@.len(),
        ensures
            forall|n: Seq<char>| has_string(r@, n) == chain_has(self.scopes@, scope.0 as int, n),
    {
        let mut names: Vec<String> = Vec::new();
        let mut cur: u32 = scope.0;
        loop
            invariant
                self.wf(),
                (cur as int) < self.scopes@.len(),
                forall|n: Seq<char>|
                    chain_has(self.scopes@, scope.0 as int, n) == (has_string(names@, n) || chain_has(
                        self.scopes@,
                        cur as int,
                        n,
                    )),
            decreases cur,
        {
            let ghost n0 = names@;
            assert(forall|n: Seq<char>|
                chain_has(self.scopes@, scope.0 as int, n) == (has_string(n0, n) || chain_has(
                    self.scopes@,
                    cur as int,
                    n,
                )));
            // The bindings of this scope ordered by definition.
            let b = &self.scopes[cur as usize].bindings;
            let mut sorted: Vec<(DefId, String)> = Vec::new();
            let mut k: usize = 0;
            while k < b.len()
                invariant
                    k <= b@.len(),
                    forall|n: Seq<char>|
                        chain_has(self.scopes@, scope.0 as int, n) == (has_string(n0, n) || chain_has(
                            self.scopes@,
                            cur as int,
                            n,
                        )),
                    forall|n: Seq<char>| #[trigger] pair_has(sorted@, n) == binds_upto(b@, k as int, n),
                decreases b@.len() - k,
            {
                let d = b[k].1;
                let mut pos: usize = sorted.len();
                while pos > 0 && sorted[pos - 1].0.0 > d.0
                    invariant
                        pos <= sorted@.len(),
                    decreases pos,
                {
                    pos = pos - 1;
                }
                let ghost s0 = sorted@;
                let nm = b[k].0.clone();
                sorted.insert(pos, (d, nm));
                proof {
                    s0.insert_ensures(pos as int, (d, nm));
                    assert(sorted@ == s0.insert(pos as int, (d, nm)));
                    assert forall|n: Seq<char>| #[trigger] pair_has(sorted@, n) == binds_upto(b@, k + 1, n) by {
                        if exists|i: int| 0 <= i < sorted@.len() && (#[trigger] sorted@[i]).1@ == n {
                            let i = choose|i: int| 0 <= i < sorted@.len() && (#[trigger] sorted@[i]).1@ == n;
                            if i < pos {
                                assert(s0[i] == sorted@[i]);
                                assert(pair_has(s0, n));
                                let w = choose|w: int| 0 <= w < k && (#[trigger] b@[w]).0@ == n;
                                assert(b@[w].0@ == n);
                            } else if i > pos {
                                assert(s0[i - 1] == sorted@[i]);
                                assert(pair_has(s0, n));
                                let w = choose|w: int| 0 <= w < k && (#[trigger] b@[w]).0@ == n;
                                assert(b@[w].0@ == n);
                            } else {
                                assert(b@[k as int].0@ == n);
                            }
                        }
                        if exists|i: int| 0 <= i < k + 1 && (#[trigger] b@[i]).0@ == n {
                            let i = choose|i: int| 0 <= i < k + 1 && (#[trigger] b@[i]).0@ == n;
                            if i == k {
                                assert(sorted@[pos as int].1@ == n);
                            } else {
                                assert(b@[i].0@ == n);
                                assert(binds_upto(b@, k as int, n));
                                assert(pair_has(s0, n));
                                let w = choose|w: int| 0 <= w < s0.len() && (#[trigger] s0[w]).1@ == n;
                                if w < pos {
                                    assert(sorted@[w] == s0[w]);
                                } else {
                                    assert(sorted@[w + 1] == s0[w]);
                                }
                            }
                        }
                    }
                }
                k = k + 1;
            }
            let mut j: usize = 0;
            while j < sorted.len()
                invariant
                    j <= sorted@.len(),
                    forall|n: Seq<char>|
                        chain_has(self.scopes@, scope.0 as int, n) == (has_string(n0, n) || chain_has(
                            self.scopes@,
                            cur as int,
                            n,
                        )),
                    names@.len() == n0.len() + j,
                    forall|i: int| 0 <= i < n0.len() ==> names@[i] == n0[i],
                    forall|i: int| 0 <= i < j ==> (#[trigger] names@[n0.len() + i])@ == sorted@[i].1@,
                decreases sorted@.len() - j,
            {
                names.push(sorted[j].1.clone());
                j = j + 1;
            }
            proof {
                assert forall|n: Seq<char>|
                    #[trigger] has_string(names@, n) == (has_string(n0, n) || binds_upto(b@, b@.len() as int, n)) by {
                    if has_string(names@, n) {
                        let i = choose|i: int| 0 <= i < names@.len() && (#[trigger] names@[i])@ == n;
                        if i >= n0.len() {
                            let w = i - n0.len();
                            assert(names@[n0.len() + w]@ == sorted@[w].1@);
                            assert(pair_has(sorted@, n));
                            assert(binds_upto(b@, b@.len() as int, n));
                        } else {
                            assert(n0[i] == names@[i]);
                        }
                    }
                    if has_string(n0, n) {
                        let i = choose|i: int| 0 <= i < n0.len() && (#[trigger] n0[i])@ == n;
                        assert(names@[i] == n0[i]);
                    }
                    if exists|i: int| 0 <= i < b@.len() && (#[trigger] b@[i]).0@ == n {
                        assert(pair_has(sorted@, n));
                        let w = choose|w: int| 0 <= w < sorted@.len() && (#[trigger] sorted@[w]).1@ == n;
                        assert(names@[n0.len() + w]@ == n);
                    }
                }
            }
            let ghost c0 = cur as int;
            assert forall|n: Seq<char>| #[trigger] chain_has(self.scopes@, scope.0 as int, n) == (has_string(n0, n) || chain_has(self.scopes@, c0, n)) by {}
            assert(*b == self.scopes@[c0].bindings);
            assert forall|n: Seq<char>|
                #[trigger] chain_has(self.scopes@, c0, n) == (binds_upto(b@, b@.len() as int, n) || match self.scopes@[c0].parent {
                    Some(p) => chain_has(self.scopes@, p.0 as int, n),
                    None => false,
                }) by {
                if binds_upto(b@, b@.len() as int, n) {
                    let i = choose|i: int| 0 <= i < b@.len() && (#[trigger] b@[i]).0@ == n;
                    assert(self.scopes@[c0].bindings@[i].0@ == n);
                }
            }
            match self.scopes[cur as usize].parent {
                Some(p) => {
                    cur = p.0;
                    assert forall|n: Seq<char>|
                        chain_has(self.scopes@, scope.0 as int, n) == (has_string(names@, n) || chain_has(
                            self.scopes@,
                            cur as int,
                            n,
                        )) by {
                        assert(chain_has(self.scopes@, c0, n) == (binds_upto(b@, b@.len() as int, n) || chain_has(self.scopes@, p.0 as int, n)));
                        assert(chain_has(self.scopes@, scope.0 as int, n) == (has_string(n0, n) || chain_has(self.scopes@, c0, n)));
                        assert(has_string(names@, n) == (has_string(n0, n) || binds_upto(b@, b@.len() as int, n)));
                    }
                },
                None => {
                    assert forall|n: Seq<char>| has_string(names@, n) == chain_has(self.scopes@, scope.0 as int, n) by {
                        assert(chain_has(self.scopes@, c0, n) == binds_upto(b@, b@.len() as int, n));
                        assert(chain_has(self.scopes@, scope.0 as int, n) == (has_string(n0, n) || chain_has(self.scopes@, c0, n)));
                        assert(has_string(names@, n) == (has_string(n0, n) || binds_upto(b@, b@.len() as int, n)));
                    }
                    return names;
                },
            }
        }
    }

    /// Declares `name` in `scope` without checks.
    pub fn declare(&mut self, name: &Name, kind: DefKind, scope: ScopeId, is_public: bool) -> (r: DefId)
        requires
            old(self).wf(),
            (scope.0 as int) < old(self).scopes@.len(),
        ensures
            bindings_kept(old(self).scopes@, final(self).scopes@),
            final(self).resolutions == old(self).resolutions,
            final(self).item_of_def == old(self).item_of_def,
            final(self).enum_variants == old(self).enum_variants,
            final(self).error_def == old(self).error_def,
            final(self).root == old(self).root,
            final(self).wf(),
            final(self).diagnostics == old(self).diagnostics,
            final(self).scopes@.len() == old(self).scopes@.len(),
            (r.0 as int) < final(self).defs@.len(),
            binding_of(final(self).scopes@[scope.0 as int].bindings@, name.text@) == Some(r),
            final(self).defs@.len() >= old(self).defs@.len(),
            forall|n: Seq<char>| n != name.text@ ==> binding_of(final(self).scopes@[scope.0 as int].bindings@, n)
                == binding_of(old(self).scopes@[scope.0 as int].bindings@, n),
    {
        let def = self.add_def(kind, name.text.as_str(), name.span, scope, is_public);
        self.bind(scope, name.text.as_str(), def);
        self.decl_spans.push((name.span, def));
        def
    }

    /// E1003 where `name` is already bound in `scope` itself.
    pub fn report_duplicate(&mut self, name: &Name, scope: ScopeId) -> (dup: bool)
        requires
            old(self).wf(),
            (scope.0 as int) < old(self).scopes@.len(),
        ensures
            diags_kept(old(self).diagnostics@, final(self).diagnostics@),
            final(self).resolutions == old(self).resolutions,
            final(self).item_of_def == old(self).item_of_def,
            final(self).enum_variants == old(self).enum_variants,
            final(self).error_def == old(self).error_def,
            final(self).root == old(self).root,
            final(self).wf(),
            final(self).scopes == old(self).scopes,
            final(self).defs == old(self).defs,
            final(self).error_def == old(self).error_def,
            dup == (binding_of(old(self).scopes@[scope.0 as int].bindings@, name.text@) is Some),
            dup ==> final(self).diagnostics@.len() == old(self).diagnostics@.len() + 1
                && final(self).diagnostics@.last().code == ResolveCode::E1003
                && final(self).diagnostics@.last().span == name.span,
            !dup ==> final(self).diagnostics == old(self).diagnostics,
    {
        match self.scope_get(scope, name.text.as_str()) {
            Some(prev) => {
                let prev_span = self.defs[prev.0 as usize].span;
                self.diagnostics.push(
                    ResolveDiag {
                        code: ResolveCode::E1003,
                        span: name.span,
                        name: name.text.clone(),
                        secondary: Some(prev_span),
                        suggestion: None,
                    },
                );
                true
            },
            None => false,
        }
    }

    /// W1003 where `name` hides a builtin of an outer scope, W1002 where
    /// it hides another definition (not the error definition or an
    /// import).
    fn warn_shadowing(&mut self, name: &Name, scope: ScopeId)
        requires
            old(self).wf(),
            (scope.0 as int) < old(self).scopes@.len(),
        ensures
            diags_kept(old(self).diagnostics@, final(self).diagnostics@),
            final(self).resolutions == old(self).resolutions,
            final(self).item_of_def == old(self).item_of_def,
            final(self).enum_variants == old(self).enum_variants,
            final(self).error_def == old(self).error_def,
            final(self).root == old(self).root,
            final(self).wf(),
            final(self).scopes == old(self).scopes,
            final(self).defs == old(self).defs,
            final(self).diagnostics@ == match shadow_diag(*old(self), *name, scope) {
                Some(d) => old(self).diagnostics@.push(d),
                None => old(self).diagnostics@,
            },
    {
        let parent = match self.scopes[scope.0 as usize].parent {
            Some(p) => p,
            None => {
                return;
            },
        };
        let outer = match self.lookup_visible(name.text.as_str(), parent) {
            Some(d) => d,
            None => {
                return;
            },
        };
        let data = &self.defs[outer.0 as usize];
        match data.kind {
            DefKind::Builtin(_) => {
                self.diagnostics.push(
                    ResolveDiag {
                        code: ResolveCode::W1003,
                        span: name.span,
                        name: name.text.clone(),
                        secondary: None,
                        suggestion: None,
                    },
                );
            },
            DefKind::Error | DefKind::Import => {},
            _ => {
                let outer_span = data.span;
                self.diagnostics.push(
                    ResolveDiag {
                        code: ResolveCode::W1002,
                        span: name.span,
                        name: name.text.clone(),
                        secondary: Some(outer_span),
                        suggestion: None,
                    },
                );
            },
        }
    }

    /// Declares `name` in `scope`: a second definition in the same scope
    /// is E1003 and yields the error definition (the first stays bound);
    /// hiding an outer definition warns.
    pub fn declare_checked(&mut self, name: &Name, kind: DefKind, scope: ScopeId, is_public: bool) -> (r: DefId)
        requires
            old(self).wf(),
            (scope.0 as int) < old(self).scopes@.len(),
        ensures
            diags_kept(old(self).diagnostics@, final(self).diagnostics@),
            bindings_kept(old(self).scopes@, final(self).scopes@),
            final(self).resolutions == old(self).resolutions,
            final(self).item_of_def == old(self).item_of_def,
            final(self).enum_variants == old(self).enum_variants,
            final(self).error_def == old(self).error_def,
            final(self).root == old(self).root,
            final(self).wf(),
            final(self).scopes@.len() == old(self).scopes@.len(),
            (r.0 as int) < final(self).defs@.len(),
            binding_of(old(self).scopes@[scope.0 as int].bindings@, name.text@) is Some ==> r
                == old(self).error_def && final(self).scopes == old(self).scopes
                && final(self).diagnostics@ == old(self).diagnostics@.push(final(self).diagnostics@.last())
                && final(self).diagnostics@.last().code == ResolveCode::E1003
                && final(self).diagnostics@.last().span == name.span,
            binding_of(old(self).scopes@[scope.0 as int].bindings@, name.text@) is None ==> binding_of(
                final(self).scopes@[scope.0 as int].bindings@,
                name.text@,
            ) == Some(r),
            final(self).defs@.len() >= old(self).defs@.len(),
    {
        if self.report_duplicate(name, scope) {
            return self.error_def;
        }
        self.warn_shadowing(name, scope);
        self.declare(name, kind, scope, is_public)
    }

    /// Declares `name` in an ordered body: it is no longer "declared
    /// later" (E1002).
    pub fn declare_local(&mut self, name: &Name, kind: DefKind, scope: ScopeId) -> (r: DefId)
        requires
            old(self).wf(),
            (scope.0 as int) < old(self).scopes@.len(),
        ensures
            diags_kept(old(self).diagnostics@, final(self).diagnostics@),
            bindings_kept(old(self).scopes@, final(self).scopes@),
            final(self).resolutions == old(self).resolutions,
            final(self).wf(),
            final(self).scopes@.len() == old(self).scopes@.len(),
            (r.0 as int) < final(self).defs@.len(),
            final(self).defs@.len() >= old(self).defs@.len(),
            binding_of(old(self).scopes@[scope.0 as int].bindings@, name.text@) is Some ==> r
                == old(self).error_def && final(self).scopes == old(self).scopes,
            binding_of(old(self).scopes@[scope.0 as int].bindings@, name.text@) is None ==> binding_of(
                final(self).scopes@[scope.0 as int].bindings@,
                name.text@,
            ) == Some(r),
            binding_of(final(self).scopes@[scope.0 as int].bindings@, name.text@) is Some,
    {
        let n = self.pending.len();
        if n > 0 {
            let mut top: Vec<(String, Span)> = Vec::new();
            let mut k: usize = 0;
            while k < self.pending[n - 1].len()
                invariant
                    n == self.pending@.len(),
                    n > 0,
                    k <= self.pending@[n - 1]@.len(),
                decreases self.pending@[n - 1]@.len() - k,
            {
                if !eq_str(self.pending[n - 1][k].0.as_str(), name.text.as_str()) {
                    let entry = (self.pending[n - 1][k].0.clone(), self.pending[n - 1][k].1);
                    top.push(entry);
                }
                k = k + 1;
            }
            self.pending.set(n - 1, top);
        }
        self.declare_checked(name, kind, scope, false)
    }

    /// The span of a later declaration of `name` in the ordered bodies
    /// being resolved, innermost first.
    fn later_declaration(&self, name: &str) -> (r: Option<Span>)
        ensures
            r == later_spec(self.pending@, name@),
    {
        let mut i: usize = self.pending.len();
        assert(self.pending@.subrange(0, i as int) =~= self.pending@);
        while i > 0
            invariant
                i <= self.pending@.len(),
                later_spec(self.pending@, name@) == later_spec(self.pending@.subrange(0, i as int), name@),
            decreases i,
        {
            let level = &self.pending[i - 1];
            proof {
                let pre = self.pending@.subrange(0, i as int);
                assert(pre.last() == *level);
                assert(pre.drop_last() =~= self.pending@.subrange(0, i - 1));
            }
            let mut k: usize = 0;
            assert(level@.subrange(0, level@.len() as int) =~= level@);
            while k < level.len()
                invariant
                    k <= level@.len(),
                    first_span(level@, name@) == first_span(level@.subrange(k as int, level@.len() as int), name@),
                    0 < i <= self.pending@.len(),
                    self.pending@[i - 1] == *level,
                    later_spec(self.pending@, name@) == later_spec(self.pending@.subrange(0, i as int), name@),
                decreases level@.len() - k,
            {
                proof {
                    let rest = level@.subrange(k as int, level@.len() as int);
                    assert(rest[0] == level@[k as int]);
                    assert(rest.drop_first() =~= level@.subrange(k + 1, level@.len() as int));
                }
                if eq_str(level[k].0.as_str(), name) {
                    proof {
                        let pre = self.pending@.subrange(0, i as int);
                        assert(pre.last() == *level);
                    }
                    return Some(level[k].1);
                }
                k = k + 1;
            }
            i = i - 1;
        }
        None
    }

    /// Resolves a single name. Found: recorded as a use (a read, or a
    /// write for an assignment target). Not found: E1002 where the ordered
    /// body declares it later, otherwise E1001 with the closest visible
    /// name as a suggestion; the result is the error definition.
    pub fn resolve_simple(&mut self, name: &Name, scope: ScopeId, is_read: bool) -> (r: DefId)
        requires
            old(self).wf(),
            (scope.0 as int) < old(self).scopes@.len(),
        ensures
            diags_kept(old(self).diagnostics@, final(self).diagnostics@),
            final(self).resolutions == old(self).resolutions,
            final(self).wf(),
            final(self).scopes == old(self).scopes,
            final(self).defs == old(self).defs,
            final(self).enum_variants == old(self).enum_variants,
            final(self).error_def == old(self).error_def,
            (r.0 as int) < final(self).defs@.len(),
            match lookup_spec(old(self).scopes@, scope.0 as int, name.text@) {
                Some(d) => r == d && final(self).diagnostics == old(self).diagnostics && (is_read
                    ==> final(self).reads@[d.0 as int]),
                None => r == old(self).error_def && final(self).diagnostics@.len()
                    == old(self).diagnostics@.len() + 1 && (final(self).diagnostics@.last().code
                    == ResolveCode::E1001 || final(self).diagnostics@.last().code
                    == ResolveCode::E1002) && final(self).diagnostics@.last().span == name.span
                    && final(self).diagnostics@ == old(self).diagnostics@.push(final(self).diagnostics@.last())
                    && unknown_name_diag(old(self).scopes@, old(self).pending@, scope.0 as int, *name,
                    final(self).diagnostics@.last()),
            },
    {
        match self.lookup_visible(name.text.as_str(), scope) {
            Some(def) => {
                if is_read {
                    self.reads.set(def.0 as usize, true);
                } else {
                    self.writes.set(def.0 as usize, true);
                }
                self.use_spans.push((name.span, def));
                def
            },
            None => {
                match self.later_declaration(name.text.as_str()) {
                    Some(decl) => {
                        self.diagnostics.push(
                            ResolveDiag {
                                code: ResolveCode::E1002,
                                span: name.span,
                                name: name.text.clone(),
                                secondary: Some(decl),
                                suggestion: None,
                            },
                        );
                    },
                    None => {
                        let candidates = self.visible_names(scope);
                        let suggestion = suggestion_for(name.text.as_str(), candidates.as_slice());
                        proof {
                            if suggestion is Some {
                                let sg = suggestion.unwrap();
                                let k = choose|k: int| crate::suggest::is_closest(name.text@, crate::suggest::names_view(candidates@), k)
                                    && sg@ == candidates@[k]@;
                                assert(crate::suggest::names_view(candidates@)[k] == candidates@[k]@);
                                assert(has_string(candidates@, sg@));
                            }
                        }
                        self.diagnostics.push(
                            ResolveDiag {
                                code: ResolveCode::E1001,
                                span: name.span,
                                name: name.text.clone(),
                                secondary: None,
                                suggestion,
                            },
                        );
                    },
                }
                self.error_def
            },
        }
    }
}

/// A name bound in a scope denotes that binding from the scope itself.
pub proof fn lemma_lookup_own_binding(scopes: Seq<Scope>, s: int, name: Seq<char>)
    requires
        0 <= s < scopes.len(),
        binding_of(scopes[s].bindings@, name) is Some,
    ensures
        lookup_spec(scopes, s, name) == binding_of(scopes[s].bindings@, name),
{
}

/// A name a scope does not bind denotes what it denotes from the parent:
/// inner scopes see the outer definitions they do not shadow.
pub proof fn lemma_lookup_through_parent(scopes: Seq<Scope>, s: int, name: Seq<char>)
    requires
        0 <= s < scopes.len(),
        binding_of(scopes[s].bindings@, name) is None,
        scopes[s].parent matches Some(p) && (p.0 as int) < s,
    ensures
        lookup_spec(scopes, s, name) == lookup_spec(scopes, scopes[s].parent.unwrap().0 as int, name),
{
}

} // verus!
