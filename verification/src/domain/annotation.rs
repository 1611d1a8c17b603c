//! Explicit annotations (K1): `@Name` and `reg(clk)` name a domain. A
//! `trust_level` declaration that no clock port of the module carries
//! is a trust alias (K11): it sets the trust dimension only and opens no
//! clock domain.

use vstd::prelude::*;

use crate::ast::Span;
use crate::defs::DefKind;
use crate::domain::ir::{Annotation, DomainInput};
use crate::domain::{DomainDiag, DomainId, Inferencer};

verus! {

/// The findings grew by exactly one, at the end.
pub open spec fn pushed_one(new: Seq<DomainDiag>, old: Seq<DomainDiag>) -> bool {
    new.len() == old.len() + 1 && forall|i: int| 0 <= i < old.len() ==> #[trigger] new[i] == old[i]
}

/// The last finding is E3002 for `name` at `span`.
pub open spec fn last_not_clock(diags: Seq<DomainDiag>, name: Seq<char>, span: Span) -> bool {
    diags.last() matches DomainDiag::AnnotationNotClock { name: n, span: sp } && n@ == name && sp
        == span
}

/// The last finding is E3010 for `name` at `span`.
pub open spec fn last_ambiguous(diags: Seq<DomainDiag>, name: Seq<char>, span: Span, in_extern: bool) -> bool {
    diags.last() matches DomainDiag::Ambiguous { name: n, span: sp, in_extern: ie, .. } && n@
        == name && sp == span && ie == in_extern
}

/// The domain an annotation resolved to `def` names (K1).
pub open spec fn annotation_spec(s: Inferencer, inp: DomainInput, def: Option<u32>) -> DomainId {
    match def {
        None => DomainId::Error,
        Some(d) => match inp.defs@[d as int].kind {
            DefKind::Domain => match s.by_decl@[d as int] {
                Some(id) => DomainId::Explicit(id),
                None => DomainId::Error,
            },
            DefKind::Port { .. } => if inp.defs@[d as int].is_clock {
                match s.signal_domains@[d as int] {
                    Some(x) => x,
                    None => DomainId::Error,
                }
            } else {
                DomainId::Error
            },
            _ => DomainId::Error,
        },
    }
}

/// The annotation names a port that is not a clock (E3002).
pub open spec fn names_non_clock_port(inp: DomainInput, def: Option<u32>) -> bool {
    def matches Some(d) && inp.defs@[d as int].kind is Port && !inp.defs@[d as int].is_clock
}

/// `def` is a `domain` declaration with a trust level that no port in
/// `anchored` carries.
pub open spec fn trust_alias_spec(
    s: Inferencer,
    inp: DomainInput,
    def: u32,
    anchored: Seq<bool>,
) -> bool {
    &&& inp.defs@[def as int].kind == DefKind::Domain
    &&& s.by_decl@[def as int] matches Some(id) && s.domains@[id as int].trust is Some
    &&& !anchored[def as int]
}

/// The domain of a non-clock signal annotated `@Name` (K1, K11), and
/// whether that reports E3010.
pub open spec fn signal_annotation_spec(s: Inferencer, inp: DomainInput, def: Option<u32>) -> (
    DomainId,
    bool,
) {
    match def {
        None => (DomainId::Error, false),
        Some(d) => if trust_alias_spec(s, inp, d, s.anchored@) {
            if s.multi_clock {
                (DomainId::Error, true)
            } else {
                (s.default_domain, false)
            }
        } else {
            (annotation_spec(s, inp, def), false)
        },
    }
}

impl Inferencer {
    /// E3010: the signal `name` cannot be placed among several clocks.
    pub fn err_ambiguous(&mut self, name: &String, span: Span, in_extern: bool)
        ensures
            final(self).same_tables(old(self)),
            pushed_one(final(self).diagnostics@, old(self).diagnostics@),
            last_ambiguous(final(self).diagnostics@, name@, span, in_extern),
    {
        let candidates = self.clock_candidates.clone();
        self.diagnostics.push(
            DomainDiag::Ambiguous { name: name.clone(), span, in_extern, candidates },
        );
    }

    /// E3002: the annotation names a port that is not a clock.
    pub fn err_annotation_not_clock(&mut self, ann: &Annotation)
        ensures
            final(self).same_tables(old(self)),
            pushed_one(final(self).diagnostics@, old(self).diagnostics@),
            last_not_clock(final(self).diagnostics@, ann.text@, ann.span),
    {
        self.diagnostics.push(DomainDiag::AnnotationNotClock { name: ann.text.clone(), span: ann.span });
    }

    /// The domain an `@Name` or `reg(clk)` annotation names (K1); an
    /// unresolved name already had its E3002 from resolution and is
    /// `Error`.
    pub fn annotation_domain(&mut self, inp: &DomainInput, ann: &Annotation) -> (r: DomainId)
        requires
            inp.wf(),
            old(self).wf(inp),
            inp.def_ok(ann.def),
        ensures
            final(self).wf(inp),
            final(self).same_tables(old(self)),
            final(self).valid(r),
            r == annotation_spec(*old(self), *inp, ann.def),
            if names_non_clock_port(*inp, ann.def) {
                pushed_one(final(self).diagnostics@, old(self).diagnostics@)
                    && last_not_clock(final(self).diagnostics@, ann.text@, ann.span)
            } else {
                final(self).diagnostics == old(self).diagnostics
            },
    {
        let def = match ann.def {
            Some(d) => d,
            None => {
                return DomainId::Error;
            },
        };
        let info = &inp.defs[def as usize];
        match info.kind {
            DefKind::Domain => match self.by_decl[def as usize] {
                Some(id) => DomainId::Explicit(id),
                None => DomainId::Error,
            },
            DefKind::Port { .. } => {
                if info.is_clock {
                    match self.signal_domains[def as usize] {
                        Some(x) => x,
                        None => DomainId::Error,
                    }
                } else {
                    self.err_annotation_not_clock(ann);
                    DomainId::Error
                }
            },
            _ => DomainId::Error,
        }
    }

    /// Whether `def` is a trust alias with respect to `anchored`.
    pub fn is_trust_only_alias(&self, inp: &DomainInput, def: u32, anchored: &Vec<bool>) -> (r: bool)
        requires
            inp.wf(),
            self.wf(inp),
            def < inp.defs@.len(),
            anchored@.len() == inp.defs@.len(),
        ensures
            r == trust_alias_spec(*self, *inp, def, anchored@),
    {
        if inp.defs[def as usize].kind != DefKind::Domain {
            return false;
        }
        let has_trust = match self.by_decl[def as usize] {
            Some(id) => self.domains[id as usize].trust.is_some(),
            None => false,
        };
        has_trust && !anchored[def as usize]
    }

    /// The domain of a non-clock signal annotated `@Name`: a trust alias
    /// stays in the module's single clock domain, or is ambiguous (E3010)
    /// among several; any other name is an annotation (K1).
    pub fn signal_annotation_domain(&mut self, inp: &DomainInput, ann: &Annotation) -> (r: DomainId)
        requires
            inp.wf(),
            old(self).wf(inp),
            inp.def_ok(ann.def),
        ensures
            final(self).wf(inp),
            final(self).same_tables(old(self)),
            final(self).valid(r),
            r == signal_annotation_spec(*old(self), *inp, ann.def).0,
            if signal_annotation_spec(*old(self), *inp, ann.def).1 {
                pushed_one(final(self).diagnostics@, old(self).diagnostics@)
                    && last_ambiguous(final(self).diagnostics@, ann.text@, ann.span, false)
            } else if ann.def is Some && !trust_alias_spec(*old(self), *inp, ann.def.unwrap(), old(self).anchored@)
                && names_non_clock_port(*inp, ann.def) {
                pushed_one(final(self).diagnostics@, old(self).diagnostics@)
                    && last_not_clock(final(self).diagnostics@, ann.text@, ann.span)
            } else {
                final(self).diagnostics == old(self).diagnostics
            },
    {
        let def = match ann.def {
            Some(d) => d,
            None => {
                return DomainId::Error;
            },
        };
        let alias = self.is_trust_only_alias(inp, def, &self.anchored);
        if alias {
            if self.multi_clock {
                self.err_ambiguous(&ann.text, ann.span, false);
                return DomainId::Error;
            }
            return self.default_domain;
        }
        self.annotation_domain(inp, ann)
    }
}

} // verus!
