//! The module walk of the timing-constraint model: clock ports and
//! domain frequencies, asynchronous groups, the CDC bridges that code
//! generation emits (named as it names them) and the user's attributes.
//! Sub-module instances are flattened under an `instance/` prefix; their
//! clock ports map to the parent's clocks through the bindings. The walk
//! goes by names, independent of resolution.

use vstd::prelude::*;

use crate::ast::{wf_exprs, Attribute, ClockEdge, Expr, ExprKind, Span};
use crate::constraints::{
    Bridge, ClockConstraint, ConstraintResult, Ctx, FreqSource, ModuleConstraints, PathRule, Target, keys_unique, map_insert,
};
use crate::defs::PortDir;
use crate::text::{eq_str, extend_chars, string_of};
use crate::timing::{
    attr_in_arena, decimal, false_path_spec, frequency_spec, multicycle_spec, opt_view, parse_false_path, parse_frequency,
    parse_multicycle, parse_timing, push_decimal, ConstraintError, PathKind, Problem, TimingForm,
};

verus! {

/// How a domain's `frequency` field is written.
#[derive(Clone, Copy, Debug, PartialEq, Eq, Structural)]
pub enum FreqValue {
    /// A literal expression.
    Literal(usize),
    /// A value that failed to parse (already reported).
    Error,
    /// Any other value.
    Other,
}

/// A field of a `domain` declaration, as the walk reads it.
#[derive(Clone, Copy, Debug, PartialEq, Eq, Structural)]
pub enum CDomainField {
    Frequency { value: FreqValue, span: Span },
    /// `reset = ...`; `none` is `reset = none` (no reset).
    Reset { none: bool },
    Clock(ClockEdge),
    Other,
}

/// A `domain` declaration.
#[derive(Clone, Debug)]
pub struct CDomain {
    pub name: String,
    pub span: Span,
    pub fields: Vec<CDomainField>,
}

/// A port of a module.
#[derive(Clone, Debug)]
pub struct CPort {
    pub name: String,
    pub span: Span,
    pub dir: PortDir,
    /// Its type is `clock`.
    pub is_clock: bool,
    /// The `@Domain` annotation as written.
    pub domain: Option<String>,
    pub attrs: Vec<Attribute>,
}

/// A port binding of an instance.
#[derive(Clone, Debug)]
pub struct CBinding {
    pub port: String,
    pub value: Option<usize>,
}

/// An instance.
#[derive(Clone, Debug)]
pub struct CInstance {
    pub name: String,
    /// The last segment of the instantiated module's path.
    pub target: String,
    /// The target names a builtin primitive.
    pub prim: bool,
    pub bindings: Vec<CBinding>,
}

/// A statement of a module body.
#[derive(Clone, Debug)]
pub enum CStmtKind {
    Reg { name: String },
    Wire { name: String },
    Let { name: String, value: usize },
    /// `on clk { body }`; `clock` is the trigger when it is a clock.
    On { clock: Option<String>, body: usize },
    /// `lhs = rhs`; `has_suffix` is set for `x[i] = ...` and the like.
    Assign { lhs: String, has_suffix: bool, rhs: usize },
    Instance(CInstance),
    Other,
}

/// A statement with its attributes.
#[derive(Clone, Debug)]
pub struct CStmt {
    pub kind: CStmtKind,
    pub attrs: Vec<Attribute>,
}

/// A statement of a block, as far as register targets go; `else if` is
/// an else block holding the nested `if`.
#[derive(Clone, Debug)]
pub enum CBlockStmt {
    /// `target <= ...`.
    NonBlockAssign { target: String },
    If { then_block: usize, else_block: Option<usize> },
    /// A match statement, by its block arms.
    Match { arms: Vec<usize> },
    For { body: usize },
    Other,
}

/// A block.
#[derive(Clone, Debug)]
pub struct CBlock {
    pub stmts: Vec<CBlockStmt>,
}

/// A module with its item attributes.
#[derive(Clone, Debug)]
pub struct CModule {
    pub name: String,
    pub attrs: Vec<Attribute>,
    pub ports: Vec<CPort>,
    pub body: Vec<CStmt>,
}

/// The file as the walk reads it.
#[derive(Clone, Debug)]
pub struct CInput {
    pub exprs: Vec<Expr>,
    pub blocks: Vec<CBlock>,
    pub domains: Vec<CDomain>,
    pub modules: Vec<CModule>,
}

pub open spec fn attrs_ok(exprs: Seq<Expr>, attrs: Seq<Attribute>) -> bool {
    forall|k: int| 0 <= k < attrs.len() ==> attr_in_arena(exprs, #[trigger] attrs[k])
}

impl CInput {
    pub open spec fn expr_ok(&self, e: usize) -> bool {
        e < self.exprs@.len()
    }

    pub open spec fn block_stmt_ok(&self, s: CBlockStmt, b: int) -> bool {
        match s {
            CBlockStmt::If { then_block, else_block } => then_block < b && (else_block matches Some(
                x,
            ) ==> x < b),
            CBlockStmt::Match { arms } => forall|k: int| 0 <= k < arms@.len() ==> #[trigger] arms@[k] < b,
            CBlockStmt::For { body } => body < b,
            _ => true,
        }
    }

    pub open spec fn block_ok(&self, b: int) -> bool {
        forall|k: int|
            0 <= k < self.blocks@[b].stmts@.len() ==> self.block_stmt_ok(
                #[trigger] self.blocks@[b].stmts@[k],
                b,
            )
    }

    pub open spec fn domain_ok(&self, d: CDomain) -> bool {
        forall|k: int|
            0 <= k < d.fields@.len() ==> match #[trigger] d.fields@[k] {
                CDomainField::Frequency { value: FreqValue::Literal(e), .. } => self.expr_ok(e),
                _ => true,
            }
    }

    pub open spec fn stmt_ok(&self, s: CStmt) -> bool {
        &&& attrs_ok(self.exprs@, s.attrs@)
        &&& match s.kind {
            CStmtKind::Let { value, .. } => self.expr_ok(value),
            CStmtKind::On { body, .. } => body < self.blocks@.len(),
            CStmtKind::Assign { rhs, .. } => self.expr_ok(rhs),
            CStmtKind::Instance(i) => forall|k: int|
                0 <= k < i.bindings@.len() ==> ((#[trigger] i.bindings@[k]).value matches Some(e)
                    ==> self.expr_ok(e)),
            _ => true,
        }
    }

    pub open spec fn module_ok(&self, m: CModule) -> bool {
        &&& attrs_ok(self.exprs@, m.attrs@)
        &&& forall|k: int| 0 <= k < m.ports@.len() ==> attrs_ok(self.exprs@, (#[trigger] m.ports@[k]).attrs@)
        &&& forall|k: int| 0 <= k < m.body@.len() ==> self.stmt_ok(#[trigger] m.body@[k])
    }

    /// References are in range; nested blocks are stored before their
    /// parents.
    pub open spec fn wf(&self) -> bool {
        &&& wf_exprs(self.exprs@)
        &&& forall|b: int| 0 <= b < self.blocks@.len() ==> #[trigger] self.block_ok(b)
        &&& forall|d: int| 0 <= d < self.domains@.len() ==> self.domain_ok(#[trigger] self.domains@[d])
        &&& forall|m: int| 0 <= m < self.modules@.len() ==> self.module_ok(#[trigger] self.modules@[m])
    }
}

/// `name` is in `names`.
pub open spec fn has_name(names: Seq<String>, name: Seq<char>) -> bool {
    exists|k: int| 0 <= k < names.len() && (#[trigger] names[k])@ == name
}

fn contains_name(names: &Vec<String>, name: &str) -> (r: bool)
    ensures
        r == has_name(names@, name@),
{
    let mut k: usize = 0;
    while k < names.len()
        invariant
            k <= names@.len(),
            forall|j: int| 0 <= j < k ==> (#[trigger] names@[j])@ != name@,
        decreases names@.len() - k,
    {
        if eq_str(names[k].as_str(), name) {
            return true;
        }
        k = k + 1;
    }
    false
}

/// `a` followed by `b`.
pub fn concat(a: &str, b: &str) -> (r: String)
    ensures
        r@ == a@ + b@,
{
    let mut v: Vec<char> = Vec::new();
    extend_chars(&mut v, a);
    extend_chars(&mut v, b);
    assert(v@ =~= a@ + b@);
    string_of(&v)
}

/// The single segment of a one-segment path expression.
fn single(exprs: &Vec<Expr>, e: usize) -> (r: Option<String>)
    requires
        e < exprs@.len(),
    ensures
        match crate::ast::single_name(exprs@[e as int]) {
            Some(n) => r matches Some(s) && s@ == n,
            None => r is None,
        },
{
    match crate::ast::path_name(exprs, e) {
        Some(s) => Some(s.clone()),
        None => None,
    }
}

/// The names a module declares, gathered from its body.
pub struct Scope {
    /// Port name, direction, clock type, `@Domain` (a later port of the
    /// same name replaces an earlier one).
    pub ports: Vec<(String, PortDir, bool, Option<String>)>,
    pub regs: Vec<String>,
    pub nets: Vec<String>,
    /// `let name = value`.
    pub let_exprs: Vec<(String, usize)>,
    /// Register and the clock of the first `on` block that writes it.
    pub reg_clock: Vec<(String, String)>,
    /// Indices of the clock ports, in source order.
    pub clock_ports: Vec<usize>,
}

/// The last entry of `ports` named `name`.
pub open spec fn port_entry(ports: Seq<(String, PortDir, bool, Option<String>)>, name: Seq<char>) -> Option<
    (String, PortDir, bool, Option<String>),
>
    decreases ports.len(),
{
    if ports.len() == 0 {
        None
    } else if ports.last().0@ == name {
        Some(ports.last())
    } else {
        port_entry(ports.drop_last(), name)
    }
}

/// The clock of the first entry of `rc` for register `name`.
pub open spec fn reg_clock_spec(rc: Seq<(String, String)>, name: Seq<char>) -> Option<Seq<char>>
    decreases rc.len(),
{
    if rc.len() == 0 {
        None
    } else if rc[0].0@ == name {
        Some(rc[0].1@)
    } else {
        reg_clock_spec(rc.drop_first(), name)
    }
}

/// The value of the last `let name`.
pub open spec fn let_spec(lets: Seq<(String, usize)>, name: Seq<char>) -> Option<usize>
    decreases lets.len(),
{
    if lets.len() == 0 {
        None
    } else if lets.last().0@ == name {
        Some(lets.last().1)
    } else {
        let_spec(lets.drop_last(), name)
    }
}

/// The name of the first of the clock ports `cps` annotated `@domain`.
pub open spec fn clock_of_domain_spec(ports: Seq<CPort>, cps: Seq<usize>, domain: Seq<char>) -> Option<Seq<char>>
    decreases cps.len(),
{
    if cps.len() == 0 {
        None
    } else if ports[cps[0] as int].domain matches Some(d) && d@ == domain {
        Some(ports[cps[0] as int].name@)
    } else {
        clock_of_domain_spec(ports, cps.drop_first(), domain)
    }
}

impl Scope {
    pub open spec fn let_ok(&self, n: int) -> bool {
        forall|k: int| 0 <= k < self.let_exprs@.len() ==> (#[trigger] self.let_exprs@[k]).1 < n
    }

    pub open spec fn clocks_ok(&self, n: int) -> bool {
        forall|k: int| 0 <= k < self.clock_ports@.len() ==> #[trigger] self.clock_ports@[k] < n
    }

    /// The entry of port `name`.
    pub fn port(&self, name: &str) -> (r: Option<(PortDir, bool, Option<String>)>)
        ensures
            match port_entry(self.ports@, name@) {
                Some(e) => r matches Some(x) && x.0 == e.1 && x.1 == e.2 && (match e.3 {
                    Some(d) => x.2 matches Some(y) && y@ == d@,
                    None => x.2 is None,
                }),
                None => r is None,
            },
    {
        let mut k: usize = self.ports.len();
        assert(self.ports@.subrange(0, k as int) =~= self.ports@);
        while k > 0
            invariant
                k <= self.ports@.len(),
                port_entry(self.ports@, name@) == port_entry(self.ports@.subrange(0, k as int), name@),
            decreases k,
        {
            assert(self.ports@.subrange(0, k as int).drop_last() =~= self.ports@.subrange(0, k - 1));
            if eq_str(self.ports[k - 1].0.as_str(), name) {
                let e = &self.ports[k - 1];
                let d = match &e.3 {
                    Some(x) => Some(x.clone()),
                    None => None,
                };
                return Some((e.1, e.2, d));
            }
            k = k - 1;
        }
        None
    }

    pub fn has_port(&self, name: &str) -> (r: bool)
        ensures
            r == (port_entry(self.ports@, name@) is Some),
    {
        self.port(name).is_some()
    }

    /// A port of clock type named `name`.
    pub fn is_clock_port(&self, name: &str) -> (r: bool)
        ensures
            r == (port_entry(self.ports@, name@) matches Some(e) && e.2),
    {
        match self.port(name) {
            Some((_, c, _)) => c,
            None => false,
        }
    }

    /// The clock of the first `on` block writing register `name`.
    fn reg_clock_of(&self, name: &str) -> (r: Option<String>)
        ensures
            opt_view(r) == reg_clock_spec(self.reg_clock@, name@),
    {
        let mut k: usize = 0;
        assert(self.reg_clock@.subrange(0, self.reg_clock@.len() as int) =~= self.reg_clock@);
        while k < self.reg_clock.len()
            invariant
                k <= self.reg_clock@.len(),
                reg_clock_spec(self.reg_clock@, name@) == reg_clock_spec(
                    self.reg_clock@.subrange(k as int, self.reg_clock@.len() as int),
                    name@,
                ),
            decreases self.reg_clock@.len() - k,
        {
            proof {
                let rest = self.reg_clock@.subrange(k as int, self.reg_clock@.len() as int);
                assert(rest[0] == self.reg_clock@[k as int]);
                assert(rest.drop_first() =~= self.reg_clock@.subrange(k + 1, self.reg_clock@.len() as int));
            }
            if eq_str(self.reg_clock[k].0.as_str(), name) {
                return Some(self.reg_clock[k].1.clone());
            }
            k = k + 1;
        }
        None
    }

    /// The value of the last `let name`.
    fn let_of(&self, name: &str) -> (r: Option<usize>)
        ensures
            r == let_spec(self.let_exprs@, name@),
            r matches Some(e) ==> exists|k: int| 0 <= k < self.let_exprs@.len() && self.let_exprs@[k].1 == e,
    {
        let mut k: usize = self.let_exprs.len();
        assert(self.let_exprs@.subrange(0, k as int) =~= self.let_exprs@);
        while k > 0
            invariant
                k <= self.let_exprs@.len(),
                let_spec(self.let_exprs@, name@) == let_spec(self.let_exprs@.subrange(0, k as int), name@),
            decreases k,
        {
            proof {
                assert(self.let_exprs@.subrange(0, k as int).drop_last() =~= self.let_exprs@.subrange(0, k - 1));
            }
            if eq_str(self.let_exprs[k - 1].0.as_str(), name) {
                return Some(self.let_exprs[k - 1].1);
            }
            k = k - 1;
        }
        None
    }
}

/// The characters of each string.
pub open spec fn names_view(v: Seq<String>) -> Seq<Seq<char>> {
    v.map_values(|s: String| s@)
}

/// The targets of the `<=` assignments of block `b`, nested blocks
/// included, in order.
pub open spec fn nb_targets(inp: CInput, b: int) -> Seq<Seq<char>>
    decreases b, inp.blocks@[b].stmts@.len() + 1, 0int,
{
    if !(0 <= b < inp.blocks@.len()) {
        Seq::empty()
    } else {
        nb_stmts(inp, b, inp.blocks@[b].stmts@.len() as int)
    }
}

/// A nested block of block `b`, stored before it.
pub open spec fn nb_inner(inp: CInput, x: int, b: int) -> Seq<Seq<char>>
    decreases b, 0int, 0int,
{
    if 0 <= x < b {
        nb_targets(inp, x)
    } else {
        Seq::empty()
    }
}

/// The targets of the first `n` statements of block `b`.
pub open spec fn nb_stmts(inp: CInput, b: int, n: int) -> Seq<Seq<char>>
    decreases b, n, 0int,
{
    if !(0 <= b < inp.blocks@.len()) || n <= 0 || n > inp.blocks@[b].stmts@.len() {
        Seq::empty()
    } else {
        nb_stmts(inp, b, n - 1) + match inp.blocks@[b].stmts@[n - 1] {
            CBlockStmt::NonBlockAssign { target } => seq![target@],
            CBlockStmt::If { then_block, else_block } => nb_inner(inp, then_block as int, b) + match else_block {
                Some(x) => nb_inner(inp, x as int, b),
                None => Seq::empty(),
            },
            CBlockStmt::Match { arms } => nb_arms(inp, arms@, b, n - 1),
            CBlockStmt::For { body } => nb_inner(inp, body as int, b),
            CBlockStmt::Other => Seq::empty(),
        }
    }
}

/// The targets of the arm blocks of a match statement (statement `n` of
/// block `b`).
pub open spec fn nb_arms(inp: CInput, arms: Seq<usize>, b: int, n: int) -> Seq<Seq<char>>
    decreases b, n, 1 + arms.len(),
{
    if arms.len() == 0 || n < 0 || b < 0 {
        Seq::empty()
    } else {
        nb_arms(inp, arms.drop_last(), b, n) + nb_inner(inp, arms.last() as int, b)
    }
}

/// Appends the targets of the `<=` assignments of block `b` (nested
/// `if`, `match` and `for` included), in order.
fn collect_nonblocking_targets(inp: &CInput, b: usize, out: &mut Vec<String>)
    requires
        inp.wf(),
        b < inp.blocks@.len(),
    ensures
        names_view(final(out)@) == names_view(old(out)@) + nb_targets(*inp, b as int),
    decreases b,
{
    let ghost o0 = names_view(out@);
    let blk = &inp.blocks[b];
    assert(inp.block_ok(b as int));
    let mut k: usize = 0;
    while k < blk.stmts.len()
        invariant
            inp.wf(),
            b < inp.blocks@.len(),
            inp.block_ok(b as int),
            *blk == inp.blocks@[b as int],
            k <= blk.stmts@.len(),
            names_view(out@) == o0 + nb_stmts(*inp, b as int, k as int),
        decreases blk.stmts@.len() - k,
    {
        let st = &blk.stmts[k];
        assert(inp.block_stmt_ok(*st, b as int));
        let ghost o1 = names_view(out@);
        proof {
            assert(blk.stmts@[k as int] == *st);
            assert(nb_stmts(*inp, b as int, k + 1) == nb_stmts(*inp, b as int, k as int) + match *st {
                CBlockStmt::NonBlockAssign { target } => seq![target@],
                CBlockStmt::If { then_block, else_block } => nb_inner(*inp, then_block as int, b as int) + match else_block {
                    Some(x) => nb_inner(*inp, x as int, b as int),
                    None => Seq::empty(),
                },
                CBlockStmt::Match { arms } => nb_arms(*inp, arms@, b as int, k as int),
                CBlockStmt::For { body } => nb_inner(*inp, body as int, b as int),
                CBlockStmt::Other => Seq::empty(),
            });
        }
        match st {
            CBlockStmt::NonBlockAssign { target } => {
                out.push(target.clone());
                assert(names_view(out@) =~= o1 + seq![target@]);
            },
            CBlockStmt::If { then_block, else_block } => {
                collect_nonblocking_targets(inp, *then_block, out);
                assert(nb_inner(*inp, *then_block as int, b as int) == nb_targets(*inp, *then_block as int));
                match else_block {
                    Some(x) => {
                        collect_nonblocking_targets(inp, *x, out);
                        assert(nb_inner(*inp, *x as int, b as int) == nb_targets(*inp, *x as int));
                        assert(names_view(out@) =~= o1 + (nb_targets(*inp, *then_block as int) + nb_targets(
                            *inp,
                            *x as int,
                        )));
                    },
                    None => {
                        assert(names_view(out@) =~= o1 + (nb_targets(*inp, *then_block as int) + Seq::empty()));
                    },
                }
            },
            CBlockStmt::Match { arms } => {
                let mut j: usize = 0;
                while j < arms.len()
                    invariant
                        inp.wf(),
                        b < inp.blocks@.len(),
                        forall|m: int| 0 <= m < arms@.len() ==> #[trigger] arms@[m] < b,
                        j <= arms@.len(),
                        names_view(out@) == o1 + nb_arms(*inp, arms@.subrange(0, j as int), b as int, k as int),
                    decreases arms@.len() - j,
                {
                    proof {
                        assert(arms@.subrange(0, j + 1).drop_last() =~= arms@.subrange(0, j as int));
                        assert(arms@.subrange(0, j + 1).last() == arms@[j as int]);
                        assert(nb_inner(*inp, arms@[j as int] as int, b as int) == nb_targets(*inp, arms@[j as int] as int));
                    }
                    collect_nonblocking_targets(inp, arms[j], out);
                    j = j + 1;
                    proof {
                        assert(names_view(out@) =~= o1 + nb_arms(*inp, arms@.subrange(0, j as int), b as int, k as int));
                    }
                }
                assert(arms@.subrange(0, arms@.len() as int) =~= arms@);
            },
            CBlockStmt::For { body } => {
                collect_nonblocking_targets(inp, *body, out);
                assert(nb_inner(*inp, *body as int, b as int) == nb_targets(*inp, *body as int));
            },
            CBlockStmt::Other => {
                assert(names_view(out@) =~= o1 + Seq::<Seq<char>>::empty());
            },
        }
        k = k + 1;
        proof {
            assert(names_view(out@) =~= o0 + nb_stmts(*inp, b as int, k as int));
        }
    }
}

/// A port entry as plain values.
pub open spec fn port_view(e: (String, PortDir, bool, Option<String>)) -> (Seq<char>, PortDir, bool, Option<Seq<char>>) {
    (e.0@, e.1, e.2, opt_view(e.3))
}

/// The entry a port declaration gives.
pub open spec fn port_decl_view(p: CPort) -> (Seq<char>, PortDir, bool, Option<Seq<char>>) {
    (p.name@, p.dir, p.is_clock, opt_view(p.domain))
}

/// The register names of a body, in order.
pub open spec fn reg_names(body: Seq<CStmt>) -> Seq<Seq<char>>
    decreases body.len(),
{
    if body.len() == 0 {
        Seq::empty()
    } else {
        reg_names(body.drop_last()) + match body.last().kind {
            CStmtKind::Reg { name } => seq![name@],
            _ => Seq::empty(),
        }
    }
}

/// The wire and `let` names of a body, in order.
pub open spec fn net_names(body: Seq<CStmt>) -> Seq<Seq<char>>
    decreases body.len(),
{
    if body.len() == 0 {
        Seq::empty()
    } else {
        net_names(body.drop_last()) + match body.last().kind {
            CStmtKind::Wire { name } => seq![name@],
            CStmtKind::Let { name, .. } => seq![name@],
            _ => Seq::empty(),
        }
    }
}

/// The `let` bindings of a body, in order.
pub open spec fn let_view(body: Seq<CStmt>) -> Seq<(Seq<char>, usize)>
    decreases body.len(),
{
    if body.len() == 0 {
        Seq::empty()
    } else {
        let_view(body.drop_last()) + match body.last().kind {
            CStmtKind::Let { name, value } => seq![(name@, value)],
            _ => Seq::empty(),
        }
    }
}

/// Each register an `on clk` block of the body writes, with `clk`, in
/// order.
pub open spec fn on_writes(inp: CInput, body: Seq<CStmt>) -> Seq<(Seq<char>, Seq<char>)>
    decreases body.len(),
{
    if body.len() == 0 {
        Seq::empty()
    } else {
        on_writes(inp, body.drop_last()) + match body.last().kind {
            CStmtKind::On { clock: Some(clk), body: b } => nb_targets(inp, b as int).map_values(
                |t: Seq<char>| (t, clk@),
            ),
            _ => Seq::empty(),
        }
    }
}

/// The clock of the first write of `n` in `w`.
pub open spec fn first_write(w: Seq<(Seq<char>, Seq<char>)>, n: Seq<char>) -> Option<Seq<char>>
    decreases w.len(),
{
    if w.len() == 0 {
        None
    } else if w[0].0 == n {
        Some(w[0].1)
    } else {
        first_write(w.drop_first(), n)
    }
}

pub open spec fn pair_view(e: (String, String)) -> (Seq<char>, Seq<char>) {
    (e.0@, e.1@)
}

proof fn lemma_reg_clock_first(rc: Seq<(String, String)>, n: Seq<char>)
    ensures
        reg_clock_spec(rc, n) == first_write(rc.map_values(|e: (String, String)| pair_view(e)), n),
    decreases rc.len(),
{
    if rc.len() > 0 {
        lemma_reg_clock_first(rc.drop_first(), n);
        assert(rc.drop_first().map_values(|e: (String, String)| pair_view(e)) =~= rc.map_values(
            |e: (String, String)| pair_view(e),
        ).drop_first());
    }
}

proof fn lemma_first_write_push(w: Seq<(Seq<char>, Seq<char>)>, x: (Seq<char>, Seq<char>), n: Seq<char>)
    ensures
        first_write(w.push(x), n) == match first_write(w, n) {
            Some(c) => Some(c),
            None => if x.0 == n {
                Some(x.1)
            } else {
                None
            },
        },
    decreases w.len(),
{
    if w.len() > 0 {
        assert(w.push(x)[0] == w[0]);
        assert(w.push(x).drop_first() =~= w.drop_first().push(x));
        lemma_first_write_push(w.drop_first(), x, n);
    } else {
        assert(w.push(x)[0] == x);
        assert(w.push(x).drop_first() =~= Seq::<(Seq<char>, Seq<char>)>::empty());
        assert(first_write(Seq::<(Seq<char>, Seq<char>)>::empty(), n) is None);
    }
}

/// No module before module `k` has its name.
pub open spec fn first_occ(ms: Seq<CModule>, k: int) -> bool {
    forall|j: int| 0 <= j < k ==> (#[trigger] ms[j]).name@ != ms[k].name@
}

/// The names of the first `n` modules taken as top modules: the first
/// module of each name that has a clock port, in order.
pub open spec fn top_modules(ms: Seq<CModule>, n: int) -> Seq<Seq<char>>
    decreases n,
{
    if n <= 0 || n > ms.len() {
        Seq::empty()
    } else {
        top_modules(ms, n - 1) + if first_occ(ms, n - 1) && has_clock_port(ms[n - 1].ports@) {
            seq![ms[n - 1].name@]
        } else {
            Seq::empty()
        }
    }
}

/// Every domain `frequency` that is no literal, or a literal that does
/// not parse, has an error at its span.
pub open spec fn domain_errors_reported(inp: CInput, errors: Seq<ConstraintError>) -> bool {
    forall|d: int, k: int|
        0 <= d < inp.domains@.len() && 0 <= k < inp.domains@[d].fields@.len() ==> match #[trigger] inp.domains@[d].fields@[k] {
            CDomainField::Frequency { value: FreqValue::Other, span } => has_span(errors, span),
            CDomainField::Frequency { value: FreqValue::Literal(e), .. } => (frequency_spec(inp.exprs@, e as int) matches Err(
                err,
            ) ==> has_span(errors, err.span)),
            _ => true,
        }
}

/// The fields below `n` of domain `d` have their errors in `errors`.
pub open spec fn fields_reported(inp: CInput, errors: Seq<ConstraintError>, d: int, n: int) -> bool {
    forall|k: int|
        0 <= k < n ==> match #[trigger] inp.domains@[d].fields@[k] {
            CDomainField::Frequency { value: FreqValue::Other, span } => has_span(errors, span),
            CDomainField::Frequency { value: FreqValue::Literal(e), .. } => (frequency_spec(inp.exprs@, e as int) matches Err(
                err,
            ) ==> has_span(errors, err.span)),
            _ => true,
        }
}

proof fn lemma_span_kept(a: Seq<ConstraintError>, b: Seq<ConstraintError>, sp: Span)
    requires
        has_span(a, sp),
        a.len() <= b.len(),
        forall|i: int| 0 <= i < a.len() ==> #[trigger] b[i] == a[i],
    ensures
        has_span(b, sp),
{
    let w = choose|w: int| 0 <= w < a.len() && (#[trigger] a[w]).span == sp;
    assert(b[w] == a[w]);
}

proof fn lemma_reported_kept(inp: CInput, a: Seq<ConstraintError>, b: Seq<ConstraintError>)
    requires
        domain_errors_reported(inp, a),
        a.len() <= b.len(),
        forall|i: int| 0 <= i < a.len() ==> #[trigger] b[i] == a[i],
    ensures
        domain_errors_reported(inp, b),
{
    assert forall|sp: Span| has_span(a, sp) implies #[trigger] has_span(b, sp) by {
        let w = choose|w: int| 0 <= w < a.len() && (#[trigger] a[w]).span == sp;
        assert(b[w] == a[w]);
    }
}

/// The last port of `ports` named `n` is a clock port.
pub open spec fn last_is_clock(ports: Seq<CPort>, n: Seq<char>) -> bool
    decreases ports.len(),
{
    if ports.len() == 0 {
        false
    } else if ports.last().name@ == n {
        ports.last().is_clock
    } else {
        last_is_clock(ports.drop_last(), n)
    }
}

/// Some port name of `ports` denotes a clock port.
pub open spec fn has_clock_port(ports: Seq<CPort>) -> bool {
    exists|k: int| 0 <= k < ports.len() && last_is_clock(ports, (#[trigger] ports[k]).name@)
}

proof fn lemma_entry_clock(entries: Seq<(String, PortDir, bool, Option<String>)>, ports: Seq<CPort>, n: Seq<char>)
    requires
        entries.len() == ports.len(),
        forall|i: int| 0 <= i < entries.len() ==> port_view(#[trigger] entries[i]) == port_decl_view(ports[i]),
    ensures
        (port_entry(entries, n) matches Some(e) && e.2) == last_is_clock(ports, n),
    decreases entries.len(),
{
    if entries.len() > 0 {
        assert(port_view(entries[entries.len() - 1]) == port_decl_view(ports[ports.len() - 1]));
        lemma_entry_clock(entries.drop_last(), ports.drop_last(), n);
    }
}

proof fn lemma_clock_indices_nonempty(entries: Seq<(String, PortDir, bool, Option<String>)>, ports: Seq<CPort>, n: int)
    requires
        0 <= n <= ports.len(),
    ensures
        (clock_indices(entries, ports, n).len() > 0) == exists|k: int|
            0 <= k < n && (port_entry(entries, (#[trigger] ports[k]).name@) matches Some(e) && e.2),
    decreases n,
{
    if n > 0 {
        lemma_clock_indices_nonempty(entries, ports, n - 1);
    }
}

/// The indices of the ports among the first `n` whose name denotes a
/// clock port in `entries`.
pub open spec fn clock_indices(entries: Seq<(String, PortDir, bool, Option<String>)>, ports: Seq<CPort>, n: int) -> Seq<usize>
    decreases n,
{
    if n <= 0 || n > ports.len() {
        Seq::empty()
    } else {
        clock_indices(entries, ports, n - 1) + if port_entry(entries, ports[n - 1].name@) matches Some(e) && e.2 {
            seq![(n - 1) as usize]
        } else {
            Seq::empty()
        }
    }
}

/// The scope of module `m`.
pub fn scope_of(inp: &CInput, m: &CModule) -> (s: Scope)
    requires
        inp.wf(),
        inp.module_ok(*m),
    ensures
        s.let_ok(inp.exprs@.len() as int),
        s.clocks_ok(m.ports@.len() as int),
        s.ports@.len() == m.ports@.len(),
        forall|i: int| 0 <= i < s.ports@.len() ==> port_view(#[trigger] s.ports@[i]) == port_decl_view(m.ports@[i]),
        names_view(s.regs@) == reg_names(m.body@),
        names_view(s.nets@) == net_names(m.body@),
        s.let_exprs@.map_values(|e: (String, usize)| (e.0@, e.1)) == let_view(m.body@),
        forall|n: Seq<char>| #[trigger] reg_clock_spec(s.reg_clock@, n) == first_write(on_writes(*inp, m.body@), n),
        s.clock_ports@ == clock_indices(s.ports@, m.ports@, m.ports@.len() as int),
{
    let mut s = Scope {
        ports: Vec::new(),
        regs: Vec::new(),
        nets: Vec::new(),
        let_exprs: Vec::new(),
        reg_clock: Vec::new(),
        clock_ports: Vec::new(),
    };
    let mut k: usize = 0;
    while k < m.ports.len()
        invariant
            k <= m.ports@.len(),
            s.let_exprs@.len() == 0,
            s.clock_ports@.len() == 0,
            s.regs@.len() == 0,
            s.nets@.len() == 0,
            s.reg_clock@.len() == 0,
            s.ports@.len() == k,
            forall|i: int| 0 <= i < k ==> port_view(#[trigger] s.ports@[i]) == port_decl_view(m.ports@[i]),
        decreases m.ports@.len() - k,
    {
        let p = &m.ports[k];
        let d = match &p.domain {
            Some(x) => Some(x.clone()),
            None => None,
        };
        let ghost sp0 = s.ports@;
        let e = (p.name.clone(), p.dir, p.is_clock, d);
        assert(port_view(e) == port_decl_view(m.ports@[k as int]));
        s.ports.push(e);
        k = k + 1;
    }
    let ghost pv = s.ports@;
    let mut j: usize = 0;
    while j < m.body.len()
        invariant
            inp.wf(),
            inp.module_ok(*m),
            j <= m.body@.len(),
            s.let_ok(inp.exprs@.len() as int),
            s.clock_ports@.len() == 0,
            s.ports@ == pv,
            pv.len() == m.ports@.len(),
            forall|i: int| 0 <= i < pv.len() ==> port_view(#[trigger] pv[i]) == port_decl_view(m.ports@[i]),
            names_view(s.regs@) == reg_names(m.body@.subrange(0, j as int)),
            names_view(s.nets@) == net_names(m.body@.subrange(0, j as int)),
            s.let_exprs@.map_values(|e: (String, usize)| (e.0@, e.1)) == let_view(m.body@.subrange(0, j as int)),
            forall|n: Seq<char>|
                #[trigger] reg_clock_spec(s.reg_clock@, n) == first_write(on_writes(*inp, m.body@.subrange(0, j as int)), n),
        decreases m.body@.len() - j,
    {
        assert(inp.stmt_ok(m.body@[j as int]));
        proof {
            assert(m.body@.subrange(0, j + 1).drop_last() =~= m.body@.subrange(0, j as int));
            assert(m.body@.subrange(0, j + 1).last() == m.body@[j as int]);
        }
        proof {
            let sub = m.body@.subrange(0, j + 1);
            assert(reg_names(sub) == reg_names(m.body@.subrange(0, j as int)) + match m.body@[j as int].kind {
                CStmtKind::Reg { name } => seq![name@],
                _ => Seq::empty(),
            });
            assert(net_names(sub) == net_names(m.body@.subrange(0, j as int)) + match m.body@[j as int].kind {
                CStmtKind::Wire { name } => seq![name@],
                CStmtKind::Let { name, .. } => seq![name@],
                _ => Seq::empty(),
            });
            assert(let_view(sub) == let_view(m.body@.subrange(0, j as int)) + match m.body@[j as int].kind {
                CStmtKind::Let { name, value } => seq![(name@, value)],
                _ => Seq::empty(),
            });
            assert(on_writes(*inp, sub) == on_writes(*inp, m.body@.subrange(0, j as int)) + match m.body@[j as int].kind {
                CStmtKind::On { clock: Some(clk), body: b } => nb_targets(*inp, b as int).map_values(
                    |t: Seq<char>| (t, clk@),
                ),
                _ => Seq::empty(),
            });
        }
        let ghost r0 = names_view(s.regs@);
        let ghost n0 = names_view(s.nets@);
        let ghost l0 = s.let_exprs@.map_values(|e: (String, usize)| (e.0@, e.1));
        let ghost w0 = on_writes(*inp, m.body@.subrange(0, j as int));
        match &m.body[j].kind {
            CStmtKind::Reg { name } => {
                s.regs.push(name.clone());
                assert(names_view(s.regs@) =~= r0 + seq![name@]);
            },
            CStmtKind::Wire { name } => {
                s.nets.push(name.clone());
                assert(names_view(s.nets@) =~= n0 + seq![name@]);
            },
            CStmtKind::Let { name, value } => {
                s.nets.push(name.clone());
                s.let_exprs.push((name.clone(), *value));
                assert(names_view(s.nets@) =~= n0 + seq![name@]);
                assert(s.let_exprs@.map_values(|e: (String, usize)| (e.0@, e.1)) =~= l0 + seq![(name@, *value)]);
            },
            CStmtKind::On { clock: Some(clk), body } => {
                let mut targets: Vec<String> = Vec::new();
                collect_nonblocking_targets(inp, *body, &mut targets);
                let ghost tv = names_view(targets@);
                assert(tv =~= nb_targets(*inp, *body as int));
                let mut t: usize = 0;
                while t < targets.len()
                    invariant
                        t <= targets@.len(),
                        s.let_ok(inp.exprs@.len() as int),
                        s.clock_ports@.len() == 0,
                        tv == names_view(targets@),
                        names_view(s.regs@) == r0,
                        names_view(s.nets@) == n0,
                        s.let_exprs@.map_values(|e: (String, usize)| (e.0@, e.1)) == l0,
                        s.ports@ == pv,
                        forall|n: Seq<char>|
                            #[trigger] reg_clock_spec(s.reg_clock@, n) == first_write(
                                w0 + tv.subrange(0, t as int).map_values(|x: Seq<char>| (x, clk@)),
                                n,
                            ),
                    decreases targets@.len() - t,
                {
                    let ghost rc0 = s.reg_clock@;
                    let ghost wt = w0 + tv.subrange(0, t as int).map_values(|x: Seq<char>| (x, clk@));
                    proof {
                        assert(w0 + tv.subrange(0, t + 1).map_values(|x: Seq<char>| (x, clk@)) =~= wt.push(
                            (tv[t as int], clk@),
                        ));
                        assert(tv[t as int] == targets@[t as int]@);
                    }
                    let present = s.reg_clock_of(targets[t].as_str()).is_some();
                    if !present {
                        s.reg_clock.push((targets[t].clone(), clk.clone()));
                    }
                    t = t + 1;
                    proof {
                        assert forall|n: Seq<char>|
                            #[trigger] reg_clock_spec(s.reg_clock@, n) == first_write(
                                w0 + tv.subrange(0, t as int).map_values(|x: Seq<char>| (x, clk@)),
                                n,
                            ) by {
                            lemma_first_write_push(wt, (tv[t - 1], clk@), n);
                            lemma_reg_clock_first(rc0, n);
                            lemma_reg_clock_first(s.reg_clock@, n);
                            assert(reg_clock_spec(rc0, n) == first_write(wt, n));
                            if !present {
                                let x = (targets@[t - 1], *clk);
                                assert(s.reg_clock@ == rc0.push(x));
                                assert(s.reg_clock@.map_values(|e: (String, String)| pair_view(e)) =~= rc0.map_values(
                                    |e: (String, String)| pair_view(e),
                                ).push(pair_view(x)));
                                lemma_first_write_push(rc0.map_values(|e: (String, String)| pair_view(e)), pair_view(x), n);
                            }
                        }
                    }
                }
                assert(tv.subrange(0, tv.len() as int) =~= tv);
                assert(on_writes(*inp, m.body@.subrange(0, j + 1)) =~= w0 + tv.map_values(|x: Seq<char>| (x, clk@)));
            },
            _ => {
                assert(names_view(s.regs@) =~= r0 + Seq::<Seq<char>>::empty());
                assert(names_view(s.nets@) =~= n0 + Seq::<Seq<char>>::empty());
                assert(s.let_exprs@.map_values(|e: (String, usize)| (e.0@, e.1)) =~= l0 + Seq::<(Seq<char>, usize)>::empty());
                assert(w0 + Seq::<(Seq<char>, Seq<char>)>::empty() =~= w0);
            },
        }
        j = j + 1;
        proof {
            assert(names_view(s.regs@) =~= reg_names(m.body@.subrange(0, j as int)));
            assert(names_view(s.nets@) =~= net_names(m.body@.subrange(0, j as int)));
            assert(s.let_exprs@.map_values(|e: (String, usize)| (e.0@, e.1)) =~= let_view(
                m.body@.subrange(0, j as int),
            ));
        }
    }
    assert(m.body@.subrange(0, m.body@.len() as int) =~= m.body@);
    // The clock ports, in source order, by the entry their name has.
    let mut c: usize = 0;
    while c < m.ports.len()
        invariant
            c <= m.ports@.len(),
            s.let_ok(inp.exprs@.len() as int),
            s.clocks_ok(m.ports@.len() as int),
            s.clock_ports@ == clock_indices(s.ports@, m.ports@, c as int),
            s.ports@ == pv,
            names_view(s.regs@) == reg_names(m.body@),
            names_view(s.nets@) == net_names(m.body@),
            s.let_exprs@.map_values(|e: (String, usize)| (e.0@, e.1)) == let_view(m.body@),
            forall|n: Seq<char>| #[trigger] reg_clock_spec(s.reg_clock@, n) == first_write(on_writes(*inp, m.body@), n),
            pv.len() == m.ports@.len(),
            forall|i: int| 0 <= i < pv.len() ==> port_view(#[trigger] pv[i]) == port_decl_view(m.ports@[i]),
        decreases m.ports@.len() - c,
    {
        if s.is_clock_port(m.ports[c].name.as_str()) {
            s.clock_ports.push(c);
        }
        c = c + 1;
        proof {
            assert(s.clock_ports@ =~= clock_indices(s.ports@, m.ports@, c as int));
        }
    }
    s
}

/// The one-segment path names of expression `e` and its operands, in
/// order (a call contributes its arguments, not its callee).
pub open spec fn path_names_spec(exprs: Seq<Expr>, e: int) -> Seq<Seq<char>>
    decreases e, 1int, 0int,
{
    if !(0 <= e < exprs.len()) {
        Seq::empty()
    } else {
        match exprs[e].kind {
            ExprKind::Path { segments, .. } => if segments@.len() == 1 {
                seq![segments@[0]@]
            } else {
                Seq::empty()
            },
            ExprKind::Binary { lhs, rhs, .. } => below_names(exprs, lhs as int, e) + below_names(exprs, rhs as int, e),
            ExprKind::Unary { operand, .. } => below_names(exprs, operand as int, e),
            ExprKind::Index { base, index } => below_names(exprs, base as int, e) + below_names(exprs, index as int, e),
            ExprKind::Range { base, .. } => below_names(exprs, base as int, e),
            ExprKind::PartSelect { base, .. } => below_names(exprs, base as int, e),
            ExprKind::Field { base, .. } => below_names(exprs, base as int, e),
            ExprKind::Cast { expr } => below_names(exprs, expr as int, e),
            ExprKind::Call { args, .. } => list_names(exprs, args@, e),
            ExprKind::If { cond, then_expr, else_expr } => below_names(exprs, cond as int, e) + below_names(
                exprs,
                then_expr as int,
                e,
            ) + below_names(exprs, else_expr as int, e),
            _ => Seq::empty(),
        }
    }
}

/// The names of operand `x` of expression `e`, which is stored before it.
pub open spec fn below_names(exprs: Seq<Expr>, x: int, e: int) -> Seq<Seq<char>>
    decreases e, 0int, 0int,
{
    if 0 <= x < e {
        path_names_spec(exprs, x)
    } else {
        Seq::empty()
    }
}

/// The names of each expression of `args`, operands of `e`, in order.
pub open spec fn list_names(exprs: Seq<Expr>, args: Seq<usize>, e: int) -> Seq<Seq<char>>
    decreases e, 0int, args.len(),
{
    if args.len() == 0 {
        Seq::empty()
    } else {
        list_names(exprs, args.drop_last(), e) + below_names(exprs, args.last() as int, e)
    }
}

/// Appends the one-segment path names an expression reads (operands,
/// arguments, branches; not callees).
fn collect_path_names(exprs: &Vec<Expr>, e: usize, out: &mut Vec<String>)
    requires
        wf_exprs(exprs@),
        e < exprs@.len(),
    ensures
        names_view(final(out)@) == names_view(old(out)@) + path_names_spec(exprs@, e as int),
    decreases e,
{
    let ghost kids = crate::ast::children(exprs@[e as int].kind);
    assert(forall|k: int| 0 <= k < kids.len() ==> #[trigger] kids[k] < e);
    let ghost o0 = names_view(out@);
    match &exprs[e].kind {
        ExprKind::Path { segments, .. } => {
            if segments.len() == 1 {
                out.push(segments[0].clone());
            }
            assert(names_view(out@) =~= o0 + path_names_spec(exprs@, e as int));
        },
        ExprKind::Binary { lhs, rhs, .. } => {
            assert(kids[0] == *lhs && kids[1] == *rhs);
            collect_path_names(exprs, *lhs, out);
            collect_path_names(exprs, *rhs, out);
            assert(names_view(out@) =~= o0 + path_names_spec(exprs@, e as int));
        },
        ExprKind::Unary { operand, .. } => {
            assert(kids[0] == *operand);
            collect_path_names(exprs, *operand, out);
        },
        ExprKind::Index { base, index } => {
            assert(kids[0] == *base && kids[1] == *index);
            collect_path_names(exprs, *base, out);
            collect_path_names(exprs, *index, out);
            assert(names_view(out@) =~= o0 + path_names_spec(exprs@, e as int));
        },
        ExprKind::Range { base, .. } => {
            assert(kids[0] == *base);
            collect_path_names(exprs, *base, out);
        },
        ExprKind::PartSelect { base, .. } => {
            assert(kids[0] == *base);
            collect_path_names(exprs, *base, out);
        },
        ExprKind::Field { base, .. } => {
            assert(kids[0] == *base);
            collect_path_names(exprs, *base, out);
        },
        ExprKind::Cast { expr } => {
            assert(kids[0] == *expr);
            collect_path_names(exprs, *expr, out);
        },
        ExprKind::Call { args, .. } => {
            assert forall|m: int| 0 <= m < args@.len() implies #[trigger] args@[m] < e by {
                assert(kids[m + 1] == args@[m]);
            }
            let mut k: usize = 0;
            while k < args.len()
                invariant
                    wf_exprs(exprs@),
                    forall|m: int| 0 <= m < args@.len() ==> #[trigger] args@[m] < e,
                    e < exprs@.len(),
                    k <= args@.len(),
                    names_view(out@) == o0 + list_names(exprs@, args@.subrange(0, k as int), e as int),
                decreases args@.len() - k,
            {
                let ghost before = names_view(out@);
                proof {
                    let sub = args@.subrange(0, k + 1);
                    assert(sub.drop_last() =~= args@.subrange(0, k as int));
                    assert(sub.last() == args@[k as int]);
                    assert(list_names(exprs@, sub, e as int) == list_names(exprs@, args@.subrange(0, k as int), e as int)
                        + below_names(exprs@, args@[k as int] as int, e as int));
                    assert(below_names(exprs@, args@[k as int] as int, e as int) == path_names_spec(exprs@, args@[k as int] as int));
                }
                collect_path_names(exprs, args[k], out);
                k = k + 1;
                proof {
                    assert(names_view(out@) =~= o0 + list_names(exprs@, args@.subrange(0, k as int), e as int));
                }
            }
            assert(args@.subrange(0, args@.len() as int) =~= args@);
        },
        ExprKind::If { cond, then_expr, else_expr } => {
            assert(kids[0] == *cond && kids[1] == *then_expr && kids[2] == *else_expr);
            collect_path_names(exprs, *cond, out);
            collect_path_names(exprs, *then_expr, out);
            collect_path_names(exprs, *else_expr, out);
            assert(names_view(out@) =~= o0 + path_names_spec(exprs@, e as int));
        },
        _ => {
            assert(names_view(out@) =~= o0 + path_names_spec(exprs@, e as int));
        },
    }
}

/// A domain declaration as the walk keeps it.
#[derive(Clone, Debug)]
pub struct DomainEntry {
    pub name: String,
    pub freq_hz: Option<u64>,
    /// `false` for `reset = none`.
    pub has_reset: bool,
    pub span: Span,
}

/// No two errors share a primary span.
pub open spec fn distinct_spans(errors: Seq<ConstraintError>) -> bool {
    forall|i: int, j: int| 0 <= i < j < errors.len() ==> errors[i].span != errors[j].span
}

/// The first clock of `clocks` whose port is `name`, or `clocks.len()`.
pub open spec fn clock_index(clocks: Seq<ClockConstraint>, name: Seq<char>) -> int
    decreases clocks.len(),
{
    if clocks.len() == 0 {
        0
    } else if clocks[0].port@ == name {
        0
    } else {
        1 + clock_index(clocks.drop_first(), name)
    }
}

/// A domain entry as plain values: name, frequency, reset presence,
/// span.
pub open spec fn entry_view(e: DomainEntry) -> (Seq<char>, Option<u64>, bool, Span) {
    (e.name@, e.freq_hz, e.has_reset, e.span)
}

/// The frequency the fields give: the last `frequency` literal that
/// parses.
pub open spec fn fields_freq(exprs: Seq<Expr>, fields: Seq<CDomainField>) -> Option<u64>
    decreases fields.len(),
{
    if fields.len() == 0 {
        None
    } else {
        match fields.last() {
            CDomainField::Frequency { value: FreqValue::Literal(e), .. } => match frequency_spec(exprs, e as int) {
                Ok(hz) => Some(hz),
                Err(_) => fields_freq(exprs, fields.drop_last()),
            },
            _ => fields_freq(exprs, fields.drop_last()),
        }
    }
}

/// No field says `reset = none`.
pub open spec fn fields_reset(fields: Seq<CDomainField>) -> bool {
    !exists|k: int| 0 <= k < fields.len() && #[trigger] fields[k] == (CDomainField::Reset { none: true })
}

/// The entry a domain declaration gives.
pub open spec fn decl_entry(exprs: Seq<Expr>, d: CDomain) -> (Seq<char>, Option<u64>, bool, Span) {
    (d.name@, fields_freq(exprs, d.fields@), fields_reset(d.fields@), d.span)
}

/// The last entry of the table named `n`.
pub open spec fn table_lookup(ds: Seq<DomainEntry>, n: Seq<char>) -> Option<(Seq<char>, Option<u64>, bool, Span)>
    decreases ds.len(),
{
    if ds.len() == 0 {
        None
    } else if ds.last().name@ == n {
        Some(entry_view(ds.last()))
    } else {
        table_lookup(ds.drop_last(), n)
    }
}

/// The entry of the last declaration named `n`.
pub open spec fn decl_lookup(exprs: Seq<Expr>, ds: Seq<CDomain>, n: Seq<char>) -> Option<(Seq<char>, Option<u64>, bool, Span)>
    decreases ds.len(),
{
    if ds.len() == 0 {
        None
    } else if ds.last().name@ == n {
        Some(decl_entry(exprs, ds.last()))
    } else {
        decl_lookup(exprs, ds.drop_last(), n)
    }
}

/// The index of the last entry named `n`.
pub open spec fn last_named(ds: Seq<DomainEntry>, n: Seq<char>) -> Option<int>
    decreases ds.len(),
{
    if ds.len() == 0 {
        None
    } else if ds.last().name@ == n {
        Some(ds.len() - 1)
    } else {
        last_named(ds.drop_last(), n)
    }
}

proof fn lemma_last_named(ds: Seq<DomainEntry>, n: Seq<char>)
    ensures
        match last_named(ds, n) {
            Some(i) => 0 <= i < ds.len() && ds[i].name@ == n && (forall|j: int| i < j < ds.len() ==> (#[trigger] ds[j]).name@ != n)
                && table_lookup(ds, n) == Some(entry_view(ds[i])),
            None => table_lookup(ds, n) is None && forall|j: int| 0 <= j < ds.len() ==> (#[trigger] ds[j]).name@ != n,
        },
    decreases ds.len(),
{
    if ds.len() > 0 {
        let p = ds.drop_last();
        lemma_last_named(p, n);
        assert forall|j: int| 0 <= j < p.len() implies #[trigger] p[j] == ds[j] by {}
        if ds.last().name@ != n {
            match last_named(p, n) {
                Some(i) => {
                    assert forall|j: int| i < j < ds.len() implies (#[trigger] ds[j]).name@ != n by {
                        if j < p.len() {
                            assert(p[j] == ds[j]);
                        }
                    }
                },
                None => {
                    assert forall|j: int| 0 <= j < ds.len() implies (#[trigger] ds[j]).name@ != n by {
                        if j < p.len() {
                            assert(p[j] == ds[j]);
                        }
                    }
                },
            }
        }
    }
}

/// Replacing the last entry named `x.name` by `x` changes the lookup of
/// that name only.
proof fn lemma_table_replace(ds: Seq<DomainEntry>, i: int, x: DomainEntry, n: Seq<char>)
    requires
        last_named(ds, x.name@) == Some(i),
    ensures
        table_lookup(ds.update(i, x), n) == if n == x.name@ {
            Some(entry_view(x))
        } else {
            table_lookup(ds, n)
        },
    decreases ds.len(),
{
    lemma_last_named(ds, x.name@);
    if i == ds.len() - 1 {
        assert(ds.update(i, x).drop_last() =~= ds.drop_last());
    } else {
        assert(ds.update(i, x).drop_last() =~= ds.drop_last().update(i, x));
        assert(ds.last().name@ != x.name@);
        lemma_table_replace(ds.drop_last(), i, x, n);
    }
}

/// Some error of `errors` is at `span`.
pub open spec fn has_span(errors: Seq<ConstraintError>, span: Span) -> bool {
    exists|i: int| 0 <= i < errors.len() && (#[trigger] errors[i]).span == span
}

/// `b` keeps the rules of `a` and adds at most one.
pub open spec fn adds_at_most_one(b: Seq<PathRule>, a: Seq<PathRule>) -> bool {
    &&& a.len() <= b.len() <= a.len() + 1
    &&& b.subrange(0, a.len() as int) == a
}

/// The walk's state: the domain table and the reported errors.
pub struct Collector {
    pub domains: Vec<DomainEntry>,
    pub errors: Vec<ConstraintError>,
}

impl Collector {
    /// Reported errors are kept, one per primary span.
    pub open spec fn inv(&self) -> bool {
        distinct_spans(self.errors@)
    }

    pub open spec fn keeps(&self, old: &Collector) -> bool {
        &&& old.errors@.len() <= self.errors@.len()
        &&& forall|i: int| 0 <= i < old.errors@.len() ==> #[trigger] self.errors@[i] == old.errors@[i]
        &&& self.domains == old.domains
    }

    /// Reports `e`, unless an error at the same span was already reported
    /// (a sub-module walked from several parents reports once).
    pub fn push(&mut self, e: ConstraintError)
        requires
            old(self).inv(),
        ensures
            final(self).inv(),
            final(self).keeps(old(self)),
            (exists|i: int| 0 <= i < old(self).errors@.len() && old(self).errors@[i].span == e.span)
                ==> final(self).errors == old(self).errors,
            !(exists|i: int| 0 <= i < old(self).errors@.len() && old(self).errors@[i].span == e.span)
                ==> final(self).errors@ == old(self).errors@.push(e),
    {
        let mut k: usize = 0;
        while k < self.errors.len()
            invariant
                k <= self.errors@.len(),
                *self == *old(self),
                self.inv(),
                forall|i: int| 0 <= i < k ==> self.errors@[i].span != e.span,
            decreases self.errors@.len() - k,
        {
            if self.errors[k].span == e.span {
                return;
            }
            k = k + 1;
        }
        self.errors.push(e);
    }

    fn push_all(&mut self, es: &Vec<ConstraintError>)
        requires
            old(self).inv(),
        ensures
            final(self).inv(),
            final(self).keeps(old(self)),
            forall|j: int| 0 <= j < es@.len() ==> #[trigger] has_span(final(self).errors@, es@[j].span),
            forall|i: int|
                old(self).errors@.len() <= i < final(self).errors@.len() ==> es@.contains(#[trigger] final(self).errors@[i]),
    {
        let mut k: usize = 0;
        while k < es.len()
            invariant
                self.inv(),
                self.keeps(old(self)),
                k <= es@.len(),
                forall|j: int| 0 <= j < k ==> #[trigger] has_span(self.errors@, es@[j].span),
                forall|i: int|
                    old(self).errors@.len() <= i < self.errors@.len() ==> es@.contains(#[trigger] self.errors@[i]),
            decreases es@.len() - k,
        {
            let ghost t0 = *self;
            self.push(es[k]);
            proof {
                if has_span(t0.errors@, es@[k as int].span) {
                    let w = choose|w: int| 0 <= w < t0.errors@.len() && (#[trigger] t0.errors@[w]).span == es@[k as int].span;
                    assert(self.errors == t0.errors);
                } else {
                    assert(self.errors@ == t0.errors@.push(es@[k as int]));
                }
                assert forall|j: int| 0 <= j < k + 1 implies #[trigger] has_span(self.errors@, es@[j].span) by {
                    if j < k {
                        assert(has_span(t0.errors@, es@[j].span));
                        let w = choose|w: int| 0 <= w < t0.errors@.len() && (#[trigger] t0.errors@[w]).span == es@[j].span;
                        assert(self.errors@[w] == t0.errors@[w]);
                    } else if has_span(t0.errors@, es@[j].span) {
                        assert(self.errors == t0.errors);
                    } else {
                        assert(self.errors@[t0.errors@.len() as int] == es@[j]);
                    }
                }
                assert forall|i: int|
                    old(self).errors@.len() <= i < self.errors@.len() implies es@.contains(#[trigger] self.errors@[i]) by {
                    if i < t0.errors@.len() {
                        assert(self.errors@[i] == t0.errors@[i]);
                    } else {
                        assert(self.errors@[i] == es@[k as int]);
                    }
                }
            }
            assert(self.keeps(old(self))) by {
                assert forall|i: int| 0 <= i < old(self).errors@.len() implies #[trigger] self.errors@[i]
                    == old(self).errors@[i] by {
                    assert(t0.errors@[i] == old(self).errors@[i]);
                }
            }
            k = k + 1;
        }
    }

    fn domain_named(&self, name: &str) -> (r: Option<usize>)
        ensures
            r matches Some(i) ==> i < self.domains@.len(),
            last_named(self.domains@, name@) == match r {
                Some(i) => Some(i as int),
                None => None::<int>,
            },
    {
        let mut k: usize = self.domains.len();
        assert(self.domains@.subrange(0, k as int) =~= self.domains@);
        while k > 0
            invariant
                k <= self.domains@.len(),
                last_named(self.domains@, name@) == last_named(self.domains@.subrange(0, k as int), name@),
            decreases k,
        {
            proof {
                assert(self.domains@.subrange(0, k as int).drop_last() =~= self.domains@.subrange(0, k - 1));
            }
            if eq_str(self.domains[k - 1].name.as_str(), name) {
                return Some(k - 1);
            }
            k = k - 1;
        }
        None
    }

    /// The domain table: frequency (the last valid `frequency` field) and
    /// reset presence of each declaration; a later declaration of the same
    /// name replaces an earlier one.
    pub fn collect_domains(&mut self, inp: &CInput)
        requires
            inp.wf(),
            old(self).inv(),
        ensures
            final(self).inv(),
            old(self).errors@.len() <= final(self).errors@.len(),
            forall|i: int| 0 <= i < old(self).errors@.len() ==> #[trigger] final(self).errors@[i] == old(self).errors@[i],
            domain_errors_reported(*inp, final(self).errors@),
            forall|n: Seq<char>|
                #[trigger] table_lookup(final(self).domains@, n) == match decl_lookup(inp.exprs@, inp.domains@, n) {
                    Some(x) => Some(x),
                    None => table_lookup(old(self).domains@, n),
                },
    {
        let mut d: usize = 0;
        while d < inp.domains.len()
            invariant
                inp.wf(),
                self.inv(),
                d <= inp.domains@.len(),
                old(self).errors@.len() <= self.errors@.len(),
                forall|i: int| 0 <= i < old(self).errors@.len() ==> #[trigger] self.errors@[i] == old(self).errors@[i],
                forall|dd: int| 0 <= dd < d ==> fields_reported(*inp, self.errors@, dd, inp.domains@[dd].fields@.len() as int),
                forall|n: Seq<char>|
                    #[trigger] table_lookup(self.domains@, n) == match decl_lookup(
                        inp.exprs@,
                        inp.domains@.subrange(0, d as int),
                        n,
                    ) {
                        Some(x) => Some(x),
                        None => table_lookup(old(self).domains@, n),
                    },
            decreases inp.domains@.len() - d,
        {
            let dom = &inp.domains[d];
            assert(inp.domain_ok(inp.domains@[d as int]));
            let ghost dom0 = self.domains@;
            let mut freq_hz: Option<u64> = None;
            let mut has_reset = true;
            let mut k: usize = 0;
            while k < dom.fields.len()
                invariant
                    inp.wf(),
                    inp.domain_ok(*dom),
                    self.inv(),
                    self.domains@ == dom0,
                    d < inp.domains@.len(),
                    *dom == inp.domains@[d as int],
                    forall|n: Seq<char>|
                        #[trigger] table_lookup(dom0, n) == match decl_lookup(
                            inp.exprs@,
                            inp.domains@.subrange(0, d as int),
                            n,
                        ) {
                            Some(x) => Some(x),
                            None => table_lookup(old(self).domains@, n),
                        },
                    k <= dom.fields@.len(),
                    old(self).errors@.len() <= self.errors@.len(),
                    forall|i: int| 0 <= i < old(self).errors@.len() ==> #[trigger] self.errors@[i] == old(self).errors@[i],
                    freq_hz == fields_freq(inp.exprs@, dom.fields@.subrange(0, k as int)),
                    forall|dd: int| 0 <= dd < d ==> fields_reported(*inp, self.errors@, dd, inp.domains@[dd].fields@.len() as int),
                    fields_reported(*inp, self.errors@, d as int, k as int),
                    has_reset == fields_reset(dom.fields@.subrange(0, k as int)),
                decreases dom.fields@.len() - k,
            {
                proof {
                    assert(dom.fields@.subrange(0, k + 1).drop_last() =~= dom.fields@.subrange(0, k as int));
                    assert(dom.fields@.subrange(0, k + 1).last() == dom.fields@[k as int]);
                    if has_reset && dom.fields@[k as int] != (CDomainField::Reset { none: true }) {
                        assert forall|j: int| 0 <= j < k + 1 implies #[trigger] dom.fields@.subrange(0, k + 1)[j] != (CDomainField::Reset { none: true }) by {
                            if j < k {
                                assert(dom.fields@.subrange(0, k + 1)[j] == dom.fields@.subrange(0, k as int)[j]);
                            }
                        }
                    }
                    if !has_reset {
                        let j = choose|j: int| 0 <= j < k && dom.fields@.subrange(0, k as int)[j] == (CDomainField::Reset { none: true });
                        assert(dom.fields@.subrange(0, k + 1)[j] == dom.fields@.subrange(0, k as int)[j]);
                    }
                    if dom.fields@[k as int] == (CDomainField::Reset { none: true }) {
                        assert(dom.fields@.subrange(0, k + 1)[k as int] == dom.fields@[k as int]);
                    }
                }
                let ghost t0 = *self;
                match dom.fields[k] {
                    CDomainField::Reset { none } => {
                        if none {
                            has_reset = false;
                        }
                    },
                    CDomainField::Frequency { value, span } => match value {
                        FreqValue::Literal(e) => match parse_frequency(&inp.exprs, e) {
                            Ok(hz) => {
                                freq_hz = Some(hz);
                            },
                            Err(err) => {
                                self.push(err);
                            },
                        },
                        FreqValue::Error => {},
                        FreqValue::Other => {
                            self.push(ConstraintError { span, problem: Problem::FrequencyNotLiteral });
                        },
                    },
                    _ => {},
                }
                assert forall|i: int| 0 <= i < old(self).errors@.len() implies #[trigger] self.errors@[i]
                    == old(self).errors@[i] by {
                    assert(t0.errors@[i] == old(self).errors@[i]);
                }
                proof {
                    assert(inp.domains@[d as int].fields@[k as int] == dom.fields@[k as int]);
                    assert forall|dd: int| 0 <= dd < d implies fields_reported(*inp, self.errors@, dd, inp.domains@[dd].fields@.len() as int) by {
                        assert forall|kk: int| 0 <= kk < inp.domains@[dd].fields@.len() implies match #[trigger] inp.domains@[dd].fields@[kk] {
                            CDomainField::Frequency { value: FreqValue::Other, span } => has_span(self.errors@, span),
                            CDomainField::Frequency { value: FreqValue::Literal(e), .. } => (frequency_spec(inp.exprs@, e as int) matches Err(
                                err,
                            ) ==> has_span(self.errors@, err.span)),
                            _ => true,
                        } by {
                            match inp.domains@[dd].fields@[kk] {
                                CDomainField::Frequency { value: FreqValue::Other, span } => {
                                    lemma_span_kept(t0.errors@, self.errors@, span);
                                },
                                CDomainField::Frequency { value: FreqValue::Literal(e), .. } => {
                                    if let Err(err) = frequency_spec(inp.exprs@, e as int) {
                                        lemma_span_kept(t0.errors@, self.errors@, err.span);
                                    }
                                },
                                _ => {},
                            }
                        }
                    }
                    assert forall|kk: int| 0 <= kk < k + 1 implies match #[trigger] inp.domains@[d as int].fields@[kk] {
                        CDomainField::Frequency { value: FreqValue::Other, span } => has_span(self.errors@, span),
                        CDomainField::Frequency { value: FreqValue::Literal(e), .. } => (frequency_spec(inp.exprs@, e as int) matches Err(
                            err,
                        ) ==> has_span(self.errors@, err.span)),
                        _ => true,
                    } by {
                        if kk < k {
                            match inp.domains@[d as int].fields@[kk] {
                                CDomainField::Frequency { value: FreqValue::Other, span } => {
                                    lemma_span_kept(t0.errors@, self.errors@, span);
                                },
                                CDomainField::Frequency { value: FreqValue::Literal(e), .. } => {
                                    if let Err(err) = frequency_spec(inp.exprs@, e as int) {
                                        lemma_span_kept(t0.errors@, self.errors@, err.span);
                                    }
                                },
                                _ => {},
                            }
                        } else {
                            match inp.domains@[d as int].fields@[kk] {
                                CDomainField::Frequency { value: FreqValue::Other, span } => {
                                    if has_span(t0.errors@, span) {
                                        lemma_span_kept(t0.errors@, self.errors@, span);
                                    } else {
                                        assert(self.errors@[t0.errors@.len() as int].span == span);
                                    }
                                },
                                CDomainField::Frequency { value: FreqValue::Literal(e), .. } => {
                                    if let Err(err) = frequency_spec(inp.exprs@, e as int) {
                                        if has_span(t0.errors@, err.span) {
                                            lemma_span_kept(t0.errors@, self.errors@, err.span);
                                        } else {
                                            assert(self.errors@[t0.errors@.len() as int].span == err.span);
                                        }
                                    }
                                },
                                _ => {},
                            }
                        }
                    }
                }
                k = k + 1;
            }
            assert(dom.fields@.subrange(0, dom.fields@.len() as int) =~= dom.fields@);
            let entry = DomainEntry { name: dom.name.clone(), freq_hz, has_reset, span: dom.span };
            assert(entry_view(entry) == decl_entry(inp.exprs@, *dom));
            proof {
                assert(inp.domains@.subrange(0, d + 1).drop_last() =~= inp.domains@.subrange(0, d as int));
                assert(inp.domains@.subrange(0, d + 1).last() == *dom);
            }
            match self.domain_named(dom.name.as_str()) {
                Some(i) => {
                    self.domains.set(i, entry);
                    proof {
                        assert forall|n: Seq<char>|
                            #[trigger] table_lookup(self.domains@, n) == match decl_lookup(
                                inp.exprs@,
                                inp.domains@.subrange(0, d + 1),
                                n,
                            ) {
                                Some(x) => Some(x),
                                None => table_lookup(old(self).domains@, n),
                            } by {
                            lemma_table_replace(dom0, i as int, entry, n);
                        }
                    }
                },
                None => {
                    self.domains.push(entry);
                    proof {
                        assert forall|n: Seq<char>|
                            #[trigger] table_lookup(self.domains@, n) == match decl_lookup(
                                inp.exprs@,
                                inp.domains@.subrange(0, d + 1),
                                n,
                            ) {
                                Some(x) => Some(x),
                                None => table_lookup(old(self).domains@, n),
                            } by {
                            assert(self.domains@ == dom0.push(entry));
                            assert(self.domains@.drop_last() =~= dom0);
                            assert(self.domains@.last() == entry);
                            assert(entry.name@ == dom.name@);
                            assert(table_lookup(self.domains@, n) == if entry.name@ == n {
                                Some(entry_view(entry))
                            } else {
                                table_lookup(dom0, n)
                            });
                            assert(decl_lookup(inp.exprs@, inp.domains@.subrange(0, d + 1), n) == if dom.name@ == n {
                                Some(decl_entry(inp.exprs@, *dom))
                            } else {
                                decl_lookup(inp.exprs@, inp.domains@.subrange(0, d as int), n)
                            });
                        }
                    }
                },
            }
            d = d + 1;
        }
        assert(inp.domains@.subrange(0, inp.domains@.len() as int) =~= inp.domains@);
    }
}

/// The port of the first clock port of `m` annotated `@domain`.
fn clock_of_domain(m: &CModule, scope: &Scope, domain: &str) -> (r: Option<String>)
    requires
        scope.clocks_ok(m.ports@.len() as int),
    ensures
        opt_view(r) == clock_of_domain_spec(m.ports@, scope.clock_ports@, domain@),
{
    let mut k: usize = 0;
    assert(scope.clock_ports@.subrange(0, scope.clock_ports@.len() as int) =~= scope.clock_ports@);
    while k < scope.clock_ports.len()
        invariant
            scope.clocks_ok(m.ports@.len() as int),
            k <= scope.clock_ports@.len(),
            clock_of_domain_spec(m.ports@, scope.clock_ports@, domain@) == clock_of_domain_spec(
                m.ports@,
                scope.clock_ports@.subrange(k as int, scope.clock_ports@.len() as int),
                domain@,
            ),
        decreases scope.clock_ports@.len() - k,
    {
        proof {
            let rest = scope.clock_ports@.subrange(k as int, scope.clock_ports@.len() as int);
            assert(rest[0] == scope.clock_ports@[k as int]);
            assert(rest.drop_first() =~= scope.clock_ports@.subrange(k + 1, scope.clock_ports@.len() as int));
        }
        let p = &m.ports[scope.clock_ports[k]];
        match &p.domain {
            Some(d) => {
                if eq_str(d.as_str(), domain) {
                    return Some(p.name.clone());
                }
            },
            None => {},
        }
        k = k + 1;
    }
    None
}

/// The clock that drives signal `name`: for a port annotated `@D`, the
/// first clock port of `D`; for a register, the clock of its `on` block;
/// for a `let`, the first driven name of its value, at most eight `let`s
/// deep.
pub open spec fn driver_spec(exprs: Seq<Expr>, m: CModule, scope: Scope, name: Seq<char>, depth: int) -> Option<Seq<char>>
    decreases 8 - depth, 0int, 0int,
{
    match port_entry(scope.ports@, name) {
        Some(e) if e.3 is Some => clock_of_domain_spec(m.ports@, scope.clock_ports@, e.3.unwrap()@),
        _ => match reg_clock_spec(scope.reg_clock@, name) {
            Some(c) => Some(c),
            None => if depth >= 8 {
                None
            } else {
                match let_spec(scope.let_exprs@, name) {
                    Some(e) => first_driver(exprs, m, scope, path_names_spec(exprs, e as int), depth + 1),
                    None => None,
                }
            },
        },
    }
}

/// The first of `names` with a driving clock.
pub open spec fn first_driver(exprs: Seq<Expr>, m: CModule, scope: Scope, names: Seq<Seq<char>>, depth: int) -> Option<
    Seq<char>,
>
    decreases 8 - depth, 1int, names.len(),
{
    if names.len() == 0 || depth > 8 {
        None
    } else {
        match driver_spec(exprs, m, scope, names[0], depth) {
            Some(c) => Some(c),
            None => first_driver(exprs, m, scope, names.drop_first(), depth),
        }
    }
}

/// The clock that drives signal `name`: the clock of its domain for an
/// annotated port, the clock of its `on` block for a register, and for a
/// `let` the first clocked signal its value reads (at most eight `let`s
/// deep).
pub fn driver_clock(inp: &CInput, m: &CModule, scope: &Scope, name: &str, depth: usize) -> (r: Option<String>)
    requires
        inp.wf(),
        scope.let_ok(inp.exprs@.len() as int),
        scope.clocks_ok(m.ports@.len() as int),
        depth <= 8,
    ensures
        opt_view(r) == driver_spec(inp.exprs@, *m, *scope, name@, depth as int),
    decreases 8 - depth,
{
    match scope.port(name) {
        Some((_, _, Some(domain))) => {
            return clock_of_domain(m, scope, domain.as_str());
        },
        _ => {},
    }
    match scope.reg_clock_of(name) {
        Some(c) => {
            return Some(c);
        },
        None => {},
    }
    if depth >= 8 {
        return None;
    }
    let e = match scope.let_of(name) {
        Some(e) => e,
        None => {
            return None;
        },
    };
    let mut names: Vec<String> = Vec::new();
    collect_path_names(&inp.exprs, e, &mut names);
    let ghost all = names_view(names@);
    assert(all =~= path_names_spec(inp.exprs@, e as int));
    assert(driver_spec(inp.exprs@, *m, *scope, name@, depth as int) == first_driver(
        inp.exprs@,
        *m,
        *scope,
        all,
        depth + 1,
    ));
    let mut k: usize = 0;
    assert(all.subrange(0, all.len() as int) =~= all);
    while k < names.len()
        invariant
            driver_spec(inp.exprs@, *m, *scope, name@, depth as int) == first_driver(
                inp.exprs@,
                *m,
                *scope,
                all,
                depth + 1,
            ),
            inp.wf(),
            scope.let_ok(inp.exprs@.len() as int),
            scope.clocks_ok(m.ports@.len() as int),
            depth < 8,
            k <= names@.len(),
            all == names_view(names@),
            first_driver(inp.exprs@, *m, *scope, all, depth + 1) == first_driver(
                inp.exprs@,
                *m,
                *scope,
                all.subrange(k as int, all.len() as int),
                depth + 1,
            ),
        decreases names@.len() - k,
    {
        proof {
            let rest = all.subrange(k as int, all.len() as int);
            assert(rest[0] == names@[k as int]@);
            assert(rest.drop_first() =~= all.subrange(k + 1, all.len() as int));
        }
        match driver_clock(inp, m, scope, names[k].as_str(), depth + 1) {
            Some(c) => {
                proof {
                    let rest = all.subrange(k as int, all.len() as int);
                    assert(first_driver(inp.exprs@, *m, *scope, rest, depth + 1) == Some(c@));
                }
                return Some(c);
            },
            None => {},
        }
        k = k + 1;
    }
    None
}

/// What a path endpoint name resolves to.
pub open spec fn endpoint_spec(scope: Scope, prefix: Seq<char>, name: Seq<char>) -> Result<(u8, Seq<char>), Problem> {
    if port_entry(scope.ports@, name) is Some {
        if prefix.len() == 0 {
            Ok((0u8, prefix + name))
        } else {
            Ok((2u8, prefix + name))
        }
    } else if has_name(scope.regs@, name) {
        Ok((1u8, prefix + name))
    } else if has_name(scope.nets@, name) {
        Err(Problem::NotAnEndpoint)
    } else {
        Err(Problem::UnknownEndpoint)
    }
}

/// What `endpoint` promises of its result `r`.
pub open spec fn endpoint_contract(scope: Scope, prefix: Seq<char>, name: Seq<char>, r: Result<Target, Problem>) -> bool {
    match endpoint_spec(scope, prefix, name) {
        Ok(t) => r matches Ok(x) && target_spec(x) == t,
        Err(p) => r == Err::<Target, Problem>(p),
    }
}

/// Path endpoints: a register of the module that is no port is a valid
/// endpoint, the cells `prefix + name`; a port is the port itself at the
/// top and the instance pin `prefix + name` below it; a wire or `let`
/// (a net) is no endpoint; any other name is unknown.
pub proof fn law_endpoints(scope: Scope, prefix: Seq<char>, name: Seq<char>, r: Result<Target, Problem>)
    requires
        endpoint_contract(scope, prefix, name, r),
    ensures
        port_entry(scope.ports@, name) is None && has_name(scope.regs@, name) ==> (r matches Ok(Target::Cells(h)) && h@
            == prefix + name),
        port_entry(scope.ports@, name) is Some && prefix.len() == 0 ==> (r matches Ok(Target::Port(h)) && h@ == name),
        port_entry(scope.ports@, name) is Some && prefix.len() > 0 ==> (r matches Ok(Target::Pin(h)) && h@ == prefix + name),
        port_entry(scope.ports@, name) is None && !has_name(scope.regs@, name) && has_name(scope.nets@, name) ==> r
            == Err::<Target, Problem>(Problem::NotAnEndpoint),
        port_entry(scope.ports@, name) is None && !has_name(scope.regs@, name) && !has_name(scope.nets@, name) ==> r
            == Err::<Target, Problem>(Problem::UnknownEndpoint),
{
    assert(prefix + name =~= if prefix.len() == 0 { name } else { prefix + name });
}

/// The kind number and name of a target (port, cells, pin, clock).
pub open spec fn target_spec(t: Target) -> (u8, Seq<char>) {
    match t {
        Target::Port(n) => (0u8, n@),
        Target::Cells(n) => (1u8, n@),
        Target::Pin(n) => (2u8, n@),
        Target::Clock(n) => (3u8, n@),
    }
}

/// A path endpoint: a port (`get_ports` at the top, `get_pins` below)
/// or a register (`get_cells`); a wire or `let` cannot be one.
pub fn endpoint(scope: &Scope, ctx: &Ctx, name: &str) -> (r: Result<Target, Problem>)
    ensures
        match endpoint_spec(*scope, ctx.prefix@, name@) {
            Ok(t) => r matches Ok(x) && target_spec(x) == t,
            Err(p) => r == Err::<Target, Problem>(p),
        },
        endpoint_contract(*scope, ctx.prefix@, name@, r),
{
    let hier = concat(ctx.prefix.as_str(), name);
    if scope.has_port(name) {
        return Ok(
            if ctx.prefix.unicode_len() == 0 {
                Target::Port(hier)
            } else {
                Target::Pin(hier)
            },
        );
    }
    if contains_name(&scope.regs, name) {
        return Ok(Target::Cells(hier));
    }
    if contains_name(&scope.nets, name) {
        return Err(Problem::NotAnEndpoint);
    }
    Err(Problem::UnknownEndpoint)
}

/// The clock entry a `@timing` requirement lands on, and its effect:
/// a clock without a frequency takes `hz`; an exact requirement against
/// another domain frequency, or a minimum above it, is an error.
pub open spec fn requirement_problem(c: ClockConstraint, hz: u64, exact: bool) -> Option<Problem> {
    match c.freq_hz {
        None => None,
        Some(have) => if exact && have != hz {
            Some(Problem::FrequencyConflict { hz, have, domain_span: c.domain_span })
        } else if !exact && have < hz {
            Some(Problem::FrequencyTooLow { hz, have, domain_span: c.domain_span })
        } else {
            None
        },
    }
}

/// `label on Module[ in inst]: from -> to`.
/// `p` without its trailing slashes.
pub open spec fn strip_slashes(p: Seq<char>) -> Seq<char>
    decreases p.len(),
{
    if p.len() > 0 && p.last() == '/' {
        strip_slashes(p.drop_last())
    } else {
        p
    }
}

/// An endpoint name for a comment; `*` where there is none.
pub open spec fn end_text(o: Option<String>) -> Seq<char> {
    match o {
        Some(s) => s@,
        None => "*"@,
    }
}

/// `label on Module[ in inst]: from -> to`.
pub open spec fn rule_comment_spec(label: Seq<char>, module: Seq<char>, prefix: Seq<char>, from: Option<String>, to: Option<String>) -> Seq<char> {
    label + " on "@ + module + (if prefix.len() > 0 {
        " in "@ + strip_slashes(prefix)
    } else {
        Seq::empty()
    }) + ": "@ + end_text(from) + " -> "@ + end_text(to)
}

fn rule_comment(label: &str, module: &str, prefix: &str, from: &Option<String>, to: &Option<String>) -> (r: String)
    ensures
        r@ == rule_comment_spec(label@, module@, prefix@, *from, *to),
{
    let mut v: Vec<char> = Vec::new();
    extend_chars(&mut v, label);
    extend_chars(&mut v, " on ");
    extend_chars(&mut v, module);
    let ghost v0 = v@;
    let p = crate::text::chars_of(prefix);
    if p.len() > 0 {
        extend_chars(&mut v, " in ");
        let ghost v1 = v@;
        let mut end: usize = p.len();
        assert(p@.subrange(0, end as int) =~= p@);
        while end > 0 && p[end - 1] == '/'
            invariant
                end <= p@.len(),
                strip_slashes(p@) == strip_slashes(p@.subrange(0, end as int)),
            decreases end,
        {
            assert(p@.subrange(0, end as int).drop_last() =~= p@.subrange(0, end - 1));
            end = end - 1;
        }
        assert(strip_slashes(p@.subrange(0, end as int)) == p@.subrange(0, end as int));
        let mut i: usize = 0;
        while i < end
            invariant
                end <= p@.len(),
                i <= end,
                v@ == v1 + p@.subrange(0, i as int),
            decreases end - i,
        {
            v.push(p[i]);
            i = i + 1;
            assert(v@ =~= v1 + p@.subrange(0, i as int));
        }
        assert(v@ =~= v0 + " in "@ + strip_slashes(prefix@));
    } else {
        assert(v@ =~= v0 + Seq::<char>::empty());
    }
    let ghost v2 = v@;
    extend_chars(&mut v, ": ");
    proof {
        reveal_strlit("*");
    }
    match from {
        Some(f) => extend_chars(&mut v, f.as_str()),
        None => extend_chars(&mut v, "*"),
    }
    extend_chars(&mut v, " -> ");
    match to {
        Some(t) => extend_chars(&mut v, t.as_str()),
        None => extend_chars(&mut v, "*"),
    }
    assert(v@ =~= rule_comment_spec(label@, module@, prefix@, *from, *to));
    string_of(&v)
}

/// The index of the first binding of `port`.
pub open spec fn first_binding(bindings: Seq<CBinding>, port: Seq<char>) -> Option<int>
    decreases bindings.len(),
{
    if bindings.len() == 0 {
        None
    } else if bindings[0].port@ == port {
        Some(0)
    } else {
        match first_binding(bindings.drop_first(), port) {
            Some(k) => Some(k + 1),
            None => None,
        }
    }
}

proof fn lemma_first_binding_range(bindings: Seq<CBinding>, port: Seq<char>)
    ensures
        first_binding(bindings, port) matches Some(k) ==> 0 <= k < bindings.len() && bindings[k].port@ == port,
    decreases bindings.len(),
{
    if bindings.len() > 0 {
        lemma_first_binding_range(bindings.drop_first(), port);
    }
}

/// The first binding of `port`.
fn binding_of(inst: &CInstance, port: &str) -> (r: Option<usize>)
    ensures
        first_binding(inst.bindings@, port@) == match r {
            Some(k) => Some(k as int),
            None => None::<int>,
        },
        r matches Some(k) ==> k < inst.bindings@.len(),
{
    let mut k: usize = 0;
    assert(inst.bindings@.subrange(0, inst.bindings@.len() as int) =~= inst.bindings@);
    while k < inst.bindings.len()
        invariant
            k <= inst.bindings@.len(),
            first_binding(inst.bindings@, port@) == match first_binding(
                inst.bindings@.subrange(k as int, inst.bindings@.len() as int),
                port@,
            ) {
                Some(j) => Some(j + k),
                None => None,
            },
        decreases inst.bindings@.len() - k,
    {
        proof {
            let rest = inst.bindings@.subrange(k as int, inst.bindings@.len() as int);
            assert(rest[0] == inst.bindings@[k as int]);
            assert(rest.drop_first() =~= inst.bindings@.subrange(k + 1, inst.bindings@.len() as int));
        }
        if eq_str(inst.bindings[k].port.as_str(), port) {
            return Some(k);
        }
        k = k + 1;
    }
    None
}

/// The malformed forms among a top module's own attributes are reported:
/// `@timing` without a constraint, and the error of a `@false_path` or
/// `@multicycle` that does not parse, each at its span.
pub open spec fn attr_errors_reported(exprs: Seq<Expr>, attrs: Seq<Attribute>, errors: Seq<ConstraintError>) -> bool {
    forall|a: int| 0 <= a < attrs.len() ==> {
        let at = #[trigger] attrs[a];
        &&& (at.name@ == "timing"@ && at.args@.len() == 0) ==> has_span(errors, at.span)
        &&& at.name@ == "false_path"@ ==> match false_path_spec(exprs, at, false) {
            Err(e) => has_span(errors, e.span),
            Ok(_) => true,
        }
        &&& at.name@ == "multicycle"@ ==> match multicycle_spec(exprs, at, false) {
            Err(e) => has_span(errors, e.span),
            Ok(_) => true,
        }
    }
}

proof fn lemma_attr_errors_kept(exprs: Seq<Expr>, attrs: Seq<Attribute>, a: Seq<ConstraintError>, b: Seq<ConstraintError>)
    requires
        attr_errors_reported(exprs, attrs, a),
        a.len() <= b.len(),
        forall|i: int| 0 <= i < a.len() ==> #[trigger] b[i] == a[i],
    ensures
        attr_errors_reported(exprs, attrs, b),
{
    assert forall|k: int| 0 <= k < attrs.len() implies {
        let at = #[trigger] attrs[k];
        &&& (at.name@ == "timing"@ && at.args@.len() == 0) ==> has_span(b, at.span)
        &&& at.name@ == "false_path"@ ==> match false_path_spec(exprs, at, false) {
            Err(e) => has_span(b, e.span),
            Ok(_) => true,
        }
        &&& at.name@ == "multicycle"@ ==> match multicycle_spec(exprs, at, false) {
            Err(e) => has_span(b, e.span),
            Ok(_) => true,
        }
    } by {
        let at = attrs[k];
        if at.name@ == "timing"@ && at.args@.len() == 0 {
            lemma_span_kept(a, b, at.span);
        }
        if let Err(e) = false_path_spec(exprs, at, false) {
            if at.name@ == "false_path"@ {
                lemma_span_kept(a, b, e.span);
            }
        }
        if let Err(e) = multicycle_spec(exprs, at, false) {
            if at.name@ == "multicycle"@ {
                lemma_span_kept(a, b, e.span);
            }
        }
    }
}

impl Collector {
    /// `clk = F` / `clk >= F`: compares with the frequency of the port's
    /// domain; where the domain has none, `F` becomes the clock's
    /// frequency. A name that is no clock port is an error at the top.
    pub fn clock_requirement(
        &mut self,
        clock: &str,
        hz: u64,
        exact: bool,
        span: Span,
        scope: &Scope,
        ctx: &Ctx,
        clocks: &mut Vec<ClockConstraint>,
    )
        requires
            old(self).inv(),
        ensures
            final(self).inv(),
            final(self).keeps(old(self)),
            final(clocks)@.len() == old(clocks)@.len(),
            !(port_entry(scope.ports@, clock@) matches Some(e) && e.2) ==> final(clocks)@ == old(
                clocks,
            )@,
            !(port_entry(scope.ports@, clock@) matches Some(e) && e.2) ==> if ctx.prefix@.len() == 0 {
                if has_span(old(self).errors@, span) {
                    final(self).errors == old(self).errors
                } else {
                    final(self).errors@ == old(self).errors@.push(ConstraintError { span, problem: Problem::NotClockPort })
                }
            } else {
                final(self).errors == old(self).errors
            },
            (port_entry(scope.ports@, clock@) matches Some(e) && e.2) ==> match ctx.map_clock_spec(
                clock@,
            ) {
                Some(top) => {
                    let i = clock_index(old(clocks)@, top);
                    if 0 <= i < old(clocks)@.len() {
                        if old(clocks)@[i].freq_hz is None {
                            final(clocks)@[i].freq_hz == Some(hz) && final(clocks)@[i].freq_source
                                == Some(FreqSource::Timing) && final(clocks)@[i].port@ == old(
                                clocks,
                            )@[i].port@ && final(self).errors == old(self).errors
                        } else {
                            final(clocks)@ == old(clocks)@ && match requirement_problem(
                                old(clocks)@[i],
                                hz,
                                exact,
                            ) {
                                Some(p) => if has_span(old(self).errors@, span) {
                                    final(self).errors == old(self).errors
                                } else {
                                    final(self).errors@ == old(self).errors@.push(ConstraintError { span, problem: p })
                                },
                                None => final(self).errors == old(self).errors,
                            }
                        }
                    } else {
                        final(clocks)@ == old(clocks)@
                    }
                },
                None => final(clocks)@ == old(clocks)@,
            },
    {
        if !scope.is_clock_port(clock) {
            if ctx.prefix.unicode_len() == 0 {
                self.push(ConstraintError { span, problem: Problem::NotClockPort });
            }
            return;
        }
        let top = match ctx.map_clock(clock) {
            Some(t) => t,
            None => {
                return;
            },
        };
        let mut i: usize = 0;
        assert(clocks@.subrange(0, clocks@.len() as int) =~= clocks@);
        while i < clocks.len() && !eq_str(clocks[i].port.as_str(), top.as_str())
            invariant
                i <= clocks@.len(),
                clock_index(clocks@, top@) == i + clock_index(clocks@.subrange(i as int, clocks@.len() as int), top@),
            decreases clocks@.len() - i,
        {
            assert(clocks@.subrange(i as int, clocks@.len() as int).drop_first() =~= clocks@.subrange(
                i + 1,
                clocks@.len() as int,
            ));
            i = i + 1;
        }
        proof {
            if i < clocks@.len() {
                assert(clocks@.subrange(i as int, clocks@.len() as int)[0] == clocks@[i as int]);
            }
        }
        if i >= clocks.len() {
            return;
        }
        match clocks[i].freq_hz {
            None => {
                let c = &clocks[i];
                let updated = ClockConstraint {
                    port: c.port.clone(),
                    domain: c.domain.clone(),
                    edge: c.edge,
                    freq_hz: Some(hz),
                    freq_source: Some(FreqSource::Timing),
                    span: c.span,
                    domain_span: c.domain_span,
                };
                clocks.set(i, updated);
            },
            Some(have) => {
                let ds = clocks[i].domain_span;
                if exact && have != hz {
                    self.push(
                        ConstraintError {
                            span,
                            problem: Problem::FrequencyConflict { hz, have, domain_span: ds },
                        },
                    );
                } else if !exact && have < hz {
                    self.push(
                        ConstraintError {
                            span,
                            problem: Problem::FrequencyTooLow { hz, have, domain_span: ds },
                        },
                    );
                }
            },
        }
    }

    /// Resolves the endpoints and adds the rule; an unknown name is an
    /// error at the top (the `from` side's first).
    fn path_rule(
        &mut self,
        kind: PathKind,
        from: Option<String>,
        to: Option<String>,
        span: Span,
        scope: &Scope,
        ctx: &Ctx,
        module: &str,
        paths: &mut Vec<PathRule>,
        label: &str,
    )
        requires
            old(self).inv(),
        ensures
            final(self).inv(),
            final(self).keeps(old(self)),
            ({
                let fe = match from {
                    Some(n) => Some(endpoint_spec(*scope, ctx.prefix@, n@)),
                    None => None,
                };
                let te = match to {
                    Some(n) => Some(endpoint_spec(*scope, ctx.prefix@, n@)),
                    None => None,
                };
                if (fe matches Some(Err(_))) || (te matches Some(Err(_))) {
                    final(paths)@ == old(paths)@
                } else {
                    &&& final(paths)@.len() == old(paths)@.len() + 1
                    &&& final(paths)@.subrange(0, old(paths)@.len() as int) == old(paths)@
                    &&& final(paths)@.last().kind == kind
                    &&& final(paths)@.last().comment@ == rule_comment_spec(label@, module@, ctx.prefix@, from, to)
                    &&& match final(paths)@.last().from {
                        Some(t) => fe == Some(Ok::<(u8, Seq<char>), Problem>(target_spec(t))),
                        None => fe is None,
                    }
                    &&& match final(paths)@.last().to {
                        Some(t) => te == Some(Ok::<(u8, Seq<char>), Problem>(target_spec(t))),
                        None => te is None,
                    }
                }
            }),
    {
        let from_t = match &from {
            Some(n) => Some(endpoint(scope, ctx, n.as_str())),
            None => None,
        };
        let to_t = match &to {
            Some(n) => Some(endpoint(scope, ctx, n.as_str())),
            None => None,
        };
        let top = ctx.prefix.unicode_len() == 0;
        let f = match from_t {
            Some(Err(p)) => {
                if top {
                    self.push(ConstraintError { span, problem: p });
                }
                return;
            },
            Some(Ok(t)) => Some(t),
            None => None,
        };
        let t = match to_t {
            Some(Err(p)) => {
                if top {
                    self.push(ConstraintError { span, problem: p });
                }
                return;
            },
            Some(Ok(t)) => Some(t),
            None => None,
        };
        let comment = rule_comment(label, module, ctx.prefix.as_str(), &from, &to);
        let ghost p0 = paths@;
        paths.push(PathRule { kind, from: f, to: t, comment });
        assert(paths@.subrange(0, p0.len() as int) =~= p0);
    }

    /// Constraint attributes on a port: the port is the rule's start
    /// (input) or end (otherwise) unless the attribute names one.
    fn port_attr(
        &mut self,
        inp: &CInput,
        attr: &Attribute,
        port: &CPort,
        scope: &Scope,
        ctx: &Ctx,
        module: &str,
        paths: &mut Vec<PathRule>,
    )
        requires
            inp.wf(),
            attr_in_arena(inp.exprs@, *attr),
            old(self).inv(),
        ensures
            final(self).inv(),
            final(self).keeps(old(self)),
            adds_at_most_one(final(paths)@, old(paths)@),
            attr.name@ != "false_path"@ && attr.name@ != "multicycle"@ ==> final(paths)@ == old(paths)@,
            attr.name@ == "timing"@ && ctx.prefix@.len() == 0 ==> has_span(final(self).errors@, attr.span),
    {
        proof {
            assert(old(paths)@.subrange(0, old(paths)@.len() as int) =~= old(paths)@);
            reveal_strlit("false_path");
            reveal_strlit("multicycle");
            reveal_strlit("timing");
            assert("timing"@ != "false_path"@ && "timing"@ != "multicycle"@) by {
                assert("timing"@[0] != "false_path"@[0] && "timing"@[0] != "multicycle"@[0]);
            }
        }
        let top = ctx.prefix.unicode_len() == 0;
        let name = port.name.clone();
        let is_in = port.dir == PortDir::In;
        if eq_str(attr.name.as_str(), "false_path") {
            match parse_false_path(&inp.exprs, attr, true) {
                Ok(f) => {
                    let from = match f.from {
                        Some(x) => Some(x),
                        None => if is_in {
                            Some(name.clone())
                        } else {
                            None
                        },
                    };
                    let to = match f.to {
                        Some(x) => Some(x),
                        None => if is_in {
                            None
                        } else {
                            Some(name.clone())
                        },
                    };
                    self.path_rule(PathKind::FalsePath, from, to, attr.span, scope, ctx, module, paths, "@false_path");
                },
                Err(d) => {
                    if top {
                        self.push(d);
                    }
                },
            }
        } else if eq_str(attr.name.as_str(), "multicycle") {
            match parse_multicycle(&inp.exprs, attr, true) {
                Ok(f) => {
                    let from = match f.from {
                        Some(x) => Some(x),
                        None => if is_in {
                            Some(name.clone())
                        } else {
                            None
                        },
                    };
                    let to = match f.to {
                        Some(x) => Some(x),
                        None => if is_in {
                            None
                        } else {
                            Some(name.clone())
                        },
                    };
                    self.path_rule(PathKind::Multicycle(f.cycles), from, to, attr.span, scope, ctx, module, paths, "@multicycle");
                },
                Err(d) => {
                    if top {
                        self.push(d);
                    }
                },
            }
        } else if eq_str(attr.name.as_str(), "timing") && top {
            let ghost e0 = self.errors@;
            self.push(ConstraintError { span: attr.span, problem: Problem::TimingOnPort });
            proof {
                if has_span(e0, attr.span) {
                    lemma_span_kept(e0, self.errors@, attr.span);
                } else {
                    assert(self.errors@[e0.len() as int].span == attr.span);
                }
            }
        }
    }

    /// Constraint attributes on a statement: only above a register, whose
    /// name is the rule's end unless the attribute names one.
    fn stmt_attr(
        &mut self,
        inp: &CInput,
        attr: &Attribute,
        stmt: &CStmt,
        scope: &Scope,
        ctx: &Ctx,
        module: &str,
        paths: &mut Vec<PathRule>,
    )
        requires
            inp.wf(),
            attr_in_arena(inp.exprs@, *attr),
            old(self).inv(),
        ensures
            final(self).inv(),
            final(self).keeps(old(self)),
            adds_at_most_one(final(paths)@, old(paths)@),
            attr.name@ != "false_path"@ && attr.name@ != "multicycle"@ && attr.name@ != "timing"@ ==> final(paths)@
                == old(paths)@ && final(self).errors == old(self).errors,
            (attr.name@ == "false_path"@ || attr.name@ == "multicycle"@ || attr.name@ == "timing"@) && !(stmt.kind is Reg)
                ==> final(paths)@ == old(paths)@ && (ctx.prefix@.len() == 0 ==> has_span(final(self).errors@, attr.span)),
            attr.name@ == "timing"@ && ctx.prefix@.len() == 0 ==> has_span(final(self).errors@, attr.span),
    {
        proof {
            assert(old(paths)@.subrange(0, old(paths)@.len() as int) =~= old(paths)@);
            reveal_strlit("false_path");
            reveal_strlit("multicycle");
            reveal_strlit("timing");
            assert("timing"@ != "false_path"@ && "timing"@ != "multicycle"@) by {
                assert("timing"@[0] != "false_path"@[0] && "timing"@[0] != "multicycle"@[0]);
            }
        }
        let is_fp = eq_str(attr.name.as_str(), "false_path");
        let is_mc = eq_str(attr.name.as_str(), "multicycle");
        let is_tm = eq_str(attr.name.as_str(), "timing");
        if !is_fp && !is_mc && !is_tm {
            return;
        }
        let top = ctx.prefix.unicode_len() == 0;
        let reg = match &stmt.kind {
            CStmtKind::Reg { name } => name.clone(),
            _ => {
                if top {
                    let ghost e0 = self.errors@;
                    self.push(ConstraintError { span: attr.span, problem: Problem::AttributeOnStatement });
                    proof {
                        if has_span(e0, attr.span) {
                            lemma_span_kept(e0, self.errors@, attr.span);
                        } else {
                            assert(self.errors@[e0.len() as int].span == attr.span);
                        }
                    }
                }
                return;
            },
        };
        if is_fp {
            match parse_false_path(&inp.exprs, attr, true) {
                Ok(f) => {
                    let to = match f.to {
                        Some(x) => Some(x),
                        None => Some(reg),
                    };
                    self.path_rule(PathKind::FalsePath, f.from, to, attr.span, scope, ctx, module, paths, "@false_path");
                },
                Err(d) => {
                    if top {
                        self.push(d);
                    }
                },
            }
        } else if is_mc {
            match parse_multicycle(&inp.exprs, attr, true) {
                Ok(f) => {
                    let to = match f.to {
                        Some(x) => Some(x),
                        None => Some(reg),
                    };
                    self.path_rule(PathKind::Multicycle(f.cycles), f.from, to, attr.span, scope, ctx, module, paths, "@multicycle");
                },
                Err(d) => {
                    if top {
                        self.push(d);
                    }
                },
            }
        } else if top {
            let ghost e0 = self.errors@;
            self.push(ConstraintError { span: attr.span, problem: Problem::TimingOnRegister });
            proof {
                if has_span(e0, attr.span) {
                    lemma_span_kept(e0, self.errors@, attr.span);
                } else {
                    assert(self.errors@[e0.len() as int].span == attr.span);
                }
            }
        }
    }

    /// The constraint attributes of a module, its ports and statements.
    /// Below the top only path rules are gathered and clock requirements
    /// checked against the parent's clocks; malformed forms are reported
    /// where the module itself is walked.
    fn module_attrs(
        &mut self,
        inp: &CInput,
        m: &CModule,
        scope: &Scope,
        ctx: &Ctx,
        clocks: &mut Vec<ClockConstraint>,
        paths: &mut Vec<PathRule>,
    )
        requires
            ctx.wf(),
            inp.wf(),
            inp.module_ok(*m),
            old(self).inv(),
        ensures
            final(self).inv(),
            final(self).keeps(old(self)),
            final(clocks)@.len() == old(clocks)@.len(),
            ctx.prefix@.len() == 0 ==> attr_errors_reported(inp.exprs@, m.attrs@, final(self).errors@),
    {
        let top = ctx.prefix.unicode_len() == 0;
        let ghost s0 = *self;
        let mut a: usize = 0;
        while a < m.attrs.len()
            invariant
                inp.wf(),
                inp.module_ok(*m),
                self.inv(),
                self.keeps(&s0),
                clocks@.len() == old(clocks)@.len(),
                a <= m.attrs@.len(),
                top == (ctx.prefix@.len() == 0),
                top ==> attr_errors_reported(inp.exprs@, m.attrs@.subrange(0, a as int), self.errors@),
            decreases m.attrs@.len() - a,
        {
            let attr = &m.attrs[a];
            assert(attr_in_arena(inp.exprs@, m.attrs@[a as int]));
            let ghost t0 = *self;
            let ghost sub0 = m.attrs@.subrange(0, a as int);
            let ghost sub1 = m.attrs@.subrange(0, a + 1);
            assert(sub1 =~= sub0.push(*attr));
            if eq_str(attr.name.as_str(), "timing") {
                let (forms, diags) = parse_timing(&inp.exprs, attr);
                if top {
                    self.push_all(&diags);
                }
                let ghost pa = *self;
                proof {
                    if top && attr.args@.len() == 0 {
                        assert(diags@[0].span == attr.span);
                        assert(has_span(pa.errors@, attr.span));
                    }
                }
                let mut f: usize = 0;
                while f < forms.len()
                    invariant
                        self.inv(),
                        self.keeps(&t0),
                        self.keeps(&pa),
                        clocks@.len() == old(clocks)@.len(),
                        f <= forms@.len(),
                    decreases forms@.len() - f,
                {
                    let ghost u0 = *self;
                    let span = forms[f].1;
                    match &forms[f].0 {
                        TimingForm::ClockExact { clock, hz } => {
                            self.clock_requirement(clock.as_str(), *hz, true, span, scope, ctx, clocks);
                        },
                        TimingForm::ClockAtLeast { clock, hz } => {
                            self.clock_requirement(clock.as_str(), *hz, false, span, scope, ctx, clocks);
                        },
                        TimingForm::MaxDelay { from, to, ps } => {
                            self.path_rule(
                                PathKind::MaxDelay(*ps),
                                Some(from.clone()),
                                Some(to.clone()),
                                span,
                                scope,
                                ctx,
                                m.name.as_str(),
                                paths,
                                "@timing(max_delay)",
                            );
                        },
                        TimingForm::MinDelay { from, to, ps } => {
                            self.path_rule(
                                PathKind::MinDelay(*ps),
                                Some(from.clone()),
                                Some(to.clone()),
                                span,
                                scope,
                                ctx,
                                m.name.as_str(),
                                paths,
                                "@timing(min_delay)",
                            );
                        },
                    }
                    assert forall|i: int| 0 <= i < t0.errors@.len() implies #[trigger] self.errors@[i]
                        == t0.errors@[i] by {
                        assert(u0.errors@[i] == t0.errors@[i]);
                    }
                    assert forall|i: int| 0 <= i < pa.errors@.len() implies #[trigger] self.errors@[i]
                        == pa.errors@[i] by {
                        assert(u0.errors@[i] == pa.errors@[i]);
                    }
                    f = f + 1;
                }
                proof {
                    if top && attr.args@.len() == 0 {
                        lemma_span_kept(pa.errors@, self.errors@, attr.span);
                    }
                }
            } else if eq_str(attr.name.as_str(), "false_path") {
                match parse_false_path(&inp.exprs, attr, false) {
                    Ok(fp) => {
                        self.path_rule(PathKind::FalsePath, fp.from, fp.to, attr.span, scope, ctx, m.name.as_str(), paths, "@false_path");
                    },
                    Err(d) => {
                        if top {
                            let ghost pe = self.errors@;
                            self.push(d);
                            proof {
                                if has_span(pe, d.span) {
                                    lemma_span_kept(pe, self.errors@, d.span);
                                } else {
                                    assert(self.errors@[pe.len() as int].span == d.span);
                                }
                            }
                        }
                    },
                }
                proof {
                    assert(top ==> match false_path_spec(inp.exprs@, *attr, false) {
                        Err(e) => has_span(self.errors@, e.span),
                        Ok(_) => true,
                    });
                }
            } else if eq_str(attr.name.as_str(), "multicycle") {
                match parse_multicycle(&inp.exprs, attr, false) {
                    Ok(mc) => {
                        self.path_rule(PathKind::Multicycle(mc.cycles), mc.from, mc.to, attr.span, scope, ctx, m.name.as_str(), paths, "@multicycle");
                    },
                    Err(d) => {
                        if top {
                            let ghost pe = self.errors@;
                            self.push(d);
                            proof {
                                if has_span(pe, d.span) {
                                    lemma_span_kept(pe, self.errors@, d.span);
                                } else {
                                    assert(self.errors@[pe.len() as int].span == d.span);
                                }
                            }
                        }
                    },
                }
            }
            assert forall|i: int| 0 <= i < s0.errors@.len() implies #[trigger] self.errors@[i]
                == s0.errors@[i] by {
                assert(t0.errors@[i] == s0.errors@[i]);
            }
            proof {
                reveal_strlit("timing");
                reveal_strlit("false_path");
                reveal_strlit("multicycle");
                assert("timing"@ != "false_path"@) by {
                    assert("timing"@.len() != "false_path"@.len());
                }
                assert("timing"@ != "multicycle"@) by {
                    assert("timing"@.len() != "multicycle"@.len());
                }
                assert("false_path"@ != "multicycle"@) by {
                    assert("false_path"@[0] != "multicycle"@[0]);
                }
                if top {
                    assert((attr.name@ == "timing"@ && attr.args@.len() == 0) ==> has_span(self.errors@, attr.span));
                    assert(attr.name@ == "false_path"@ ==> match false_path_spec(inp.exprs@, *attr, false) {
                        Err(e) => has_span(self.errors@, e.span),
                        Ok(_) => true,
                    });
                    assert(attr.name@ == "multicycle"@ ==> match multicycle_spec(inp.exprs@, *attr, false) {
                        Err(e) => has_span(self.errors@, e.span),
                        Ok(_) => true,
                    });
                    lemma_attr_errors_kept(inp.exprs@, sub0, t0.errors@, self.errors@);
                    assert forall|k: int| 0 <= k < sub1.len() implies {
                        let at = #[trigger] sub1[k];
                        &&& (at.name@ == "timing"@ && at.args@.len() == 0) ==> has_span(self.errors@, at.span)
                        &&& at.name@ == "false_path"@ ==> match false_path_spec(inp.exprs@, at, false) {
                            Err(e) => has_span(self.errors@, e.span),
                            Ok(_) => true,
                        }
                        &&& at.name@ == "multicycle"@ ==> match multicycle_spec(inp.exprs@, at, false) {
                            Err(e) => has_span(self.errors@, e.span),
                            Ok(_) => true,
                        }
                    } by {
                        if k < sub0.len() {
                            assert(sub1[k] == sub0[k]);
                        } else {
                            assert(sub1[k] == m.attrs@[a as int]);
                        }
                    }
                }
            }
            a = a + 1;
        }
        assert(m.attrs@.subrange(0, a as int) =~= m.attrs@);
        let ghost s_attr = *self;
        let mut p: usize = 0;
        while p < m.ports.len()
            invariant
                inp.wf(),
                inp.module_ok(*m),
                self.inv(),
                self.keeps(&s0),
                self.keeps(&s_attr),
                p <= m.ports@.len(),
            decreases m.ports@.len() - p,
        {
            let port = &m.ports[p];
            assert(attrs_ok(inp.exprs@, m.ports@[p as int].attrs@));
            let mut a: usize = 0;
            while a < port.attrs.len()
                invariant
                    inp.wf(),
                    attrs_ok(inp.exprs@, port.attrs@),
                    self.inv(),
                    self.keeps(&s0),
                    self.keeps(&s_attr),
                    a <= port.attrs@.len(),
                decreases port.attrs@.len() - a,
            {
                let ghost t0 = *self;
                assert(attr_in_arena(inp.exprs@, port.attrs@[a as int]));
                self.port_attr(inp, &port.attrs[a], port, scope, ctx, m.name.as_str(), paths);
                assert forall|i: int| 0 <= i < s0.errors@.len() implies #[trigger] self.errors@[i]
                    == s0.errors@[i] by {
                    assert(t0.errors@[i] == s0.errors@[i]);
                }
                assert forall|i: int| 0 <= i < s_attr.errors@.len() implies #[trigger] self.errors@[i]
                    == s_attr.errors@[i] by {
                    assert(t0.errors@[i] == s_attr.errors@[i]);
                }
                a = a + 1;
            }
            p = p + 1;
        }
        let mut k: usize = 0;
        while k < m.body.len()
            invariant
                inp.wf(),
                inp.module_ok(*m),
                self.inv(),
                self.keeps(&s0),
                self.keeps(&s_attr),
                k <= m.body@.len(),
            decreases m.body@.len() - k,
        {
            let stmt = &m.body[k];
            assert(inp.stmt_ok(m.body@[k as int]));
            let mut a: usize = 0;
            while a < stmt.attrs.len()
                invariant
                    inp.wf(),
                    attrs_ok(inp.exprs@, stmt.attrs@),
                    self.inv(),
                    self.keeps(&s0),
                    self.keeps(&s_attr),
                    a <= stmt.attrs@.len(),
                decreases stmt.attrs@.len() - a,
            {
                let ghost t0 = *self;
                assert(attr_in_arena(inp.exprs@, stmt.attrs@[a as int]));
                self.stmt_attr(inp, &stmt.attrs[a], stmt, scope, ctx, m.name.as_str(), paths);
                assert forall|i: int| 0 <= i < s0.errors@.len() implies #[trigger] self.errors@[i]
                    == s0.errors@[i] by {
                    assert(t0.errors@[i] == s0.errors@[i]);
                }
                assert forall|i: int| 0 <= i < s_attr.errors@.len() implies #[trigger] self.errors@[i]
                    == s_attr.errors@[i] by {
                    assert(t0.errors@[i] == s_attr.errors@[i]);
                }
                a = a + 1;
            }
            k = k + 1;
        }
        proof {
            if top {
                lemma_attr_errors_kept(inp.exprs@, m.attrs@, s_attr.errors@, self.errors@);
            }
        }
    }
}

/// A copy of a clock entry.
fn copy_clock(c: &ClockConstraint) -> (r: ClockConstraint)
    ensures
        r.port@ == c.port@,
        r.domain@ == c.domain@,
        r.freq_hz == c.freq_hz,
{
    ClockConstraint {
        port: c.port.clone(),
        domain: c.domain.clone(),
        edge: c.edge,
        freq_hz: c.freq_hz,
        freq_source: c.freq_source,
        span: c.span,
        domain_span: c.domain_span,
    }
}

fn copy_clocks(cs: &Vec<ClockConstraint>) -> (r: Vec<ClockConstraint>)
    ensures
        r@.len() == cs@.len(),
{
    let mut r: Vec<ClockConstraint> = Vec::new();
    let mut k: usize = 0;
    while k < cs.len()
        invariant
            k <= cs@.len(),
            r@.len() == k,
        decreases cs@.len() - k,
    {
        r.push(copy_clock(&cs[k]));
        k = k + 1;
    }
    r
}

/// A copy of a list of strings.
fn copy_strings(v: &Vec<String>) -> (r: Vec<String>)
    ensures
        r@.map_values(|s: String| s@) == v@.map_values(|s: String| s@),
{
    let mut r: Vec<String> = Vec::new();
    let mut k: usize = 0;
    while k < v.len()
        invariant
            k <= v@.len(),
            r@.len() == k,
            forall|j: int| 0 <= j < k ==> (#[trigger] r@[j])@ == v@[j]@,
        decreases v@.len() - k,
    {
        let x = v[k].clone();
        r.push(x);
        k = k + 1;
    }
    assert(r@.map_values(|s: String| s@) =~= v@.map_values(|s: String| s@));
    r
}

/// The index of the group of domain `d` in `groups`, or `groups.len()`.
pub open spec fn group_index(groups: Seq<(Seq<char>, Seq<Seq<char>>)>, d: Seq<char>) -> int
    decreases groups.len(),
{
    if groups.len() == 0 {
        0
    } else if groups[0].0 == d {
        0
    } else {
        1 + group_index(groups.drop_first(), d)
    }
}

/// The asynchronous groups of `clocks`: one per domain, in order of first
/// appearance, each with its clock ports in order.
pub open spec fn groups_of(clocks: Seq<ClockConstraint>) -> Seq<(Seq<char>, Seq<Seq<char>>)>
    decreases clocks.len(),
{
    if clocks.len() == 0 {
        Seq::empty()
    } else {
        let prev = groups_of(clocks.drop_last());
        let c = clocks.last();
        let i = group_index(prev, c.domain@);
        if 0 <= i < prev.len() {
            prev.update(i, (prev[i].0, prev[i].1.push(c.port@)))
        } else {
            prev.push((c.domain@, seq![c.port@]))
        }
    }
}

proof fn lemma_group_index(groups: Seq<(Seq<char>, Seq<Seq<char>>)>, d: Seq<char>)
    ensures
        0 <= group_index(groups, d) <= groups.len(),
        group_index(groups, d) < groups.len() ==> groups[group_index(groups, d)].0 == d,
        forall|k: int| 0 <= k < group_index(groups, d) ==> groups[k].0 != d,
    decreases groups.len(),
{
    if groups.len() > 0 && groups[0].0 != d {
        lemma_group_index(groups.drop_first(), d);
        assert forall|k: int| 0 <= k < group_index(groups, d) implies groups[k].0 != d by {
            if k > 0 {
                assert(groups[k] == groups.drop_first()[k - 1]);
            }
        }
    }
}

/// The groups with their names.
pub open spec fn groups_spec_view(gs: Seq<(Seq<char>, Seq<Seq<char>>)>) -> Seq<Seq<Seq<char>>> {
    gs.map_values(|g: (Seq<char>, Seq<Seq<char>>)| g.1)
}

/// One asynchronous group per domain, in order of first appearance,
/// with the clock ports of that domain in order.
pub fn group_clocks(clocks: &Vec<ClockConstraint>) -> (r: Vec<Vec<String>>)
    ensures
        crate::constraints::groups_view(r@) == groups_spec_view(groups_of(clocks@)),
{
    // (domain, ports) in order of first appearance.
    let mut names: Vec<String> = Vec::new();
    let mut groups: Vec<Vec<String>> = Vec::new();
    let mut k: usize = 0;
    while k < clocks.len()
        invariant
            k <= clocks@.len(),
            names@.len() == groups@.len(),
            names@.len() == groups_of(clocks@.subrange(0, k as int)).len(),
            forall|g: int| 0 <= g < names@.len() ==> (#[trigger] names@[g])@ == groups_of(clocks@.subrange(0, k as int))[g].0,
            forall|g: int| 0 <= g < groups@.len() ==> (#[trigger] groups@[g])@.map_values(|s: String| s@)
                == groups_of(clocks@.subrange(0, k as int))[g].1,
        decreases clocks@.len() - k,
    {
        let ghost pre = groups_of(clocks@.subrange(0, k as int));
        proof {
            assert(clocks@.subrange(0, k + 1).drop_last() =~= clocks@.subrange(0, k as int));
            lemma_group_index(pre, clocks@[k as int].domain@);
        }
        let c = &clocks[k];
        let mut g: usize = 0;
        while g < names.len() && !eq_str(names[g].as_str(), c.domain.as_str())
            invariant
                g <= names@.len(),
                names@.len() == pre.len(),
                forall|j: int| 0 <= j < names@.len() ==> (#[trigger] names@[j])@ == pre[j].0,
                forall|j: int| 0 <= j < g ==> pre[j].0 != c.domain@,
            decreases names@.len() - g,
        {
            g = g + 1;
        }
        proof {
            lemma_group_index(pre, c.domain@);
            if g < names@.len() {
                assert(pre[g as int].0 == c.domain@);
                if group_index(pre, c.domain@) < g {
                    assert(pre[group_index(pre, c.domain@)].0 == c.domain@);
                }
                assert(group_index(pre, c.domain@) == g);
            } else {
                assert(group_index(pre, c.domain@) == pre.len());
            }
        }
        if g < names.len() {
            let mut v = copy_strings(&groups[g]);
            v.push(c.port.clone());
            groups.set(g, v);
        } else {
            names.push(c.domain.clone());
            let mut v: Vec<String> = Vec::new();
            v.push(c.port.clone());
            groups.push(v);
        }
        k = k + 1;
    }
    proof {
        assert(clocks@.subrange(0, clocks@.len() as int) =~= clocks@);
        let gs = groups_of(clocks@);
        assert forall|g: int| 0 <= g < groups@.len() implies #[trigger] crate::constraints::groups_view(groups@)[g]
            == groups_spec_view(gs)[g] by {
            assert(groups@[g]@.map_values(|s: String| s@) == gs[g].1);
        }
        assert(crate::constraints::groups_view(groups@) =~= groups_spec_view(gs));
    }
    groups
}

/// The characters of `parts`, in order.
pub open spec fn join_spec(parts: Seq<&str>) -> Seq<char>
    decreases parts.len(),
{
    if parts.len() == 0 {
        Seq::empty()
    } else {
        join_spec(parts.drop_last()) + parts.last()@
    }
}

/// Characters of several pieces, in order.
fn join(parts: &Vec<&str>) -> (r: String)
    ensures
        r@ == join_spec(parts@),
{
    let mut v: Vec<char> = Vec::new();
    let mut k: usize = 0;
    while k < parts.len()
        invariant
            k <= parts@.len(),
            v@ == join_spec(parts@.subrange(0, k as int)),
        decreases parts@.len() - k,
    {
        proof {
            assert(parts@.subrange(0, k + 1).drop_last() =~= parts@.subrange(0, k as int));
        }
        extend_chars(&mut v, parts[k]);
        k = k + 1;
    }
    assert(parts@.subrange(0, parts@.len() as int) =~= parts@);
    string_of(&v)
}

/// The name a clock binding of an instance connects: its value's name,
/// or the port's own name for the shorthand.
pub open spec fn bound_local_spec(exprs: Seq<Expr>, inst: CInstance, port: Seq<char>) -> Option<Seq<char>> {
    match first_binding(inst.bindings@, port) {
        Some(k) => match inst.bindings@[k].value {
            None => Some(inst.bindings@[k].port@),
            Some(e) => crate::ast::single_name(exprs[e as int]),
        },
        None => None,
    }
}

fn bound_local(inp: &CInput, inst: &CInstance, port: &str) -> (r: Option<String>)
    requires
        wf_exprs(inp.exprs@),
        forall|k: int| 0 <= k < inst.bindings@.len() ==> ((#[trigger] inst.bindings@[k]).value matches Some(e)
            ==> e < inp.exprs@.len()),
    ensures
        opt_view(r) == bound_local_spec(inp.exprs@, *inst, port@),
{
    proof {
        lemma_first_binding_range(inst.bindings@, port@);
    }
    match binding_of(inst, port) {
        Some(k) => {
            assert(first_binding(inst.bindings@, port@) == Some(k as int));
            match inst.bindings[k].value {
                None => Some(inst.bindings[k].port.clone()),
                Some(e) => {
                    assert(e < inp.exprs@.len());
                    let r = single(&inp.exprs, e);
                    assert(opt_view(r) == crate::ast::single_name(inp.exprs@[e as int]));
                    r
                },
            }
        },
        None => None,
    }
}

/// The crossings of a builtin primitive: its kind name, the register
/// pairs that cross, its synchronizer registers, and its source and
/// destination clock ports.
pub type PrimEntry = (&'static str, Seq<(&'static str, &'static str)>, Seq<&'static str>, &'static str, &'static str);

/// The crossing table of the builtin CDC primitives.
pub open spec fn prim_spec(target: Seq<char>) -> Option<PrimEntry> {
    if target == "AsyncFifo"@ {
        Some((
            "AsyncFifo",
            seq![("rgray", "rgray_s0"), ("wgray", "wgray_s0"), ("mem", "rd_data")],
            seq!["rgray_s0", "rgray_s1", "wgray_s0", "wgray_s1"],
            "wr_clk",
            "rd_clk",
        ))
    } else if target == "HandshakeSync"@ {
        Some((
            "HandshakeSync",
            seq![("req", "req_s0"), ("ack", "ack_s0"), ("data_q", "data_out")],
            seq!["req_s0", "req_s1", "ack_s0", "ack_s1"],
            "src_clk",
            "dst_clk",
        ))
    } else if target == "PulseSync"@ {
        Some(("PulseSync", seq![("toggle", "sync0")], seq!["sync0", "sync1", "sync2"], "src_clk", "dst_clk"))
    } else if target == "AsyncDualPortRam"@ {
        Some(("AsyncDualPortRam", seq![("mem", "rd_data")], Seq::empty(), "wr_clk", "rd_clk"))
    } else {
        None
    }
}

fn prim_table(target: &str) -> (r: Option<(&'static str, Vec<(&'static str, &'static str)>, Vec<&'static str>, &'static str, &'static str)>)
    ensures
        match prim_spec(target@) {
            Some(t) => r matches Some(x) && x.0 == t.0 && x.1@ == t.1 && x.2@ == t.2 && x.3 == t.3 && x.4 == t.4,
            None => r is None,
        },
{
    if eq_str(target, "AsyncFifo") {
        let r = Some((
            "AsyncFifo",
            vec![("rgray", "rgray_s0"), ("wgray", "wgray_s0"), ("mem", "rd_data")],
            vec!["rgray_s0", "rgray_s1", "wgray_s0", "wgray_s1"],
            "wr_clk",
            "rd_clk",
        ));
        proof {
            let x = r.unwrap();
            assert(x.1@ =~= seq![("rgray", "rgray_s0"), ("wgray", "wgray_s0"), ("mem", "rd_data")]);
            assert(x.2@ =~= seq!["rgray_s0", "rgray_s1", "wgray_s0", "wgray_s1"]);
        }
        r
    } else if eq_str(target, "HandshakeSync") {
        let r = Some((
            "HandshakeSync",
            vec![("req", "req_s0"), ("ack", "ack_s0"), ("data_q", "data_out")],
            vec!["req_s0", "req_s1", "ack_s0", "ack_s1"],
            "src_clk",
            "dst_clk",
        ));
        proof {
            let x = r.unwrap();
            assert(x.1@ =~= seq![("req", "req_s0"), ("ack", "ack_s0"), ("data_q", "data_out")]);
            assert(x.2@ =~= seq!["req_s0", "req_s1", "ack_s0", "ack_s1"]);
        }
        r
    } else if eq_str(target, "PulseSync") {
        let r = Some(("PulseSync", vec![("toggle", "sync0")], vec!["sync0", "sync1", "sync2"], "src_clk", "dst_clk"));
        proof {
            let x = r.unwrap();
            assert(x.1@ =~= seq![("toggle", "sync0")]);
            assert(x.2@ =~= seq!["sync0", "sync1", "sync2"]);
        }
        r
    } else if eq_str(target, "AsyncDualPortRam") {
        let r = Some(("AsyncDualPortRam", vec![("mem", "rd_data")], Vec::new(), "wr_clk", "rd_clk"));
        proof {
            let x = r.unwrap();
            assert(x.1@ =~= seq![("mem", "rd_data")]);
            assert(x.2@ =~= Seq::<&'static str>::empty());
        }
        r
    } else {
        None
    }
}

/// The top-level clock an instance's clock port is bound to.
pub open spec fn bridge_clock(exprs: Seq<Expr>, inst: CInstance, ctx: Ctx, port: Seq<char>) -> Option<Seq<char>> {
    match bound_local_spec(exprs, inst, port) {
        Some(l) => ctx.map_clock_spec(l),
        None => None,
    }
}

/// A clock name for a comment; `?` where it is unknown.
pub open spec fn clock_text(c: Option<Seq<char>>) -> Seq<char> {
    match c {
        Some(s) => s,
        None => "?"@,
    }
}

/// `<name>_<reg>`: a register of a primitive instance as code generation
/// names it.
pub open spec fn prim_reg(name: Seq<char>, reg: &str) -> Seq<char> {
    name + "_"@ + reg@
}

/// What the bridge of instance `inst` of primitive `t` holds: its name,
/// clocks, one false path per crossing and its synchronizer registers.
pub open spec fn bridge_ok(exprs: Seq<Expr>, inst: CInstance, ctx: Ctx, t: PrimEntry, b: Bridge) -> bool {
    let name = ctx.prefix@ + inst.name@;
    let fc = bridge_clock(exprs, inst, ctx, t.3@);
    let tc = bridge_clock(exprs, inst, ctx, t.4@);
    &&& b.kind@ == t.0@
    &&& b.name@ == name
    &&& opt_view(b.from_clock) == fc
    &&& opt_view(b.to_clock) == tc
    &&& b.rules@.len() == t.1.len()
    &&& forall|k: int|
        0 <= k < t.1.len() ==> {
            let r = #[trigger] b.rules@[k];
            &&& r.kind == PathKind::FalsePath
            &&& r.from matches Some(Target::Cells(f)) && f@ == prim_reg(name, t.1[k].0)
            &&& r.to matches Some(Target::Cells(g)) && g@ == prim_reg(name, t.1[k].1)
            &&& r.comment@ == t.0@ + " '"@ + inst.name@ + "': "@ + t.1[k].0@ + " -> "@ + t.1[k].1@
                + " ("@ + clock_text(fc) + " -> "@ + clock_text(tc) + ")"@
        }
    &&& b.async_regs@.len() == t.2.len()
    &&& forall|k: int| 0 <= k < t.2.len() ==> (#[trigger] b.async_regs@[k])@ == prim_reg(name, t.2[k])
}

/// The crossing registers of a builtin primitive instance, named as code
/// generation names them (`<instance>_<register>`).
pub fn builtin_bridge(inp: &CInput, inst: &CInstance, ctx: &Ctx) -> (r: Option<Bridge>)
    requires
        wf_exprs(inp.exprs@),
        forall|k: int| 0 <= k < inst.bindings@.len() ==> ((#[trigger] inst.bindings@[k]).value matches Some(e)
            ==> e < inp.exprs@.len()),
    ensures
        match prim_spec(inst.target@) {
            Some(t) => r matches Some(b) && bridge_ok(inp.exprs@, *inst, *ctx, t, b),
            None => r is None,
        },
{
    let (kind, crossings, regs, src_port, dst_port) = match prim_table(inst.target.as_str()) {
        Some(t) => t,
        None => {
            return None;
        },
    };
    let ghost t = prim_spec(inst.target@).unwrap();
    let name = concat(ctx.prefix.as_str(), inst.name.as_str());
    let from_clock = match bound_local(inp, inst, src_port) {
        Some(l) => ctx.map_clock(l.as_str()),
        None => None,
    };
    let to_clock = match bound_local(inp, inst, dst_port) {
        Some(l) => ctx.map_clock(l.as_str()),
        None => None,
    };
    assert(opt_view(from_clock) == bridge_clock(inp.exprs@, *inst, *ctx, t.3@));
    assert(opt_view(to_clock) == bridge_clock(inp.exprs@, *inst, *ctx, t.4@));
    let fc = match &from_clock {
        Some(c) => c.clone(),
        None => "?".to_string(),
    };
    let tc = match &to_clock {
        Some(c) => c.clone(),
        None => "?".to_string(),
    };
    proof {
        reveal_strlit("?");
    }
    assert(fc@ == clock_text(opt_view(from_clock)));
    assert(tc@ == clock_text(opt_view(to_clock)));
    let mut rules: Vec<PathRule> = Vec::new();
    let mut k: usize = 0;
    while k < crossings.len()
        invariant
            k <= crossings@.len(),
            crossings@ == t.1,
            kind == t.0,
            name@ == ctx.prefix@ + inst.name@,
            fc@ == clock_text(bridge_clock(inp.exprs@, *inst, *ctx, t.3@)),
            tc@ == clock_text(bridge_clock(inp.exprs@, *inst, *ctx, t.4@)),
            rules@.len() == k,
            forall|j: int|
                0 <= j < k ==> {
                    let r = #[trigger] rules@[j];
                    &&& r.kind == PathKind::FalsePath
                    &&& r.from matches Some(Target::Cells(f)) && f@ == prim_reg(name@, t.1[j].0)
                    &&& r.to matches Some(Target::Cells(g)) && g@ == prim_reg(name@, t.1[j].1)
                    &&& r.comment@ == t.0@ + " '"@ + inst.name@ + "': "@ + t.1[j].0@ + " -> "@ + t.1[j].1@
                        + " ("@ + fc@ + " -> "@ + tc@ + ")"@
                },
        decreases crossings@.len() - k,
    {
        let (from, to) = crossings[k];
        let from_name = join(&vec![name.as_str(), "_", from]);
        let to_name = join(&vec![name.as_str(), "_", to]);
        let mut cv: Vec<char> = Vec::new();
        extend_chars(&mut cv, kind);
        extend_chars(&mut cv, " '");
        extend_chars(&mut cv, inst.name.as_str());
        extend_chars(&mut cv, "': ");
        extend_chars(&mut cv, from);
        extend_chars(&mut cv, " -> ");
        extend_chars(&mut cv, to);
        extend_chars(&mut cv, " (");
        extend_chars(&mut cv, fc.as_str());
        extend_chars(&mut cv, " -> ");
        extend_chars(&mut cv, tc.as_str());
        extend_chars(&mut cv, ")");
        let comment = string_of(&cv);
        proof {
            reveal_with_fuel(join_spec, 4);
            assert(from_name@ =~= prim_reg(name@, from));
            assert(to_name@ =~= prim_reg(name@, to));
            assert(comment@ =~= t.0@ + " '"@ + inst.name@ + "': "@ + from@ + " -> "@ + to@ + " ("@ + fc@
                + " -> "@ + tc@ + ")"@);
        }
        rules.push(
            PathRule {
                kind: PathKind::FalsePath,
                from: Some(Target::Cells(from_name)),
                to: Some(Target::Cells(to_name)),
                comment,
            },
        );
        k = k + 1;
    }
    let mut async_regs: Vec<String> = Vec::new();
    let mut j: usize = 0;
    while j < regs.len()
        invariant
            j <= regs@.len(),
            regs@ == t.2,
            name@ == ctx.prefix@ + inst.name@,
            async_regs@.len() == j,
            forall|i: int| 0 <= i < j ==> (#[trigger] async_regs@[i])@ == prim_reg(name@, t.2[i]),
        decreases regs@.len() - j,
    {
        let reg = join(&vec![name.as_str(), "_", regs[j]]);
        proof {
            reveal_with_fuel(join_spec, 4);
            assert(reg@ =~= prim_reg(name@, regs@[j as int]));
        }
        async_regs.push(reg);
        j = j + 1;
    }
    let b = Bridge { kind: kind.to_string(), name, from_clock, to_clock, rules, async_regs };
    Some(b)
}

/// `sync(src, clk)` or `sync3(src, clk)` with plain names: the kind, the
/// number of stages, the source and the destination clock.
pub open spec fn sync_call(exprs: Seq<Expr>, rhs: int) -> Option<(Seq<char>, nat, Seq<char>, Seq<char>)> {
    match exprs[rhs].kind {
        ExprKind::Call { callee, args } => match crate::ast::single_name(exprs[callee as int]) {
            Some(f) => if (f == "sync"@ || f == "sync3"@) && args@.len() == 2 {
                match (crate::ast::single_name(exprs[args@[0] as int]), crate::ast::single_name(exprs[args@[1] as int])) {
                    (Some(src), Some(dst)) => Some((f, if f == "sync"@ { 2nat } else { 3nat }, src, dst)),
                    _ => None,
                }
            } else {
                None
            },
            None => None,
        },
        _ => None,
    }
}

/// The clock that drives the source of a synchronizer into `dst`, where
/// it is another clock.
pub open spec fn sync_source_clock(exprs: Seq<Expr>, m: CModule, scope: Scope, src: Seq<char>, dst: Seq<char>) -> Option<
    Seq<char>,
> {
    match driver_spec(exprs, m, scope, src, 0) {
        Some(c) => if c == dst {
            None
        } else {
            Some(c)
        },
        None => None,
    }
}

/// Where a synchronizer's false path starts: the capture register of a
/// port from another domain, the port (a pin in a sub-module), the
/// register, or the source clock where that clock has a frequency.
pub open spec fn sync_from_spec(
    ctx: Ctx,
    scope: Scope,
    clocks: Seq<ClockConstraint>,
    src: Seq<char>,
    sc: Option<Seq<char>>,
) -> Option<(u8, Seq<char>)> {
    let base = ctx.prefix@ + "sync_"@ + src;
    let is_port = port_entry(scope.ports@, src) is Some;
    if sc is Some && is_port {
        Some((1u8, base + "_src"@))
    } else if is_port {
        if ctx.prefix@.len() == 0 {
            Some((0u8, src))
        } else {
            Some((2u8, ctx.prefix@ + src))
        }
    } else if has_name(scope.regs@, src) {
        Some((1u8, ctx.prefix@ + src))
    } else {
        match sc {
            Some(c) => match ctx.map_clock_spec(c) {
                Some(mapped) => if crate::constraints::is_defined_clock(clocks, mapped) {
                    Some((3u8, mapped))
                } else {
                    None
                },
                None => None,
            },
            None => None,
        }
    }
}

/// What a synchronizer's bridge holds besides its source endpoint: its
/// name, destination clock, stage registers and the one false path into
/// the first stage.
pub open spec fn sync_bridge_ok(ctx: Ctx, call: (Seq<char>, nat, Seq<char>, Seq<char>), b: Bridge) -> bool {
    let (kind, stages, src, dst) = call;
    let base = ctx.prefix@ + "sync_"@ + src;
    let to = ctx.map_clock_spec(dst);
    &&& b.kind@ == kind
    &&& b.name@ == base
    &&& opt_view(b.to_clock) == to
    &&& b.async_regs@.len() == stages
    &&& forall|i: int| 0 <= i < stages ==> (#[trigger] b.async_regs@[i])@ == base + "_stage"@ + decimal(i as nat)
    &&& b.rules@.len() == 1
    &&& b.rules@[0].kind == PathKind::FalsePath
    &&& b.rules@[0].to matches Some(Target::Cells(t)) && t@ == base + "_stage0"@
    &&& b.rules@[0].comment@ == kind + "(): "@ + src + " -> "@ + (match to {
        Some(t) => t,
        None => dst,
    }) + " ("@ + decimal(stages) + " stages)"@
}

/// `dest = sync(src, clk)` / `sync3(...)`: the synchronizer named as code
/// generation names it (`sync_<src>_stage<i>`, and for a port from
/// another domain the capture register `sync_<src>_src`).
pub fn sync_bridge(
    inp: &CInput,
    m: &CModule,
    scope: &Scope,
    ctx: &Ctx,
    has_suffix: bool,
    rhs: usize,
    clocks: &Vec<ClockConstraint>,
) -> (r: Option<Bridge>)
    requires
        inp.wf(),
        rhs < inp.exprs@.len(),
        scope.let_ok(inp.exprs@.len() as int),
        scope.clocks_ok(m.ports@.len() as int),
    ensures
        match sync_call(inp.exprs@, rhs as int) {
            Some(call) => if !has_suffix && (port_entry(scope.ports@, call.3) matches Some(e) && e.2) {
                r matches Some(b) && sync_bridge_ok(*ctx, call, b) && {
                    let sc = sync_source_clock(inp.exprs@, *m, *scope, call.2, call.3);
                    &&& opt_view(b.from_clock) == match sc {
                        Some(c) => ctx.map_clock_spec(c),
                        None => None,
                    }
                    &&& sync_from_spec(*ctx, *scope, clocks@, call.2, sc) == match b.rules@[0].from {
                        Some(t) => Some(target_spec(t)),
                        None => None,
                    }
                }
            } else {
                r is None
            },
            None => r is None,
        },
{
    let ghost kids = crate::ast::children(inp.exprs@[rhs as int].kind);
    let (callee, args) = match &inp.exprs[rhs].kind {
        ExprKind::Call { callee, args } => (*callee, args),
        _ => {
            return None;
        },
    };
    assert(kids[0] == callee);
    let fname = match single(&inp.exprs, callee) {
        Some(n) => n,
        None => {
            return None;
        },
    };
    proof {
        reveal_strlit("sync");
        reveal_strlit("sync3");
    }
    let (kind, stages): (&str, u64) = if eq_str(fname.as_str(), "sync") {
        ("sync", 2)
    } else if eq_str(fname.as_str(), "sync3") {
        ("sync3", 3)
    } else {
        return None;
    };
    if has_suffix || args.len() != 2 {
        return None;
    }
    assert(kids[1] == args@[0] && kids[2] == args@[1]);
    let src = match single(&inp.exprs, args[0]) {
        Some(n) => n,
        None => {
            return None;
        },
    };
    let dst_clk = match single(&inp.exprs, args[1]) {
        Some(n) => n,
        None => {
            return None;
        },
    };
    if !scope.is_clock_port(dst_clk.as_str()) {
        return None;
    }
    let src_clk = match driver_clock(inp, m, scope, src.as_str(), 0) {
        Some(c) => if eq_str(c.as_str(), dst_clk.as_str()) {
            None
        } else {
            Some(c)
        },
        None => None,
    };
    let ghost call = sync_call(inp.exprs@, rhs as int).unwrap();
    assert(kind@ == call.0 && stages as nat == call.1 && src@ == call.2 && dst_clk@ == call.3);
    let base = join(&vec![ctx.prefix.as_str(), "sync_", src.as_str()]);
    proof {
        reveal_with_fuel(join_spec, 4);
        assert(base@ =~= ctx.prefix@ + "sync_"@ + src@);
    }
    let top = ctx.prefix.unicode_len() == 0;
    let src_is_port = scope.has_port(src.as_str());
    let from = if src_clk.is_some() && src_is_port {
        Some(Target::Cells(concat(base.as_str(), "_src")))
    } else if src_is_port {
        Some(
            if top {
                Target::Port(src.clone())
            } else {
                Target::Pin(concat(ctx.prefix.as_str(), src.as_str()))
            },
        )
    } else if contains_name(&scope.regs, src.as_str()) {
        Some(Target::Cells(concat(ctx.prefix.as_str(), src.as_str())))
    } else {
        match &src_clk {
            Some(c) => match ctx.map_clock(c.as_str()) {
                Some(mapped) => {
                    let mut defined = false;
                    let mut i: usize = 0;
                    while i < clocks.len()
                        invariant
                            i <= clocks@.len(),
                            defined == exists|c: int|
                                0 <= c < i && clocks@[c].port@ == mapped@ && clocks@[c].freq_hz is Some,
                        decreases clocks@.len() - i,
                    {
                        if clocks[i].freq_hz.is_some() && eq_str(clocks[i].port.as_str(), mapped.as_str()) {
                            defined = true;
                        }
                        i = i + 1;
                    }
                    if defined {
                        Some(Target::Clock(mapped))
                    } else {
                        None
                    }
                },
                None => None,
            },
            None => None,
        }
    };
    let to_clock = ctx.map_clock(dst_clk.as_str());
    let from_clock = match &src_clk {
        Some(c) => ctx.map_clock(c.as_str()),
        None => None,
    };
    let mut cv: Vec<char> = Vec::new();
    extend_chars(&mut cv, kind);
    extend_chars(&mut cv, "(): ");
    extend_chars(&mut cv, src.as_str());
    extend_chars(&mut cv, " -> ");
    match &to_clock {
        Some(t) => extend_chars(&mut cv, t.as_str()),
        None => extend_chars(&mut cv, dst_clk.as_str()),
    }
    extend_chars(&mut cv, " (");
    push_decimal(&mut cv, stages);
    extend_chars(&mut cv, " stages)");
    let comment = string_of(&cv);
    proof {
        let to = ctx.map_clock_spec(dst_clk@);
        assert(comment@ =~= kind@ + "(): "@ + src@ + " -> "@ + (match to {
            Some(t) => t,
            None => dst_clk@,
        }) + " ("@ + decimal(stages as nat) + " stages)"@);
    }
    let stage0 = concat(base.as_str(), "_stage0");
    let mut async_regs: Vec<String> = Vec::new();
    let mut i: u64 = 0;
    while i < stages
        invariant
            i <= stages,
            stages <= 3,
            async_regs@.len() == i,
            forall|j: int| 0 <= j < i ==> (#[trigger] async_regs@[j])@ == base@ + "_stage"@ + decimal(j as nat),
        decreases stages - i,
    {
        let mut rv: Vec<char> = Vec::new();
        extend_chars(&mut rv, base.as_str());
        extend_chars(&mut rv, "_stage");
        push_decimal(&mut rv, i);
        assert(rv@ =~= base@ + "_stage"@ + decimal(i as nat));
        async_regs.push(string_of(&rv));
        i = i + 1;
    }
    let rules = vec![PathRule {
        kind: PathKind::FalsePath,
        from,
        to: Some(Target::Cells(stage0)),
        comment,
    }];
    Some(Bridge { kind: kind.to_string(), name: base, from_clock, to_clock, rules, async_regs })
}

/// The instance nesting limit of the walk (instance cycles are reported
/// by another pass; here it only bounds the walk).
pub const MAX_DEPTH: usize = 32;

/// The measure of the walk: the nesting left.
pub open spec fn depth_left(ctx: Ctx) -> int {
    if ctx.depth < MAX_DEPTH {
        MAX_DEPTH - ctx.depth
    } else {
        0
    }
}

/// The first module named `name`.
fn module_named(inp: &CInput, name: &str) -> (r: Option<usize>)
    ensures
        r matches Some(k) ==> k < inp.modules@.len() && inp.modules@[k as int].name@ == name@ && forall|j: int|
            0 <= j < k ==> (#[trigger] inp.modules@[j]).name@ != name@,
        r is None ==> forall|j: int| 0 <= j < inp.modules@.len() ==> (#[trigger] inp.modules@[j]).name@ != name@,
{
    let mut k: usize = 0;
    while k < inp.modules.len()
        invariant
            k <= inp.modules@.len(),
            forall|j: int| 0 <= j < k ==> (#[trigger] inp.modules@[j]).name@ != name@,
        decreases inp.modules@.len() - k,
    {
        if eq_str(inp.modules[k].name.as_str(), name) {
            return Some(k);
        }
        k = k + 1;
    }
    None
}

impl Collector {
    /// The bridges and sub-module rules of a module body.
    fn body(
        &mut self,
        inp: &CInput,
        m: &CModule,
        scope: &Scope,
        ctx: &Ctx,
        clocks: &Vec<ClockConstraint>,
        bridges: &mut Vec<Bridge>,
        paths: &mut Vec<PathRule>,
        visiting: &mut Vec<String>,
    )
        requires
            ctx.wf(),
            inp.wf(),
            inp.module_ok(*m),
            scope.let_ok(inp.exprs@.len() as int),
            scope.clocks_ok(m.ports@.len() as int),
            old(self).inv(),
        ensures
            final(self).inv(),
            final(self).keeps(old(self)),
            final(visiting)@ == old(visiting)@,
        decreases depth_left(*ctx), 1int,
    {
        let ghost s0 = *self;
        let mut k: usize = 0;
        while k < m.body.len()
            invariant
                ctx.wf(),
                inp.wf(),
                inp.module_ok(*m),
                scope.let_ok(inp.exprs@.len() as int),
                scope.clocks_ok(m.ports@.len() as int),
                self.inv(),
                self.keeps(&s0),
                visiting@ == old(visiting)@,
                k <= m.body@.len(),
            decreases m.body@.len() - k,
        {
            assert(inp.stmt_ok(m.body@[k as int]));
            match &m.body[k].kind {
                CStmtKind::Assign { has_suffix, rhs, .. } => {
                    match sync_bridge(inp, m, scope, ctx, *has_suffix, *rhs, clocks) {
                        Some(b) => {
                            bridges.push(b);
                        },
                        None => {},
                    }
                },
                CStmtKind::Instance(inst) => {
                    if inst.prim {
                        match builtin_bridge(inp, inst, ctx) {
                            Some(b) => {
                                bridges.push(b);
                            },
                            None => {},
                        }
                    } else {
                        let ghost t0 = *self;
                        self.user_instance(inp, inst, scope, ctx, clocks, bridges, paths, visiting);
                        assert forall|i: int| 0 <= i < s0.errors@.len() implies #[trigger] self.errors@[i]
                            == s0.errors@[i] by {
                            assert(t0.errors@[i] == s0.errors@[i]);
                        }
                    }
                },
                _ => {},
            }
            k = k + 1;
        }
    }

    /// A user module instance: the sub-module's bridges and path rules
    /// under the `instance/` prefix, its clocks mapped through the
    /// bindings onto the parent's names.
    fn user_instance(
        &mut self,
        inp: &CInput,
        inst: &CInstance,
        scope: &Scope,
        ctx: &Ctx,
        clocks: &Vec<ClockConstraint>,
        bridges: &mut Vec<Bridge>,
        paths: &mut Vec<PathRule>,
        visiting: &mut Vec<String>,
    )
        requires
            ctx.wf(),
            inp.wf(),
            forall|k: int| 0 <= k < inst.bindings@.len() ==> ((#[trigger] inst.bindings@[k]).value matches Some(e)
                ==> e < inp.exprs@.len()),
            old(self).inv(),
        ensures
            final(self).inv(),
            final(self).keeps(old(self)),
            final(visiting)@ == old(visiting)@,
        decreases depth_left(*ctx), 0int,
    {
        if ctx.depth >= MAX_DEPTH || contains_name(visiting, inst.target.as_str()) {
            return;
        }
        let mi = match module_named(inp, inst.target.as_str()) {
            Some(i) => i,
            None => {
                return;
            },
        };
        let sub = &inp.modules[mi];
        assert(inp.module_ok(inp.modules@[mi as int]));
        let sub_scope = scope_of(inp, sub);
        let mut clock_map: Vec<(String, String)> = Vec::new();
        let mut c: usize = 0;
        while c < sub_scope.clock_ports.len()
            invariant
                inp.wf(),
                sub_scope.clocks_ok(sub.ports@.len() as int),
                forall|k: int| 0 <= k < inst.bindings@.len() ==> ((#[trigger] inst.bindings@[k]).value matches Some(e)
                    ==> e < inp.exprs@.len()),
                c <= sub_scope.clock_ports@.len(),
                keys_unique(clock_map@),
            decreases sub_scope.clock_ports@.len() - c,
        {
            let p = &sub.ports[sub_scope.clock_ports[c]];
            match bound_local(inp, inst, p.name.as_str()) {
                Some(local) => {
                    if scope.is_clock_port(local.as_str()) {
                        match ctx.map_clock(local.as_str()) {
                            Some(mapped) => {
                                map_insert(&mut clock_map, p.name.clone(), mapped);
                            },
                            None => {},
                        }
                    }
                },
                None => {},
            }
            c = c + 1;
        }
        let mut pv: Vec<char> = Vec::new();
        extend_chars(&mut pv, ctx.prefix.as_str());
        extend_chars(&mut pv, inst.name.as_str());
        pv.push('/');
        let sub_ctx = Ctx { prefix: string_of(&pv), clock_map: Some(clock_map), depth: ctx.depth + 1 };
        let mut sub_clocks = copy_clocks(clocks);
        let ghost s0 = *self;
        let ghost v0 = visiting@;
        visiting.push(inst.target.clone());
        self.module_attrs(inp, sub, &sub_scope, &sub_ctx, &mut sub_clocks, paths);
        let ghost s1 = *self;
        self.body(inp, sub, &sub_scope, &sub_ctx, clocks, bridges, paths, visiting);
        visiting.pop();
        assert(visiting@ =~= v0);
        assert forall|i: int| 0 <= i < s0.errors@.len() implies #[trigger] self.errors@[i]
            == s0.errors@[i] by {
            assert(s1.errors@[i] == s0.errors@[i]);
        }
    }

    /// The constraints of module `m` taken as the top module; `None` for
    /// a module without clock ports (its attributes are still checked).
    pub fn collect_module(&mut self, inp: &CInput, m: &CModule) -> (r: Option<ModuleConstraints>)
        requires
            inp.wf(),
            inp.module_ok(*m),
            old(self).inv(),
        ensures
            final(self).inv(),
            final(self).keeps(old(self)),
            r matches Some(mc) ==> mc.clocks@.len() > 0 && mc.module@ == m.name@
                && crate::constraints::groups_view(mc.groups@) == groups_spec_view(groups_of(mc.clocks@)),
            r is Some == has_clock_port(m.ports@),
            attr_errors_reported(inp.exprs@, m.attrs@, final(self).errors@),
    {
        let scope = scope_of(inp, m);
        let ghost hc = has_clock_port(m.ports@);
        proof {
            lemma_clock_indices_nonempty(scope.ports@, m.ports@, m.ports@.len() as int);
            assert forall|n: Seq<char>| (port_entry(scope.ports@, n) matches Some(e) && e.2) == last_is_clock(m.ports@, n) by {
                lemma_entry_clock(scope.ports@, m.ports@, n);
            }
            if hc {
                let k = choose|k: int| 0 <= k < m.ports@.len() && last_is_clock(m.ports@, (#[trigger] m.ports@[k]).name@);
                assert(port_entry(scope.ports@, m.ports@[k].name@) matches Some(e) && e.2);
            }
            if scope.clock_ports@.len() > 0 {
                let k = choose|k: int|
                    0 <= k < m.ports@.len() && (port_entry(scope.ports@, (#[trigger] m.ports@[k]).name@) matches Some(e) && e.2);
                assert(last_is_clock(m.ports@, m.ports@[k].name@));
            }
            assert(hc == (scope.clock_ports@.len() > 0));
        }
        let mut clocks: Vec<ClockConstraint> = Vec::new();
        let mut c: usize = 0;
        while c < scope.clock_ports.len()
            invariant
                scope.clocks_ok(m.ports@.len() as int),
                c <= scope.clock_ports@.len(),
                clocks@.len() == c,
                hc == (scope.clock_ports@.len() > 0),
            decreases scope.clock_ports@.len() - c,
        {
            let p = &m.ports[scope.clock_ports[c]];
            let (domain, decl) = match &p.domain {
                Some(d) => (d.clone(), self.domain_named(d.as_str())),
                None => (p.name.clone(), None),
            };
            let (freq_hz, domain_span) = match decl {
                Some(i) => (self.domains[i].freq_hz, Some(self.domains[i].span)),
                None => (None, None),
            };
            let freq_source = match freq_hz {
                Some(_) => Some(FreqSource::Domain),
                None => None,
            };
            clocks.push(
                ClockConstraint {
                    port: p.name.clone(),
                    domain,
                    edge: ClockEdge::Posedge,
                    freq_hz,
                    freq_source,
                    span: p.span,
                    domain_span,
                },
            );
            c = c + 1;
        }
        // `clock = negedge` of the domain declarations, in order.
        let mut d: usize = 0;
        while d < inp.domains.len()
            invariant
                d <= inp.domains@.len(),
                clocks@.len() == scope.clock_ports@.len(),
                hc == (scope.clock_ports@.len() > 0),
            decreases inp.domains@.len() - d,
        {
            let dom = &inp.domains[d];
            let mut edge: Option<ClockEdge> = None;
            let mut f: usize = 0;
            while f < dom.fields.len() && edge.is_none()
                invariant
                    f <= dom.fields@.len(),
                decreases dom.fields@.len() - f,
            {
                match dom.fields[f] {
                    CDomainField::Clock(e) => {
                        edge = Some(e);
                    },
                    _ => {},
                }
                f = f + 1;
            }
            match edge {
                Some(e) => {
                    let mut i: usize = 0;
                    while i < clocks.len()
                        invariant
                            i <= clocks@.len(),
                            clocks@.len() == scope.clock_ports@.len(),
                        decreases clocks@.len() - i,
                    {
                        if eq_str(clocks[i].domain.as_str(), dom.name.as_str()) {
                            let mut updated = copy_clock(&clocks[i]);
                            updated.edge = e;
                            clocks.set(i, updated);
                        }
                        i = i + 1;
                    }
                },
                None => {},
            }
            d = d + 1;
        }
        let ctx = Ctx { prefix: String::new(), clock_map: None, depth: 0 };
        let mut paths: Vec<PathRule> = Vec::new();
        let mut bridges: Vec<Bridge> = Vec::new();
        let mut visiting: Vec<String> = Vec::new();
        let ghost s0 = *self;
        self.module_attrs(inp, m, &scope, &ctx, &mut clocks, &mut paths);
        let ghost s1 = *self;
        self.body(inp, m, &scope, &ctx, &clocks, &mut bridges, &mut paths, &mut visiting);
        assert forall|i: int| 0 <= i < s0.errors@.len() implies #[trigger] self.errors@[i]
            == s0.errors@[i] by {
            assert(s1.errors@[i] == s0.errors@[i]);
        }
        proof {
            lemma_attr_errors_kept(inp.exprs@, m.attrs@, s1.errors@, self.errors@);
        }
        assert(hc == (clocks@.len() > 0));
        if clocks.len() == 0 {
            return None;
        }
        let groups = group_clocks(&clocks);
        Some(
            ModuleConstraints {
                module: m.name.clone(),
                clocks,
                groups,
                bridges,
                paths,
            },
        )
    }
}

/// The timing-constraint model of a file: the domain table, then each
/// module (a name seen before is skipped) taken as the top module.
/// Errors are reported once per span.
#[verifier::rlimit(30)]
pub fn collect_constraints(inp: &CInput) -> (r: ConstraintResult)
    requires
        inp.wf(),
    ensures
        distinct_spans(r.errors@),
        r.modules@.map_values(|mc: ModuleConstraints| mc.module@) == top_modules(inp.modules@, inp.modules@.len() as int),
        domain_errors_reported(*inp, r.errors@),
        forall|j: int| 0 <= j < inp.modules@.len() && first_occ(inp.modules@, j) ==> attr_errors_reported(
            inp.exprs@,
            (#[trigger] inp.modules@[j]).attrs@,
            r.errors@,
        ),
        forall|k: int| 0 <= k < r.modules@.len() ==> (#[trigger] r.modules@[k]).clocks@.len() > 0
            && crate::constraints::groups_view(r.modules@[k].groups@) == groups_spec_view(
            groups_of(r.modules@[k].clocks@),
        ),
{
    let mut c = Collector { domains: Vec::new(), errors: Vec::new() };
    c.collect_domains(inp);
    let mut modules: Vec<ModuleConstraints> = Vec::new();
    let mut seen: Vec<String> = Vec::new();
    let mut k: usize = 0;
    while k < inp.modules.len()
        invariant
            inp.wf(),
            c.inv(),
            k <= inp.modules@.len(),
            domain_errors_reported(*inp, c.errors@),
            forall|j: int| 0 <= j < k && first_occ(inp.modules@, j) ==> attr_errors_reported(
                inp.exprs@,
                (#[trigger] inp.modules@[j]).attrs@,
                c.errors@,
            ),
            forall|x: Seq<char>| has_name(seen@, x) == exists|j: int| 0 <= j < k && (#[trigger] inp.modules@[j]).name@ == x,
            modules@.map_values(|mc: ModuleConstraints| mc.module@) == top_modules(inp.modules@, k as int),
            forall|j: int| 0 <= j < modules@.len() ==> (#[trigger] modules@[j]).clocks@.len() > 0
                && crate::constraints::groups_view(modules@[j].groups@) == groups_spec_view(
                groups_of(modules@[j].clocks@),
            ),
        decreases inp.modules@.len() - k,
    {
        let m = &inp.modules[k];
        assert(inp.module_ok(inp.modules@[k as int]));
        let ghost mv0 = modules@.map_values(|mc: ModuleConstraints| mc.module@);
        let ghost e0 = c.errors@;
        let ghost seen0 = seen@;
        let fresh = !contains_name(&seen, m.name.as_str());
        proof {
            assert(fresh == first_occ(inp.modules@, k as int)) by {
                if !fresh {
                    let j = choose|j: int| 0 <= j < k && (#[trigger] inp.modules@[j]).name@ == m.name@;
                }
            }
        }
        if fresh {
            seen.push(m.name.clone());
            let ghost c0 = c;
            match c.collect_module(inp, m) {
                Some(mc) => {
                    modules.push(mc);
                    assert(modules@.map_values(|mc: ModuleConstraints| mc.module@) =~= mv0.push(m.name@));
                },
                None => {
                    assert(modules@.map_values(|mc: ModuleConstraints| mc.module@) =~= mv0);
                },
            }
            proof {
                lemma_reported_kept(*inp, e0, c.errors@);
                assert forall|j: int| 0 <= j < k + 1 && first_occ(inp.modules@, j) implies attr_errors_reported(
                    inp.exprs@,
                    (#[trigger] inp.modules@[j]).attrs@,
                    c.errors@,
                ) by {
                    if j < k {
                        lemma_attr_errors_kept(inp.exprs@, inp.modules@[j].attrs@, e0, c.errors@);
                    }
                }
                assert forall|x: Seq<char>| has_name(seen@, x) == exists|j: int| 0 <= j < k + 1 && (#[trigger] inp.modules@[j]).name@ == x by {
                    if has_name(seen@, x) {
                        let i = choose|i: int| 0 <= i < seen@.len() && (#[trigger] seen@[i])@ == x;
                        if i < seen0.len() {
                            assert(seen0[i] == seen@[i]);
                            assert(has_name(seen0, x));
                        }
                    }
                    if exists|j: int| 0 <= j < k + 1 && (#[trigger] inp.modules@[j]).name@ == x {
                        let j = choose|j: int| 0 <= j < k + 1 && (#[trigger] inp.modules@[j]).name@ == x;
                        if j < k {
                            assert(has_name(seen0, x));
                            let i = choose|i: int| 0 <= i < seen0.len() && (#[trigger] seen0[i])@ == x;
                            assert(seen@[i] == seen0[i]);
                        } else {
                            assert(seen@[seen0.len() as int]@ == x);
                        }
                    }
                }
            }
        } else {
            proof {
                assert forall|x: Seq<char>| has_name(seen@, x) == exists|j: int| 0 <= j < k + 1 && (#[trigger] inp.modules@[j]).name@ == x by {
                    if exists|j: int| 0 <= j < k + 1 && (#[trigger] inp.modules@[j]).name@ == x {
                        let j = choose|j: int| 0 <= j < k + 1 && (#[trigger] inp.modules@[j]).name@ == x;
                        if j == k {
                            assert(has_name(seen@, m.name@));
                        } else {
                            assert(exists|jj: int| 0 <= jj < k && (#[trigger] inp.modules@[jj]).name@ == x);
                        }
                    }
                }
            }
        }
        k = k + 1;
    }
    ConstraintResult { modules, errors: c.errors }
}

/// The E0017 findings alone, for callers that need no constraint model.
pub fn check_constraints(inp: &CInput) -> (r: Vec<ConstraintError>)
    requires
        inp.wf(),
    ensures
        distinct_spans(r@),
        domain_errors_reported(*inp, r@),
        forall|j: int| 0 <= j < inp.modules@.len() && first_occ(inp.modules@, j) ==> attr_errors_reported(
            inp.exprs@,
            (#[trigger] inp.modules@[j]).attrs@,
            r@,
        ),
{
    collect_constraints(inp).errors
}

} // verus!
