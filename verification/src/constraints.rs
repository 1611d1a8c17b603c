//! The tool-independent timing-constraint model: clock ports with their
//! frequencies, asynchronous clock groups, CDC bridges and user path
//! rules. Text generation (`.sdc` / `.xdc`) lives elsewhere; this module
//! carries meaning only.

use vstd::prelude::*;

use crate::ast::{ClockEdge, Span};
use crate::text::eq_str;
use crate::timing::PathKind;

verus! {

/// Picoseconds in one second.
pub const PS_PER_SECOND: u64 = 1_000_000_000_000;

/// An endpoint of a constraint: the name in the generated SystemVerilog
/// (hierarchical prefix included).
#[derive(Clone, Debug)]
pub enum Target {
    /// Module port (`get_ports`).
    Port(String),
    /// Register (`get_cells {name_reg*}`).
    Cells(String),
    /// Port of a sub-module instance (`get_pins {inst/port}`).
    Pin(String),
    /// Named clock (`get_clocks`).
    Clock(String),
}

impl Target {
    pub open spec fn name_spec(&self) -> Seq<char> {
        match self {
            Target::Port(n) => n@,
            Target::Cells(n) => n@,
            Target::Pin(n) => n@,
            Target::Clock(n) => n@,
        }
    }

    /// The endpoint's name, whatever its kind.
    pub fn name(&self) -> (r: &str)
        ensures
            r@ == self.name_spec(),
    {
        match self {
            Target::Port(n) => n.as_str(),
            Target::Cells(n) => n.as_str(),
            Target::Pin(n) => n.as_str(),
            Target::Clock(n) => n.as_str(),
        }
    }
}

/// Where a clock's frequency comes from.
#[derive(Clone, Copy, PartialEq, Eq, Debug, Structural)]
pub enum FreqSource {
    /// `domain D { frequency = ... }`
    Domain,
    /// `@timing(clk = F)` or `@timing(clk >= F)` (no domain frequency).
    Timing,
}

/// A clock port of a module and what is known of its timing.
#[derive(Clone, Debug)]
pub struct ClockConstraint {
    /// Clock port name (`create_clock -name` and `get_ports`).
    pub port: String,
    /// Domain name: the `@Name` annotation, or the port's own name.
    pub domain: String,
    pub edge: ClockEdge,
    /// Hz, from the domain's `frequency` or `@timing`.
    pub freq_hz: Option<u64>,
    pub freq_source: Option<FreqSource>,
    /// The port declaration.
    pub span: Span,
    /// The name of an explicit domain declaration (W0022 anchors there).
    pub domain_span: Option<Span>,
}

/// Clock period in picoseconds, rounded to nearest, for a positive
/// frequency.
pub open spec fn period_ps_spec(freq_hz: Option<u64>) -> Option<u64> {
    match freq_hz {
        Some(f) => if f > 0 {
            Some((((PS_PER_SECOND as int) * 2 / (f as int) + 1) / 2) as u64)
        } else {
            None
        },
        None => None,
    }
}

impl ClockConstraint {
    /// Period in picoseconds (rounded to nearest); `None` without a
    /// positive frequency.
    pub fn period_ps(&self) -> (r: Option<u64>)
        ensures
            r == period_ps_spec(self.freq_hz),
    {
        match self.freq_hz {
            Some(f) => {
                if f > 0 {
                    let x: u64 = 2_000_000_000_000u64 / f;
                    Some(x / 2 + x % 2)
                } else {
                    None
                }
            },
            None => None,
        }
    }
}

/// One path constraint (`set_false_path`, `set_max_delay`, ...).
#[derive(Clone, Debug)]
pub struct PathRule {
    pub kind: PathKind,
    pub from: Option<Target>,
    pub to: Option<Target>,
    /// Source description, written as a comment.
    pub comment: String,
}

/// A generated CDC bridge (`sync()`, `AsyncFifo`, ...).
#[derive(Clone, Debug)]
pub struct Bridge {
    /// Short kind name: `sync`, `sync3`, `AsyncFifo`, ...
    pub kind: String,
    /// Base name in the generated SystemVerilog.
    pub name: String,
    pub from_clock: Option<String>,
    pub to_clock: Option<String>,
    pub rules: Vec<PathRule>,
    /// Synchronizer chain registers (hierarchical, without `_reg`).
    pub async_regs: Vec<String>,
}

/// All constraints of one module (taken as the top module).
#[derive(Clone, Debug)]
pub struct ModuleConstraints {
    pub module: String,
    pub clocks: Vec<ClockConstraint>,
    /// Asynchronous clock groups: one per domain, the clock port names.
    pub groups: Vec<Vec<String>>,
    pub bridges: Vec<Bridge>,
    /// User attributes, in source order.
    pub paths: Vec<PathRule>,
}

/// `port` names a clock of `clocks` whose frequency is known.
pub open spec fn is_defined_clock(clocks: Seq<ClockConstraint>, port: Seq<char>) -> bool {
    exists|c: int| 0 <= c < clocks.len() && clocks[c].port@ == port && clocks[c].freq_hz is Some
}

/// The defined clocks of a group, in order.
pub open spec fn defined_in_group(clocks: Seq<ClockConstraint>, g: Seq<Seq<char>>) -> Seq<Seq<char>>
    decreases g.len(),
{
    if g.len() == 0 {
        Seq::empty()
    } else {
        let rest = defined_in_group(clocks, g.drop_last());
        if is_defined_clock(clocks, g.last()) {
            rest.push(g.last())
        } else {
            rest
        }
    }
}

/// The groups that keep at least one defined clock, in order.
pub open spec fn nonempty_groups(clocks: Seq<ClockConstraint>, gs: Seq<Seq<Seq<char>>>) -> Seq<
    Seq<Seq<char>>,
>
    decreases gs.len(),
{
    if gs.len() == 0 {
        Seq::empty()
    } else {
        let rest = nonempty_groups(clocks, gs.drop_last());
        let g = defined_in_group(clocks, gs.last());
        if g.len() > 0 {
            rest.push(g)
        } else {
            rest
        }
    }
}

pub open spec fn groups_view(gs: Seq<Vec<String>>) -> Seq<Seq<Seq<char>>> {
    gs.map_values(|g: Vec<String>| g@.map_values(|s: String| s@))
}

pub open spec fn async_groups_spec(clocks: Seq<ClockConstraint>, gs: Seq<Seq<Seq<char>>>) -> Seq<
    Seq<Seq<char>>,
> {
    let kept = nonempty_groups(clocks, gs);
    if kept.len() < 2 {
        Seq::empty()
    } else {
        kept
    }
}

impl ModuleConstraints {
    fn is_defined(&self, port: &String) -> (r: bool)
        ensures
            r == is_defined_clock(self.clocks@, port@),
    {
        let mut i: usize = 0;
        while i < self.clocks.len()
            invariant
                i <= self.clocks@.len(),
                forall|c: int|
                    0 <= c < i ==> !(self.clocks@[c].port@ == port@ && self.clocks@[c].freq_hz is Some),
            decreases self.clocks@.len() - i,
        {
            if self.clocks[i].freq_hz.is_some() && eq_str(self.clocks[i].port.as_str(), port.as_str()) {
                return true;
            }
            i = i + 1;
        }
        false
    }

    /// Indices of the clock ports whose frequency is known (only these
    /// get a `create_clock`).
    pub fn defined_clocks(&self) -> (r: Vec<usize>)
        ensures
            forall|k: int| 0 <= k < r@.len() ==> (#[trigger] r@[k]) < self.clocks@.len(),
            forall|k: int|
                0 <= k < r@.len() ==> self.clocks@[#[trigger] r@[k] as int].freq_hz is Some,
            forall|c: int|
                0 <= c < self.clocks@.len() && self.clocks@[c].freq_hz is Some ==> r@.contains(
                    c as usize,
                ),
            forall|a: int, b: int| 0 <= a < b < r@.len() ==> r@[a] < r@[b],
    {
        let mut r: Vec<usize> = Vec::new();
        let mut i: usize = 0;
        while i < self.clocks.len()
            invariant
                i <= self.clocks@.len(),
                forall|k: int| 0 <= k < r@.len() ==> (#[trigger] r@[k]) < i,
                forall|k: int|
                    0 <= k < r@.len() ==> self.clocks@[#[trigger] r@[k] as int].freq_hz is Some,
                forall|c: int|
                    0 <= c < i && self.clocks@[c].freq_hz is Some ==> r@.contains(c as usize),
                forall|a: int, b: int| 0 <= a < b < r@.len() ==> r@[a] < r@[b],
            decreases self.clocks@.len() - i,
        {
            let ghost old_r = r@;
            if self.clocks[i].freq_hz.is_some() {
                r.push(i);
                assert(r@[r@.len() - 1] == i);
            }
            assert forall|c: int|
                0 <= c < i + 1 && self.clocks@[c].freq_hz is Some implies r@.contains(c as usize) by {
                if c < i {
                    let k = choose|k: int| 0 <= k < old_r.len() && old_r[k] == c as usize;
                    assert(r@[k] == c as usize);
                } else {
                    assert(r@[r@.len() - 1] == c as usize);
                }
            }
            i = i + 1;
        }
        r
    }

    /// The groups for `set_clock_groups`: each group keeps its clocks
    /// with a known frequency, empty groups are dropped, and fewer than
    /// two remaining groups means none at all.
    pub fn async_groups(&self) -> (r: Vec<Vec<String>>)
        ensures
            groups_view(r@) == async_groups_spec(self.clocks@, groups_view(self.groups@)),
    {
        let mut out: Vec<Vec<String>> = Vec::new();
        let mut gi: usize = 0;
        let ghost gv = groups_view(self.groups@);
        while gi < self.groups.len()
            invariant
                gi <= self.groups@.len(),
                gv == groups_view(self.groups@),
                groups_view(out@) == nonempty_groups(self.clocks@, gv.subrange(0, gi as int)),
            decreases self.groups@.len() - gi,
        {
            let g = &self.groups[gi];
            let ghost gseq = gv[gi as int];
            assert(gseq == g@.map_values(|s: String| s@));
            let mut kept: Vec<String> = Vec::new();
            let mut pi: usize = 0;
            while pi < g.len()
                invariant
                    pi <= g@.len(),
                    gseq == g@.map_values(|s: String| s@),
                    kept@.map_values(|s: String| s@) == defined_in_group(
                        self.clocks@,
                        gseq.subrange(0, pi as int),
                    ),
                decreases g@.len() - pi,
            {
                let p = &g[pi];
                assert(gseq.subrange(0, pi as int + 1).drop_last() =~= gseq.subrange(0, pi as int));
                if self.is_defined(p) {
                    kept.push(p.clone());
                }
                assert(kept@.map_values(|s: String| s@) =~= defined_in_group(
                    self.clocks@,
                    gseq.subrange(0, pi as int + 1),
                ));
                pi = pi + 1;
            }
            assert(gseq.subrange(0, g@.len() as int) =~= gseq);
            assert(gv.subrange(0, gi as int + 1).drop_last() =~= gv.subrange(0, gi as int));
            if kept.len() > 0 {
                out.push(kept);
            }
            assert(groups_view(out@) =~= nonempty_groups(self.clocks@, gv.subrange(0, gi as int + 1)));
            gi = gi + 1;
        }
        assert(gv.subrange(0, self.groups@.len() as int) =~= gv);
        if out.len() < 2 {
            Vec::new()
        } else {
            out
        }
    }
}

/// The W0022 anchor of a clock: its domain declaration if explicit,
/// otherwise the port declaration.
pub open spec fn anchor(c: ClockConstraint) -> Span {
    match c.domain_span {
        Some(s) => s,
        None => c.span,
    }
}

pub open spec fn lex_lt(a: (usize, usize), b: (usize, usize)) -> bool {
    a.0 < b.0 || (a.0 == b.0 && a.1 < b.1)
}

/// Output of the constraint collection.
#[derive(Clone, Debug)]
pub struct ConstraintResult {
    /// One entry per module with at least one clock port (source order).
    pub modules: Vec<ModuleConstraints>,
    /// E0017 errors — always reported.
    pub errors: Vec<crate::timing::ConstraintError>,
}

impl ConstraintResult {
    /// The clocks that get a W0022 warning (frequency unknown), as
    /// (module, clock) indices: one per anchor (domain declaration, or
    /// unannotated clock port), at its first occurrence.
    pub fn missing_frequency_warnings(&self) -> (r: Vec<(usize, usize)>)
        ensures
            forall|k: int|
                0 <= k < r@.len() ==> {
                    &&& (#[trigger] r@[k]).0 < self.modules@.len()
                    &&& r@[k].1 < self.modules@[r@[k].0 as int].clocks@.len()
                    &&& self.modules@[r@[k].0 as int].clocks@[r@[k].1 as int].freq_hz is None
                },
            forall|a: int, b: int| 0 <= a < b < r@.len() ==> lex_lt(r@[a], r@[b]),
            forall|a: int, b: int|
                0 <= a < b < r@.len() ==> anchor(self.modules@[r@[a].0 as int].clocks@[r@[a].1 as int])
                    != anchor(self.modules@[r@[b].0 as int].clocks@[r@[b].1 as int]),
            forall|m: int, c: int|
                0 <= m < self.modules@.len() && 0 <= c < self.modules@[m].clocks@.len()
                    && self.modules@[m].clocks@[c].freq_hz is None ==> exists|k: int|
                    0 <= k < r@.len() && !lex_lt((m as usize, c as usize), #[trigger] r@[k])
                        && anchor(self.modules@[r@[k].0 as int].clocks@[r@[k].1 as int])
                        == anchor(self.modules@[m].clocks@[c]),
    {
        let mut out: Vec<(usize, usize)> = Vec::new();
        let mut seen: Vec<Span> = Vec::new();
        let mut m: usize = 0;
        while m < self.modules.len()
            invariant
                m <= self.modules@.len(),
                seen@.len() == out@.len(),
                forall|k: int|
                    0 <= k < out@.len() ==> {
                        &&& (#[trigger] out@[k]).0 < m
                        &&& out@[k].1 < self.modules@[out@[k].0 as int].clocks@.len()
                        &&& self.modules@[out@[k].0 as int].clocks@[out@[k].1 as int].freq_hz is None
                        &&& seen@[k] == anchor(self.modules@[out@[k].0 as int].clocks@[out@[k].1 as int])
                    },
                forall|a: int, b: int| 0 <= a < b < out@.len() ==> lex_lt(out@[a], out@[b]),
                forall|a: int, b: int| 0 <= a < b < seen@.len() ==> seen@[a] != seen@[b],
                forall|mm: int, c: int|
                    0 <= mm < m && 0 <= c < self.modules@[mm].clocks@.len()
                        && self.modules@[mm].clocks@[c].freq_hz is None ==> exists|k: int|
                        0 <= k < out@.len() && !lex_lt((mm as usize, c as usize), #[trigger] out@[k])
                            && seen@[k] == anchor(self.modules@[mm].clocks@[c]),
            decreases self.modules@.len() - m,
        {
            let clocks = &self.modules[m].clocks;
            let mut c: usize = 0;
            while c < clocks.len()
                invariant
                    m < self.modules@.len(),
                    clocks == &self.modules@[m as int].clocks,
                    c <= clocks@.len(),
                    seen@.len() == out@.len(),
                    forall|k: int|
                        0 <= k < out@.len() ==> {
                            &&& (#[trigger] out@[k]).0 <= m
                            &&& (out@[k].0 == m ==> out@[k].1 < c)
                            &&& out@[k].1 < self.modules@[out@[k].0 as int].clocks@.len()
                            &&& self.modules@[out@[k].0 as int].clocks@[out@[k].1 as int].freq_hz is None
                            &&& seen@[k] == anchor(self.modules@[out@[k].0 as int].clocks@[out@[k].1 as int])
                        },
                    forall|a: int, b: int| 0 <= a < b < out@.len() ==> lex_lt(out@[a], out@[b]),
                    forall|a: int, b: int| 0 <= a < b < seen@.len() ==> seen@[a] != seen@[b],
                    forall|mm: int, cc: int|
                        0 <= mm < self.modules@.len() && 0 <= cc < self.modules@[mm].clocks@.len()
                            && (mm < m || (mm == m && cc < c))
                            && self.modules@[mm].clocks@[cc].freq_hz is None ==> exists|k: int|
                            0 <= k < out@.len() && !lex_lt((mm as usize, cc as usize), #[trigger] out@[k])
                                && seen@[k] == anchor(self.modules@[mm].clocks@[cc]),
                decreases clocks@.len() - c,
            {
                let clk = &clocks[c];
                if clk.freq_hz.is_none() {
                    let a = match clk.domain_span {
                        Some(s) => s,
                        None => clk.span,
                    };
                    let mut found = false;
                    let mut j: usize = 0;
                    while j < seen.len()
                        invariant
                            j <= seen@.len(),
                            !found ==> forall|q: int| 0 <= q < j ==> seen@[q] != a,
                            found ==> exists|q: int| 0 <= q < seen@.len() && seen@[q] == a,
                        decreases seen@.len() - j,
                    {
                        if seen[j] == a {
                            found = true;
                        }
                        j = j + 1;
                    }
                    if !found {
                        let ghost old_out = out@;
                        out.push((m, c));
                        seen.push(a);
                        assert forall|mm: int, cc: int|
                            0 <= mm < self.modules@.len() && 0 <= cc < self.modules@[mm].clocks@.len()
                                && (mm < m || (mm == m && cc < c + 1))
                                && self.modules@[mm].clocks@[cc].freq_hz is None implies exists|k: int|
                                0 <= k < out@.len() && !lex_lt((mm as usize, cc as usize), #[trigger] out@[k])
                                    && seen@[k] == anchor(self.modules@[mm].clocks@[cc]) by {
                            if mm == m && cc == c {
                                assert(out@[out@.len() - 1] == (m, c));
                            } else {
                                let k = choose|k: int|
                                    0 <= k < old_out.len() && !lex_lt((mm as usize, cc as usize), #[trigger] old_out[k])
                                        && seen@[k] == anchor(self.modules@[mm].clocks@[cc]);
                                assert(out@[k] == old_out[k]);
                            }
                        }
                    } else {
                        assert forall|mm: int, cc: int|
                            0 <= mm < self.modules@.len() && 0 <= cc < self.modules@[mm].clocks@.len()
                                && (mm < m || (mm == m && cc < c + 1))
                                && self.modules@[mm].clocks@[cc].freq_hz is None implies exists|k: int|
                                0 <= k < out@.len() && !lex_lt((mm as usize, cc as usize), #[trigger] out@[k])
                                    && seen@[k] == anchor(self.modules@[mm].clocks@[cc]) by {
                            if mm == m && cc == c {
                                let q = choose|q: int| 0 <= q < seen@.len() && seen@[q] == a;
                                assert(!lex_lt((mm as usize, cc as usize), out@[q]));
                            }
                        }
                    }
                }
                c = c + 1;
            }
            m = m + 1;
        }
        out
    }
}

/// Mapping of a sub-module's clock names onto the instantiating module's
/// clocks; `None` at the top level (names map to themselves).
#[derive(Clone, Debug)]
pub struct Ctx {
    /// Hierarchical prefix of the instance being walked (`u/`), empty at
    /// the top.
    pub prefix: String,
    pub clock_map: Option<Vec<(String, String)>>,
    /// Instance nesting depth.
    pub depth: usize,
}

/// The first entry of `map` for key `local`.
pub open spec fn lookup(map: Seq<(String, String)>, local: Seq<char>) -> Option<Seq<char>>
    decreases map.len(),
{
    if map.len() == 0 {
        None
    } else if map[0].0@ == local {
        Some(map[0].1@)
    } else {
        lookup(map.drop_first(), local)
    }
}

/// No two entries of `map` share a key.
pub open spec fn keys_unique(map: Seq<(String, String)>) -> bool {
    forall|i: int, j: int| 0 <= i < j < map.len() ==> (#[trigger] map[i]).0@ != (#[trigger] map[j]).0@
}

/// `lookup` finds the first entry with the key, and nothing where there
/// is none.
pub proof fn lemma_lookup_index(map: Seq<(String, String)>, local: Seq<char>)
    ensures
        lookup(map, local) is None <==> forall|i: int| 0 <= i < map.len() ==> (#[trigger] map[i]).0@ != local,
        lookup(map, local) matches Some(v) ==> exists|i: int|
            0 <= i < map.len() && (#[trigger] map[i]).0@ == local && map[i].1@ == v,
    decreases map.len(),
{
    if map.len() > 0 {
        lemma_lookup_index(map.drop_first(), local);
        if map[0].0@ != local {
            assert forall|i: int| 0 < i < map.len() implies map[i] == #[trigger] map.drop_first()[i - 1] by {
            }
            if lookup(map, local) is None {
                assert forall|i: int| 0 <= i < map.len() implies (#[trigger] map[i]).0@ != local by {
                    if i > 0 {
                        assert(map[i] == map.drop_first()[i - 1]);
                    }
                }
            } else {
                let v = lookup(map, local).unwrap();
                let k = choose|k: int| 0 <= k < map.drop_first().len() && (#[trigger] map.drop_first()[k]).0@ == local
                    && map.drop_first()[k].1@ == v;
                assert(map[k + 1] == map.drop_first()[k]);
            }
        }
    }
}

/// With unique keys, the entry at `i` is what `lookup` finds for its key.
pub proof fn lemma_lookup_unique(map: Seq<(String, String)>, i: int)
    requires
        keys_unique(map),
        0 <= i < map.len(),
    ensures
        lookup(map, map[i].0@) == Some(map[i].1@),
{
    lemma_lookup_index(map, map[i].0@);
    match lookup(map, map[i].0@) {
        Some(v) => {
            let k = choose|k: int| 0 <= k < map.len() && (#[trigger] map[k]).0@ == map[i].0@ && map[k].1@ == v;
            if k < i {
                assert(map[k].0@ != map[i].0@);
            } else if k > i {
                assert(map[i].0@ != map[k].0@);
            }
        },
        None => {
            assert(map[i].0@ != map[i].0@);
        },
    }
}

/// Sets `key` to `value` in a map of unique keys: an entry with the key
/// gets the new value, else one is added at the end.
pub fn map_insert(map: &mut Vec<(String, String)>, key: String, value: String)
    requires
        keys_unique(old(map)@),
    ensures
        keys_unique(final(map)@),
        lookup(final(map)@, key@) == Some(value@),
        forall|o: Seq<char>| o != key@ ==> lookup(final(map)@, o) == lookup(old(map)@, o),
{
    let mut i: usize = 0;
    while i < map.len() && !crate::text::eq_str(map[i].0.as_str(), key.as_str())
        invariant
            i <= map@.len(),
            forall|j: int| 0 <= j < i ==> (#[trigger] map@[j]).0@ != key@,
        decreases map@.len() - i,
    {
        i = i + 1;
    }
    let ghost m0 = map@;
    if i < map.len() {
        map.set(i, (key, value));
    } else {
        map.push((key, value));
    }
    proof {
        let m1 = map@;
        assert(keys_unique(m1)) by {
            assert forall|a: int, b: int| 0 <= a < b < m1.len() implies (#[trigger] m1[a]).0@ != (#[trigger] m1[b]).0@ by {
                if a != i && b != i {
                    assert(m1[a] == m0[a] && m1[b] == m0[b]);
                } else if a == i {
                    assert(m1[b] == m0[b]);
                } else {
                    assert(m1[a] == m0[a]);
                }
            }
        }
        lemma_lookup_unique(m1, i as int);
        assert forall|o: Seq<char>| o != key@ implies lookup(m1, o) == lookup(m0, o) by {
            lemma_lookup_index(m1, o);
            lemma_lookup_index(m0, o);
            match lookup(m0, o) {
                Some(v) => {
                    let k = choose|k: int| 0 <= k < m0.len() && (#[trigger] m0[k]).0@ == o && m0[k].1@ == v;
                    assert(k != i);
                    assert(m1[k] == m0[k]);
                    lemma_lookup_unique(m1, k);
                },
                None => {
                    assert forall|k: int| 0 <= k < m1.len() implies (#[trigger] m1[k]).0@ != o by {
                        if k != i {
                            assert(m1[k] == m0[k]);
                        }
                    }
                },
            }
        }
    }
}

impl Ctx {
    /// The clock map, where there is one, has one entry per local clock.
    pub open spec fn wf(&self) -> bool {
        self.clock_map matches Some(m) ==> keys_unique(m@)
    }

    pub open spec fn map_clock_spec(&self, local: Seq<char>) -> Option<Seq<char>> {
        match self.clock_map {
            None => Some(local),
            Some(m) => lookup(m@, local),
        }
    }

    /// The top-level clock a sub-module's local clock is bound to.
    pub fn map_clock(&self, local: &str) -> (r: Option<String>)
        ensures
            match self.map_clock_spec(local@) {
                Some(s) => r matches Some(t) && t@ == s,
                None => r is None,
            },
    {
        match &self.clock_map {
            None => Some(crate::text::string_of(crate::text::chars_of(local).as_slice())),
            Some(map) => {
                let mut i: usize = 0;
                assert(map@.subrange(0, map@.len() as int) =~= map@);
                while i < map.len()
                    invariant
                        self.clock_map == Some(*map),
                        i <= map@.len(),
                        lookup(map@, local@) == lookup(map@.subrange(i as int, map@.len() as int), local@),
                    decreases map@.len() - i,
                {
                    assert(map@.subrange(i as int, map@.len() as int).drop_first() =~= map@.subrange(
                        i as int + 1,
                        map@.len() as int,
                    ));
                    assert(map@.subrange(i as int, map@.len() as int)[0] == map@[i as int]);
                    if eq_str(map[i].0.as_str(), local) {
                        let ghost sub = map@.subrange(i as int, map@.len() as int);
                        assert(sub.len() > 0);
                        assert(lookup(sub, local@) == Some(map@[i as int].1@));
                        let v = map[i].1.clone();
                        assert(v@ == map@[i as int].1@);
                        return Some(v);
                    }
                    i = i + 1;
                }
                None
            },
        }
    }
}

} // verus!
