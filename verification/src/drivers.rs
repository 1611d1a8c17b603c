//! Driver analysis: which sources drive each signal.
//!
//! Assignments inside one `on`/`comb` block count as a single driver;
//! every module-level continuous assignment is a driver of its own. The
//! double-driver check covers every kind of driver — assignment, `let`
//! initializer, the parent driving an input port, and a line shared with
//! a sub-module's inout/opendrain port. Partial (bit/range/element)
//! targets carry a bit range; drivers of two different groups conflict
//! only when their ranges intersect. A range unknown at compile time
//! drives the whole signal.

use vstd::prelude::*;

use crate::ast::Span;
use crate::defs::{DefKind, PortDir};
use crate::text::chars_of;

verus! {

/// The kind of source driving a signal.
#[derive(Clone, Debug)]
pub enum DriverKind {
    /// `=` / `<=` assignment (module level, `comb` or `on`).
    Assign,
    /// `let v = e` — the initializer is a continuous driver.
    LetInit,
    /// Input port: the parent module drives it.
    ParentInput,
    /// Line shared with a sub-module's inout/opendrain port: a tri-state
    /// driver, compatible with other shared lines only.
    SharedLine { instance: String, port: String },
}

impl DriverKind {
    pub open spec fn is_assign(&self) -> bool {
        self matches DriverKind::Assign
    }

    pub open spec fn is_shared(&self) -> bool {
        self matches DriverKind::SharedLine { .. }
    }
}

/// One recorded driver of a signal.
#[derive(Clone, Debug)]
pub struct DriverRecord {
    pub span: Span,
    /// Drivers of one group (one `on`/`comb` block) are a single driver.
    pub group: u32,
    pub kind: DriverKind,
    /// Driven bits `[lo, hi)`; `None` is the whole signal (or a range
    /// unknown at compile time).
    pub bits: Option<(u32, u32)>,
    /// Bit/range/element target.
    pub partial: bool,
    /// Dotted path of a struct-field target (`a`, `i.x`).
    pub field: Option<String>,
}

/// A known bit range is `[lo, hi)` with `lo <= hi`.
pub open spec fn bits_ok(r: DriverRecord) -> bool {
    match r.bits {
        Some((lo, hi)) => lo <= hi,
        None => true,
    }
}

/// The two bit ranges intersect (an unknown range is everything).
pub open spec fn overlaps_spec(a: Option<(u32, u32)>, b: Option<(u32, u32)>) -> bool {
    match (a, b) {
        (Some((a_lo, a_hi)), Some((b_lo, b_hi))) => a_lo < b_hi && b_lo < a_hi,
        _ => true,
    }
}

/// Two records drive the same hardware bit from two separate sources.
pub open spec fn conflicts_spec(a: DriverRecord, b: DriverRecord) -> bool {
    a.group != b.group && !(a.kind.is_shared() && b.kind.is_shared()) && overlaps_spec(a.bits, b.bits)
}

impl DriverRecord {
    pub fn overlaps(&self, other: &DriverRecord) -> (r: bool)
        ensures
            r == overlaps_spec(self.bits, other.bits),
    {
        match (self.bits, other.bits) {
            (Some((a_lo, a_hi)), Some((b_lo, b_hi))) => a_lo < b_hi && b_lo < a_hi,
            _ => true,
        }
    }

    /// Do the two records drive the same bit from two separate sources?
    pub fn conflicts_with(&self, other: &DriverRecord) -> (r: bool)
        ensures
            r == conflicts_spec(*self, *other),
    {
        let a_shared = match self.kind {
            DriverKind::SharedLine { .. } => true,
            _ => false,
        };
        let b_shared = match other.kind {
            DriverKind::SharedLine { .. } => true,
            _ => false,
        };
        self.group != other.group && !(a_shared && b_shared) && self.overlaps(other)
    }
}

/// Coverage information of a signal driven piece by piece: storage width
/// and, for a struct, its leaves (dotted path, LSB, width).
#[derive(Clone, Debug)]
pub struct Coverage {
    pub width: u32,
    pub leaves: Option<Vec<(String, u32, u32)>>,
}

/// Signal -> the sources driving it. Entries are kept in increasing
/// definition order, one entry per signal.
#[derive(Clone, Debug)]
pub struct DriverTable {
    drivers: Vec<(u32, Vec<DriverRecord>)>,
}

/// The records of `def` in a table.
pub open spec fn records_in(entries: Seq<(u32, Vec<DriverRecord>)>, def: u32) -> Seq<DriverRecord>
    decreases entries.len(),
{
    if entries.len() == 0 {
        Seq::empty()
    } else if entries.last().0 == def {
        entries.last().1@
    } else {
        records_in(entries.drop_last(), def)
    }
}

pub open spec fn keys_increasing(entries: Seq<(u32, Vec<DriverRecord>)>) -> bool {
    forall|a: int, b: int| 0 <= a < b < entries.len() ==> entries[a].0 < entries[b].0
}

/// The first conflicting pair of a signal's records: the earliest second
/// record that conflicts with some earlier one, and the earliest such
/// earlier one.
pub open spec fn is_first_conflict(rs: Seq<DriverRecord>, i: int, j: int) -> bool {
    &&& 0 <= i < j < rs.len()
    &&& conflicts_spec(rs[i], rs[j])
    &&& forall|a: int, b: int| 0 <= a < b < j ==> !conflicts_spec(rs[a], rs[b])
    &&& forall|a: int| 0 <= a < i ==> !conflicts_spec(rs[a], rs[j])
}

pub open spec fn has_conflict(rs: Seq<DriverRecord>) -> bool {
    exists|a: int, b: int| 0 <= a < b < rs.len() && conflicts_spec(rs[a], rs[b])
}

/// E4001 — a signal driven twice: its first conflicting pair, and the
/// struct field to name (the more specific of the two targets).
#[derive(Clone, Debug)]
pub struct DoubleDriver {
    pub def: u32,
    /// Index of the earlier record (secondary label).
    pub first: usize,
    /// Index of the later record (primary label).
    pub second: usize,
    pub field: Option<String>,
}

/// E4012 — a signal driven piece by piece with undriven bits.
#[derive(Clone, Debug)]
pub struct UndrivenPart {
    pub def: u32,
    pub gaps: Vec<(u32, u32)>,
}

/// E4002 — an output port that no assignment drives; `name` is its
/// source name (a bundle field by its path, `hs.data`), `span` the port
/// declaration.
#[derive(Clone, Debug)]
pub struct UndrivenOutput {
    pub name: String,
    pub span: Span,
}

impl UndrivenOutput {
    /// The diagnostic code.
    pub fn code(&self) -> (r: &'static str)
        ensures
            r@ == "E4002"@,
    {
        "E4002"
    }
}

/// A port of the module under check: direction, the definition it
/// declares (if resolved), its declaration span and its source name.
#[derive(Clone, Debug)]
pub struct OutputPort {
    pub dir: PortDir,
    pub def: Option<u32>,
    pub span: Span,
    pub name: String,
}

/// Number of `.`-separated segments of a dotted path.
pub open spec fn segment_count(s: Seq<char>) -> nat
    decreases s.len(),
{
    if s.len() == 0 {
        1
    } else {
        segment_count(s.drop_last()) + if s.last() == '.' {
            1nat
        } else {
            0nat
        }
    }
}

fn count_segments(s: &String) -> (n: usize)
    requires
        s@.len() < usize::MAX,
    ensures
        n == segment_count(s@),
{
    let cs = chars_of(s.as_str());
    let mut n: usize = 1;
    let mut i: usize = 0;
    while i < cs.len()
        invariant
            cs@ == s@,
            s@.len() < usize::MAX,
            i <= cs@.len(),
            n == segment_count(cs@.subrange(0, i as int)),
            n <= i + 1,
        decreases cs@.len() - i,
    {
        assert(cs@.subrange(0, i as int + 1).drop_last() =~= cs@.subrange(0, i as int));
        if cs[i] == '.' {
            n = n + 1;
        }
        i = i + 1;
    }
    assert(cs@.subrange(0, cs@.len() as int) =~= cs@);
    n
}

/// The field to name for a conflicting pair: of the two field paths the
/// one with more segments; on a tie the second.
pub open spec fn chosen_field(a: Option<String>, b: Option<String>) -> Option<Seq<char>> {
    match (a, b) {
        (Some(x), Some(y)) => if segment_count(x@) > segment_count(y@) {
            Some(x@)
        } else {
            Some(y@)
        },
        (Some(x), None) => Some(x@),
        (None, Some(y)) => Some(y@),
        (None, None) => None,
    }
}

// ── bit-range gaps ───────────────────────────────────────────────────
pub open spec fn covered(ranges: Seq<(u32, u32)>, p: int) -> bool {
    exists|r: int| 0 <= r < ranges.len() && (#[trigger] ranges[r]).0 <= p < ranges[r].1
}

pub open spec fn in_gaps(gs: Seq<(u32, u32)>, p: int) -> bool {
    exists|k: int| 0 <= k < gs.len() && (#[trigger] gs[k]).0 <= p < gs[k].1
}

pub open spec fn pair_le(a: (u32, u32), b: (u32, u32)) -> bool {
    a.0 < b.0 || (a.0 == b.0 && a.1 <= b.1)
}

pub open spec fn sorted_pairs(s: Seq<(u32, u32)>) -> bool {
    forall|a: int, b: int| 0 <= a < b < s.len() ==> pair_le(s[a], s[b])
}

proof fn lemma_insert_sorted(old: Seq<(u32, u32)>, pos: int, x: (u32, u32))
    requires
        sorted_pairs(old),
        0 <= pos <= old.len(),
        forall|k: int| 0 <= k < pos ==> pair_le(old[k], x),
        pos < old.len() ==> !pair_le(old[pos], x),
    ensures
        sorted_pairs(old.insert(pos, x)),
        forall|y: (u32, u32)| old.insert(pos, x).contains(y) <==> (old.contains(y) || y == x),
{
    old.insert_ensures(pos, x);
    let new = old.insert(pos, x);
    assert forall|a: int, b: int| 0 <= a < b < new.len() implies pair_le(new[a], new[b]) by {
        if b < pos {
        } else if b == pos {
        } else if a < pos {
            assert(pair_le(old[a], old[b - 1]));
        } else if a == pos {
            assert(pair_le(x, old[pos]));
            if pos < b - 1 {
                assert(pair_le(old[pos], old[b - 1]));
            }
        } else {
            assert(pair_le(old[a - 1], old[b - 1]));
        }
    }
    assert forall|y: (u32, u32)| new.contains(y) <==> (old.contains(y) || y == x) by {
        if new.contains(y) {
            let k = choose|k: int| 0 <= k < new.len() && new[k] == y;
            if k < pos {
                assert(old[k] == y);
            } else if k > pos {
                assert(old[k - 1] == y);
            }
        }
        if old.contains(y) {
            let k = choose|k: int| 0 <= k < old.len() && old[k] == y;
            if k < pos {
                assert(new[k] == y);
            } else {
                assert(new[k + 1] == y);
            }
        }
        if y == x {
            assert(new[pos] == y);
        }
    }
}

/// The ranges in lexicographic order (insertion sort).
fn sort_ranges(ranges: &[(u32, u32)]) -> (out: Vec<(u32, u32)>)
    ensures
        sorted_pairs(out@),
        out@.len() == ranges@.len(),
        forall|x: (u32, u32)| out@.contains(x) <==> ranges@.contains(x),
        out@.to_multiset() == ranges@.to_multiset(),
{
    let mut out: Vec<(u32, u32)> = Vec::new();
    broadcast use vstd::seq_lib::group_to_multiset_ensures;
    assert(out@.to_multiset() =~= ranges@.subrange(0, 0).to_multiset());
    let mut i: usize = 0;
    while i < ranges.len()
        invariant
            i <= ranges@.len(),
            out@.len() == i,
            sorted_pairs(out@),
            forall|x: (u32, u32)| out@.contains(x) <==> ranges@.subrange(0, i as int).contains(x),
            out@.to_multiset() == ranges@.subrange(0, i as int).to_multiset(),
        decreases ranges@.len() - i,
    {
        let x = ranges[i];
        let mut pos: usize = 0;
        while pos < out.len() && (out[pos].0 < x.0 || (out[pos].0 == x.0 && out[pos].1 <= x.1))
            invariant
                pos <= out@.len(),
                forall|k: int| 0 <= k < pos ==> pair_le(out@[k], x),
            decreases out@.len() - pos,
        {
            pos = pos + 1;
        }
        let ghost old_out = out@;
        proof {
            if pos < old_out.len() {
                assert(!pair_le(old_out[pos as int], x));
            }
            lemma_insert_sorted(old_out, pos as int, x);
            let pre = ranges@.subrange(0, i as int);
            let now = ranges@.subrange(0, i as int + 1);
            assert(now =~= pre.push(x));
            assert forall|y: (u32, u32)| now.contains(y) <==> (pre.contains(y) || y == x) by {
                if now.contains(y) && y != x {
                    let q = choose|q: int| 0 <= q < now.len() && now[q] == y;
                    assert(pre[q] == y);
                }
                if pre.contains(y) {
                    let q = choose|q: int| 0 <= q < pre.len() && pre[q] == y;
                    assert(now[q] == y);
                }
                if y == x {
                    assert(now[i as int] == y);
                }
            }
        }
        out.insert(pos, x);
        proof {
            let pre = ranges@.subrange(0, i as int);
            let now = ranges@.subrange(0, i as int + 1);
            assert forall|y: (u32, u32)| out@.contains(y) <==> now.contains(y) by {
                assert(old_out.contains(y) <==> pre.contains(y));
            }
            assert(now =~= pre.push(x));
            assert(out@.remove(pos as int) =~= old_out);
            assert(out@[pos as int] == x);
            out@.to_multiset_ensures();
            old_out.to_multiset_ensures();
            pre.to_multiset_ensures();
            assert(old_out.to_multiset() =~= out@.to_multiset().remove(x));
            assert(out@.to_multiset().count(x) > 0);
            assert(out@.to_multiset() =~= old_out.to_multiset().insert(x));
        }
        i = i + 1;
    }
    assert(ranges@.subrange(0, ranges@.len() as int) =~= ranges@);
    out
}

/// The regions `[lo, hi)` of `[0, width)` that no range covers, in
/// increasing order.
pub fn gaps(ranges: &mut Vec<(u32, u32)>, width: u32) -> (out: Vec<(u32, u32)>)
    ensures
        sorted_pairs(final(ranges)@),
        final(ranges)@.len() == old(ranges)@.len(),
        forall|x: (u32, u32)| final(ranges)@.contains(x) <==> old(ranges)@.contains(x),
        final(ranges)@.to_multiset() == old(ranges)@.to_multiset(),
        forall|k: int| 0 <= k < out@.len() ==> (#[trigger] out@[k]).0 < out@[k].1 <= width,
        forall|p: int| 0 <= p < width ==> (in_gaps(out@, p) <==> !covered(old(ranges)@, p)),
        forall|p: int| in_gaps(out@, p) ==> 0 <= p < width,
        (forall|r: int| 0 <= r < old(ranges)@.len() ==> (#[trigger] old(ranges)@[r]).0 <= old(ranges)@[r].1)
            ==> forall|a: int, b: int| 0 <= a < b < out@.len() ==> out@[a].1 <= out@[b].0,
        (forall|r: int| 0 <= r < old(ranges)@.len() ==> (#[trigger] old(ranges)@[r]).0 < old(ranges)@[r].1)
            ==> forall|a: int, b: int| 0 <= a < b < out@.len() ==> out@[a].1 < out@[b].0,
{
    let s = sort_ranges(ranges.as_slice());
    let ghost ordered = forall|r: int| 0 <= r < s@.len() ==> (#[trigger] s@[r]).0 <= s@[r].1;
    let ghost strict = forall|r: int| 0 <= r < s@.len() ==> (#[trigger] s@[r]).0 < s@[r].1;
    proof {
        if forall|r: int| 0 <= r < ranges@.len() ==> (#[trigger] ranges@[r]).0 <= ranges@[r].1 {
            assert forall|r: int| 0 <= r < s@.len() implies (#[trigger] s@[r]).0 <= s@[r].1 by {
                assert(s@.contains(s@[r]));
                let q = choose|q: int| 0 <= q < ranges@.len() && ranges@[q] == s@[r];
                assert(ranges@[q].0 <= ranges@[q].1);
            }
        }
        if forall|r: int| 0 <= r < ranges@.len() ==> (#[trigger] ranges@[r]).0 < ranges@[r].1 {
            assert forall|r: int| 0 <= r < s@.len() implies (#[trigger] s@[r]).0 < s@[r].1 by {
                assert(s@.contains(s@[r]));
                let q = choose|q: int| 0 <= q < ranges@.len() && ranges@[q] == s@[r];
                assert(ranges@[q].0 < ranges@[q].1);
            }
        }
        assert forall|p: int| covered(s@, p) <==> covered(ranges@, p) by {
            if covered(s@, p) {
                let r = choose|r: int| 0 <= r < s@.len() && (#[trigger] s@[r]).0 <= p < s@[r].1;
                assert(s@.contains(s@[r]));
                let q = choose|q: int| 0 <= q < ranges@.len() && ranges@[q] == s@[r];
            }
            if covered(ranges@, p) {
                let r = choose|r: int| 0 <= r < ranges@.len() && (#[trigger] ranges@[r]).0 <= p < ranges@[r].1;
                assert(ranges@.contains(ranges@[r]));
                let q = choose|q: int| 0 <= q < s@.len() && s@[q] == ranges@[r];
            }
        }
    }
    let mut out: Vec<(u32, u32)> = Vec::new();
    let mut next: u32 = 0;
    let mut i: usize = 0;
    let mut stopped = false;
    while i < s.len() && !stopped
        invariant
            sorted_pairs(s@),
            ordered == forall|r: int| 0 <= r < s@.len() ==> (#[trigger] s@[r]).0 <= s@[r].1,
            strict == forall|r: int| 0 <= r < s@.len() ==> (#[trigger] s@[r]).0 < s@[r].1,
            i <= s@.len(),
            stopped ==> next >= width,
            forall|k: int| 0 <= k < out@.len() ==> (#[trigger] out@[k]).0 < out@[k].1 <= width,
            ordered ==> forall|k: int| 0 <= k < out@.len() ==> (#[trigger] out@[k]).1 <= next,
            ordered ==> forall|a: int, b: int| 0 <= a < b < out@.len() ==> out@[a].1 <= out@[b].0,
            strict ==> forall|k: int| 0 <= k < out@.len() ==> (#[trigger] out@[k]).1 < next,
            strict ==> forall|a: int, b: int| 0 <= a < b < out@.len() ==> out@[a].1 < out@[b].0,
            forall|k: int| 0 <= k < out@.len() ==> (#[trigger] out@[k]).0 >= 0,
            // Every gap lies before the ranges still to come.
            i < s@.len() ==> forall|k: int| 0 <= k < out@.len() ==> (#[trigger] out@[k]).1 <= s@[i as int].0,
            // Below `next`: a point is in a gap exactly when no processed range covers it,
            // and gaps are covered by no range at all.
            forall|p: int|
                0 <= p < next && p < width ==> (in_gaps(out@, p) <==> !covered(s@.subrange(0, i as int), p)),
            forall|p: int| in_gaps(out@, p) ==> !covered(s@, p),
            // Processed ranges end at or before `next`.
            forall|r: int| 0 <= r < i ==> s@[r].1 <= next,
        decreases s@.len() - i, if stopped { 0int } else { 1int },
    {
        let (lo, hi) = s[i];
        let ghost old_out = out@;
        let ghost old_next = next;
        if lo > next {
            let end = if lo < width {
                lo
            } else {
                width
            };
            // an empty region (width reached) is no gap
            if next < end {
                out.push((next, end));
            }
        }
        if hi > next {
            next = hi;
        }
        proof {
            let pre = s@.subrange(0, i as int);
            let now = s@.subrange(0, i as int + 1);
            assert(now =~= pre.push((lo, hi)));
            assert forall|p: int| in_gaps(out@, p) implies !covered(s@, p) by {
                let k = choose|k: int| 0 <= k < out@.len() && (#[trigger] out@[k]).0 <= p < out@[k].1;
                if k < old_out.len() {
                    assert(old_out[k] == out@[k]);
                    assert(in_gaps(old_out, p));
                } else {
                    // the new gap [old_next, min(lo, width)): before every range from i on,
                    // and after every processed range.
                    if covered(s@, p) {
                        let r = choose|r: int| 0 <= r < s@.len() && (#[trigger] s@[r]).0 <= p < s@[r].1;
                        if r < i {
                            assert(s@[r].1 <= old_next);
                        } else {
                            assert(pair_le(s@[i as int], s@[r]) || r == i);
                        }
                    }
                }
            }
            assert forall|p: int| 0 <= p < next && p < width implies (in_gaps(out@, p) <==> !covered(now, p)) by {
                if p < old_next {
                    assert(in_gaps(old_out, p) <==> !covered(pre, p));
                    if in_gaps(out@, p) {
                        let k = choose|k: int| 0 <= k < out@.len() && (#[trigger] out@[k]).0 <= p < out@[k].1;
                        if k == old_out.len() {
                            assert(out@[k].0 == old_next);
                        } else {
                            assert(old_out[k] == out@[k]);
                        }
                        assert(in_gaps(old_out, p));
                        assert(!covered(s@, p));
                        if covered(now, p) {
                            let r = choose|r: int| 0 <= r < now.len() && (#[trigger] now[r]).0 <= p < now[r].1;
                            assert(s@[r] == now[r]);
                        }
                    }
                    if in_gaps(old_out, p) {
                        let k = choose|k: int| 0 <= k < old_out.len() && (#[trigger] old_out[k]).0 <= p < old_out[k].1;
                        assert(out@[k] == old_out[k]);
                    }
                    if !covered(pre, p) && covered(now, p) {
                        let r = choose|r: int| 0 <= r < now.len() && (#[trigger] now[r]).0 <= p < now[r].1;
                        if r < i {
                            assert(pre[r] == now[r]);
                        } else {
                            // the current range starts after every old gap end
                            assert(forall|k: int| 0 <= k < old_out.len() ==> old_out[k].1 <= lo);
                        }
                    }
                } else if p < lo {
                    // p in the new gap [old_next, min(lo, width))
                    let k = old_out.len() as int;
                    assert(out@[k].0 <= p < out@[k].1);
                    assert(!covered(now, p)) by {
                        if covered(now, p) {
                            let r = choose|r: int| 0 <= r < now.len() && (#[trigger] now[r]).0 <= p < now[r].1;
                            if r < i {
                                assert(s@[r].1 <= old_next);
                            }
                        }
                    }
                } else {
                    // lo <= p < hi: covered by the current range
                    assert(now[i as int] == (lo, hi));
                    assert(covered(now, p));
                    assert(!in_gaps(out@, p)) by {
                        if in_gaps(out@, p) {
                            let k = choose|k: int| 0 <= k < out@.len() && (#[trigger] out@[k]).0 <= p < out@[k].1;
                            if k < old_out.len() {
                                assert(old_out[k].1 <= lo);
                            }
                        }
                    }
                }
            }
            if i + 1 < s@.len() {
                assert(pair_le(s@[i as int], s@[i + 1]));
            }
        }
        if next >= width {
            stopped = true;
        }
        i = i + 1;
    }
    let ghost before = out@;
    if next < width {
        out.push((next, width));
    }
    proof {
        assert forall|p: int| in_gaps(out@, p) implies !covered(s@, p) && 0 <= p < width by {
            let k = choose|k: int| 0 <= k < out@.len() && (#[trigger] out@[k]).0 <= p < out@[k].1;
            if k < before.len() {
                assert(before[k] == out@[k]);
                assert(in_gaps(before, p));
            } else {
                if covered(s@, p) {
                    let r = choose|r: int| 0 <= r < s@.len() && (#[trigger] s@[r]).0 <= p < s@[r].1;
                    assert(r < i);
                }
            }
        }
        assert forall|p: int| 0 <= p < width implies (in_gaps(out@, p) <==> !covered(ranges@, p)) by {
            if !in_gaps(out@, p) {
                if p < next {
                    if in_gaps(before, p) {
                        let k = choose|k: int| 0 <= k < before.len() && (#[trigger] before[k]).0 <= p < before[k].1;
                        assert(out@[k] == before[k]);
                    }
                    let pre = s@.subrange(0, i as int);
                    assert(covered(pre, p));
                    let r = choose|r: int| 0 <= r < pre.len() && (#[trigger] pre[r]).0 <= p < pre[r].1;
                    assert(s@[r] == pre[r]);
                    assert(covered(s@, p));
                } else {
                    assert(out@[out@.len() - 1] == (next, width));
                    assert(in_gaps(out@, p));
                }
            }
        }
        if ordered {
            assert forall|a: int, b: int| 0 <= a < b < out@.len() implies out@[a].1 <= out@[b].0 by {
                if b == before.len() {
                    assert(before[a].1 <= next);
                }
            }
        }
        if strict {
            assert forall|a: int, b: int| 0 <= a < b < out@.len() implies out@[a].1 < out@[b].0 by {
                if b == before.len() {
                    assert(before[a].1 < next);
                }
            }
        }
    }
    *ranges = s;
    out
}

impl Default for DriverTable {
    /// An empty table.
    fn default() -> (t: DriverTable)
        ensures
            t.wf(),
            forall|d: u32| t.records(d) == Seq::<DriverRecord>::empty(),
    {
        DriverTable::new()
    }
}

// ── the table ───────────────────────────────────────────────────────
impl DriverTable {
    pub closed spec fn entries(&self) -> Seq<(u32, Vec<DriverRecord>)> {
        self.drivers@
    }

    pub closed spec fn wf(&self) -> bool {
        &&& keys_increasing(self.drivers@)
        &&& forall|k: int, m: int|
            0 <= k < self.drivers@.len() && 0 <= m < self.drivers@[k].1@.len() ==> bits_ok(
                #[trigger] self.drivers@[k].1@[m],
            )
    }

    /// Every field path of a record is shorter than `usize::MAX`.
    pub closed spec fn fields_fit(&self) -> bool {
        forall|k: int, m: int|
            0 <= k < self.drivers@.len() && 0 <= m < self.drivers@[k].1@.len() ==> match (
                #[trigger] self.drivers@[k].1@[m]).field {
                Some(f) => f@.len() < usize::MAX,
                None => true,
            }
    }

    /// The records of `def`, in recording order.
    pub closed spec fn records(&self, def: u32) -> Seq<DriverRecord> {
        records_in(self.drivers@, def)
    }

    /// An empty table.
    pub fn new() -> (t: DriverTable)
        ensures
            t.wf(),
            forall|d: u32| t.records(d) == Seq::<DriverRecord>::empty(),
    {
        DriverTable { drivers: Vec::new() }
    }

    proof fn lemma_records_in(entries: Seq<(u32, Vec<DriverRecord>)>, k: int)
        requires
            keys_increasing(entries),
            0 <= k < entries.len(),
        ensures
            records_in(entries, entries[k].0) == entries[k].1@,
        decreases entries.len(),
    {
        if k < entries.len() - 1 {
            Self::lemma_records_in(entries.drop_last(), k);
        }
    }

    proof fn lemma_records_absent(entries: Seq<(u32, Vec<DriverRecord>)>, d: u32)
        requires
            forall|k: int| 0 <= k < entries.len() ==> entries[k].0 != d,
        ensures
            records_in(entries, d) == Seq::<DriverRecord>::empty(),
        decreases entries.len(),
    {
        if entries.len() > 0 {
            Self::lemma_records_absent(entries.drop_last(), d);
        }
    }

    /// Where `def` is or would be: the first entry whose key is not
    /// smaller.
    fn position(&self, def: u32) -> (p: usize)
        requires
            self.wf(),
        ensures
            p <= self.drivers@.len(),
            forall|k: int| 0 <= k < p ==> self.drivers@[k].0 < def,
            p < self.drivers@.len() ==> self.drivers@[p as int].0 >= def,
    {
        let mut p: usize = 0;
        while p < self.drivers.len() && self.drivers[p].0 < def
            invariant
                p <= self.drivers@.len(),
                forall|k: int| 0 <= k < p ==> self.drivers@[k].0 < def,
            decreases self.drivers@.len() - p,
        {
            p = p + 1;
        }
        p
    }

    fn push(
        &mut self,
        target: u32,
        span: Span,
        group: u32,
        kind: DriverKind,
        partial: bool,
        bits: Option<(u32, u32)>,
        field: Option<String>,
    )
        requires
            old(self).wf(),
            bits matches Some((lo, hi)) ==> lo <= hi,
        ensures
            final(self).wf(),
            final(self).records(target) == old(self).records(target).push(
                DriverRecord { span, group, kind, bits, partial, field },
            ),
            forall|d: u32| d != target ==> final(self).records(d) == old(self).records(d),
    {
        let rec = DriverRecord { span, group, kind, bits, partial, field };
        let p = self.position(target);
        let ghost old_entries = self.drivers@;
        proof {
            assert forall|d: u32| old(self).records(d) == records_in(old_entries, d) by {}
        }
        if p < self.drivers.len() && self.drivers[p].0 == target {
            let mut entry = self.drivers.remove(p);
            entry.1.push(rec);
            self.drivers.insert(p, entry);
            proof {
                assert(self.drivers@ =~= old_entries.update(p as int, self.drivers@[p as int]));
                assert forall|k: int, m: int|
                    0 <= k < self.drivers@.len() && 0 <= m < self.drivers@[k].1@.len() implies bits_ok(
                        #[trigger] self.drivers@[k].1@[m],
                    ) by {
                    if k == p && m == self.drivers@[k].1@.len() - 1 {
                    } else if k == p {
                        assert(self.drivers@[k].1@[m] == old_entries[k].1@[m]);
                    } else {
                        assert(self.drivers@[k] == old_entries[k]);
                    }
                }
                Self::lemma_records_in(old_entries, p as int);
                Self::lemma_records_in(self.drivers@, p as int);
                assert forall|d: u32| d != target implies #[trigger] records_in(self.drivers@, d)
                    == records_in(old_entries, d) by {
                    if exists|k: int| 0 <= k < old_entries.len() && old_entries[k].0 == d {
                        let k = choose|k: int| 0 <= k < old_entries.len() && old_entries[k].0 == d;
                        Self::lemma_records_in(old_entries, k);
                        assert(self.drivers@[k].0 == d);
                        Self::lemma_records_in(self.drivers@, k);
                    } else {
                        Self::lemma_records_absent(old_entries, d);
                        assert forall|k: int| 0 <= k < self.drivers@.len() implies self.drivers@[k].0 != d by {
                            if k != p {
                                assert(self.drivers@[k] == old_entries[k]);
                            }
                        }
                        Self::lemma_records_absent(self.drivers@, d);
                    }
                }
            }
        } else {
            let mut recs: Vec<DriverRecord> = Vec::new();
            recs.push(rec);
            self.drivers.insert(p, (target, recs));
            proof {
                let new_entries = self.drivers@;
                assert(new_entries =~= old_entries.subrange(0, p as int).push((target, recs))
                    + old_entries.subrange(p as int, old_entries.len() as int));
                assert forall|a: int, b: int| 0 <= a < b < new_entries.len() implies new_entries[a].0
                    < new_entries[b].0 by {
                    if a < p && b > p {
                        assert(new_entries[b] == old_entries[b - 1]);
                    }
                    if a > p {
                        assert(new_entries[a] == old_entries[a - 1]);
                        assert(new_entries[b] == old_entries[b - 1]);
                    }
                    if b < p {
                        assert(new_entries[a] == old_entries[a]);
                    }
                    if a < p && b == p {
                    }
                    if a == p && b > p {
                        assert(new_entries[b] == old_entries[b - 1]);
                    }
                }
                Self::lemma_records_in(new_entries, p as int);
                assert forall|k: int, m: int|
                    0 <= k < new_entries.len() && 0 <= m < new_entries[k].1@.len() implies bits_ok(
                        #[trigger] new_entries[k].1@[m],
                    ) by {
                    if k < p {
                        assert(new_entries[k] == old_entries[k]);
                    } else if k > p {
                        assert(new_entries[k] == old_entries[k - 1]);
                    } else {
                        assert(new_entries[k].1@ == recs@);
                    }
                }
                assert forall|k: int| 0 <= k < old_entries.len() implies old_entries[k].0 != target by {
                    if k >= p {
                        assert(old_entries[k].0 >= old_entries[p as int].0);
                    }
                }
                Self::lemma_records_absent(old_entries, target);
                assert(recs@ =~= Seq::<DriverRecord>::empty().push(rec));
                assert forall|d: u32| d != target implies #[trigger] records_in(new_entries, d)
                    == records_in(old_entries, d) by {
                    if exists|k: int| 0 <= k < old_entries.len() && old_entries[k].0 == d {
                        let k = choose|k: int| 0 <= k < old_entries.len() && old_entries[k].0 == d;
                        Self::lemma_records_in(old_entries, k);
                        if k < p {
                            assert(new_entries[k] == old_entries[k]);
                            Self::lemma_records_in(new_entries, k);
                        } else {
                            assert(new_entries[k + 1] == old_entries[k]);
                            Self::lemma_records_in(new_entries, k + 1);
                        }
                    } else {
                        Self::lemma_records_absent(old_entries, d);
                        assert forall|k: int| 0 <= k < new_entries.len() implies new_entries[k].0 != d by {
                            if k < p {
                                assert(new_entries[k] == old_entries[k]);
                            } else if k > p {
                                assert(new_entries[k] == old_entries[k - 1]);
                            }
                        }
                        Self::lemma_records_absent(new_entries, d);
                    }
                }
            }
        }
    }

    /// Records an assignment; `bits` is the known range of a partial
    /// target.
    pub fn record(&mut self, target: u32, span: Span, group: u32, partial: bool, bits: Option<(u32, u32)>)
        requires
            old(self).wf(),
            bits matches Some((lo, hi)) ==> lo <= hi,
        ensures
            final(self).wf(),
            final(self).records(target) == old(self).records(target).push(
                DriverRecord { span, group, kind: DriverKind::Assign, bits, partial, field: None },
            ),
            forall|d: u32| d != target ==> final(self).records(d) == old(self).records(d),
    {
        self.push(target, span, group, DriverKind::Assign, partial, bits, None);
    }

    /// Records an assignment to a struct field (`field`: dotted path).
    pub fn record_field(&mut self, target: u32, span: Span, group: u32, bits: Option<(u32, u32)>, field: String)
        requires
            old(self).wf(),
            bits matches Some((lo, hi)) ==> lo <= hi,
        ensures
            final(self).wf(),
            final(self).records(target) == old(self).records(target).push(
                DriverRecord { span, group, kind: DriverKind::Assign, bits, partial: true, field: Some(field) },
            ),
            forall|d: u32| d != target ==> final(self).records(d) == old(self).records(d),
    {
        self.push(target, span, group, DriverKind::Assign, true, bits, Some(field));
    }

    /// Records a driver other than an assignment (`let` initializer,
    /// input port, shared line).
    pub fn record_kind(&mut self, target: u32, span: Span, group: u32, kind: DriverKind)
        requires
            old(self).wf(),
        ensures
            final(self).wf(),
            final(self).records(target) == old(self).records(target).push(
                DriverRecord { span, group, kind, bits: None, partial: false, field: None },
            ),
            forall|d: u32| d != target ==> final(self).records(d) == old(self).records(d),
    {
        self.push(target, span, group, kind, false, None, None);
    }

    /// Is there a user assignment to `def` (E4002 looks at assignments
    /// only)?
    pub fn is_driven(&self, def: u32) -> (r: bool)
        requires
            self.wf(),
        ensures
            r == exists|k: int| 0 <= k < self.records(def).len() && self.records(def)[k].kind.is_assign(),
    {
        let p = self.position(def);
        if p < self.drivers.len() && self.drivers[p].0 == def {
            proof {
                Self::lemma_records_in(self.drivers@, p as int);
            }
            let rs = &self.drivers[p].1;
            let mut k: usize = 0;
            while k < rs.len()
                invariant
                    rs@ == self.records(def),
                    k <= rs@.len(),
                    forall|m: int| 0 <= m < k ==> !rs@[m].kind.is_assign(),
                decreases rs@.len() - k,
            {
                match rs[k].kind {
                    DriverKind::Assign => {
                        return true;
                    },
                    _ => {},
                }
                k = k + 1;
            }
            false
        } else {
            proof {
                assert forall|k: int| 0 <= k < self.drivers@.len() implies self.drivers@[k].0 != def by {
                    if k >= p {
                        assert(self.drivers@[k].0 >= self.drivers@[p as int].0);
                    }
                }
                Self::lemma_records_absent(self.drivers@, def);
            }
            false
        }
    }

    /// E4001 — two separate sources driving the same bit. For each
    /// signal, in increasing definition order, its first conflicting pair.
    pub fn check_multiple_drivers(&self) -> (out: Vec<DoubleDriver>)
        requires
            self.wf(),
            self.fields_fit(),
        ensures
            forall|a: int, b: int| 0 <= a < b < out@.len() ==> out@[a].def < out@[b].def,
            forall|k: int|
                0 <= k < out@.len() ==> {
                    let rs = self.records((#[trigger] out@[k]).def);
                    &&& is_first_conflict(rs, out@[k].first as int, out@[k].second as int)
                    &&& opt_string_view(out@[k].field) == chosen_field(
                        rs[out@[k].first as int].field,
                        rs[out@[k].second as int].field,
                    )
                },
            forall|d: u32| has_conflict(self.records(d)) ==> exists|k: int| 0 <= k < out@.len() && (#[trigger] out@[k]).def == d,
    {
        let mut out: Vec<DoubleDriver> = Vec::new();
        let mut e: usize = 0;
        while e < self.drivers.len()
            invariant
                self.wf(),
                e <= self.drivers@.len(),
                forall|k: int, m: int|
                    0 <= k < self.drivers@.len() && 0 <= m < self.drivers@[k].1@.len() ==> match (
                        #[trigger] self.drivers@[k].1@[m]).field {
                        Some(f) => f@.len() < usize::MAX,
                        None => true,
                    },
                forall|k: int| 0 <= k < out@.len() ==> exists|q: int| 0 <= q < e && self.drivers@[q].0 == (#[trigger] out@[k]).def,
                forall|a: int, b: int| 0 <= a < b < out@.len() ==> out@[a].def < out@[b].def,
                forall|k: int|
                    0 <= k < out@.len() ==> {
                        let rs = self.records((#[trigger] out@[k]).def);
                        &&& is_first_conflict(rs, out@[k].first as int, out@[k].second as int)
                        &&& opt_string_view(out@[k].field) == chosen_field(
                            rs[out@[k].first as int].field,
                            rs[out@[k].second as int].field,
                        )
                    },
                forall|q: int|
                    0 <= q < e && has_conflict(self.drivers@[q].1@) ==> exists|k: int|
                        0 <= k < out@.len() && (#[trigger] out@[k]).def == self.drivers@[q].0,
            decreases self.drivers@.len() - e,
        {
            let def = self.drivers[e].0;
            let rs = &self.drivers[e].1;
            proof {
                Self::lemma_records_in(self.drivers@, e as int);
            }
            // earliest second record j with a conflicting earlier record
            let mut found: Option<(usize, usize)> = None;
            let mut j: usize = 1;
            while j < rs.len() && found.is_none()
                invariant
                    1 <= j,
                    j <= rs@.len() || rs@.len() == 0,
                    found is None ==> forall|a: int, b: int| 0 <= a < b < j && b < rs@.len() ==> !conflicts_spec(rs@[a], rs@[b]),
                    found matches Some(p) ==> is_first_conflict(rs@, p.0 as int, p.1 as int),
                decreases rs@.len() - j, if found is None { 1int } else { 0int },
            {
                let mut i: usize = 0;
                let mut hit = false;
                while i < j && !hit
                    invariant
                        j < rs@.len(),
                        i <= j,
                        !hit ==> forall|a: int| 0 <= a < i ==> !conflicts_spec(rs@[a], rs@[j as int]),
                        hit ==> 0 < i <= j && conflicts_spec(rs@[i - 1], rs@[j as int]) && forall|a: int|
                            0 <= a < i - 1 ==> !conflicts_spec(rs@[a], rs@[j as int]),
                    decreases j - i, if hit { 0int } else { 1int },
                {
                    if rs[i].conflicts_with(&rs[j]) {
                        hit = true;
                    }
                    i = i + 1;
                }
                if hit {
                    found = Some((i - 1, j));
                } else {
                    j = j + 1;
                }
            }
            match found {
                Some((i, j)) => {
                    let f = pick_field(&rs[i].field, &rs[j].field);
                    let ghost old_out = out@;
                    out.push(DoubleDriver { def, first: i, second: j, field: f });
                    proof {
                        assert forall|a: int, b: int| 0 <= a < b < out@.len() implies out@[a].def < out@[b].def by {
                            if b == out@.len() - 1 {
                                let q = choose|q: int| 0 <= q < e && self.drivers@[q].0 == old_out[a].def;
                            }
                        }
                        assert forall|k: int| 0 <= k < out@.len() implies exists|q: int| 0 <= q < e + 1 && self.drivers@[q].0 == (#[trigger] out@[k]).def by {
                            if k < old_out.len() {
                                assert(out@[k] == old_out[k]);
                            } else {
                                assert(self.drivers@[e as int].0 == out@[k].def);
                            }
                        }
                        assert forall|q: int| 0 <= q < e + 1 && has_conflict(self.drivers@[q].1@) implies exists|k: int|
                            0 <= k < out@.len() && (#[trigger] out@[k]).def == self.drivers@[q].0 by {
                            if q < e {
                                let k = choose|k: int| 0 <= k < old_out.len() && (#[trigger] old_out[k]).def == self.drivers@[q].0;
                                assert(out@[k] == old_out[k]);
                            } else {
                                assert(out@[out@.len() - 1].def == self.drivers@[q].0);
                            }
                        }
                    }
                },
                None => {
                    proof {
                        assert(!has_conflict(rs@));
                        assert forall|k: int| 0 <= k < out@.len() implies exists|q: int| 0 <= q < e + 1 && self.drivers@[q].0 == (#[trigger] out@[k]).def by {
                            let q = choose|q: int| 0 <= q < e && self.drivers@[q].0 == out@[k].def;
                        }
                    }
                },
            }
            e = e + 1;
        }
        proof {
            assert forall|d: u32| has_conflict(self.records(d)) implies exists|k: int| 0 <= k < out@.len() && (#[trigger] out@[k]).def == d by {
                if exists|q: int| 0 <= q < self.drivers@.len() && self.drivers@[q].0 == d {
                    let q = choose|q: int| 0 <= q < self.drivers@.len() && self.drivers@[q].0 == d;
                    Self::lemma_records_in(self.drivers@, q);
                } else {
                    Self::lemma_records_absent(self.drivers@, d);
                }
            }
        }
        out
    }

    /// `part.gaps` are exactly the bits of `[0, width)` that no record of
    /// `part.def` drives, for the width that `coverage` gives it.
    /// Coverage entry `e` is a net driven only by partial assignments of
    /// known range, and some bit of it is driven by none.
    pub open spec fn has_gap(&self, def_kinds: Seq<DefKind>, e: (u32, Coverage)) -> bool {
        let rs = self.records(e.0);
        &&& e.0 < def_kinds.len()
        &&& is_net_kind(def_kinds[e.0 as int])
        &&& rs.len() > 0
        &&& all_partial_known(rs)
        &&& exists|q: int| 0 <= q < e.1.width && !covered(ranges_of(rs), q)
    }

    pub open spec fn gaps_reported(&self, coverage: Seq<(u32, Coverage)>, part: UndrivenPart) -> bool {
        exists|c: int|
            0 <= c < coverage.len() && (#[trigger] coverage[c]).0 == part.def && forall|p: int|
                0 <= p < coverage[c].1.width ==> (in_gaps(part.gaps@, p) <==> !covered(
                    ranges_of(self.records(part.def)),
                    p,
                ))
    }

    /// E4012 — wires and output ports driven piece by piece with bits no
    /// assignment reaches. Only signals all of whose drivers are partial
    /// assignments with a known range are checked (any other driver makes
    /// the coverage unknown or complete). `coverage` is in increasing
    /// definition order; `def_kinds[d]` is the kind of definition `d`.
    pub fn check_partial_coverage(&self, def_kinds: &Vec<DefKind>, coverage: &Vec<(u32, Coverage)>) -> (out: Vec<UndrivenPart>)
        requires
            self.wf(),
        ensures
            forall|k: int| 0 <= k < out@.len() ==> {
                let d = (#[trigger] out@[k]).def;
                let rs = self.records(d);
                &&& exists|c: int| 0 <= c < coverage@.len() && coverage@[c].0 == d
                &&& d < def_kinds@.len()
                &&& is_net_kind(def_kinds@[d as int])
                &&& rs.len() > 0
                &&& all_partial_known(rs)
                &&& out@[k].gaps@.len() > 0
            },
            forall|k: int| 0 <= k < out@.len() ==> self.gaps_reported(coverage@, #[trigger] out@[k]),
            forall|c: int|
                0 <= c < coverage@.len() && #[trigger] self.has_gap(def_kinds@, coverage@[c]) ==> exists|k: int|
                    0 <= k < out@.len() && out@[k].def == coverage@[c].0,
    {
        let mut out: Vec<UndrivenPart> = Vec::new();
        let mut c: usize = 0;
        while c < coverage.len()
            invariant
                self.wf(),
                c <= coverage@.len(),
                forall|k: int| 0 <= k < out@.len() ==> {
                    let d = (#[trigger] out@[k]).def;
                    let rs = self.records(d);
                    &&& exists|c: int| 0 <= c < coverage@.len() && coverage@[c].0 == d
                    &&& d < def_kinds@.len()
                    &&& is_net_kind(def_kinds@[d as int])
                    &&& rs.len() > 0
                    &&& all_partial_known(rs)
                    &&& out@[k].gaps@.len() > 0
                },
                forall|k: int| 0 <= k < out@.len() ==> self.gaps_reported(coverage@, #[trigger] out@[k]),
                forall|j: int|
                    0 <= j < c && #[trigger] self.has_gap(def_kinds@, coverage@[j]) ==> exists|k: int|
                        0 <= k < out@.len() && out@[k].def == coverage@[j].0,
            decreases coverage@.len() - c,
        {
            let ghost o0 = out@;
            let def = coverage[c].0;
            let width = coverage[c].1.width;
            let p = self.position(def);
            if !(p < self.drivers.len() && self.drivers[p].0 == def) {
                proof {
                    assert forall|k: int| 0 <= k < self.drivers@.len() implies self.drivers@[k].0 != def by {
                        if k >= p {
                            assert(self.drivers@[k].0 >= self.drivers@[p as int].0);
                        }
                    }
                    Self::lemma_records_absent(self.drivers@, def);
                }
            }
            if p < self.drivers.len() && self.drivers[p].0 == def && (def as usize) < def_kinds.len() {
                proof {
                    Self::lemma_records_in(self.drivers@, p as int);
                }
                let is_net = match def_kinds[def as usize] {
                    DefKind::Wire => true,
                    DefKind::Port { dir: PortDir::Out } => true,
                    _ => false,
                };
                let rs = &self.drivers[p].1;
                assert(forall|m: int| 0 <= m < rs@.len() ==> bits_ok(#[trigger] rs@[m])) by {
                    assert forall|m: int| 0 <= m < rs@.len() implies bits_ok(#[trigger] rs@[m]) by {
                        assert(bits_ok(self.drivers@[p as int].1@[m]));
                    }
                }
                if is_net && rs.len() > 0 {
                    let mut ranges: Vec<(u32, u32)> = Vec::new();
                    let mut ok = true;
                    let mut k: usize = 0;
                    while k < rs.len() && ok
                        invariant
                            k <= rs@.len(),
                            ok ==> ranges@.len() == k,
                            ok ==> forall|m: int| 0 <= m < k ==> partial_known(#[trigger] rs@[m]),
                            ok ==> forall|m: int| 0 <= m < k ==> ranges@[m] == (#[trigger] rs@[m]).bits->0,
                            forall|m: int| 0 <= m < rs@.len() ==> bits_ok(#[trigger] rs@[m]),
                            !ok ==> !all_partial_known(rs@),
                        decreases rs@.len() - k, if ok { 1int } else { 0int },
                    {
                        let r = &rs[k];
                        let is_assign = match r.kind {
                            DriverKind::Assign => true,
                            _ => false,
                        };
                        match r.bits {
                            Some(b) => {
                                if is_assign && r.partial {
                                    ranges.push(b);
                                    k = k + 1;
                                } else {
                                    ok = false;
                                }
                            },
                            None => {
                                ok = false;
                            },
                        }
                    }
                    if ok {
                        proof {
                            assert(ranges@ =~= ranges_of(rs@));
                            assert forall|r: int| 0 <= r < ranges@.len() implies (#[trigger] ranges@[r]).0 <= ranges@[r].1 by {
                                assert(bits_ok(rs@[r]));
                            }
                        }
                        let ghost r0 = ranges@;
                        let g = gaps(&mut ranges, width);
                        assert(r0 =~= ranges_of(rs@));
                        proof {
                            if self.has_gap(def_kinds@, coverage@[c as int]) {
                                let q = choose|q: int| 0 <= q < width && !covered(ranges_of(self.records(def)), q);
                                assert(in_gaps(g@, q));
                            }
                        }
                        if g.len() > 0 {
                            let part = UndrivenPart { def, gaps: g };
                            assert(self.gaps_reported(coverage@, part)) by {
                                assert(coverage@[c as int].0 == def);
                            }
                            out.push(part);
                        }
                    }
                }
            }
            proof {
                assert forall|j: int|
                    0 <= j < c + 1 && #[trigger] self.has_gap(def_kinds@, coverage@[j]) implies exists|k: int|
                        0 <= k < out@.len() && out@[k].def == coverage@[j].0 by {
                    if j < c {
                        let k0 = choose|k: int| 0 <= k < o0.len() && o0[k].def == coverage@[j].0;
                        assert(out@[k0] == o0[k0]);
                    } else {
                        assert(out@.len() == o0.len() + 1);
                        assert(out@[o0.len() as int].def == coverage@[j].0);
                    }
                }
            }
            c = c + 1;
        }
        out
    }
}

/// A wire or an output port.
pub open spec fn is_net_kind(k: DefKind) -> bool {
    k == DefKind::Wire || k == (DefKind::Port { dir: PortDir::Out })
}

/// A partial assignment with a known range.
pub open spec fn partial_known(r: DriverRecord) -> bool {
    r.kind.is_assign() && r.partial && r.bits is Some
}

pub open spec fn all_partial_known(rs: Seq<DriverRecord>) -> bool {
    forall|m: int| 0 <= m < rs.len() ==> partial_known(#[trigger] rs[m])
}

/// The bit ranges of a signal's records.
pub open spec fn ranges_of(rs: Seq<DriverRecord>) -> Seq<(u32, u32)> {
    rs.map_values(|r: DriverRecord| r.bits->0)
}

pub open spec fn opt_string_view(o: Option<String>) -> Option<Seq<char>> {
    match o {
        Some(s) => Some(s@),
        None => None,
    }
}

fn pick_field(a: &Option<String>, b: &Option<String>) -> (r: Option<String>)
    requires
        match a {
            Some(f) => f@.len() < usize::MAX,
            None => true,
        },
        match b {
            Some(f) => f@.len() < usize::MAX,
            None => true,
        },
    ensures
        opt_string_view(r) == chosen_field(*a, *b),
{
    match (a, b) {
        (Some(x), Some(y)) => {
            if count_segments(x) > count_segments(y) {
                Some(x.clone())
            } else {
                Some(y.clone())
            }
        },
        (Some(x), None) => Some(x.clone()),
        (None, Some(y)) => Some(y.clone()),
        (None, None) => None,
    }
}

/// The output ports of `ports` whose definition is not driven by an
/// assignment in `t`, in port order.
pub open spec fn undriven_spec(t: DriverTable, ports: Seq<OutputPort>) -> Seq<(Seq<char>, Span)>
    decreases ports.len(),
{
    if ports.len() == 0 {
        Seq::empty()
    } else {
        let p = ports.last();
        undriven_spec(t, ports.drop_last()) + if p.dir == PortDir::Out && p.def is Some && !(exists|k: int|
            0 <= k < t.records(p.def.unwrap()).len() && t.records(p.def.unwrap())[k].kind.is_assign()) {
            seq![(p.name@, p.span)]
        } else {
            Seq::empty()
        }
    }
}

impl DriverTable {
    /// E4002 — each output port that no assignment drives, in port order.
    pub fn check_undriven_outputs(&self, ports: &Vec<OutputPort>) -> (out: Vec<UndrivenOutput>)
        requires
            self.wf(),
        ensures
            out@.map_values(|u: UndrivenOutput| (u.name@, u.span)) == undriven_spec(*self, ports@),
    {
        let mut out: Vec<UndrivenOutput> = Vec::new();
        let mut k: usize = 0;
        while k < ports.len()
            invariant
                self.wf(),
                k <= ports@.len(),
                out@.map_values(|u: UndrivenOutput| (u.name@, u.span)) == undriven_spec(
                    *self,
                    ports@.subrange(0, k as int),
                ),
            decreases ports@.len() - k,
        {
            proof {
                assert(ports@.subrange(0, k + 1).drop_last() =~= ports@.subrange(0, k as int));
            }
            let p = &ports[k];
            if p.dir == PortDir::Out {
                match p.def {
                    Some(d) => {
                        if !self.is_driven(d) {
                            out.push(UndrivenOutput { name: p.name.clone(), span: p.span });
                        }
                    },
                    None => {},
                }
            }
            k = k + 1;
            proof {
                assert(out@.map_values(|u: UndrivenOutput| (u.name@, u.span)) =~= undriven_spec(
                    *self,
                    ports@.subrange(0, k as int),
                ));
            }
        }
        assert(ports@.subrange(0, ports@.len() as int) =~= ports@);
        out
    }
}

} // verus!
