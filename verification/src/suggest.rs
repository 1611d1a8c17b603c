//! Similar-name suggestions for "unknown name" diagnostics: Levenshtein
//! distance and the closest visible candidate.

use vstd::prelude::*;

use crate::text::chars_of;

verus! {

/// Edit distance between the first `i` characters of `a` and the first
/// `j` characters of `b` (insertions, deletions and substitutions each
/// cost one).
pub open spec fn edit_distance(a: Seq<char>, b: Seq<char>, i: nat, j: nat) -> nat
    decreases i + j,
{
    if i == 0 {
        j
    } else if j == 0 {
        i
    } else {
        let del = edit_distance(a, b, (i - 1) as nat, j) + 1;
        let ins = edit_distance(a, b, i, (j - 1) as nat) + 1;
        let sub = edit_distance(a, b, (i - 1) as nat, (j - 1) as nat) + if a[i - 1] == b[j - 1] {
            0nat
        } else {
            1nat
        };
        min_nat(min_nat(del, ins), sub)
    }
}

pub open spec fn min_nat(x: nat, y: nat) -> nat {
    if x <= y {
        x
    } else {
        y
    }
}

/// Levenshtein distance of two whole character sequences.
pub open spec fn levenshtein_spec(a: Seq<char>, b: Seq<char>) -> nat {
    edit_distance(a, b, a.len(), b.len())
}

/// The distance never exceeds the longer prefix.
pub proof fn lemma_edit_distance_bound(a: Seq<char>, b: Seq<char>, i: nat, j: nat)
    ensures
        edit_distance(a, b, i, j) <= if i >= j {
            i
        } else {
            j
        },
    decreases i + j,
{
    if i > 0 && j > 0 {
        lemma_edit_distance_bound(a, b, (i - 1) as nat, (j - 1) as nat);
    }
}

proof fn lemma_edit_distance_symmetric(a: Seq<char>, b: Seq<char>, i: nat, j: nat)
    ensures
        edit_distance(a, b, i, j) == edit_distance(b, a, j, i),
    decreases i + j,
{
    if i > 0 && j > 0 {
        lemma_edit_distance_symmetric(a, b, (i - 1) as nat, j);
        lemma_edit_distance_symmetric(a, b, i, (j - 1) as nat);
        lemma_edit_distance_symmetric(a, b, (i - 1) as nat, (j - 1) as nat);
    }
}

proof fn lemma_edit_distance_same(a: Seq<char>, i: nat)
    ensures
        edit_distance(a, a, i, i) == 0,
    decreases i,
{
    if i > 0 {
        lemma_edit_distance_same(a, (i - 1) as nat);
    }
}

proof fn lemma_edit_distance_zero(a: Seq<char>, b: Seq<char>, i: nat, j: nat)
    requires
        edit_distance(a, b, i, j) == 0,
    ensures
        i == j,
        forall|k: int| 0 <= k < i ==> a[k] == b[k],
    decreases i + j,
{
    if i > 0 && j > 0 {
        lemma_edit_distance_zero(a, b, (i - 1) as nat, (j - 1) as nat);
    }
}

/// The distance from `a` to `b` is the distance from `b` to `a`.
pub proof fn law_levenshtein_symmetric(a: Seq<char>, b: Seq<char>)
    ensures
        levenshtein_spec(a, b) == levenshtein_spec(b, a),
{
    lemma_edit_distance_symmetric(a, b, a.len(), b.len());
}

/// The distance is zero exactly between equal strings.
pub proof fn law_levenshtein_zero_iff_equal(a: Seq<char>, b: Seq<char>)
    ensures
        (levenshtein_spec(a, b) == 0) <==> (a == b),
{
    if a == b {
        lemma_edit_distance_same(a, a.len());
    }
    if levenshtein_spec(a, b) == 0 {
        lemma_edit_distance_zero(a, b, a.len(), b.len());
        assert(a =~= b);
    }
}

fn min_usize(x: usize, y: usize) -> (r: usize)
    ensures
        r == min_nat(x as nat, y as nat),
{
    if x <= y {
        x
    } else {
        y
    }
}

/// Levenshtein distance over character sequences (two-row dynamic
/// programming).
pub fn levenshtein_chars(a: &[char], b: &[char]) -> (d: usize)
    requires
        a@.len() < usize::MAX,
        b@.len() < usize::MAX,
    ensures
        d == levenshtein_spec(a@, b@),
{
    let n = b.len();
    let mut prev: Vec<usize> = Vec::new();
    let mut j: usize = 0;
    while j <= n
        invariant
            n == b@.len(),
            n < usize::MAX,
            j <= n + 1,
            prev@.len() == j,
            forall|k: int| 0 <= k < j ==> prev@[k] == edit_distance(a@, b@, 0, k as nat),
        decreases n + 1 - j,
    {
        prev.push(j);
        j = j + 1;
    }
    let mut cur: Vec<usize> = Vec::new();
    let mut k: usize = 0;
    while k <= n
        invariant
            n == b@.len(),
            n < usize::MAX,
            k <= n + 1,
            cur@.len() == k,
        decreases n + 1 - k,
    {
        cur.push(0);
        k = k + 1;
    }
    let mut i: usize = 0;
    while i < a.len()
        invariant
            n == b@.len(),
            n < usize::MAX,
            a@.len() < usize::MAX,
            i <= a@.len(),
            prev@.len() == n + 1,
            cur@.len() == n + 1,
            forall|k: int| 0 <= k <= n ==> prev@[k] == edit_distance(a@, b@, i as nat, k as nat),
        decreases a@.len() - i,
    {
        let ca = a[i];
        cur.set(0, i + 1);
        let mut j: usize = 0;
        while j < n
            invariant
                n == b@.len(),
                n < usize::MAX,
                i < a@.len(),
                a@.len() < usize::MAX,
                ca == a@[i as int],
                j <= n,
                prev@.len() == n + 1,
                cur@.len() == n + 1,
                forall|k: int|
                    0 <= k <= n ==> prev@[k] == edit_distance(a@, b@, i as nat, k as nat),
                forall|k: int|
                    0 <= k <= j ==> cur@[k] == edit_distance(a@, b@, (i + 1) as nat, k as nat),
            decreases n - j,
        {
            let cb = b[j];
            proof {
                lemma_edit_distance_bound(a@, b@, i as nat, (j + 1) as nat);
                lemma_edit_distance_bound(a@, b@, (i + 1) as nat, j as nat);
                lemma_edit_distance_bound(a@, b@, i as nat, j as nat);
            }
            let cost: usize = if ca != cb {
                1
            } else {
                0
            };
            let del = prev[j + 1] + 1;
            let ins = cur[j] + 1;
            let sub = prev[j] + cost;
            let v = min_usize(min_usize(del, ins), sub);
            cur.set(j + 1, v);
            j = j + 1;
        }
        std::mem::swap(&mut prev, &mut cur);
        i = i + 1;
    }
    prev[n]
}

/// Levenshtein distance of two names.
pub fn levenshtein(a: &str, b: &str) -> (d: usize)
    requires
        a@.len() < usize::MAX,
        b@.len() < usize::MAX,
    ensures
        d == levenshtein_spec(a@, b@),
{
    let ac = chars_of(a);
    let bc = chars_of(b);
    levenshtein_chars(ac.as_slice(), bc.as_slice())
}

/// Suggestion threshold: a third of the name's length, at least one.
pub open spec fn threshold_spec(name: Seq<char>) -> nat {
    if name.len() / 3 >= 1 {
        name.len() / 3
    } else {
        1
    }
}

/// Synthetic names (`<error>` and the like) start with `<` and are never
/// suggested.
pub open spec fn is_synthetic(c: Seq<char>) -> bool {
    c.len() > 0 && c[0] == '<'
}

/// A candidate may be suggested for `name`: not synthetic, not the name
/// itself, and within the threshold.
pub open spec fn suggestable(name: Seq<char>, c: Seq<char>) -> bool {
    &&& !is_synthetic(c)
    &&& 0 < levenshtein_spec(name, c)
    &&& levenshtein_spec(name, c) <= threshold_spec(name)
}

/// `k` is the first candidate of minimal distance among the suggestable
/// ones.
pub open spec fn is_closest(name: Seq<char>, cands: Seq<Seq<char>>, k: int) -> bool {
    &&& 0 <= k < cands.len()
    &&& suggestable(name, cands[k])
    &&& forall|i: int|
        0 <= i < cands.len() && suggestable(name, cands[i]) ==> levenshtein_spec(name, cands[k])
            <= levenshtein_spec(name, cands[i])
    &&& forall|i: int|
        0 <= i < k && suggestable(name, cands[i]) ==> levenshtein_spec(name, cands[k])
            < levenshtein_spec(name, cands[i])
}

pub open spec fn names_view(cands: Seq<String>) -> Seq<Seq<char>> {
    cands.map_values(|c: String| c@)
}

/// The closest visible name to an unknown `name`, if one is near enough:
/// the first candidate of least distance with `0 < distance <= max(len/3, 1)`;
/// candidates starting with `<` are skipped.
pub fn closest_match(name: &str, candidates: &[String]) -> (r: Option<String>)
    requires
        name@.len() < usize::MAX,
        forall|i: int| 0 <= i < candidates@.len() ==> (#[trigger] candidates@[i])@.len() < usize::MAX,
    ensures
        r is None ==> forall|i: int|
            0 <= i < candidates@.len() ==> !suggestable(name@, (#[trigger] candidates@[i])@),
        r matches Some(s) ==> exists|k: int|
            is_closest(name@, names_view(candidates@), k) && s@ == candidates@[k]@,
{
    let name_chars = chars_of(name);
    let len = name_chars.len();
    let threshold: usize = if len / 3 >= 1 {
        len / 3
    } else {
        1
    };
    let mut best: Option<(usize, usize)> = None;
    let mut i: usize = 0;
    let ghost cv = names_view(candidates@);
    while i < candidates.len()
        invariant
            name_chars@ == name@,
            name@.len() < usize::MAX,
            threshold == threshold_spec(name@),
            cv == names_view(candidates@),
            i <= candidates@.len(),
            forall|i: int| 0 <= i < candidates@.len() ==> (#[trigger] candidates@[i])@.len() < usize::MAX,
            best is None ==> forall|m: int| 0 <= m < i ==> !suggestable(name@, (#[trigger] cv[m])),
            best matches Some(p) ==> {
                &&& p.0 < i
                &&& p.1 == levenshtein_spec(name@, cv[p.0 as int])
                &&& suggestable(name@, cv[p.0 as int])
                &&& forall|m: int|
                    0 <= m < i && suggestable(name@, #[trigger] cv[m]) ==> p.1 <= levenshtein_spec(
                        name@,
                        cv[m],
                    )
                &&& forall|m: int|
                    0 <= m < p.0 && suggestable(name@, #[trigger] cv[m]) ==> p.1 < levenshtein_spec(
                        name@,
                        cv[m],
                    )
            },
        decreases candidates@.len() - i,
    {
        let c = candidates[i].as_str();
        let cc = chars_of(c);
        assert(cv[i as int] == candidates@[i as int]@);
        let synthetic = cc.len() > 0 && cc[0] == '<';
        if !synthetic {
            let d = levenshtein_chars(name_chars.as_slice(), cc.as_slice());
            if d > 0 && d <= threshold {
                match best {
                    Some((_, bd)) => {
                        if d < bd {
                            best = Some((i, d));
                        }
                    },
                    None => {
                        best = Some((i, d));
                    },
                }
            }
        }
        i = i + 1;
    }
    match best {
        Some((k, _)) => {
            assert(is_closest(name@, cv, k as int));
            Some(candidates[k].clone())
        },
        None => {
            assert forall|m: int| 0 <= m < candidates@.len() implies !suggestable(
                name@,
                (#[trigger] candidates@[m])@,
            ) by {
                assert(cv[m] == candidates@[m]@);
            }
            None
        },
    }
}

/// `closest_match`, where every text is short enough to measure (a
/// length below `usize::MAX`); `None` otherwise.
pub fn suggestion_for(name: &str, candidates: &[String]) -> (r: Option<String>)
    ensures
        name@.len() < usize::MAX && (forall|i: int| 0 <= i < candidates@.len() ==> (#[trigger] candidates@[i])@.len() < usize::MAX)
            ==> (r is None ==> forall|i: int|
            0 <= i < candidates@.len() ==> !suggestable(name@, (#[trigger] candidates@[i])@)),
        !(name@.len() < usize::MAX && (forall|i: int| 0 <= i < candidates@.len() ==> (#[trigger] candidates@[i])@.len() < usize::MAX))
            ==> r is None,
        r matches Some(s) ==> exists|k: int| is_closest(name@, names_view(candidates@), k) && s@ == candidates@[k]@,
{
    if name.unicode_len() == usize::MAX {
        return None;
    }
    let mut k: usize = 0;
    while k < candidates.len()
        invariant
            k <= candidates@.len(),
            forall|i: int| 0 <= i < k ==> (#[trigger] candidates@[i])@.len() < usize::MAX,
        decreases candidates@.len() - k,
    {
        if candidates[k].unicode_len() == usize::MAX {
            return None;
        }
        k = k + 1;
    }
    closest_match(name, candidates)
}

} // verus!
