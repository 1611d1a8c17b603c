//! Name-level rules of the resolver: the prelude builtins, the widened
//! integer type family (`u9`, `i128`) and the template base name of a
//! monomorphized instance (`Fifo_8_16` -> `Fifo`).

use vstd::prelude::*;

use crate::text::{chars_of, prefix_string};

verus! {

/// Builtin functions of the prelude.
#[derive(Clone, Copy, PartialEq, Eq, Debug, Structural)]
pub enum BuiltinKind {
    Sync,
    Sync3,
    Zext,
    Sext,
    Trunc,
    Concat,
    Replicate,
    PopCount,
    Clog2,
    /// `prev(x[, N])` — value N cycles earlier, in contracts.
    Prev,
}

/// The prelude, in declaration order. `Trit` is deliberately absent
/// (it is an opt-in import).
pub open spec fn prelude_spec() -> Seq<(Seq<char>, BuiltinKind)> {
    seq![
        ("sync"@, BuiltinKind::Sync),
        ("sync3"@, BuiltinKind::Sync3),
        ("zext"@, BuiltinKind::Zext),
        ("sext"@, BuiltinKind::Sext),
        ("trunc"@, BuiltinKind::Trunc),
        ("concat"@, BuiltinKind::Concat),
        ("replicate"@, BuiltinKind::Replicate),
        ("popcount"@, BuiltinKind::PopCount),
        ("clog2"@, BuiltinKind::Clog2),
        ("prev"@, BuiltinKind::Prev),
    ]
}

/// The prelude builtins with their names, in declaration order.
pub fn prelude_builtins() -> (r: Vec<(&'static str, BuiltinKind)>)
    ensures
        r@.len() == prelude_spec().len(),
        forall|i: int|
            0 <= i < r@.len() ==> (#[trigger] r@[i]).0@ == prelude_spec()[i].0 && r@[i].1
                == prelude_spec()[i].1,
{
    let mut r: Vec<(&'static str, BuiltinKind)> = Vec::new();
    r.push(("sync", BuiltinKind::Sync));
    r.push(("sync3", BuiltinKind::Sync3));
    r.push(("zext", BuiltinKind::Zext));
    r.push(("sext", BuiltinKind::Sext));
    r.push(("trunc", BuiltinKind::Trunc));
    r.push(("concat", BuiltinKind::Concat));
    r.push(("replicate", BuiltinKind::Replicate));
    r.push(("popcount", BuiltinKind::PopCount));
    r.push(("clog2", BuiltinKind::Clog2));
    r.push(("prev", BuiltinKind::Prev));
    r
}

pub open spec fn is_ascii_digit_spec(c: char) -> bool {
    '0' <= c && c <= '9'
}

/// `u<digits>` or `i<digits>` with at least one digit.
pub open spec fn is_widened_int_spec(name: Seq<char>) -> bool {
    &&& name.len() >= 2
    &&& (name[0] == 'u' || name[0] == 'i')
    &&& forall|k: int| 1 <= k < name.len() ==> is_ascii_digit_spec(#[trigger] name[k])
}

/// Width-suffixed builtin integer types such as `u9` and `i128`: a `u`
/// or `i` followed by one or more ASCII digits, nothing else.
pub fn is_widened_int_type(name: &str) -> (r: bool)
    ensures
        r == is_widened_int_spec(name@),
{
    let cs = chars_of(name);
    if cs.len() < 2 {
        return false;
    }
    if cs[0] != 'u' && cs[0] != 'i' {
        return false;
    }
    let mut k: usize = 1;
    while k < cs.len()
        invariant
            cs@ == name@,
            1 <= k <= cs@.len(),
            forall|m: int| 1 <= m < k ==> is_ascii_digit_spec(#[trigger] cs@[m]),
        decreases cs@.len() - k,
    {
        if !('0' <= cs[k] && cs[k] <= '9') {
            return false;
        }
        k = k + 1;
    }
    true
}

/// Index of the last `_` in `s[..n]`, if any.
pub open spec fn last_underscore(s: Seq<char>, n: int) -> Option<int>
    decreases n,
{
    if n <= 0 {
        None
    } else if s[n - 1] == '_' {
        Some(n - 1)
    } else {
        last_underscore(s, n - 1)
    }
}

pub open spec fn all_digits(s: Seq<char>, lo: int, hi: int) -> bool {
    forall|k: int| lo <= k < hi ==> is_ascii_digit_spec(#[trigger] s[k])
}

/// Length of the template base of `s[..n]`: while the prefix ends in
/// `_<digits>` with a non-empty head, the suffix is dropped.
pub open spec fn mono_base_len(s: Seq<char>, n: int) -> int
    decreases n,
{
    match last_underscore(s, n) {
        Some(u) => if 0 < u && u + 1 < n && all_digits(s, u + 1, n) && 0 <= u < n {
            mono_base_len(s, u)
        } else {
            n
        },
        None => n,
    }
}

proof fn lemma_last_underscore(s: Seq<char>, n: int)
    requires
        0 <= n <= s.len(),
    ensures
        last_underscore(s, n) matches Some(u) ==> 0 <= u < n && s[u] == '_' && forall|k: int|
            u < k < n ==> s[k] != '_',
        last_underscore(s, n) is None ==> forall|k: int| 0 <= k < n ==> s[k] != '_',
    decreases n,
{
    if n > 0 && s[n - 1] != '_' {
        lemma_last_underscore(s, n - 1);
    }
}

proof fn lemma_mono_base_len(s: Seq<char>, n: int)
    requires
        0 <= n <= s.len(),
    ensures
        0 <= mono_base_len(s, n) <= n,
    decreases n,
{
    lemma_last_underscore(s, n);
    match last_underscore(s, n) {
        Some(u) => if 0 < u && u + 1 < n && all_digits(s, u + 1, n) && 0 <= u < n {
            lemma_mono_base_len(s, u);
        },
        None => {},
    }
}

/// Template base name of a monomorphized instance: trailing `_<digits>`
/// groups are stripped (`Fifo_8_16` -> `Fifo`, `Shift_reg_4` ->
/// `Shift_reg`); names whose head or tail would be empty stay as they are
/// (`x_`, `_`).
pub fn mono_base(name: &str) -> (r: String)
    ensures
        r@ == name@.subrange(0, mono_base_len(name@, name@.len() as int)),
{
    let cs = chars_of(name);
    let mut n: usize = cs.len();
    let mut done = false;
    while !done
        invariant
            cs@ == name@,
            n <= cs@.len(),
            mono_base_len(cs@, n as int) == mono_base_len(cs@, cs@.len() as int),
            done ==> mono_base_len(cs@, n as int) == n,
        decreases n, if done { 0int } else { 1int },
    {
        proof {
            lemma_last_underscore(cs@, n as int);
        }
        // The last underscore in cs[..n].
        let mut u: usize = n;
        let mut found = false;
        while u > 0 && !found
            invariant
                n <= cs@.len(),
                u <= n,
                !found ==> forall|k: int| u <= k < n ==> cs@[k] != '_',
                found ==> 0 < u && cs@[u - 1] == '_' && forall|k: int| u <= k < n ==> cs@[k] != '_',
            decreases u, if found { 0int } else { 1int },
        {
            if cs[u - 1] == '_' {
                found = true;
            } else {
                u = u - 1;
            }
        }
        if !found {
            assert(last_underscore(cs@, n as int) is None);
            done = true;
        } else {
            let us = u - 1;
            assert(last_underscore(cs@, n as int) == Some(us as int));
            if us == 0 || us + 1 >= n {
                done = true;
            } else {
                let mut digits = true;
                let mut k: usize = us + 1;
                while k < n
                    invariant
                        n <= cs@.len(),
                        us + 1 <= k <= n,
                        digits == all_digits(cs@, us + 1, k as int),
                    decreases n - k,
                {
                    if !('0' <= cs[k] && cs[k] <= '9') {
                        digits = false;
                    }
                    k = k + 1;
                }
                if !digits {
                    done = true;
                } else {
                    n = us;
                }
            }
        }
    }
    prefix_string(&cs, n)
}

} // verus!
