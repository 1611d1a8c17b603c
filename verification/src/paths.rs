//! Slash-separated paths compared component by component, as
//! `std::path::Path` does on Unix: repeated separators and `.` inside a
//! path are not components, a leading `/` is the root component and a
//! leading `.` the current-directory component.

use vstd::prelude::*;

use crate::text::{find_char, index_of, range_eq};

verus! {

/// The normal components of `s`: the non-empty pieces between slashes,
/// `.` excluded.
pub open spec fn normal_parts(s: Seq<char>) -> Seq<Seq<char>>
    decreases s.len(),
{
    let e = index_of(s, '/');
    let seg = s.subrange(0, e);
    let rest = if 0 <= e < s.len() {
        normal_parts(s.subrange(e + 1, s.len() as int))
    } else {
        Seq::<Seq<char>>::empty()
    };
    if seg.len() == 0 || seg == "."@ {
        rest
    } else {
        seq![seg] + rest
    }
}

/// Whether `s` starts with the current-directory component.
pub open spec fn starts_with_cur_dir(s: Seq<char>) -> bool {
    s.len() >= 1 && s[0] == '.' && (s.len() == 1 || s[1] == '/')
}

/// The components of `s`; the root is written `/`, the current directory
/// `.` (no normal component is either).
pub open spec fn components(s: Seq<char>) -> Seq<Seq<char>> {
    if s.len() > 0 && s[0] == '/' {
        seq!["/"@] + normal_parts(s.subrange(1, s.len() as int))
    } else if starts_with_cur_dir(s) {
        seq!["."@] + normal_parts(s)
    } else {
        normal_parts(s)
    }
}

/// `Path::starts_with`: the components of `base` begin with those of `root`.
pub open spec fn path_starts_with(base: Seq<char>, root: Seq<char>) -> bool {
    let b = components(base);
    let r = components(root);
    r.len() <= b.len() && b.subrange(0, r.len() as int) == r
}

/// The views of a vector of character vectors.
pub open spec fn views(v: Seq<Vec<char>>) -> Seq<Seq<char>> {
    Seq::new(v.len(), |i: int| v[i]@)
}

fn push_part(out: &mut Vec<Vec<char>>, s: &Vec<char>, lo: usize, hi: usize)
    requires
        lo <= hi <= s@.len(),
    ensures
        views(final(out)@) == views(old(out)@).push(s@.subrange(lo as int, hi as int)),
{
    let mut part: Vec<char> = Vec::new();
    let mut i: usize = lo;
    while i < hi
        invariant
            lo <= i <= hi,
            hi <= s@.len(),
            part@ == s@.subrange(lo as int, i as int),
        decreases hi - i,
    {
        part.push(s[i]);
        i = i + 1;
        assert(part@ =~= s@.subrange(lo as int, i as int));
    }
    out.push(part);
    assert(views(out@) =~= views(old(out)@).push(s@.subrange(lo as int, hi as int)));
}

/// Appends the normal components of `s[lo..]` to `out`.
fn push_normal_parts(out: &mut Vec<Vec<char>>, s: &Vec<char>, lo: usize)
    requires
        lo <= s@.len(),
    ensures
        views(final(out)@) == views(old(out)@) + normal_parts(s@.subrange(lo as int, s@.len() as int)),
{
    let n = s.len();
    let mut pos: usize = lo;
    let ghost whole = s@.subrange(lo as int, n as int);
    assert(views(out@) + normal_parts(whole) =~= views(old(out)@) + normal_parts(whole));
    loop
        invariant
            n == s@.len(),
            lo <= pos <= n,
            whole == s@.subrange(lo as int, n as int),
            views(out@) + normal_parts(s@.subrange(pos as int, n as int)) == views(old(out)@)
                + normal_parts(whole),
        decreases n - pos,
    {
        let ghost t = s@.subrange(pos as int, n as int);
        let e = find_char(s, pos, n, '/');
        proof {
            assert(t.subrange(0, e - pos) =~= s@.subrange(pos as int, e as int));
            if e < n {
                assert(t.subrange(e - pos + 1, t.len() as int) =~= s@.subrange(e + 1, n as int));
            }
        }
        let ghost rest = if e < n {
            normal_parts(s@.subrange(e + 1, n as int))
        } else {
            Seq::<Seq<char>>::empty()
        };
        let skip = e == pos || range_eq(s, pos, e, ".");
        if !skip {
            let ghost before = views(out@);
            push_part(out, s, pos, e);
            assert(views(out@) + rest =~= before + (seq![s@.subrange(pos as int, e as int)] + rest));
        }
        if e < n {
            pos = e + 1;
        } else {
            assert(views(out@) + Seq::<Seq<char>>::empty() =~= views(out@));
            return;
        }
    }
}

/// The components of `s`.
pub fn path_components(s: &Vec<char>) -> (r: Vec<Vec<char>>)
    ensures
        views(r@) == components(s@),
{
    let mut out: Vec<Vec<char>> = Vec::new();
    let n = s.len();
    if n > 0 && s[0] == '/' {
        let root: Vec<char> = vec!['/'];
        proof {
            reveal_strlit("/");
            assert(root@ =~= "/"@);
        }
        out.push(root);
        assert(views(out@) =~= seq!["/"@]);
        push_normal_parts(&mut out, s, 1);
    } else {
        if n >= 1 && s[0] == '.' && (n == 1 || s[1] == '/') {
            let cur: Vec<char> = vec!['.'];
            proof {
                reveal_strlit(".");
                assert(cur@ =~= "."@);
            }
            out.push(cur);
            assert(views(out@) =~= seq!["."@]);
        } else {
            assert(views(out@) =~= Seq::<Seq<char>>::empty());
        }
        push_normal_parts(&mut out, s, 0);
        assert(s@.subrange(0, n as int) =~= s@);
    }
    proof {
        if !(n > 0 && s@[0] == '/') && !starts_with_cur_dir(s@) {
            assert(Seq::<Seq<char>>::empty() + normal_parts(s@) =~= normal_parts(s@));
        }
    }
    out
}

/// `Path::starts_with` on two slash-separated paths.
pub fn starts_with_path(base: &Vec<char>, root: &Vec<char>) -> (r: bool)
    ensures
        r == path_starts_with(base@, root@),
{
    let b = path_components(base);
    let rc = path_components(root);
    if rc.len() > b.len() {
        return false;
    }
    let mut i: usize = 0;
    while i < rc.len()
        invariant
            views(b@) == components(base@),
            views(rc@) == components(root@),
            rc@.len() <= b@.len(),
            i <= rc@.len(),
            forall|k: int| 0 <= k < i ==> b@[k]@ == rc@[k]@,
        decreases rc@.len() - i,
    {
        let same = crate::text::eq_chars(&b[i], &rc[i]);
        if !same {
            assert(views(b@).subrange(0, rc@.len() as int)[i as int] != views(rc@)[i as int]);
            return false;
        }
        i = i + 1;
    }
    assert(views(b@).subrange(0, rc@.len() as int) =~= views(rc@));
    true
}

/// Every path starts with itself.
pub proof fn lemma_starts_with_itself(p: Seq<char>)
    ensures
        path_starts_with(p, p),
{
    assert(components(p).subrange(0, components(p).len() as int) =~= components(p));
}

} // verus!
