//! Path strings as character sequences.
//!
//! Discovery and disambiguation work on slash-separated path strings. This
//! module gives them a mathematical model: the final component (base name),
//! the parent directory, path-prefix containment, and the depth of one path
//! below another, all defined over `Seq<char>` with executable counterparts.

use vstd::prelude::*;

verus! {

/// Index just after the last `/` of `s`; `0` when `s` holds no `/`.
pub open spec fn last_sep_end(s: Seq<char>) -> int
    decreases s.len(),
{
    if s.len() == 0 {
        0
    } else if s[s.len() - 1] == '/' {
        s.len() as int
    } else {
        last_sep_end(s.drop_last())
    }
}

pub proof fn lemma_last_sep_end_bounds(s: Seq<char>)
    ensures
        0 <= last_sep_end(s) <= s.len(),
    decreases s.len(),
{
    if s.len() > 0 && s[s.len() - 1] != '/' {
        lemma_last_sep_end_bounds(s.drop_last());
    }
}

/// The final path component: everything after the last `/`, or all of `s`
/// when it holds none.
pub open spec fn base_name(s: Seq<char>) -> Seq<char> {
    s.subrange(last_sep_end(s), s.len() as int)
}

/// The parent directory: everything before the last `/`, or empty when `s`
/// holds none. The parent of a top-level entry such as `/a` is empty.
pub open spec fn parent_dir(s: Seq<char>) -> Seq<char> {
    if last_sep_end(s) > 0 {
        s.subrange(0, last_sep_end(s) - 1)
    } else {
        Seq::empty()
    }
}

/// `p` strictly contains `q` as a path: `q` continues `p` past a separator.
/// A `p` that already ends in `/` (such as the filesystem root) contains any
/// longer `q` that extends it.
pub open spec fn strict_path_prefix(p: Seq<char>, q: Seq<char>) -> bool {
    &&& p.len() < q.len()
    &&& q.subrange(0, p.len() as int) == p
    &&& ((p.len() > 0 && p[p.len() - 1] == '/') || q[p.len() as int] == '/')
}

/// Number of non-empty slash-separated segments of `s`, with `prev_sep`
/// telling whether the character before `s` was a separator.
pub open spec fn seg_count_from(s: Seq<char>, prev_sep: bool) -> nat
    decreases s.len(),
{
    if s.len() == 0 {
        0
    } else {
        (if prev_sep && s[0] != '/' {
            1nat
        } else {
            0nat
        }) + seg_count_from(s.drop_first(), s[0] == '/')
    }
}

/// Number of non-empty slash-separated segments of `s`.
pub open spec fn seg_count(s: Seq<char>) -> nat {
    seg_count_from(s, true)
}

/// Where the part of a path below root `p` starts: right after `p` itself
/// when `p` ends in a separator, else right after the separator that follows
/// `p`.
pub open spec fn rel_start(p: Seq<char>) -> int {
    if p.len() > 0 && p[p.len() - 1] == '/' {
        p.len() as int
    } else {
        p.len() as int + 1
    }
}

/// Depth of `q` below `p`: `Some(0)` when the paths are equal, the number of
/// path segments of the part of `q` below `p` when `p` strictly contains
/// `q`, and `None` when `q` does not lie under `p`.
pub open spec fn depth_below(p: Seq<char>, q: Seq<char>) -> Option<nat> {
    if q == p {
        Some(0nat)
    } else if strict_path_prefix(p, q) {
        Some(seg_count(q.subrange(rel_start(p), q.len() as int)))
    } else {
        None
    }
}

/// Compare two string slices character by character.
pub fn str_eq(a: &str, b: &str) -> (r: bool)
    ensures
        r == (a@ == b@),
{
    let an = a.unicode_len();
    let bn = b.unicode_len();
    if an != bn {
        return false;
    }
    let mut i: usize = 0;
    while i < an
        invariant
            0 <= i <= an,
            an == a@.len(),
            bn == b@.len(),
            an == bn,
            forall|j: int| 0 <= j < i ==> a@[j] == b@[j],
        decreases an - i,
    {
        if a.get_char(i) != b.get_char(i) {
            return false;
        }
        i = i + 1;
    }
    proof {
        assert(a@ =~= b@);
    }
    true
}

/// Index just after the last `/` of `s`; `0` when `s` holds none.
pub fn last_sep_end_exec(s: &str) -> (r: usize)
    ensures
        r == last_sep_end(s@),
{
    let n = s.unicode_len();
    proof {
        assert(s@.subrange(0, n as int) =~= s@);
    }
    let mut j: usize = n;
    while j > 0
        invariant
            0 <= j <= n,
            n == s@.len(),
            last_sep_end(s@) == last_sep_end(s@.subrange(0, j as int)),
        decreases j,
    {
        proof {
            assert(s@.subrange(0, j as int).drop_last() =~= s@.subrange(0, j - 1));
        }
        if s.get_char(j - 1) == '/' {
            return j;
        }
        j = j - 1;
    }
    proof {
        assert(s@.subrange(0, 0) =~= Seq::<char>::empty());
    }
    0
}

/// The final path component of `s` as a fresh `String`.
pub fn base_name_exec(s: &str) -> (r: String)
    ensures
        r@ == base_name(s@),
{
    let n = s.unicode_len();
    let i = last_sep_end_exec(s);
    proof {
        lemma_last_sep_end_bounds(s@);
    }
    s.substring_char(i, n).to_owned()
}

/// The parent directory of `s` as a fresh `String`.
pub fn parent_dir_exec(s: &str) -> (r: String)
    ensures
        r@ == parent_dir(s@),
{
    let i = last_sep_end_exec(s);
    proof {
        lemma_last_sep_end_bounds(s@);
    }
    if i > 0 {
        s.substring_char(0, i - 1).to_owned()
    } else {
        proof {
            assert(s@.subrange(0, 0) =~= Seq::<char>::empty());
        }
        s.substring_char(0, 0).to_owned()
    }
}

/// Whether `p` strictly contains `q` as a path.
pub fn strict_path_prefix_exec(p: &str, q: &str) -> (r: bool)
    ensures
        r == strict_path_prefix(p@, q@),
{
    let pn = p.unicode_len();
    let qn = q.unicode_len();
    if pn >= qn {
        return false;
    }
    let mut i: usize = 0;
    while i < pn
        invariant
            0 <= i <= pn,
            pn == p@.len(),
            qn == q@.len(),
            pn < qn,
            forall|j: int| 0 <= j < i ==> p@[j] == q@[j],
        decreases pn - i,
    {
        if p.get_char(i) != q.get_char(i) {
            proof {
                assert(q@.subrange(0, pn as int)[i as int] != p@[i as int]);
            }
            return false;
        }
        i = i + 1;
    }
    proof {
        assert(q@.subrange(0, pn as int) =~= p@);
    }
    if pn > 0 && p.get_char(pn - 1) == '/' {
        true
    } else {
        q.get_char(pn) == '/'
    }
}

/// Number of non-empty slash-separated segments of the characters of `s`
/// from position `from` on.
pub fn seg_count_exec_from(s: &str, from: usize) -> (r: usize)
    requires
        from <= s@.len(),
    ensures
        r == seg_count(s@.subrange(from as int, s@.len() as int)),
{
    let n = s.unicode_len();
    let mut i: usize = from;
    let mut prev_sep: bool = true;
    let mut count: usize = 0;
    while i < n
        invariant
            from <= i <= n,
            n == s@.len(),
            count <= i - from,
            seg_count_from(s@.subrange(from as int, n as int), true) == count + seg_count_from(
                s@.subrange(i as int, n as int),
                prev_sep,
            ),
        decreases n - i,
    {
        let c = s.get_char(i);
        proof {
            assert(s@.subrange(i as int, n as int).drop_first() =~= s@.subrange(
                i + 1,
                n as int,
            ));
            assert(s@.subrange(i as int, n as int)[0] == c);
        }
        if prev_sep && c != '/' {
            count = count + 1;
        }
        prev_sep = c == '/';
        i = i + 1;
    }
    count
}

/// Depth of `q` below `p`, as [`depth_below`] gives it.
pub fn depth_below_exec(p: &str, q: &str) -> (r: Option<usize>)
    ensures
        match r {
            Some(k) => depth_below(p@, q@) == Some(k as nat),
            None => depth_below(p@, q@) is None,
        },
{
    if str_eq(p, q) {
        return Some(0);
    }
    if !strict_path_prefix_exec(p, q) {
        return None;
    }
    let pn = p.unicode_len();
    let qn = q.unicode_len();
    assert(pn < qn);
    let start: usize = if pn > 0 && p.get_char(pn - 1) == '/' {
        pn
    } else {
        pn + 1
    };
    Some(seg_count_exec_from(q, start))
}

} // verus!
