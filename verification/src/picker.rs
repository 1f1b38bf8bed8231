//! Query resolution against the project list.
//!
//! A direct query matches a project when the lowercased display name
//! contains the lowercased query as a substring; resolution succeeds only
//! when exactly one project matches, ambiguity and no-match both falling
//! through to interactive selection. The interactive picker itself is an
//! external collaborator; what comes back from it is mapped to a project by
//! exact name here.

use vstd::prelude::*;

use crate::discovery::Project;

verus! {

/// What str::to_lowercase returns for these characters.
pub uninterp spec fn lower_of(s: Seq<char>) -> Seq<char>;

/// Relies on str::to_lowercase: the result is a function of the characters
/// alone, and an empty string stays empty.
#[verifier::external_body]
fn lowercase(s: &str) -> (r: String)
    ensures
        r@ == lower_of(s@),
        s@.len() == 0 ==> r@.len() == 0,
{
    s.to_lowercase()
}

/// Whether `needle` occurs in `hay` as a contiguous run.
pub open spec fn contains_seq(hay: Seq<char>, needle: Seq<char>) -> bool {
    exists|k: int|
        0 <= k <= hay.len() - needle.len() && #[trigger] hay.subrange(k, k + needle.len() as int)
            == needle
}

/// Whether the characters of `hay` starting at `k` are exactly `needle`.
fn match_at(hay: &str, needle: &str, k: usize) -> (r: bool)
    requires
        k + needle@.len() <= hay@.len(),
    ensures
        r == (hay@.subrange(k as int, k as int + needle@.len() as int) == needle@),
{
    let hn = hay.unicode_len();
    let nn = needle.unicode_len();
    let mut t: usize = 0;
    while t < nn
        invariant
            0 <= t <= nn,
            nn == needle@.len(),
            hn == hay@.len(),
            k + nn <= hn,
            forall|j: int| 0 <= j < t ==> hay@[k + j] == needle@[j],
        decreases nn - t,
    {
        if hay.get_char(k + t) != needle.get_char(t) {
            proof {
                assert(hay@.subrange(k as int, k as int + needle@.len() as int)[t as int]
                    != needle@[t as int]);
            }
            return false;
        }
        t = t + 1;
    }
    proof {
        assert(hay@.subrange(k as int, k as int + needle@.len() as int) =~= needle@);
    }
    true
}

/// Whether `needle` occurs in `hay` as a contiguous run of characters.
pub fn contains_sub(hay: &str, needle: &str) -> (r: bool)
    ensures
        r == contains_seq(hay@, needle@),
{
    let hn = hay.unicode_len();
    let nn = needle.unicode_len();
    if nn > hn {
        return false;
    }
    if nn == 0 {
        proof {
            assert(hay@.subrange(0, 0 + needle@.len() as int) =~= needle@);
            assert(0 <= 0 <= hay@.len() - needle@.len() && hay@.subrange(
                0,
                0 + needle@.len() as int,
            ) == needle@);
        }
        return true;
    }
    let mut k: usize = 0;
    while k <= hn - nn
        invariant
            0 <= k <= hn - nn + 1,
            1 <= nn <= hn,
            hn == hay@.len(),
            nn == needle@.len(),
            forall|k2: int|
                0 <= k2 < k ==> #[trigger] hay@.subrange(k2, k2 + needle@.len() as int)
                    != needle@,
        decreases hn + 1 - nn - k,
    {
        if match_at(hay, needle, k) {
            return true;
        }
        k = k + 1;
    }
    false
}

/// Whether the query matches a project: the lowercased display name
/// contains the lowercased query.
pub open spec fn query_matches(p: Project, query: Seq<char>) -> bool {
    contains_seq(lower_of(p.name@), lower_of(query))
}

/// How many of the first `n` projects the query matches.
pub open spec fn match_count_upto(s: Seq<Project>, query: Seq<char>, n: int) -> nat
    decreases n,
{
    if n <= 0 {
        0
    } else {
        match_count_upto(s, query, n - 1) + (if query_matches(s[n - 1], query) {
            1nat
        } else {
            0nat
        })
    }
}

/// How many projects the query matches.
pub open spec fn match_count(s: Seq<Project>, query: Seq<char>) -> nat {
    match_count_upto(s, query, s.len() as int)
}

/// Resolve a direct query: the single project whose lowercased name
/// contains the lowercased query, when exactly one does. Zero or several
/// matches resolve to nothing — ambiguity is left to interactive selection,
/// never guessed.
pub fn fuzzy_match_single(projects: &Vec<Project>, query: &str) -> (r: Option<Project>)
    ensures
        match r {
            Some(p) => match_count(projects@, query@) == 1 && exists|i: int|
                0 <= i < projects@.len() && projects@[i] == p && query_matches(
                    #[trigger] projects@[i],
                    query@,
                ),
            None => match_count(projects@, query@) != 1,
        },
{
    let lq = lowercase(query);
    let n = projects.len();
    let mut count: usize = 0;
    let mut first: usize = 0;
    let mut i: usize = 0;
    while i < n
        invariant
            0 <= i <= n,
            n == projects@.len(),
            lq@ == lower_of(query@),
            count == match_count_upto(projects@, query@, i as int),
            count <= i,
            count > 0 ==> first < i && query_matches(projects@[first as int], query@)
                && projects@.len() > 0,
        decreases n - i,
    {
        let ln = lowercase(projects[i].name.as_str());
        if contains_sub(ln.as_str(), lq.as_str()) {
            if count == 0 {
                first = i;
            }
            count = count + 1;
        }
        i = i + 1;
    }
    if count == 1 {
        let p = projects[first].duplicate();
        proof {
            assert(projects@[first as int] == p);
        }
        Some(p)
    } else {
        None
    }
}

/// Index of the first project named `name`; the sequence's length when none
/// is.
pub open spec fn first_with_name(s: Seq<Project>, name: Seq<char>) -> int
    decreases s.len(),
{
    if s.len() == 0 {
        0
    } else if s[0].name@ == name {
        0
    } else {
        1 + first_with_name(s.drop_first(), name)
    }
}

pub proof fn lemma_first_with_name_bounds(s: Seq<Project>, name: Seq<char>)
    ensures
        0 <= first_with_name(s, name) <= s.len(),
    decreases s.len(),
{
    if s.len() > 0 && s[0].name@ != name {
        lemma_first_with_name_bounds(s.drop_first(), name);
    }
}

/// The first project whose display name equals `name` exactly; nothing when
/// none does. This maps an interactive selection back to its project.
pub fn find_by_name(projects: &Vec<Project>, name: &str) -> (r: Option<Project>)
    ensures
        match r {
            Some(p) => first_with_name(projects@, name@) < projects@.len() && p == projects@[
                first_with_name(projects@, name@)
            ],
            None => first_with_name(projects@, name@) == projects@.len(),
        },
{
    let n = projects.len();
    let mut i: usize = 0;
    proof {
        assert(projects@.skip(0) =~= projects@);
    }
    while i < n
        invariant
            0 <= i <= n,
            n == projects@.len(),
            first_with_name(projects@, name@) == i + first_with_name(
                projects@.skip(i as int),
                name@,
            ),
        decreases n - i,
    {
        proof {
            assert(projects@.skip(i as int).drop_first() =~= projects@.skip(i as int + 1));
            assert(projects@.skip(i as int)[0] == projects@[i as int]);
            lemma_first_with_name_bounds(projects@.skip(i as int + 1), name@);
        }
        if crate::paths::str_eq(projects[i].name.as_str(), name) {
            return Some(projects[i].duplicate());
        }
        i = i + 1;
    }
    proof {
        assert(projects@.skip(n as int).len() == 0);
    }
    None
}

} // verus!
