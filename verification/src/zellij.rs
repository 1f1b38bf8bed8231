//! Session reconciliation for the external multiplexer.
//!
//! The multiplexer's session listing is line-oriented: each non-blank line's
//! first whitespace-delimited token is a session name, and trailing status
//! annotations are discarded. A session is orphaned when no discovered
//! project's display name equals it. Whitespace here means space, tab and
//! carriage return.

use vstd::prelude::*;

use crate::discovery::names_of;
use crate::discovery::Project;

verus! {

/// Whether `c` separates tokens in a session listing.
pub open spec fn is_ws(c: char) -> bool {
    c == ' ' || c == '\t' || c == '\r'
}

/// Index of the first newline of `s`; `s.len()` when it holds none.
pub open spec fn first_nl(s: Seq<char>) -> int
    decreases s.len(),
{
    if s.len() == 0 {
        0
    } else if s[0] == '\n' {
        0
    } else {
        1 + first_nl(s.drop_first())
    }
}

/// Index of the first non-whitespace character of `s`; `s.len()` when `s` is
/// all whitespace.
pub open spec fn first_non_ws(s: Seq<char>) -> int
    decreases s.len(),
{
    if s.len() == 0 {
        0
    } else if !is_ws(s[0]) {
        0
    } else {
        1 + first_non_ws(s.drop_first())
    }
}

/// Index of the first whitespace character of `s`; `s.len()` when it holds
/// none.
pub open spec fn first_ws(s: Seq<char>) -> int
    decreases s.len(),
{
    if s.len() == 0 {
        0
    } else if is_ws(s[0]) {
        0
    } else {
        1 + first_ws(s.drop_first())
    }
}

pub proof fn lemma_first_nl_bounds(s: Seq<char>)
    ensures
        0 <= first_nl(s) <= s.len(),
    decreases s.len(),
{
    if s.len() > 0 && s[0] != '\n' {
        lemma_first_nl_bounds(s.drop_first());
    }
}

pub proof fn lemma_first_non_ws_bounds(s: Seq<char>)
    ensures
        0 <= first_non_ws(s) <= s.len(),
    decreases s.len(),
{
    if s.len() > 0 && is_ws(s[0]) {
        lemma_first_non_ws_bounds(s.drop_first());
    }
}

pub proof fn lemma_first_ws_bounds(s: Seq<char>)
    ensures
        0 <= first_ws(s) <= s.len(),
    decreases s.len(),
{
    if s.len() > 0 && !is_ws(s[0]) {
        lemma_first_ws_bounds(s.drop_first());
    }
}

/// Whether a line holds only whitespace.
pub open spec fn is_blank(line: Seq<char>) -> bool {
    first_non_ws(line) == line.len()
}

/// The first whitespace-delimited token of a line.
pub open spec fn first_token(line: Seq<char>) -> Seq<char> {
    let start = first_non_ws(line);
    let rest = line.subrange(start, line.len() as int);
    line.subrange(start, start + first_ws(rest))
}

/// The session names of a listing: the first token of each non-blank line,
/// in listing order.
pub open spec fn spec_session_names(s: Seq<char>) -> Seq<Seq<char>>
    decreases s.len(),
        via spec_session_names_decreases
{
    if s.len() == 0 {
        Seq::empty()
    } else {
        let n = first_nl(s);
        let line = s.subrange(0, n);
        let rest = if n + 1 <= s.len() {
            spec_session_names(s.subrange(n + 1, s.len() as int))
        } else {
            Seq::empty()
        };
        if is_blank(line) {
            rest
        } else {
            seq![first_token(line)] + rest
        }
    }
}

#[via_fn]
proof fn spec_session_names_decreases(s: Seq<char>) {
    lemma_first_nl_bounds(s);
}

/// Whether `c` separates tokens in a session listing.
pub fn is_ws_exec(c: char) -> (r: bool)
    ensures
        r == is_ws(c),
{
    c == ' ' || c == '\t' || c == '\r'
}

/// Index of the first newline of `s` at or after `from`; `s`'s length when
/// there is none.
fn find_newline(s: &str, from: usize) -> (r: usize)
    requires
        from <= s@.len(),
    ensures
        from <= r <= s@.len(),
        r - from == first_nl(s@.subrange(from as int, s@.len() as int)),
    {
    let n = s.unicode_len();
    let mut j: usize = from;
    while j < n
        invariant
            from <= j <= n,
            n == s@.len(),
            first_nl(s@.subrange(from as int, n as int)) == j - from + first_nl(
                s@.subrange(j as int, n as int),
            ),
        decreases n - j,
    {
        proof {
            assert(s@.subrange(j as int, n as int).drop_first() =~= s@.subrange(
                j + 1,
                n as int,
            ));
            lemma_first_nl_bounds(s@.subrange(j + 1, n as int));
        }
        if s.get_char(j) == '\n' {
            return j;
        }
        j = j + 1;
    }
    proof {
        assert(s@.subrange(n as int, n as int).len() == 0);
    }
    n
}

/// Index of the first non-whitespace character of `s` in `[from, to)`; `to`
/// when there is none.
fn find_non_ws(s: &str, from: usize, to: usize) -> (r: usize)
    requires
        from <= to <= s@.len(),
    ensures
        from <= r <= to,
        r - from == first_non_ws(s@.subrange(from as int, to as int)),
{
    let mut j: usize = from;
    while j < to
        invariant
            from <= j <= to,
            to <= s@.len(),
            first_non_ws(s@.subrange(from as int, to as int)) == j - from + first_non_ws(
                s@.subrange(j as int, to as int),
            ),
        decreases to - j,
    {
        proof {
            assert(s@.subrange(j as int, to as int).drop_first() =~= s@.subrange(
                j + 1,
                to as int,
            ));
            lemma_first_non_ws_bounds(s@.subrange(j + 1, to as int));
        }
        if !is_ws_exec(s.get_char(j)) {
            return j;
        }
        j = j + 1;
    }
    proof {
        assert(s@.subrange(to as int, to as int).len() == 0);
    }
    to
}

/// Index of the first whitespace character of `s` in `[from, to)`; `to`
/// when there is none.
fn find_ws(s: &str, from: usize, to: usize) -> (r: usize)
    requires
        from <= to <= s@.len(),
    ensures
        from <= r <= to,
        r - from == first_ws(s@.subrange(from as int, to as int)),
{
    let mut j: usize = from;
    while j < to
        invariant
            from <= j <= to,
            to <= s@.len(),
            first_ws(s@.subrange(from as int, to as int)) == j - from + first_ws(
                s@.subrange(j as int, to as int),
            ),
        decreases to - j,
    {
        proof {
            assert(s@.subrange(j as int, to as int).drop_first() =~= s@.subrange(
                j + 1,
                to as int,
            ));
            lemma_first_ws_bounds(s@.subrange(j + 1, to as int));
        }
        if is_ws_exec(s.get_char(j)) {
            return j;
        }
        j = j + 1;
    }
    proof {
        assert(s@.subrange(to as int, to as int).len() == 0);
    }
    to
}

/// Parse the multiplexer's session listing into session names: one name per
/// non-blank line, the line's first whitespace-delimited token, in listing
/// order. Blank and all-whitespace lines are ignored, and whatever follows
/// the name on its line — a current-session or exited marker — is dropped.
pub fn parse_list_sessions_output(output: &str) -> (r: Vec<String>)
    ensures
        r.deep_view() == spec_session_names(output@),
{
    let n = output.unicode_len();
    let mut out: Vec<String> = Vec::new();
    let mut i: usize = 0;
    proof {
        assert(output@.subrange(0, n as int) =~= output@);
    }
    while i < n
        invariant
            0 <= i <= n,
            n == output@.len(),
            spec_session_names(output@) =~= out.deep_view() + spec_session_names(
                output@.subrange(i as int, n as int),
            ),
        decreases n - i,
    {
        let ghost tail = output@.subrange(i as int, n as int);
        let ghost before = out.deep_view();
        let e = find_newline(output, i);
        proof {
            lemma_first_nl_bounds(tail);
            assert(tail.subrange(0, first_nl(tail)) =~= output@.subrange(i as int, e as int));
        }
        let ghost line = output@.subrange(i as int, e as int);
        let ghost rest = if e < n {
            spec_session_names(output@.subrange(e + 1, n as int))
        } else {
            Seq::<Seq<char>>::empty()
        };
        proof {
            if e < n {
                assert(tail.subrange(first_nl(tail) + 1, tail.len() as int) =~= output@.subrange(
                    e + 1,
                    n as int,
                ));
            }
            assert(spec_session_names(tail) == if is_blank(line) {
                rest
            } else {
                seq![first_token(line)] + rest
            });
        }
        let ts = find_non_ws(output, i, e);
        proof {
            assert(line.subrange(0, line.len() as int) =~= line);
            assert(first_non_ws(line) == ts - i);
        }
        if ts < e {
            // The line holds a token: it runs to the first whitespace.
            let te = find_ws(output, ts, e);
            proof {
                assert(line.subrange(ts - i, line.len() as int) =~= output@.subrange(
                    ts as int,
                    e as int,
                ));
                assert(first_token(line) =~= output@.subrange(ts as int, te as int));
                assert(!is_blank(line));
            }
            let token = output.substring_char(ts, te).to_owned();
            out.push(token);
            proof {
                assert(out.deep_view() =~= before.push(token@));
                assert(before.push(token@) =~= before + seq![first_token(line)]);
                assert((before + seq![first_token(line)]) + rest =~= before + (seq![
                    first_token(line),
                ] + rest));
            }
        } else {
            proof {
                assert(is_blank(line));
            }
        }
        if e < n {
            i = e + 1;
        } else {
            i = n;
            proof {
                assert(output@.subrange(n as int, n as int).len() == 0);
            }
        }
    }
    proof {
        assert(output@.subrange(n as int, n as int).len() == 0);
        assert(out.deep_view() + Seq::<Seq<char>>::empty() =~= out.deep_view());
    }
    out
}

/// Whether `name` occurs in `sessions`.
pub open spec fn name_in(sessions: Seq<Seq<char>>, name: Seq<char>) -> bool {
    exists|i: int| 0 <= i < sessions.len() && #[trigger] sessions[i] == name
}

/// Whether a session named `name` stands in the session list.
pub fn session_exists(sessions: &Vec<String>, name: &str) -> (r: bool)
    ensures
        r == name_in(sessions.deep_view(), name@),
{
    let n = sessions.len();
    let mut i: usize = 0;
    while i < n
        invariant
            0 <= i <= n,
            n == sessions@.len(),
            forall|j: int| 0 <= j < i ==> sessions.deep_view()[j] != name@,
        decreases n - i,
    {
        if crate::paths::str_eq(sessions[i].as_str(), name) {
            proof {
                assert(sessions.deep_view()[i as int] == name@);
            }
            return true;
        }
        i = i + 1;
    }
    false
}

/// The orphans among the first `n` sessions: those equal to no name in
/// `names`, in session order.
pub open spec fn spec_orphaned_upto(
    sessions: Seq<Seq<char>>,
    names: Seq<Seq<char>>,
    n: int,
) -> Seq<Seq<char>>
    decreases n,
{
    if n <= 0 {
        Seq::empty()
    } else {
        let rest = spec_orphaned_upto(sessions, names, n - 1);
        if name_in(names, sessions[n - 1]) {
            rest
        } else {
            rest.push(sessions[n - 1])
        }
    }
}

/// The orphaned sessions: those whose name equals no name in `names`.
pub open spec fn spec_orphaned(sessions: Seq<Seq<char>>, names: Seq<Seq<char>>) -> Seq<Seq<char>> {
    spec_orphaned_upto(sessions, names, sessions.len() as int)
}

/// The sessions that correspond to no known project: a session is orphaned
/// exactly when no project's (already-disambiguated) display name equals it.
/// Orphans come out in session-list order.
pub fn find_orphaned_sessions(sessions: &Vec<String>, projects: &Vec<Project>) -> (r: Vec<String>)
    ensures
        r.deep_view() == spec_orphaned(sessions.deep_view(), names_of(projects@)),
{
    let n = sessions.len();
    let mut out: Vec<String> = Vec::new();
    let mut i: usize = 0;
    while i < n
        invariant
            0 <= i <= n,
            n == sessions@.len(),
            out.deep_view() =~= spec_orphaned_upto(
                sessions.deep_view(),
                names_of(projects@),
                i as int,
            ),
        decreases n - i,
    {
        let ghost names = names_of(projects@);
        let session = sessions[i].as_str();
        let m = projects.len();
        let mut j: usize = 0;
        let mut matched = false;
        while j < m
            invariant
                0 <= j <= m,
                m == projects@.len(),
                names == names_of(projects@),
                session@ == sessions@[i as int]@,
                matched ==> name_in(names, sessions.deep_view()[i as int]),
                !matched ==> forall|k: int| 0 <= k < j ==> names[k] != sessions.deep_view()[
                    i as int
                ],
                i < n,
                n == sessions@.len(),
            decreases m - j,
        {
            proof {
                assert(names[j as int] == projects@[j as int].name@);
                assert(sessions.deep_view()[i as int] == sessions@[i as int]@);
            }
            if !matched && crate::paths::str_eq(projects[j].name.as_str(), session) {
                proof {
                    assert(names[j as int] == sessions.deep_view()[i as int]);
                }
                matched = true;
            }
            j = j + 1;
        }
        if !matched {
            proof {
                assert(!name_in(names, sessions.deep_view()[i as int]));
            }
            out.push(sessions[i].clone());
        }
        proof {
            assert(out.deep_view() =~= spec_orphaned_upto(
                sessions.deep_view(),
                names_of(projects@),
                i + 1,
            ));
        }
        i = i + 1;
    }
    out
}

/// What `switch` does for a project: attach when its session already exists,
/// otherwise create the session.
#[derive(Debug, Clone, Copy, PartialEq, Eq, Structural)]
pub enum SessionAction {
    /// Attach to the existing session.
    Attach,
    /// Create the session, with layout and working directory, then attach.
    Create,
}

/// Decide the switch transition from whether the project's session already
/// stands in the multiplexer's list.
pub fn decide_switch_action(already_exists: bool) -> (r: SessionAction)
    ensures
        r == (if already_exists {
            SessionAction::Attach
        } else {
            SessionAction::Create
        }),
{
    if already_exists {
        SessionAction::Attach
    } else {
        SessionAction::Create
    }
}

/// Which layout a newly created session uses.
#[derive(Debug, Clone, Copy, PartialEq, Eq, Structural)]
pub enum LayoutChoice {
    /// The project-local layout marker file inside the project directory.
    ProjectLocal,
    /// The user-global default layout file under the home directory.
    GlobalDefault,
    /// The external program's own built-in default.
    ProgramDefault,
}

/// Resolve the layout for a new session: a project-local layout always wins,
/// then the user-global default, then the program's built-in fallback.
pub fn resolve_layout(project_layout_exists: bool, global_layout_exists: bool) -> (r: LayoutChoice)
    ensures
        r == (if project_layout_exists {
            LayoutChoice::ProjectLocal
        } else if global_layout_exists {
            LayoutChoice::GlobalDefault
        } else {
            LayoutChoice::ProgramDefault
        }),
{
    if project_layout_exists {
        LayoutChoice::ProjectLocal
    } else if global_layout_exists {
        LayoutChoice::GlobalDefault
    } else {
        LayoutChoice::ProgramDefault
    }
}

} // verus!
