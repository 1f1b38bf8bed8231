//! Project discovery.
//!
//! A repository boundary is a directory that directly contains an entry named
//! `.git`. Discovery walks each configured root to a bounded depth, emits one
//! [`Project`] per boundary within depth, refuses boundaries nested inside an
//! already-qualifying boundary, and finally rewrites colliding display names
//! by prefixing the parent directory's base name.

use vstd::multiset::Multiset;
use vstd::prelude::*;

use crate::config::Config;
use crate::paths::base_name;
use crate::paths::base_name_exec;
use crate::paths::depth_below;
use crate::paths::depth_below_exec;
use crate::paths::parent_dir;
use crate::paths::parent_dir_exec;
use crate::paths::strict_path_prefix;
use crate::paths::strict_path_prefix_exec;

verus! {

/// A discovered project ready for session management.
#[derive(Debug, Clone, PartialEq, Eq)]
pub struct Project {
    /// Display name: the base name of the directory, or `parent/base` after
    /// collision resolution.
    pub name: String,
    /// Absolute path to open in a session.
    pub path: String,
    /// Repository root; equals `path` for plain repositories.
    pub repo_root: String,
    /// If this is a worktree, which branch it tracks. Never populated by
    /// discovery; reserved.
    pub worktree_branch: Option<String>,
    /// If this is a sparse checkout, the zone path. Never populated by
    /// discovery; reserved.
    pub sparse_zone: Option<String>,
}

impl Project {
    /// A field-for-field copy whose equality with the original is known to
    /// the verifier.
    pub fn duplicate(&self) -> (r: Project)
        ensures
            r == *self,
    {
        Project {
            name: self.name.clone(),
            path: self.path.clone(),
            repo_root: self.repo_root.clone(),
            worktree_branch: match &self.worktree_branch {
                Some(s) => Some(s.clone()),
                None => None,
            },
            sparse_zone: match &self.sparse_zone {
                Some(s) => Some(s.clone()),
                None => None,
            },
        }
    }
}

/// The fixed-name version-control marker: an entry called `.git`.
pub open spec fn marker_name() -> Seq<char> {
    seq!['.', 'g', 'i', 't']
}

/// Whether walk entry `e` is a version-control marker.
pub open spec fn is_marker(e: Seq<char>) -> bool {
    base_name(e) == marker_name()
}

/// Whether walk entry `e` announces a repository within depth: it is a
/// marker, and the directory holding it sits strictly between 0 and `d`
/// levels below `root`.
pub open spec fn qualifies(root: Seq<char>, d: nat, e: Seq<char>) -> bool {
    is_marker(e) && match depth_below(root, parent_dir(e)) {
        Some(k) => 1 <= k <= d,
        None => false,
    }
}

/// Whether directory `p` lies strictly inside a repository announced by some
/// qualifying entry of `entries`.
pub open spec fn dir_shadowed(root: Seq<char>, d: nat, entries: Seq<Seq<char>>, p: Seq<char>) -> bool {
    exists|i: int|
        0 <= i < entries.len() && qualifies(root, d, #[trigger] entries[i]) && strict_path_prefix(
            parent_dir(entries[i]),
            p,
        )
}

/// Whether the repository announced by `e` lies strictly inside a repository
/// announced by some qualifying entry of `entries`.
pub open spec fn shadowed(root: Seq<char>, d: nat, entries: Seq<Seq<char>>, e: Seq<char>) -> bool {
    dir_shadowed(root, d, entries, parent_dir(e))
}

/// Whether directory `p` sits strictly between 0 and `d` levels below
/// `root`.
pub open spec fn dir_within_depth(root: Seq<char>, d: nat, p: Seq<char>) -> bool {
    match depth_below(root, p) {
        Some(k) => 1 <= k <= d,
        None => false,
    }
}

/// Whether some qualifying entry of `entries` announces directory `p` as a
/// repository.
pub open spec fn dir_announced(root: Seq<char>, d: nat, entries: Seq<Seq<char>>, p: Seq<char>) -> bool {
    exists|i: int|
        0 <= i < entries.len() && qualifies(root, d, #[trigger] entries[i]) && parent_dir(
            entries[i],
        ) == p
}

/// Whether entry `e` yields a project: it qualifies and no qualifying entry
/// of `entries` shadows it.
pub open spec fn emitted(root: Seq<char>, d: nat, entries: Seq<Seq<char>>, e: Seq<char>) -> bool {
    qualifies(root, d, e) && !shadowed(root, d, entries, e)
}

/// The project paths that the first `n` entries yield, in entry order.
pub open spec fn emitted_paths_upto(
    root: Seq<char>,
    d: nat,
    entries: Seq<Seq<char>>,
    n: int,
) -> Seq<Seq<char>>
    decreases n,
{
    if n <= 0 {
        Seq::empty()
    } else {
        let rest = emitted_paths_upto(root, d, entries, n - 1);
        if emitted(root, d, entries, entries[n - 1]) {
            rest.push(parent_dir(entries[n - 1]))
        } else {
            rest
        }
    }
}

/// The project paths that a full walk yields, in entry order.
pub open spec fn emitted_paths(root: Seq<char>, d: nat, entries: Seq<Seq<char>>) -> Seq<Seq<char>> {
    emitted_paths_upto(root, d, entries, entries.len() as int)
}

/// The paths of a project sequence.
pub open spec fn project_paths(s: Seq<Project>) -> Seq<Seq<char>> {
    s.map_values(|p: Project| p.path@)
}

/// Whether walk entry `e` is a version-control marker.
pub fn is_marker_exec(e: &str) -> (r: bool)
    ensures
        r == is_marker(e@),
{
    let b = base_name_exec(e);
    let bs = b.as_str();
    if bs.unicode_len() != 4 {
        proof {
            assert(marker_name().len() == 4);
        }
        return false;
    }
    let r = bs.get_char(0) == '.' && bs.get_char(1) == 'g' && bs.get_char(2) == 'i'
        && bs.get_char(3) == 't';
    proof {
        if r {
            assert(b@ =~= marker_name());
        } else {
            assert(b@ != marker_name());
        }
    }
    r
}

/// Whether walk entry `e` announces a repository within depth `d` of `root`.
pub fn qualifies_exec(root: &str, d: u32, e: &str) -> (r: bool)
    ensures
        r == qualifies(root@, d as nat, e@),
{
    if !is_marker_exec(e) {
        return false;
    }
    let parent = parent_dir_exec(e);
    match depth_below_exec(root, parent.as_str()) {
        Some(k) => 1 <= k && k <= d as usize,
        None => false,
    }
}

/// Whether some qualifying entry of `entries` shadows the repository that
/// `e` announces.
fn shadowed_exec(root: &str, d: u32, entries: &Vec<String>, e: &str) -> (r: bool)
    ensures
        r == shadowed(root@, d as nat, entries.deep_view(), e@),
{
    let parent = parent_dir_exec(e);
    let n = entries.len();
    let mut i: usize = 0;
    while i < n
        invariant
            0 <= i <= n,
            n == entries@.len(),
            parent@ == parent_dir(e@),
            forall|j: int|
                0 <= j < i ==> !(qualifies(root@, d as nat, entries.deep_view()[j])
                    && strict_path_prefix(parent_dir(entries.deep_view()[j]), parent_dir(e@))),
        decreases n - i,
    {
        let cand = entries[i].as_str();
        if qualifies_exec(root, d, cand) {
            let cand_parent = parent_dir_exec(cand);
            if strict_path_prefix_exec(cand_parent.as_str(), parent.as_str()) {
                proof {
                    assert(qualifies(root@, d as nat, entries.deep_view()[i as int])
                        && strict_path_prefix(
                        parent_dir(entries.deep_view()[i as int]),
                        parent_dir(e@),
                    ));
                }
                return true;
            }
        }
        i = i + 1;
    }
    false
}

/// Build the projects that the walk entries of one root yield.
///
/// An entry yields a project when it is a `.git` marker whose directory sits
/// between 1 and `depth` levels below `root` and no other qualifying entry's
/// directory strictly contains it. Projects come out in entry order; the
/// display name is the directory's base name, and the repository root equals
/// the path.
pub fn projects_from_entries(root: &str, depth: u32, entries: &Vec<String>) -> (r: Vec<Project>)
    ensures
        project_paths(r@) == emitted_paths(root@, depth as nat, entries.deep_view()),
        forall|i: int|
            0 <= i < r@.len() ==> {
                &&& (#[trigger] r@[i]).name@ == base_name(r@[i].path@)
                &&& r@[i].repo_root@ == r@[i].path@
                &&& r@[i].worktree_branch is None
                &&& r@[i].sparse_zone is None
            },
{
    let ghost all = entries.deep_view();
    let n = entries.len();
    let mut out: Vec<Project> = Vec::new();
    let mut i: usize = 0;
    while i < n
        invariant
            0 <= i <= n,
            n == entries@.len(),
            all == entries.deep_view(),
            project_paths(out@) == emitted_paths_upto(root@, depth as nat, all, i as int),
            forall|k: int|
                0 <= k < out@.len() ==> {
                    &&& (#[trigger] out@[k]).name@ == base_name(out@[k].path@)
                    &&& out@[k].repo_root@ == out@[k].path@
                    &&& out@[k].worktree_branch is None
                    &&& out@[k].sparse_zone is None
                },
        decreases n - i,
    {
        let e = entries[i].as_str();
        proof {
            assert(all[i as int] == entries@[i as int]@);
        }
        if qualifies_exec(root, depth, e) && !shadowed_exec(root, depth, entries, e) {
            let path = parent_dir_exec(e);
            let name = base_name_exec(path.as_str());
            let repo_root = path.clone();
            let p = Project {
                name,
                path,
                repo_root,
                worktree_branch: None,
                sparse_zone: None,
            };
            out.push(p);
        }
        proof {
            assert(project_paths(out@) =~= emitted_paths_upto(
                root@,
                depth as nat,
                all,
                i + 1,
            ));
        }
        i = i + 1;
    }
    out
}

/// Every path among the first `n` entries' output is an announced directory
/// within depth that no qualifying entry shadows.
proof fn lemma_emitted_paths_props(root: Seq<char>, d: nat, entries: Seq<Seq<char>>, n: int)
    requires
        0 <= n <= entries.len(),
    ensures
        forall|j: int|
            0 <= j < emitted_paths_upto(root, d, entries, n).len() ==> {
                let p = #[trigger] emitted_paths_upto(root, d, entries, n)[j];
                dir_within_depth(root, d, p) && dir_announced(root, d, entries, p)
                    && !dir_shadowed(root, d, entries, p)
            },
    decreases n,
{
    if n > 0 {
        lemma_emitted_paths_props(root, d, entries, n - 1);
        let prev = emitted_paths_upto(root, d, entries, n - 1);
        let cur = emitted_paths_upto(root, d, entries, n);
        assert forall|j: int| #![trigger cur[j]] 0 <= j < cur.len() implies {
            let p = cur[j];
            dir_within_depth(root, d, p) && dir_announced(root, d, entries, p) && !dir_shadowed(
                root,
                d,
                entries,
                p,
            )
        } by {
            if j < prev.len() {
                assert(cur[j] == prev[j]);
            } else {
                let e = entries[n - 1];
                assert(emitted(root, d, entries, e));
                assert(cur[j] == parent_dir(e));
                assert(qualifies(root, d, entries[n - 1]) && parent_dir(entries[n - 1])
                    == parent_dir(e));
            }
        }
    }
}

/// Depth is bounded: every path a walk yields sits strictly between 0 and
/// `d` levels below the root — never the root itself, never deeper than `d`.
pub proof fn lemma_discovery_depth_bounded(root: Seq<char>, d: nat, entries: Seq<Seq<char>>)
    ensures
        forall|j: int|
            0 <= j < emitted_paths(root, d, entries).len() ==> dir_within_depth(
                root,
                d,
                #[trigger] emitted_paths(root, d, entries)[j],
            ),
{
    lemma_emitted_paths_props(root, d, entries, entries.len() as int);
}

/// Boundary shadowing: no path a walk yields lies strictly inside another
/// path the same walk yields.
pub proof fn lemma_discovery_no_nesting(root: Seq<char>, d: nat, entries: Seq<Seq<char>>)
    ensures
        forall|a: int, b: int|
            0 <= a < emitted_paths(root, d, entries).len() && 0 <= b < emitted_paths(
                root,
                d,
                entries,
            ).len() ==> !strict_path_prefix(
                #[trigger] emitted_paths(root, d, entries)[a],
                #[trigger] emitted_paths(root, d, entries)[b],
            ),
{
    lemma_emitted_paths_props(root, d, entries, entries.len() as int);
    let out = emitted_paths(root, d, entries);
    assert forall|a: int, b: int|
        0 <= a < out.len() && 0 <= b < out.len() implies !strict_path_prefix(
        out[a],
        out[b],
    ) by {
        if strict_path_prefix(out[a], out[b]) {
            assert(dir_announced(root, d, entries, out[a]));
            let i = choose|i: int|
                0 <= i < entries.len() && qualifies(root, d, #[trigger] entries[i])
                    && parent_dir(entries[i]) == out[a];
            assert(qualifies(root, d, entries[i]) && strict_path_prefix(
                parent_dir(entries[i]),
                out[b],
            ));
            assert(dir_shadowed(root, d, entries, out[b]));
        }
    }
}

/// Relies on ignore::WalkBuilder: walks the directory tree under `root` down
/// to `levels` levels, skipping nothing for being hidden or ignored,
/// visiting entries in lexicographic path order, and dropping entries it
/// cannot read. A missing root yields no entries. What comes back depends on
/// the filesystem, so nothing is promised of the result.
#[verifier::external_body]
fn walk_paths(root: &str, levels: usize) -> Vec<String> {
    let mut out = Vec::new();
    let walker = ignore::WalkBuilder::new(root)
        .max_depth(Some(levels))
        .hidden(false)
        .git_ignore(false)
        .git_global(false)
        .git_exclude(false)
        .sort_by_file_path(std::cmp::Ord::cmp)
        .build();
    for entry in walker.flatten() {
        out.push(entry.path().to_string_lossy().to_string());
    }
    out
}

/// Discover all projects from the configured roots.
///
/// Each root's path is expanded, its tree walked to one level past the
/// configured depth (so a marker one level below the deepest permitted
/// project directory is still seen), repository boundaries within depth are
/// emitted in deterministic order, and colliding display names are rewritten
/// as [`resolve_name_collisions`] describes. With no roots configured the
/// result is empty and no walk happens. An inaccessible root contributes
/// nothing; it is never an error.
pub fn discover_projects(config: &Config) -> (r: Vec<Project>)
    ensures
        config.roots@.len() == 0 ==> r@.len() == 0,
        forall|i: int|
            0 <= i < r@.len() ==> {
                &&& (#[trigger] r@[i]).repo_root@ == r@[i].path@
                &&& r@[i].worktree_branch is None
                &&& r@[i].sparse_zone is None
            },
{
    let mut projects: Vec<Project> = Vec::new();
    let n = config.roots.len();
    let mut i: usize = 0;
    while i < n
        invariant
            0 <= i <= n,
            n == config.roots@.len(),
            i == 0 ==> projects@.len() == 0,
            forall|k: int|
                0 <= k < projects@.len() ==> {
                    &&& (#[trigger] projects@[k]).repo_root@ == projects@[k].path@
                    &&& projects@[k].worktree_branch is None
                    &&& projects@[k].sparse_zone is None
                },
        decreases n - i,
    {
        let root = &config.roots[i];
        let expanded = root.expanded_path();
        let capped_depth: u32 = if root.depth > 1000000 {
            1000000
        } else {
            root.depth
        };
        let levels: usize = capped_depth as usize + 1;
        let entries = walk_paths(expanded.as_str(), levels);
        let mut found = projects_from_entries(expanded.as_str(), root.depth, &entries);
        projects.append(&mut found);
        i = i + 1;
    }
    resolve_name_collisions(&mut projects);
    projects
}

/// How often `n` occurs in `names`.
pub open spec fn name_count(names: Seq<Seq<char>>, n: Seq<char>) -> nat
    decreases names.len(),
{
    if names.len() == 0 {
        0
    } else {
        (if names[0] == n {
            1nat
        } else {
            0nat
        }) + name_count(names.drop_first(), n)
    }
}

/// The display names of a project sequence.
pub open spec fn names_of(s: Seq<Project>) -> Seq<Seq<char>> {
    s.map_values(|p: Project| p.name@)
}

/// The display name a project ends up with: when its name occurs more than
/// once in `names` and its parent directory has a non-empty base name, the
/// name becomes `parentBase/name`; otherwise it stays as it is.
pub open spec fn display_name(names: Seq<Seq<char>>, name: Seq<char>, path: Seq<char>) -> Seq<
    char,
> {
    let parent_base = base_name(parent_dir(path));
    if name_count(names, name) > 1 && parent_base.len() > 0 {
        parent_base + seq!['/'] + name
    } else {
        name
    }
}

/// `name_count` is the multiset count of the name sequence.
pub proof fn lemma_name_count_is_multiset_count(names: Seq<Seq<char>>, n: Seq<char>)
    ensures
        name_count(names, n) == names.to_multiset().count(n),
    decreases names.len(),
{
    broadcast use vstd::seq_lib::group_to_multiset_ensures;

    if names.len() == 0 {
        assert(names.to_multiset() =~= Multiset::empty());
    } else {
        lemma_name_count_is_multiset_count(names.drop_first(), n);
        assert(names =~= names.drop_first().insert(0, names[0]));
        assert(names.to_multiset() =~= names.drop_first().to_multiset().insert(names[0]));
    }
}

/// Collision rewriting is order-independent: the new name of a project
/// depends only on the project itself and the multiset of display names, not
/// on the order the projects were listed in.
pub proof fn lemma_display_name_order_independent(
    names1: Seq<Seq<char>>,
    names2: Seq<Seq<char>>,
    name: Seq<char>,
    path: Seq<char>,
)
    requires
        names1.to_multiset() == names2.to_multiset(),
    ensures
        display_name(names1, name, path) == display_name(names2, name, path),
{
    lemma_name_count_is_multiset_count(names1, name);
    lemma_name_count_is_multiset_count(names2, name);
}

/// Two projects that share a colliding name come out with different display
/// names exactly when their parent directories' base names differ: the
/// rewrite prefixes the parent base, and nothing else tells them apart.
pub proof fn lemma_collision_names_differ(
    names: Seq<Seq<char>>,
    name: Seq<char>,
    path1: Seq<char>,
    path2: Seq<char>,
)
    requires
        name_count(names, name) > 1,
        base_name(parent_dir(path1)).len() > 0,
        base_name(parent_dir(path2)).len() > 0,
    ensures
        (display_name(names, name, path1) == display_name(names, name, path2))
            == (base_name(parent_dir(path1)) == base_name(parent_dir(path2))),
{
    let b1 = base_name(parent_dir(path1));
    let b2 = base_name(parent_dir(path2));
    let d1 = b1 + seq!['/'] + name;
    let d2 = b2 + seq!['/'] + name;
    if b1 == b2 {
        assert(d1 =~= d2);
    } else if d1 == d2 {
        // Equal rewritten names force equal parent bases: the slash after
        // the parent base sits at the same distance from the end.
        assert(d1.len() == d2.len());
        assert(b1.len() == b2.len());
        assert(b1 =~= b2) by {
            assert(forall|j: int| 0 <= j < b1.len() ==> d1[j] == #[trigger] b1[j]);
            assert(forall|j: int| 0 <= j < b2.len() ==> d2[j] == #[trigger] b2[j]);
        }
    }
}

/// How often `n` occurs among the first `k` names.
proof fn lemma_name_count_take_step(names: Seq<Seq<char>>, n: Seq<char>, k: int)
    requires
        0 <= k < names.len(),
    ensures
        name_count(names.take(k + 1), n) == name_count(names.take(k), n) + (if names[k] == n {
            1nat
        } else {
            0nat
        }),
    decreases k,
{
    if k == 0 {
        assert(names.take(1).drop_first() =~= names.take(0));
        assert(names.take(0) =~= Seq::empty());
    } else {
        lemma_name_count_take_step(names.drop_first(), n, k - 1);
        assert(names.take(k + 1).drop_first() =~= names.drop_first().take(k));
        assert(names.take(k).drop_first() =~= names.drop_first().take(k - 1));
    }
}

/// Count occurrences of `n` among the names of `names`.
fn count_name_exec(names: &Vec<String>, n: &str) -> (r: usize)
    ensures
        r == name_count(names.deep_view(), n@),
{
    let ghost all = names.deep_view();
    let len = names.len();
    let mut count: usize = 0;
    let mut i: usize = 0;
    proof {
        assert(all.take(0) =~= Seq::empty());
    }
    while i < len
        invariant
            0 <= i <= len,
            len == names@.len(),
            all == names.deep_view(),
            count <= i,
            count == name_count(all.take(i as int), n@),
        decreases len - i,
    {
        proof {
            lemma_name_count_take_step(all, n@, i as int);
        }
        if crate::paths::str_eq(names[i].as_str(), n) {
            count = count + 1;
        }
        i = i + 1;
    }
    proof {
        assert(all.take(len as int) =~= all);
    }
    count
}

/// Rewrite colliding display names in place.
///
/// A project whose name occurs more than once in the set keeps its path but
/// has its name replaced by `parentBase/name`, where `parentBase` is the
/// base name of its parent directory; a project whose parent has no base
/// name, or whose name is unique, is left alone. The rewrite is applied
/// exactly once and reads only the original multiset of names, so its result
/// does not depend on the order of equal-name projects.
pub fn resolve_name_collisions(projects: &mut Vec<Project>)
    ensures
        final(projects)@.len() == old(projects)@.len(),
        forall|i: int|
            0 <= i < final(projects)@.len() ==> {
                &&& (#[trigger] final(projects)@[i]).name@ == display_name(
                    names_of(old(projects)@),
                    old(projects)@[i].name@,
                    old(projects)@[i].path@,
                )
                &&& final(projects)@[i].path == old(projects)@[i].path
                &&& final(projects)@[i].repo_root == old(projects)@[i].repo_root
                &&& final(projects)@[i].worktree_branch == old(projects)@[i].worktree_branch
                &&& final(projects)@[i].sparse_zone == old(projects)@[i].sparse_zone
            },
{
    let ghost orig = projects@;
    let len = projects.len();
    let mut names: Vec<String> = Vec::new();
    let mut i: usize = 0;
    while i < len
        invariant
            0 <= i <= len,
            projects@ == orig,
            len == orig.len(),
            names@.len() == i,
            forall|j: int| 0 <= j < i ==> names@[j]@ == orig[j].name@,
        decreases len - i,
    {
        names.push(projects[i].name.clone());
        i = i + 1;
    }
    proof {
        assert(forall|j: int|
            0 <= j < len ==> names.deep_view()[j] == names@[j]@);
        assert(names.deep_view() =~= names_of(orig));
    }
    let mut i: usize = 0;
    while i < len
        invariant
            0 <= i <= len,
            len == orig.len(),
            projects@.len() == orig.len(),
            names.deep_view() == names_of(orig),
            forall|j: int| i <= j < len ==> projects@[j] == orig[j],
            forall|j: int|
                0 <= j < i ==> {
                    &&& (#[trigger] projects@[j]).name@ == display_name(
                        names_of(orig),
                        orig[j].name@,
                        orig[j].path@,
                    )
                    &&& projects@[j].path == orig[j].path
                    &&& projects@[j].repo_root == orig[j].repo_root
                    &&& projects@[j].worktree_branch == orig[j].worktree_branch
                    &&& projects@[j].sparse_zone == orig[j].sparse_zone
                },
        decreases len - i,
    {
        let count = count_name_exec(&names, projects[i].name.as_str());
        if count > 1 {
            let parent = parent_dir_exec(projects[i].path.as_str());
            let parent_base = base_name_exec(parent.as_str());
            if parent_base.as_str().unicode_len() > 0 {
                let mut new_name = parent_base;
                new_name.append("/");
                new_name.append(projects[i].name.as_str());
                proof {
                    reveal_strlit("/");
                    assert("/"@ =~= seq!['/']);
                }
                let old_p = projects[i].duplicate();
                projects.set(
                    i,
                    Project {
                        name: new_name,
                        path: old_p.path,
                        repo_root: old_p.repo_root,
                        worktree_branch: old_p.worktree_branch,
                        sparse_zone: old_p.sparse_zone,
                    },
                );
            }
        }
        i = i + 1;
    }
}

} // verus!
