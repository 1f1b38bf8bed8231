use zesh::discovery::Project;
use zesh::picker::contains_sub;
use zesh::picker::find_by_name;
use zesh::picker::fuzzy_match_single;

fn make_project(name: &str) -> Project {
    Project {
        name: name.to_string(),
        path: format!("/test/{}", name),
        repo_root: format!("/test/{}", name),
        worktree_branch: None,
        sparse_zone: None,
    }
}

// =========================================================================
// fuzzy_match_single tests
// =========================================================================

#[test]
fn test_fuzzy_match_single_empty_projects() {
    let projects: Vec<Project> = vec![];
    let result = fuzzy_match_single(&projects, "test");
    assert!(result.is_none());
}

#[test]
fn test_fuzzy_match_single_no_match() {
    let projects = vec![make_project("alpha"), make_project("beta")];
    let result = fuzzy_match_single(&projects, "xyz");
    assert!(result.is_none());
}

#[test]
fn test_fuzzy_match_single_exact_match() {
    let projects = vec![
        make_project("infra"),
        make_project("website"),
        make_project("api"),
    ];
    let result = fuzzy_match_single(&projects, "infra");
    assert!(result.is_some());
    assert_eq!(result.unwrap().name, "infra");
}

#[test]
fn test_fuzzy_match_single_partial_match() {
    let projects = vec![
        make_project("my-project"),
        make_project("other"),
        make_project("another"),
    ];
    let result = fuzzy_match_single(&projects, "proj");
    assert!(result.is_some());
    assert_eq!(result.unwrap().name, "my-project");
}

#[test]
fn test_fuzzy_match_single_multiple_matches_returns_none() {
    let projects = vec![
        make_project("project-a"),
        make_project("project-b"),
        make_project("other"),
    ];
    // "project" matches both project-a and project-b
    let result = fuzzy_match_single(&projects, "project");
    assert!(result.is_none());
}

#[test]
fn test_fuzzy_match_single_case_insensitive() {
    let projects = vec![make_project("MyProject"), make_project("other")];
    let result = fuzzy_match_single(&projects, "myproject");
    assert!(result.is_some());
    assert_eq!(result.unwrap().name, "MyProject");
}

#[test]
fn test_fuzzy_match_single_with_path_like_name() {
    let projects = vec![
        make_project("org-a/api"),
        make_project("org-b/api"),
        make_project("org-a/web"),
    ];
    // "org-a/api" should uniquely match
    let result = fuzzy_match_single(&projects, "org-a/api");
    assert!(result.is_some());
    assert_eq!(result.unwrap().name, "org-a/api");
}

#[test]
fn test_fuzzy_match_single_substring_in_path() {
    let projects = vec![make_project("org-a/api"), make_project("org-b/web")];
    // "a/api" should match "org-a/api"
    let result = fuzzy_match_single(&projects, "a/api");
    assert!(result.is_some());
    assert_eq!(result.unwrap().name, "org-a/api");
}

#[test]
fn test_fuzzy_match_single_uppercase_query() {
    // The query is folded too, not only the names.
    let projects = vec![make_project("backend"), make_project("frontend")];
    let result = fuzzy_match_single(&projects, "BACK");
    assert!(result.is_some());
    assert_eq!(result.unwrap().name, "backend");
}

#[test]
fn test_fuzzy_match_single_empty_query_matches_all() {
    // An empty query is contained in every name: ambiguous unless there is
    // exactly one project.
    let several = vec![make_project("one"), make_project("two")];
    assert!(fuzzy_match_single(&several, "").is_none());

    let single = vec![make_project("only")];
    assert_eq!(fuzzy_match_single(&single, "").unwrap().name, "only");
}

// =========================================================================
// contains_sub tests
// =========================================================================

#[test]
fn test_contains_sub_basic() {
    assert!(contains_sub("hello world", "lo wo"));
    assert!(contains_sub("hello", ""));
    assert!(contains_sub("hello", "hello"));
    assert!(!contains_sub("hello", "hello!"));
    assert!(!contains_sub("abc", "ac"));
}

// =========================================================================
// find_by_name tests
// =========================================================================

#[test]
fn test_find_by_name_exact_only() {
    let projects = vec![make_project("api"), make_project("api-gateway")];
    let found = find_by_name(&projects, "api").unwrap();
    assert_eq!(found.name, "api");
    assert!(find_by_name(&projects, "gateway").is_none());
}

#[test]
fn test_find_by_name_first_match_wins() {
    let a = Project {
        name: "same".to_string(),
        path: "/one".to_string(),
        repo_root: "/one".to_string(),
        worktree_branch: None,
        sparse_zone: None,
    };
    let b = Project {
        name: "same".to_string(),
        path: "/two".to_string(),
        repo_root: "/two".to_string(),
        worktree_branch: None,
        sparse_zone: None,
    };
    let projects = vec![a, b];
    let found = find_by_name(&projects, "same").unwrap();
    assert_eq!(found.path, "/one");
}
