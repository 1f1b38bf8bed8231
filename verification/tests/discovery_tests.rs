use zesh::config::Config;
use zesh::config::Root;
use zesh::discovery::discover_projects;
use zesh::discovery::projects_from_entries;
use zesh::discovery::resolve_name_collisions;
use zesh::discovery::Project;

/// The entries a sorted walk of a root yields: every directory and file
/// path, parents before children, here spelled out directly.
fn entries(paths: &[&str]) -> Vec<String> {
    paths.iter().map(|p| p.to_string()).collect()
}

// =========================================================================
// Project struct tests
// =========================================================================

#[test]
fn test_project_struct_has_required_fields() {
    let project = Project {
        name: "my-project".to_string(),
        path: "/home/user/dev/my-project".to_string(),
        repo_root: "/home/user/dev/my-project".to_string(),
        worktree_branch: None,
        sparse_zone: None,
    };

    assert_eq!(project.name, "my-project");
    assert_eq!(project.path, "/home/user/dev/my-project");
    assert_eq!(project.repo_root, "/home/user/dev/my-project");
    assert!(project.worktree_branch.is_none());
    assert!(project.sparse_zone.is_none());
}

#[test]
fn test_project_with_worktree_branch() {
    let project = Project {
        name: "repo/feature-x".to_string(),
        path: "/home/user/dev/repo-feature-x".to_string(),
        repo_root: "/home/user/dev/repo".to_string(),
        worktree_branch: Some("feature-x".to_string()),
        sparse_zone: None,
    };

    assert_eq!(project.worktree_branch, Some("feature-x".to_string()));
}

#[test]
fn test_project_with_sparse_zone() {
    let project = Project {
        name: "core/shopify".to_string(),
        path: "/home/user/world/areas/core/shopify".to_string(),
        repo_root: "/home/user/world".to_string(),
        worktree_branch: None,
        sparse_zone: Some("areas/core/shopify".to_string()),
    };

    assert_eq!(project.sparse_zone, Some("areas/core/shopify".to_string()));
}

#[test]
fn test_project_equality() {
    let p1 = Project {
        name: "test".to_string(),
        path: "/test".to_string(),
        repo_root: "/test".to_string(),
        worktree_branch: None,
        sparse_zone: None,
    };
    let p2 = p1.clone();
    assert_eq!(p1, p2);
}

// =========================================================================
// Discovery tests - empty/no config
// =========================================================================

#[test]
fn test_discover_with_empty_config_returns_empty() {
    let config = Config::default();
    let projects = discover_projects(&config);
    assert!(projects.is_empty());
}

#[test]
fn test_discover_handles_nonexistent_root_gracefully() {
    let config = Config {
        roots: vec![Root {
            path: "/nonexistent/path/that/does/not/exist".to_string(),
            depth: 2,
            sparse_checkout: false,
        }],
    };

    // Should not panic, just return empty
    let projects = discover_projects(&config);
    assert!(projects.is_empty());
}

// =========================================================================
// Discovery tests - regular repositories, on the walk entries a root with
// the given layout yields
// =========================================================================

#[test]
fn test_discover_finds_git_repo_at_depth_1() {
    let walk = entries(&["/root", "/root/my-project", "/root/my-project/.git"]);

    let projects = projects_from_entries("/root", 1, &walk);

    assert_eq!(projects.len(), 1);
    assert_eq!(projects[0].name, "my-project");
    assert_eq!(projects[0].path, "/root/my-project");
    assert_eq!(projects[0].repo_root, "/root/my-project");
    assert!(projects[0].worktree_branch.is_none());
    assert!(projects[0].sparse_zone.is_none());
}

#[test]
fn test_discover_finds_multiple_repos() {
    let walk = entries(&[
        "/root",
        "/root/project-a",
        "/root/project-a/.git",
        "/root/project-b",
        "/root/project-b/.git",
        "/root/project-c",
        "/root/project-c/.git",
    ]);

    let projects = projects_from_entries("/root", 1, &walk);

    assert_eq!(projects.len(), 3);
    let names: Vec<_> = projects.iter().map(|p| p.name.as_str()).collect();
    assert!(names.contains(&"project-a"));
    assert!(names.contains(&"project-b"));
    assert!(names.contains(&"project-c"));
}

#[test]
fn test_discover_finds_repo_at_depth_2() {
    let walk = entries(&["/root", "/root/org", "/root/org/my-repo", "/root/org/my-repo/.git"]);

    let projects = projects_from_entries("/root", 2, &walk);

    assert_eq!(projects.len(), 1);
    assert_eq!(projects[0].name, "my-repo");
    assert_eq!(projects[0].path, "/root/org/my-repo");
}

#[test]
fn test_discover_respects_depth_limit() {
    // project sits at depth 4; the depth limit is 2
    let walk = entries(&[
        "/root",
        "/root/a",
        "/root/a/b",
        "/root/a/b/c",
        "/root/a/b/c/project",
        "/root/a/b/c/project/.git",
    ]);

    let projects = projects_from_entries("/root", 2, &walk);

    assert!(projects.is_empty(), "Should not find repo beyond depth limit");
}

#[test]
fn test_discover_does_not_descend_into_git_repos() {
    // A nested repository inside an already-found one is not emitted,
    // however deep the walk goes.
    let walk = entries(&[
        "/root",
        "/root/outer-repo",
        "/root/outer-repo/.git",
        "/root/outer-repo/subprojects",
        "/root/outer-repo/subprojects/nested-repo",
        "/root/outer-repo/subprojects/nested-repo/.git",
    ]);

    let projects = projects_from_entries("/root", 4, &walk);

    assert_eq!(projects.len(), 1);
    assert_eq!(projects[0].name, "outer-repo");
}

#[test]
fn test_discover_from_multiple_roots() {
    let walk1 = entries(&["/root1", "/root1/from-root1", "/root1/from-root1/.git"]);
    let walk2 = entries(&["/root2", "/root2/from-root2", "/root2/from-root2/.git"]);

    let mut projects = projects_from_entries("/root1", 1, &walk1);
    projects.extend(projects_from_entries("/root2", 1, &walk2));
    resolve_name_collisions(&mut projects);

    assert_eq!(projects.len(), 2);
    let names: Vec<_> = projects.iter().map(|p| p.name.as_str()).collect();
    assert!(names.contains(&"from-root1"));
    assert!(names.contains(&"from-root2"));
}

#[test]
fn test_discover_ignores_non_git_directories() {
    let walk = entries(&[
        "/root",
        "/root/git-project",
        "/root/git-project/.git",
        "/root/regular-dir",
        "/root/regular-dir/file.txt",
    ]);

    let projects = projects_from_entries("/root", 1, &walk);

    assert_eq!(projects.len(), 1);
    assert_eq!(projects[0].name, "git-project");
}

#[test]
fn test_discover_returns_absolute_paths() {
    let walk = entries(&["/root", "/root/project", "/root/project/.git"]);

    let projects = projects_from_entries("/root", 1, &walk);

    assert_eq!(projects.len(), 1);
    assert!(projects[0].path.starts_with('/'));
    assert!(projects[0].repo_root.starts_with('/'));
}

// =========================================================================
// Name collision handling tests
// =========================================================================

#[test]
fn test_discover_handles_name_collision_with_parent() {
    let walk = entries(&[
        "/root",
        "/root/org-a",
        "/root/org-a/api",
        "/root/org-a/api/.git",
        "/root/org-b",
        "/root/org-b/api",
        "/root/org-b/api/.git",
    ]);

    let mut projects = projects_from_entries("/root", 2, &walk);
    resolve_name_collisions(&mut projects);

    assert_eq!(projects.len(), 2);

    // Names should include parent to disambiguate
    let names: Vec<_> = projects.iter().map(|p| p.name.as_str()).collect();
    assert!(
        names.contains(&"org-a/api") || names.contains(&"org-b/api"),
        "Should disambiguate with parent dir. Got: {:?}",
        names
    );
}

#[test]
fn test_collision_names_both_present_and_unique() {
    let walk = entries(&[
        "/root",
        "/root/org-a",
        "/root/org-a/api",
        "/root/org-a/api/.git",
        "/root/org-b",
        "/root/org-b/api",
        "/root/org-b/api/.git",
    ]);

    let mut projects = projects_from_entries("/root", 2, &walk);
    resolve_name_collisions(&mut projects);

    let mut names: Vec<_> = projects.iter().map(|p| p.name.as_str()).collect();
    names.sort();
    assert_eq!(names, vec!["org-a/api", "org-b/api"]);
}

#[test]
fn test_resolve_name_collisions_unique_names_untouched() {
    let mut projects = vec![
        Project {
            name: "alpha".to_string(),
            path: "/r/alpha".to_string(),
            repo_root: "/r/alpha".to_string(),
            worktree_branch: None,
            sparse_zone: None,
        },
        Project {
            name: "beta".to_string(),
            path: "/r/beta".to_string(),
            repo_root: "/r/beta".to_string(),
            worktree_branch: None,
            sparse_zone: None,
        },
    ];
    resolve_name_collisions(&mut projects);
    assert_eq!(projects[0].name, "alpha");
    assert_eq!(projects[1].name, "beta");
}

#[test]
fn test_resolve_name_collisions_order_independent() {
    let a = Project {
        name: "api".to_string(),
        path: "/r/org-a/api".to_string(),
        repo_root: "/r/org-a/api".to_string(),
        worktree_branch: None,
        sparse_zone: None,
    };
    let b = Project {
        name: "api".to_string(),
        path: "/r/org-b/api".to_string(),
        repo_root: "/r/org-b/api".to_string(),
        worktree_branch: None,
        sparse_zone: None,
    };

    let mut forward = vec![a.clone(), b.clone()];
    let mut backward = vec![b.clone(), a.clone()];
    resolve_name_collisions(&mut forward);
    resolve_name_collisions(&mut backward);

    // The same project gets the same name whichever order it was listed in.
    assert_eq!(forward[0].name, "org-a/api");
    assert_eq!(forward[1].name, "org-b/api");
    assert_eq!(backward[0].name, "org-b/api");
    assert_eq!(backward[1].name, "org-a/api");
}

// =========================================================================
// Entry filtering edge cases
// =========================================================================

#[test]
fn test_projects_from_entries_depth_zero_never_qualifies() {
    // A marker directly in the root itself is never a project.
    let walk = entries(&["/root", "/root/.git"]);
    let found = projects_from_entries("/root", 3, &walk);
    assert!(found.is_empty());
}

#[test]
fn test_projects_from_entries_shadowing_is_order_independent() {
    // The nested marker appears before the outer one in the entry list;
    // the outer repository must still shadow it.
    let walk = entries(&["/root/outer/inner/.git", "/root/outer/.git"]);
    let found = projects_from_entries("/root", 4, &walk);
    assert_eq!(found.len(), 1);
    assert_eq!(found[0].path, "/root/outer");
}
