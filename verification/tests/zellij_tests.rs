use zesh::discovery::Project;
use zesh::zellij::decide_switch_action;
use zesh::zellij::find_orphaned_sessions;
use zesh::zellij::parse_list_sessions_output;
use zesh::zellij::resolve_layout;
use zesh::zellij::session_exists;
use zesh::zellij::LayoutChoice;
use zesh::zellij::SessionAction;

/// Helper to create a Project with just a name (for orphan detection tests)
fn project_with_name(name: &str) -> Project {
    Project {
        name: name.to_string(),
        path: "/dummy".to_string(),
        repo_root: "/dummy".to_string(),
        worktree_branch: None,
        sparse_zone: None,
    }
}

// =========================================================================
// parse_list_sessions_output tests
// =========================================================================

#[test]
fn test_parse_empty_output() {
    let output = "";
    let sessions = parse_list_sessions_output(output);
    assert!(sessions.is_empty());
}

#[test]
fn test_parse_single_session() {
    let output = "my-session\n";
    let sessions = parse_list_sessions_output(output);
    assert_eq!(sessions, vec!["my-session"]);
}

#[test]
fn test_parse_multiple_sessions() {
    let output = "session-a\nsession-b\nsession-c\n";
    let sessions = parse_list_sessions_output(output);
    assert_eq!(sessions, vec!["session-a", "session-b", "session-c"]);
}

#[test]
fn test_parse_session_with_current_suffix() {
    // The current session is marked with (current)
    let output = "session-a\nmy-project (current)\nsession-b\n";
    let sessions = parse_list_sessions_output(output);
    assert_eq!(sessions, vec!["session-a", "my-project", "session-b"]);
}

#[test]
fn test_parse_session_with_extra_whitespace() {
    let output = "  session-a  \n\n  session-b\n  \n";
    let sessions = parse_list_sessions_output(output);
    assert_eq!(sessions, vec!["session-a", "session-b"]);
}

#[test]
fn test_parse_session_with_exited_suffix() {
    // Dead sessions may show (EXITED)
    let output = "active-session\ndead-session (EXITED)\n";
    let sessions = parse_list_sessions_output(output);
    assert_eq!(sessions, vec!["active-session", "dead-session"]);
}

#[test]
fn test_parse_no_trailing_newline() {
    let output = "session-a\nsession-b";
    let sessions = parse_list_sessions_output(output);
    assert_eq!(sessions, vec!["session-a", "session-b"]);
}

#[test]
fn test_parse_carriage_return_line_endings() {
    let output = "session-a\r\nsession-b\r\n";
    let sessions = parse_list_sessions_output(output);
    assert_eq!(sessions, vec!["session-a", "session-b"]);
}

// =========================================================================
// session_exists tests
// =========================================================================

#[test]
fn test_session_exists_finds_name() {
    let sessions = vec!["alpha".to_string(), "beta".to_string()];
    assert!(session_exists(&sessions, "beta"));
    assert!(!session_exists(&sessions, "gamma"));
}

#[test]
fn test_session_exists_empty_list() {
    let sessions: Vec<String> = vec![];
    assert!(!session_exists(&sessions, "anything"));
}

// =========================================================================
// find_orphaned_sessions tests
// =========================================================================

#[test]
fn test_find_orphaned_sessions_empty_lists() {
    let sessions: Vec<String> = vec![];
    let projects: Vec<Project> = vec![];

    let orphaned = find_orphaned_sessions(&sessions, &projects);
    assert!(orphaned.is_empty());
}

#[test]
fn test_find_orphaned_sessions_no_orphans() {
    let sessions = vec!["project-a".to_string(), "project-b".to_string()];
    let projects = vec![
        project_with_name("project-a"),
        project_with_name("project-b"),
    ];

    let orphaned = find_orphaned_sessions(&sessions, &projects);
    assert!(orphaned.is_empty());
}

#[test]
fn test_find_orphaned_sessions_all_orphaned() {
    let sessions = vec!["old-project".to_string(), "deleted-project".to_string()];
    let projects = vec![project_with_name("current-project")];

    let orphaned = find_orphaned_sessions(&sessions, &projects);
    assert_eq!(
        orphaned,
        vec!["old-project".to_string(), "deleted-project".to_string()]
    );
}

#[test]
fn test_find_orphaned_sessions_mixed() {
    let sessions = vec![
        "still-exists".to_string(),
        "orphaned".to_string(),
        "also-exists".to_string(),
    ];
    let projects = vec![
        project_with_name("still-exists"),
        project_with_name("also-exists"),
    ];

    let orphaned = find_orphaned_sessions(&sessions, &projects);
    assert_eq!(orphaned, vec!["orphaned".to_string()]);
}

#[test]
fn test_find_orphaned_sessions_with_collision_resolved_names() {
    // Session names can include parent directory for collision resolution
    let sessions = vec![
        "org-a/api".to_string(),
        "org-b/api".to_string(),
        "orphaned/api".to_string(),
    ];
    let projects = vec![
        project_with_name("org-a/api"),
        project_with_name("org-b/api"),
    ];

    let orphaned = find_orphaned_sessions(&sessions, &projects);
    assert_eq!(orphaned, vec!["orphaned/api".to_string()]);
}

#[test]
fn test_find_orphaned_sessions_known_name_kept() {
    // Sessions x and y against the single known project x: only y is orphaned.
    let sessions = vec!["x".to_string(), "y".to_string()];
    let projects = vec![project_with_name("x")];

    let orphaned = find_orphaned_sessions(&sessions, &projects);
    assert_eq!(orphaned, vec!["y".to_string()]);
}

// =========================================================================
// Switch and layout decisions
// =========================================================================

#[test]
fn test_decide_switch_action() {
    assert_eq!(decide_switch_action(true), SessionAction::Attach);
    assert_eq!(decide_switch_action(false), SessionAction::Create);
}

#[test]
fn test_resolve_layout_precedence() {
    assert_eq!(resolve_layout(true, true), LayoutChoice::ProjectLocal);
    assert_eq!(resolve_layout(true, false), LayoutChoice::ProjectLocal);
    assert_eq!(resolve_layout(false, true), LayoutChoice::GlobalDefault);
    assert_eq!(resolve_layout(false, false), LayoutChoice::ProgramDefault);
}
