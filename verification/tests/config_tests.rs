use zesh::config::Config;
use zesh::config::Root;

#[test]
fn test_default_config() {
    let config = Config::default();
    assert!(config.roots.is_empty());
}

#[test]
fn test_expanded_path_tilde() {
    let root = Root {
        path: "~/dev".to_string(),
        depth: 2,
        sparse_checkout: false,
    };
    let expanded = root.expanded_path();
    // Should expand ~ to home directory
    assert!(!expanded.contains('~'));
    assert!(expanded.contains("dev"));
}

#[test]
fn test_expanded_path_absolute() {
    let root = Root {
        path: "/absolute/path".to_string(),
        depth: 1,
        sparse_checkout: false,
    };
    let expanded = root.expanded_path();
    assert_eq!(expanded, "/absolute/path");
}

#[test]
fn test_expanded_path_relative_unchanged() {
    let root = Root {
        path: "relative/dir".to_string(),
        depth: 1,
        sparse_checkout: false,
    };
    assert_eq!(root.expanded_path(), "relative/dir");
}
