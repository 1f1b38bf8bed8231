use zesh::paths::base_name_exec;
use zesh::paths::depth_below_exec;
use zesh::paths::parent_dir_exec;
use zesh::paths::str_eq;
use zesh::paths::strict_path_prefix_exec;

#[test]
fn test_base_name() {
    assert_eq!(base_name_exec("/home/user/dev/proj"), "proj");
    assert_eq!(base_name_exec("proj"), "proj");
    assert_eq!(base_name_exec(""), "");
}

#[test]
fn test_parent_dir() {
    assert_eq!(parent_dir_exec("/home/user/dev/proj"), "/home/user/dev");
    assert_eq!(parent_dir_exec("/proj"), "");
    assert_eq!(parent_dir_exec("proj"), "");
}

#[test]
fn test_strict_path_prefix() {
    assert!(strict_path_prefix_exec("/a", "/a/b"));
    assert!(strict_path_prefix_exec("/", "/a"));
    assert!(!strict_path_prefix_exec("/a", "/a"));
    assert!(!strict_path_prefix_exec("/a", "/ab"));
    assert!(!strict_path_prefix_exec("/a/b", "/a"));
}

#[test]
fn test_depth_below() {
    assert_eq!(depth_below_exec("/root", "/root"), Some(0));
    assert_eq!(depth_below_exec("/root", "/root/a"), Some(1));
    assert_eq!(depth_below_exec("/root", "/root/a/b"), Some(2));
    assert_eq!(depth_below_exec("/root", "/other/a"), None);
    assert_eq!(depth_below_exec("/", "/a"), Some(1));
}

#[test]
fn test_str_eq() {
    assert!(str_eq("abc", "abc"));
    assert!(!str_eq("abc", "abd"));
    assert!(!str_eq("abc", "ab"));
    assert!(str_eq("", ""));
}
