use zesh::frecency::calculate_score;
use zesh::frecency::FrecencyEntry;
use zesh::frecency::FrecencyStore;
use zesh::discovery::Project;

/// The fixed-point scale: a recency weight of this value stands for 1.
const SCALE: u64 = 0x100000;

const NOW: u64 = 1700000000;

fn project(name: &str) -> Project {
    Project {
        name: name.to_string(),
        path: format!("/test/{}", name),
        repo_root: format!("/test/{}", name),
        worktree_branch: None,
        sparse_zone: None,
    }
}

// =========================================================================
// FrecencyEntry tests
// =========================================================================

#[test]
fn test_frecency_entry_has_required_fields() {
    let entry = FrecencyEntry {
        frequency: 5,
        last_access: 1700000000,
    };

    assert_eq!(entry.frequency, 5);
    assert_eq!(entry.last_access, 1700000000);
}

// =========================================================================
// FrecencyStore creation tests
// =========================================================================

#[test]
fn test_frecency_store_default_is_empty() {
    let store = FrecencyStore::default();
    assert_eq!(store.entry_count(), 0);
}

#[test]
fn test_frecency_store_loads_existing_data() {
    let json = r#"{"entries":{"/test/path":{"frequency":5,"last_access":1700000000}}}"#;
    let store = FrecencyStore::load_from_str(json, None);

    let entry = store.get_entry("/test/path").unwrap();
    assert_eq!(entry.frequency, 5);
    assert_eq!(entry.last_access, 1700000000);
}

#[test]
fn test_frecency_store_handles_corrupt_file_gracefully() {
    // Should give an empty store, not an error
    let store = FrecencyStore::load_from_str("not valid json {{{{", None);
    assert_eq!(store.entry_count(), 0);
}

#[test]
fn test_frecency_store_handles_empty_file_gracefully() {
    // Should give an empty store, not an error
    let store = FrecencyStore::load_from_str("", None);
    assert_eq!(store.entry_count(), 0);
}

// =========================================================================
// record_access tests
// =========================================================================

#[test]
fn test_record_access_creates_new_entry() {
    let mut store = FrecencyStore::default();

    store.record_access("/home/user/dev/project", NOW);

    let entry = store.get_entry("/home/user/dev/project").unwrap();
    assert_eq!(entry.frequency, 1);
    assert!(entry.last_access > 0);
}

#[test]
fn test_record_access_increments_frequency() {
    let mut store = FrecencyStore::default();

    store.record_access("/home/user/dev/project", NOW);
    store.record_access("/home/user/dev/project", NOW);
    store.record_access("/home/user/dev/project", NOW);

    let entry = store.get_entry("/home/user/dev/project").unwrap();
    assert_eq!(entry.frequency, 3);
}

#[test]
fn test_record_access_updates_last_access_time() {
    let mut store = FrecencyStore::default();

    store.record_access("/home/user/dev/project", NOW);
    let first_access = store.get_entry("/home/user/dev/project").unwrap().last_access;

    store.record_access("/home/user/dev/project", NOW + 10);
    let second_access = store.get_entry("/home/user/dev/project").unwrap().last_access;

    // Last access should be updated (or at least not earlier)
    assert!(second_access >= first_access);
    assert_eq!(second_access, NOW + 10);
}

#[test]
fn test_record_access_persists_to_disk() {
    // Record an access, render the backing text, drop the store
    let text = {
        let mut store = FrecencyStore::default();
        store.record_access("/test/project", NOW);
        store.to_json()
    };

    // Load again and verify the data survived
    let store = FrecencyStore::load_from_str(&text, None);
    let entry = store.get_entry("/test/project").unwrap();
    assert_eq!(entry.frequency, 1);
}

// =========================================================================
// get_score tests
// =========================================================================

#[test]
fn test_get_score_returns_zero_for_unknown_path() {
    let store = FrecencyStore::default();

    let score = store.get_score("/unknown/path", NOW);
    assert_eq!(score, 0);
}

#[test]
fn test_get_score_returns_positive_for_accessed_path() {
    let mut store = FrecencyStore::default();

    store.record_access("/test/project", NOW);

    let score = store.get_score("/test/project", NOW);
    assert!(score > 0);
}

#[test]
fn test_get_score_higher_for_more_frequent_access() {
    let mut store = FrecencyStore::default();

    store.record_access("/accessed/once", NOW);

    store.record_access("/accessed/many", NOW);
    store.record_access("/accessed/many", NOW);
    store.record_access("/accessed/many", NOW);
    store.record_access("/accessed/many", NOW);
    store.record_access("/accessed/many", NOW);

    let score_once = store.get_score("/accessed/once", NOW);
    let score_many = store.get_score("/accessed/many", NOW);

    assert!(
        score_many > score_once,
        "More frequent access should have higher score"
    );
}

// =========================================================================
// calculate_score tests
// =========================================================================

#[test]
fn test_calculate_score_recent_access_has_high_weight() {
    // Very recent access (1 second ago): weight is just under the scale.
    let score = calculate_score(10, NOW - 1, NOW);

    assert!(score > 9 * SCALE);
    assert!(score <= 10 * SCALE);
}

#[test]
fn test_calculate_score_one_week_old_has_half_weight() {
    let one_week_ago = NOW - 604800; // Exactly one week

    let score = calculate_score(10, one_week_ago, NOW);

    // Exactly half of frequency, in scaled form
    assert_eq!(score, 10 * SCALE / 2);
}

#[test]
fn test_calculate_score_two_weeks_old_has_quarter_weight() {
    let two_weeks_ago = NOW - 604800 * 2;

    let score = calculate_score(10, two_weeks_ago, NOW);

    // Exactly a quarter of frequency, in scaled form
    assert_eq!(score, 10 * SCALE / 4);
}

#[test]
fn test_calculate_score_zero_frequency_is_zero() {
    let score = calculate_score(0, NOW, NOW);
    assert_eq!(score, 0);
}

#[test]
fn test_calculate_score_never_increases_with_age() {
    let mut last = u64::MAX;
    for weeks in 0..20u64 {
        for offset in [0u64, 1, 302400, 604799] {
            let age = weeks * 604800 + offset;
            let score = calculate_score(7, NOW - age, NOW);
            assert!(score <= last, "score must not grow with age");
            last = score;
        }
    }
}

#[test]
fn test_calculate_score_clock_going_backwards_counts_as_now() {
    // A last-access in the future is treated as age zero.
    assert_eq!(calculate_score(3, NOW + 500, NOW), 3 * SCALE);
}

// =========================================================================
// sort_by_frecency tests
// =========================================================================

#[test]
fn test_sort_by_frecency_empty_list() {
    let store = FrecencyStore::default();

    let mut projects: Vec<Project> = vec![];
    store.sort_by_frecency(&mut projects, NOW);

    assert!(projects.is_empty());
}

#[test]
fn test_sort_by_frecency_single_project() {
    let store = FrecencyStore::default();

    let mut projects = vec![project("single")];

    store.sort_by_frecency(&mut projects, NOW);

    assert_eq!(projects.len(), 1);
    assert_eq!(projects[0].name, "single");
}

#[test]
fn test_sort_by_frecency_orders_by_score_descending() {
    let mut store = FrecencyStore::default();

    let mut projects = vec![project("low"), project("high"), project("medium")];

    // Record different frequencies (more = higher score)
    store.record_access("/test/low", NOW);

    store.record_access("/test/medium", NOW);
    store.record_access("/test/medium", NOW);
    store.record_access("/test/medium", NOW);

    store.record_access("/test/high", NOW);
    store.record_access("/test/high", NOW);
    store.record_access("/test/high", NOW);
    store.record_access("/test/high", NOW);
    store.record_access("/test/high", NOW);

    store.sort_by_frecency(&mut projects, NOW);

    assert_eq!(projects[0].name, "high");
    assert_eq!(projects[1].name, "medium");
    assert_eq!(projects[2].name, "low");
}

#[test]
fn test_sort_by_frecency_untracked_projects_go_to_end() {
    let mut store = FrecencyStore::default();

    let mut projects = vec![project("untracked"), project("tracked")];

    // Only record access for tracked
    store.record_access("/test/tracked", NOW);

    store.sort_by_frecency(&mut projects, NOW);

    // Tracked should come first (higher score)
    assert_eq!(projects[0].name, "tracked");
    assert_eq!(projects[1].name, "untracked");
}

#[test]
fn test_sort_by_frecency_preserves_projects() {
    let store = FrecencyStore::default();

    let original_projects = vec![
        Project {
            name: "a".to_string(),
            path: "/test/a".to_string(),
            repo_root: "/test/a".to_string(),
            worktree_branch: Some("feature".to_string()),
            sparse_zone: None,
        },
        Project {
            name: "b".to_string(),
            path: "/test/b".to_string(),
            repo_root: "/test/b".to_string(),
            worktree_branch: None,
            sparse_zone: Some("zone".to_string()),
        },
    ];

    let mut projects = original_projects.clone();
    store.sort_by_frecency(&mut projects, NOW);

    // All projects should still be present with all fields intact
    assert_eq!(projects.len(), 2);

    let a = projects.iter().find(|p| p.name == "a").unwrap();
    assert_eq!(a.worktree_branch, Some("feature".to_string()));

    let b = projects.iter().find(|p| p.name == "b").unwrap();
    assert_eq!(b.sparse_zone, Some("zone".to_string()));
}

#[test]
fn test_sort_by_frecency_equal_scores_keep_input_order() {
    let store = FrecencyStore::default();
    let mut projects = vec![project("first"), project("second"), project("third")];
    store.sort_by_frecency(&mut projects, NOW);
    // All scores are zero: the stable ranking keeps the given order.
    assert_eq!(projects[0].name, "first");
    assert_eq!(projects[1].name, "second");
    assert_eq!(projects[2].name, "third");
}

// =========================================================================
// Persistence round-trip tests
// =========================================================================

#[test]
fn test_frecency_store_full_round_trip() {
    // Create store and record various accesses
    let text = {
        let mut store = FrecencyStore::default();
        store.record_access("/project/a", NOW);
        store.record_access("/project/a", NOW);
        store.record_access("/project/b", NOW);
        store.to_json()
    };

    // Load fresh and verify
    {
        let store = FrecencyStore::load_from_str(&text, None);

        let entry_a = store.get_entry("/project/a").unwrap();
        assert_eq!(entry_a.frequency, 2);

        let entry_b = store.get_entry("/project/b").unwrap();
        assert_eq!(entry_b.frequency, 1);

        // Scores should reflect frequency
        let score_a = store.get_score("/project/a", NOW);
        let score_b = store.get_score("/project/b", NOW);
        assert!(score_a > score_b);
    }
}

#[test]
fn test_round_trip_rendered_text_is_exact() {
    let mut store = FrecencyStore::default();
    store.record_access("/test/path", 1700000000);
    store.record_access("/test/path", 1700000000);
    store.record_access("/test/path", 1700000000);
    store.record_access("/test/path", 1700000000);
    store.record_access("/test/path", 1700000000);
    assert_eq!(
        store.to_json(),
        r#"{"entries":{"/test/path":{"frequency":5,"last_access":1700000000}}}"#
    );
}

#[test]
fn test_round_trip_key_with_quote_and_backslash() {
    let odd = "/odd\\dir/\"quoted\"";
    let text = {
        let mut store = FrecencyStore::default();
        store.record_access(odd, NOW);
        store.to_json()
    };
    let store = FrecencyStore::load_from_str(&text, None);
    let entry = store.get_entry(odd).unwrap();
    assert_eq!(entry.frequency, 1);
    assert_eq!(entry.last_access, NOW);
}

#[test]
fn test_empty_store_round_trip() {
    let store = FrecencyStore::default();
    let text = store.to_json();
    assert_eq!(text, r#"{"entries":{}}"#);
    let reloaded = FrecencyStore::load_from_str(&text, None);
    assert_eq!(reloaded.entry_count(), 0);
}
