use pplaces::cache::{build_cache, recent_paths, sort_by_recency, update_repo_data, ProjectMetadata};
use pplaces::timestamp::Timestamp;

fn day(d: u32) -> Option<Timestamp> {
    Some(Timestamp { year: 2022, month: 1, day: d, hour: 12, minute: 0, second: 0 })
}

fn record(path: &str, remote: &str, when: Option<Timestamp>) -> ProjectMetadata {
    ProjectMetadata {
        path: path.to_string(),
        upstream: vec![remote.to_string()],
        latest_commit: when,
    }
}

fn paths(c: &[ProjectMetadata]) -> Vec<&str> {
    c.iter().map(|r| r.path.as_str()).collect()
}

#[test]
fn rescan_keeps_one_record_with_second_data() {
    let mut cache = vec![record("/a", "git@h:x/a", day(1)), record("/b", "git@h:x/b", day(2))];
    update_repo_data(&mut cache, record("/c", "git@h:x/c", day(3)));
    update_repo_data(&mut cache, record("/c", "git@h:x/c2", day(4)));
    let with_c: Vec<&ProjectMetadata> = cache.iter().filter(|r| r.path == "/c").collect();
    assert_eq!(with_c.len(), 1);
    assert_eq!(with_c[0].upstream, vec!["git@h:x/c2".to_string()]);
    assert_eq!(with_c[0].latest_commit, day(4));
    assert_eq!(cache.len(), 3);
}

#[test]
fn merge_replaces_by_swapping_in_the_last_record() {
    let mut cache = vec![
        record("/a", "r", day(1)),
        record("/b", "r", day(2)),
        record("/c", "r", day(3)),
    ];
    update_repo_data(&mut cache, record("/a", "s", None));
    assert_eq!(paths(&cache), vec!["/c", "/b", "/a"]);
    assert_eq!(cache[2].latest_commit, None);
}

#[test]
fn sort_puts_recent_first_and_missing_last() {
    let sorted = sort_by_recency(vec![
        record("/none", "r", None),
        record("/old", "r", day(1)),
        record("/new", "r", day(9)),
        record("/mid", "r", day(5)),
    ]);
    assert_eq!(paths(&sorted), vec!["/new", "/mid", "/old", "/none"]);
}

#[test]
fn sort_compares_all_fields() {
    let later = Some(Timestamp { year: 2022, month: 1, day: 1, hour: 12, minute: 0, second: 1 });
    let sorted = sort_by_recency(vec![record("/a", "r", day(1)), record("/b", "r", later)]);
    assert_eq!(paths(&sorted), vec!["/b", "/a"]);
}

#[test]
fn sort_of_empty_cache() {
    assert!(sort_by_recency(Vec::new()).is_empty());
}

#[test]
fn build_cache_merges_and_sorts() {
    let cache = vec![record("/a", "r", day(1)), record("/b", "r", None)];
    let found = vec![record("/b", "r", day(3)), record("/c", "r", day(2)), record("/c", "r", day(4))];
    let out = build_cache(cache, found);
    assert_eq!(paths(&out), vec!["/c", "/b", "/a"]);
    assert_eq!(out[0].latest_commit, day(4));
}

#[test]
fn recent_paths_without_limit_lists_records_with_commits() {
    let data = vec![record("/a", "r", day(2)), record("/b", "r", None), record("/c", "r", day(1))];
    let r = recent_paths(&data, &vec![10, 0, 99], None, "/nowhere");
    assert_eq!(r, vec!["/a".to_string(), "/c".to_string()]);
}

#[test]
fn recent_paths_with_limit_checks_age_and_location() {
    let data = vec![
        record("/home/a", "r", day(2)),
        record("/home/b", "r", day(1)),
        record("/tmp/c", "r", day(3)),
    ];
    let r = recent_paths(&data, &vec![5, 50, 1], Some(10), "/home");
    assert_eq!(r, vec!["/home/a".to_string()]);
}
