use pplaces::cache::ProjectMetadata;
use pplaces::guard::{check_clone, CloneDecision, CloneError};
use pplaces::walk::{scan_step, ScanStep};

fn record(path: &str, remotes: &[&str]) -> ProjectMetadata {
    ProjectMetadata {
        path: path.to_string(),
        upstream: remotes.iter().map(|s| s.to_string()).collect(),
        latest_commit: None,
    }
}

fn args(a: &[&str]) -> Vec<String> {
    a.iter().map(|s| s.to_string()).collect()
}

#[test]
fn existing_clone_is_found_across_schemes() {
    let cache = vec![
        record("/src/other", &["git@github.com:foo/baz.git (fetch)"]),
        record("/src/bar", &["git@github.com:foo/bar.git"]),
    ];
    assert_eq!(
        check_clone(&args(&["https://github.com/foo/bar.git"]), &cache),
        Ok(CloneDecision::AlreadyCloned { url_index: 0, record_index: 1 })
    );
}

#[test]
fn unknown_repository_is_cloned() {
    let cache = vec![record("/src/bar", &["git@github.com:foo/bar.git"])];
    assert_eq!(
        check_clone(&args(&["--depth", "1", "https://github.com/foo/qux"]), &cache),
        Ok(CloneDecision::Clone { url_index: 2 })
    );
}

#[test]
fn first_url_argument_is_used() {
    let cache = vec![record("/src/two", &["https://h/o/two"])];
    assert_eq!(
        check_clone(&args(&["git@h:o/one", "https://h/o/two"]), &cache),
        Ok(CloneDecision::Clone { url_index: 0 })
    );
}

#[test]
fn remotes_that_are_not_urls_match_nothing() {
    let cache = vec![
        record("/src/local", &["/srv/git/bar (fetch)"]),
        record("/src/bar", &["https://github.com/foo/bar (fetch)"]),
    ];
    assert_eq!(
        check_clone(&args(&["git@github.com:foo/bar.git"]), &cache),
        Ok(CloneDecision::AlreadyCloned { url_index: 0, record_index: 1 })
    );
}

#[test]
fn missing_url_is_a_usage_error() {
    assert_eq!(check_clone(&args(&["--depth", "1"]), &Vec::new()), Err(CloneError::NoUrl));
}

#[test]
fn url_without_canonical_form_is_an_error() {
    assert_eq!(
        check_clone(&args(&["-q", "git@host-without-colon"]), &Vec::new()),
        Err(CloneError::InvalidUrl(1))
    );
}

#[test]
fn scan_steps() {
    assert_eq!(scan_step(true, ".git"), ScanStep::Repository);
    assert_eq!(scan_step(true, "src"), ScanStep::Descend);
    assert_eq!(scan_step(true, ".github"), ScanStep::Descend);
    assert_eq!(scan_step(false, ".git"), ScanStep::Skip);
    assert_eq!(scan_step(false, "README"), ScanStep::Skip);
}
