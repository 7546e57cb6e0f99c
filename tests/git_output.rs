use pplaces::git_output::{metadata_from_output, parse_commit_time, parse_remotes, GitOutputError};
use pplaces::timestamp::Timestamp;

fn ts(year: i32, month: u32, day: u32, hour: u32, minute: u32, second: u32) -> Timestamp {
    Timestamp { year, month, day, hour, minute, second }
}

#[test]
fn remotes_keep_url_and_direction() {
    let out = "origin\tgit@github.com:a/b.git (fetch)\norigin\tgit@github.com:a/b.git (push)\n";
    assert_eq!(
        parse_remotes(out),
        Ok(vec![
            "git@github.com:a/b.git (fetch)".to_string(),
            "git@github.com:a/b.git (push)".to_string()
        ])
    );
}

#[test]
fn remotes_of_empty_output() {
    assert_eq!(parse_remotes(""), Ok(Vec::new()));
    assert_eq!(parse_remotes("\n\n"), Ok(Vec::new()));
}

#[test]
fn remotes_skip_empty_urls() {
    assert_eq!(
        parse_remotes("up\t\nup\thttps://h/x/y (fetch)"),
        Ok(vec!["https://h/x/y (fetch)".to_string()])
    );
}

#[test]
fn remote_line_without_tab_is_an_error() {
    assert_eq!(
        parse_remotes("origin git@github.com:a/b.git (fetch)\n"),
        Err(GitOutputError::RemoteLineWithoutTab)
    );
}

#[test]
fn commit_time_drops_offset() {
    assert_eq!(
        parse_commit_time("2022-07-14 18:03:12 -0300\n"),
        Ok(Some(ts(2022, 7, 14, 18, 3, 12)))
    );
}

#[test]
fn no_commit_gives_no_time() {
    assert_eq!(parse_commit_time(""), Ok(None));
}

#[test]
fn malformed_commit_time_is_an_error() {
    for out in [
        "\n",
        "yesterday",
        "2022-07-14",
        "2022-07-14 18:03:12\n",
        "2022-07 18:03:12 +0000",
        "2022-0x-14 18:03:12 +0000",
    ] {
        assert_eq!(parse_commit_time(out), Err(GitOutputError::MalformedCommitTime), "{out:?}");
    }
}

#[test]
fn commit_time_checks_the_calendar() {
    assert_eq!(
        parse_commit_time("2023-02-29 10:00:00 +0100"),
        Err(GitOutputError::MalformedCommitTime)
    );
    assert_eq!(
        parse_commit_time("2024-02-29 10:00:00 +0100"),
        Ok(Some(ts(2024, 2, 29, 10, 0, 0)))
    );
    assert_eq!(
        parse_commit_time("2024-04-31 10:00:00 +0100"),
        Err(GitOutputError::MalformedCommitTime)
    );
}

#[test]
fn commit_time_checks_the_clock() {
    assert_eq!(
        parse_commit_time("2023-01-01 24:00:00 +0000"),
        Err(GitOutputError::MalformedCommitTime)
    );
    assert_eq!(
        parse_commit_time("2023-01-01 23:59:60 +0000"),
        Err(GitOutputError::MalformedCommitTime)
    );
    assert_eq!(
        parse_commit_time("2023-01-01 23:59:59 +0000"),
        Ok(Some(ts(2023, 1, 1, 23, 59, 59)))
    );
}

#[test]
fn commit_time_accepts_plus_sign_and_rejects_overflow() {
    assert_eq!(
        parse_commit_time("+2023-+1-01 00:00:00 +0000"),
        Ok(Some(ts(2023, 1, 1, 0, 0, 0)))
    );
    assert_eq!(
        parse_commit_time("2023-01-01 00:00:99999999999 +0000"),
        Err(GitOutputError::MalformedCommitTime)
    );
}

#[test]
fn metadata_from_both_outputs() {
    let m = metadata_from_output(
        "/src/pplaces".to_string(),
        "origin\tgit@github.com:gbrls/pplaces.git (fetch)\n",
        "2022-07-14 18:03:12 -0300\n",
    )
    .unwrap();
    assert_eq!(m.path, "/src/pplaces");
    assert_eq!(m.upstream, vec!["git@github.com:gbrls/pplaces.git (fetch)".to_string()]);
    assert_eq!(m.latest_commit, Some(ts(2022, 7, 14, 18, 3, 12)));
}

#[test]
fn metadata_errors_come_from_either_output() {
    assert_eq!(
        metadata_from_output("/r".to_string(), "bad line", "").unwrap_err(),
        GitOutputError::RemoteLineWithoutTab
    );
    assert_eq!(
        metadata_from_output("/r".to_string(), "", "bad").unwrap_err(),
        GitOutputError::MalformedCommitTime
    );
}
