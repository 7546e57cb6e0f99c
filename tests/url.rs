use pplaces::url::{get_canonical, get_url_ending, UrlError};

#[test]
fn test_url_parser() {
    let a = "https://github.com/linebender/runebender (fetch)";
    let b = "git@github.com:gbrls/Bootloader.git (fetch)";

    assert_eq!(get_url_ending(a), "linebender/runebender");
    assert_eq!(get_url_ending(b), "gbrls/Bootloader");
}

#[test]
fn canonical_of_https_example() {
    assert_eq!(
        get_canonical("https://github.com/linebender/runebender (fetch)"),
        Ok("linebender/runebender".to_string())
    );
}

#[test]
fn canonical_of_ssh_example() {
    assert_eq!(
        get_canonical("git@github.com:gbrls/Bootloader.git (fetch)"),
        Ok("gbrls/Bootloader".to_string())
    );
}

#[test]
fn https_forms_give_owner_and_repo() {
    for url in [
        "https://example.org/a/b",
        "https://example.org/a/b.git",
        "https://example.org/a/b (fetch)",
        "https://example.org/a/b.git (push)",
    ] {
        assert_eq!(get_canonical(url), Ok("a/b".to_string()), "{url}");
    }
}

#[test]
fn ssh_forms_give_owner_and_repo() {
    for url in [
        "git@example.org:a/b",
        "git@example.org:a/b.git",
        "git@example.org:a/b (fetch)",
        "git@example.org:a/b.git (push)",
    ] {
        assert_eq!(get_canonical(url), Ok("a/b".to_string()), "{url}");
    }
}

#[test]
fn schemes_agree_on_one_repository() {
    let https = get_canonical("https://github.com/linebender/runebender (fetch)");
    let ssh = get_canonical("git@github.com:linebender/runebender.git");
    assert_eq!(https, ssh);
    assert_eq!(ssh, Ok("linebender/runebender".to_string()));
}

#[test]
fn normal_form_canonicalizes_as_the_full_url() {
    let full = get_canonical("git@github.com:foo/bar.git (push)");
    let bare = get_canonical("git@github.com:foo/bar");
    assert_eq!(full, bare);
}

#[test]
fn only_a_trailing_git_is_dropped() {
    assert_eq!(
        get_canonical("git@github.com:foo/foo.github.io.git"),
        Ok("foo/foo.github.io".to_string())
    );
}

#[test]
fn http_keeps_deeper_paths() {
    assert_eq!(
        get_canonical("http://host/group/sub/repo.git"),
        Ok("group/sub/repo".to_string())
    );
}

#[test]
fn http_with_few_slashes_is_empty() {
    assert_eq!(get_canonical("http:/x"), Ok(String::new()));
}

#[test]
fn not_a_url_is_an_error() {
    assert_eq!(get_canonical("ftp://host/a/b"), Err(UrlError::NotAUrl));
    assert_eq!(get_canonical("/home/me/repo (fetch)"), Err(UrlError::NotAUrl));
    assert_eq!(get_canonical(""), Err(UrlError::NotAUrl));
}

#[test]
fn ssh_without_colon_is_an_error() {
    assert_eq!(get_canonical("git@host/a/b"), Err(UrlError::NotAUrl));
}
