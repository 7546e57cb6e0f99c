//! Canonical form of a remote URL: the host-independent `owner/repo` part
//! under which SSH and HTTPS remotes of one repository compare equal.
use vstd::prelude::*;
use vstd::string::StrSliceExecFns;
use crate::text::{
    after_first, before_first, find_char, has_prefix, has_suffix, index_of, lemma_index_of_at,
    lemma_index_of_bounds, lemma_split_at_separator, matches_at, skip_past,
};

verus! {

/// A remote URL that is neither of the SSH form `git@host:path` nor of the
/// HTTP form `http...://host/path`.
#[derive(Debug, Clone, Copy, PartialEq, Eq, Structural)]
pub enum UrlError {
    NotAUrl,
}

pub open spec fn git_ext() -> Seq<char> {
    seq!['.', 'g', 'i', 't']
}

pub open spec fn ssh_prefix() -> Seq<char> {
    seq!['g', 'i', 't', '@']
}

pub open spec fn http_prefix() -> Seq<char> {
    seq!['h', 't', 't', 'p']
}

/// `s` without a trailing `.git`.
pub open spec fn strip_git(s: Seq<char>) -> Seq<char> {
    if has_suffix(s, git_ext()) {
        s.subrange(0, s.len() - 4)
    } else {
        s
    }
}

/// The URL proper: up to the first space (which drops a ` (fetch)` or
/// ` (push)` note), without a trailing `.git`.
pub open spec fn normal_form(url: Seq<char>) -> Seq<char> {
    strip_git(before_first(url, ' '))
}

/// Whether `url` is of a form that canonicalization accepts.
pub open spec fn is_remote_url(url: Seq<char>) -> bool {
    let core = normal_form(url);
    (has_prefix(core, ssh_prefix()) && index_of(core, ':') < core.len())
        || (!has_prefix(core, ssh_prefix()) && has_prefix(core, http_prefix()))
}

/// The canonical suffix of a remote URL: after the first `:` of the SSH
/// form, after the third `/` of the HTTP form (empty when it has fewer).
pub open spec fn url_ending(url: Seq<char>) -> Seq<char> {
    let core = normal_form(url);
    if has_prefix(core, ssh_prefix()) {
        after_first(core, ':')
    } else {
        after_first(after_first(after_first(core, '/'), '/'), '/')
    }
}

/// Canonicalization as a partial function: `None` on what is not a URL.
pub open spec fn canonical(url: Seq<char>) -> Option<Seq<char>> {
    if is_remote_url(url) {
        Some(url_ending(url))
    } else {
        None
    }
}

/// End of the URL proper inside `url`: `url@.subrange(0, r)` is its normal form.
fn normal_end(url: &str) -> (r: usize)
    ensures
        r <= url@.len(),
        url@.subrange(0, r as int) == normal_form(url@),
{
    let n = url.unicode_len();
    let e = find_char(url, 0, n, ' ');
    let ghost w = url@.subrange(0, e as int);
    assert(url@.subrange(0, n as int) =~= url@);
    proof {
        crate::text::lemma_index_of_bounds(url@, ' ');
    }
    assert(w == before_first(url@, ' '));
    assert(".git"@ =~= git_ext()) by {
        reveal_strlit(".git");
    }
    if e >= 4 && matches_at(url, e - 4, e, ".git") {
        proof {
            reveal_strlit(".git");
            assert(w.subrange(w.len() - 4, w.len() as int) =~= url@.subrange(e - 4, e as int)
                .subrange(0, 4));
            assert(w.subrange(0, w.len() - 4) =~= url@.subrange(0, e - 4));
        }
        e - 4
    } else {
        proof {
            reveal_strlit(".git");
            if e >= 4 {
                assert(w.subrange(w.len() - 4, w.len() as int) =~= url@.subrange(e - 4, e as int)
                    .subrange(0, 4));
            }
        }
        e
    }
}

/// Canonical suffix of a remote URL, or `UrlError::NotAUrl` when the URL is
/// of neither the SSH nor the HTTP form.
pub fn get_canonical(url: &str) -> (r: Result<String, UrlError>)
    ensures
        r is Ok <==> is_remote_url(url@),
        r matches Ok(c) ==> c@ == url_ending(url@),
        r is Ok ==> canonical(url@) == Some(r->Ok_0@),
        r is Err ==> canonical(url@) is None,
{
    let end = normal_end(url);
    let ghost core = url@.subrange(0, end as int);
    proof {
        reveal_strlit("git@");
        reveal_strlit("http");
        assert(url@.subrange(0, end as int).subrange(0, end as int) =~= core);
        assert("git@"@ =~= ssh_prefix());
        assert("http"@ =~= http_prefix());
    }
    if matches_at(url, 0, end, "git@") {
        let i = find_char(url, 0, end, ':');
        if i < end {
            let start = skip_past(url, 0, end, ':');
            Ok(url.substring_char(start, end).to_owned())
        } else {
            Err(UrlError::NotAUrl)
        }
    } else if matches_at(url, 0, end, "http") {
        let a = skip_past(url, 0, end, '/');
        let b = skip_past(url, a, end, '/');
        let c = skip_past(url, b, end, '/');
        Ok(url.substring_char(c, end).to_owned())
    } else {
        Err(UrlError::NotAUrl)
    }
}

/// Canonical suffix of a URL that is known to be of the SSH or HTTP form.
pub fn get_url_ending(url: &str) -> (r: String)
    requires
        is_remote_url(url@),
    ensures
        r@ == url_ending(url@),
{
    match get_canonical(url) {
        Ok(c) => c,
        Err(_) => String::new(),
    }
}


pub open spec fn https_scheme() -> Seq<char> {
    seq!['h', 't', 't', 'p', 's', ':', '/', '/']
}

pub open spec fn fetch_note() -> Seq<char> {
    seq![' ', '(', 'f', 'e', 't', 'c', 'h', ')']
}

pub open spec fn push_note() -> Seq<char> {
    seq![' ', '(', 'p', 'u', 's', 'h', ')']
}

pub open spec fn free_of(s: Seq<char>, c: char) -> bool {
    forall|j: int| 0 <= j < s.len() ==> s[j] != c
}

/// An optional `.git` after the repository name.
pub open spec fn is_ext(ext: Seq<char>) -> bool {
    ext == Seq::<char>::empty() || ext == git_ext()
}

/// An optional ` (fetch)` or ` (push)` note.
pub open spec fn is_note(note: Seq<char>) -> bool {
    note == Seq::<char>::empty() || note == fetch_note() || note == push_note()
}

/// A URL `q + ext + note` without its note and its `.git` is `q`, when `q`
/// holds no space and does not already end in `.git`.
proof fn lemma_normal_form_of(q: Seq<char>, ext: Seq<char>, note: Seq<char>)
    requires
        free_of(q, ' '),
        q.len() >= 4,
        !has_suffix(q, git_ext()),
        is_ext(ext),
        is_note(note),
    ensures
        normal_form(q + ext + note) == q,
{
    let p = q + ext;
    assert(free_of(p, ' ')) by {
        assert forall|j: int| 0 <= j < p.len() implies p[j] != ' ' by {
            if j >= q.len() {
                assert(p[j] == ext[j - q.len()]);
            }
        }
    }
    let url = p + note;
    if note.len() == 0 {
        assert(url =~= p);
        lemma_index_of_at(p, ' ', p.len() as int);
        assert(before_first(url, ' ') =~= p);
    } else {
        assert(url =~= p + seq![' '] + note.drop_first());
        lemma_split_at_separator(p, note.drop_first(), ' ');
    }
    if ext.len() > 0 {
        assert(p.subrange(p.len() - 4, p.len() as int) =~= git_ext());
        assert(p.subrange(0, p.len() - 4) =~= q);
    } else {
        assert(p =~= q);
    }
}

/// An HTTPS URL `https://host/owner/repo`, optionally followed by `.git`
/// and by ` (fetch)` or ` (push)`, has canonical form `owner/repo`.
pub proof fn lemma_https_canonical(
    host: Seq<char>,
    owner: Seq<char>,
    repo: Seq<char>,
    ext: Seq<char>,
    note: Seq<char>,
)
    requires
        free_of(host, '/') && free_of(host, ' '),
        free_of(owner, '/') && free_of(owner, ' '),
        free_of(repo, '/') && free_of(repo, ' '),
        !has_suffix(repo, git_ext()),
        is_ext(ext),
        is_note(note),
    ensures
        canonical(https_scheme() + host + seq!['/'] + owner + seq!['/'] + repo + ext + note) == Some(
            owner + seq!['/'] + repo,
        ),
{
    let tail = owner + seq!['/'] + repo;
    let y2 = host + seq!['/'] + tail;
    let y1 = seq!['/'] + y2;
    let q = seq!['h', 't', 't', 'p', 's', ':'] + seq!['/'] + y1;
    assert(https_scheme() + host + seq!['/'] + owner + seq!['/'] + repo =~= q);
    assert(free_of(q, ' ')) by {
        assert forall|j: int| 0 <= j < q.len() implies q[j] != ' ' by {
            if j >= 8 && j < 8 + host.len() {
                assert(q[j] == host[j - 8]);
            } else if j > 8 + host.len() && j < 9 + host.len() + owner.len() {
                assert(q[j] == owner[j - 9 - host.len()]);
            } else if j > 9 + host.len() + owner.len() {
                assert(q[j] == repo[j - 10 - host.len() - owner.len()]);
            }
        }
    }
    assert(!has_suffix(q, git_ext())) by {
        if repo.len() >= 4 {
            assert(q.subrange(q.len() - 4, q.len() as int) =~= repo.subrange(
                repo.len() - 4,
                repo.len() as int,
            ));
        } else {
            let k = q.len() - repo.len() - 1;
            assert(q[k] == '/');
            assert(q.subrange(q.len() - 4, q.len() as int)[k - (q.len() - 4)] == '/');
        }
    }
    lemma_normal_form_of(q, ext, note);
    assert(https_scheme() + host + seq!['/'] + owner + seq!['/'] + repo + ext + note =~= q + ext
        + note);
    assert(!has_prefix(q, ssh_prefix())) by {
        assert(q.subrange(0, 4)[0] == 'h');
    }
    assert(has_prefix(q, http_prefix())) by {
        assert(q.subrange(0, 4) =~= http_prefix());
    }
    lemma_split_at_separator(seq!['h', 't', 't', 'p', 's', ':'], y1, '/');
    assert(y1 =~= Seq::<char>::empty() + seq!['/'] + y2);
    lemma_split_at_separator(Seq::<char>::empty(), y2, '/');
    lemma_split_at_separator(host, tail, '/');
}

/// An SSH URL `git@host:owner/repo`, optionally followed by `.git` and by
/// ` (fetch)` or ` (push)`, has canonical form `owner/repo`.
pub proof fn lemma_ssh_canonical(
    host: Seq<char>,
    owner: Seq<char>,
    repo: Seq<char>,
    ext: Seq<char>,
    note: Seq<char>,
)
    requires
        free_of(host, ':') && free_of(host, ' '),
        free_of(owner, ' '),
        free_of(repo, '/') && free_of(repo, ' '),
        !has_suffix(repo, git_ext()),
        is_ext(ext),
        is_note(note),
    ensures
        canonical(ssh_prefix() + host + seq![':'] + owner + seq!['/'] + repo + ext + note) == Some(
            owner + seq!['/'] + repo,
        ),
{
    let tail = owner + seq!['/'] + repo;
    let x = ssh_prefix() + host;
    let q = x + seq![':'] + tail;
    assert(ssh_prefix() + host + seq![':'] + owner + seq!['/'] + repo =~= q);
    assert(free_of(x, ':')) by {
        assert forall|j: int| 0 <= j < x.len() implies x[j] != ':' by {
            if j >= 4 {
                assert(x[j] == host[j - 4]);
            }
        }
    }
    assert(free_of(q, ' ')) by {
        assert forall|j: int| 0 <= j < q.len() implies q[j] != ' ' by {
            if j >= 4 && j < 4 + host.len() {
                assert(q[j] == host[j - 4]);
            } else if j > 4 + host.len() && j < 5 + host.len() + owner.len() {
                assert(q[j] == owner[j - 5 - host.len()]);
            } else if j > 5 + host.len() + owner.len() {
                assert(q[j] == repo[j - 6 - host.len() - owner.len()]);
            }
        }
    }
    assert(!has_suffix(q, git_ext())) by {
        if repo.len() >= 4 {
            assert(q.subrange(q.len() - 4, q.len() as int) =~= repo.subrange(
                repo.len() - 4,
                repo.len() as int,
            ));
        } else {
            let k = q.len() - repo.len() - 1;
            assert(q[k] == '/');
            assert(q.subrange(q.len() - 4, q.len() as int)[k - (q.len() - 4)] == '/');
        }
    }
    lemma_normal_form_of(q, ext, note);
    assert(ssh_prefix() + host + seq![':'] + owner + seq!['/'] + repo + ext + note =~= q + ext
        + note);
    assert(has_prefix(q, ssh_prefix())) by {
        assert(q.subrange(0, 4) =~= ssh_prefix());
    }
    lemma_split_at_separator(x, tail, ':');
}

/// The HTTPS and the SSH URL of one `owner/repo` have the same canonical
/// form, whatever their hosts, `.git` endings and notes.
pub proof fn lemma_same_repository_any_scheme(
    https_host: Seq<char>,
    ssh_host: Seq<char>,
    owner: Seq<char>,
    repo: Seq<char>,
    https_ext: Seq<char>,
    ssh_ext: Seq<char>,
    https_note: Seq<char>,
    ssh_note: Seq<char>,
)
    requires
        free_of(https_host, '/') && free_of(https_host, ' '),
        free_of(ssh_host, ':') && free_of(ssh_host, ' '),
        free_of(owner, '/') && free_of(owner, ' '),
        free_of(repo, '/') && free_of(repo, ' '),
        !has_suffix(repo, git_ext()),
        is_ext(https_ext) && is_ext(ssh_ext),
        is_note(https_note) && is_note(ssh_note),
    ensures
        canonical(https_scheme() + https_host + seq!['/'] + owner + seq!['/'] + repo + https_ext
            + https_note) == canonical(ssh_prefix() + ssh_host + seq![':'] + owner + seq!['/'] + repo
            + ssh_ext + ssh_note),
{
    lemma_https_canonical(https_host, owner, repo, https_ext, https_note);
    lemma_ssh_canonical(ssh_host, owner, repo, ssh_ext, ssh_note);
}

/// Canonicalizing the normal form of a URL (its note and `.git` already
/// dropped) gives what canonicalizing the URL gives, and normalizing again
/// changes nothing, unless the normal form itself still ends in `.git`.
pub proof fn lemma_normal_form_stable(url: Seq<char>)
    requires
        !has_suffix(normal_form(url), git_ext()),
    ensures
        normal_form(normal_form(url)) == normal_form(url),
        canonical(normal_form(url)) == canonical(url),
{
    let b = before_first(url, ' ');
    let n = normal_form(url);
    lemma_index_of_bounds(url, ' ');
    assert(n.len() <= b.len());
    assert forall|j: int| 0 <= j < n.len() implies n[j] != ' ' by {
        assert(n[j] == b[j]);
        assert(b[j] == url[j]);
    }
    lemma_index_of_at(n, ' ', n.len() as int);
    assert(before_first(n, ' ') =~= n);
}

} // verus!
