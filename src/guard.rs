//! The clone guard: before running `git clone`, look for a cached
//! repository whose remotes name the same `owner/repo`.
use vstd::prelude::*;
use vstd::string::StrSliceExecFns;
use crate::cache::{cache_view, ProjectMetadata, ProjectMetadataView};
use crate::text::{has_prefix, matches_at};
use crate::url::{canonical, get_canonical, http_prefix, ssh_prefix};

verus! {

/// What to do with a clone request.
#[derive(Debug, Clone, Copy, PartialEq, Eq, Structural)]
pub enum CloneDecision {
    /// The argument at `url_index` names the repository of the record at
    /// `record_index`: nothing is cloned.
    AlreadyCloned { url_index: usize, record_index: usize },
    /// The argument at `url_index` names no cached repository: the
    /// arguments go to `git clone` as they are.
    Clone { url_index: usize },
}

/// Why a clone request cannot be decided.
#[derive(Debug, Clone, Copy, PartialEq, Eq, Structural)]
pub enum CloneError {
    /// No argument starts with `http` or `git@`.
    NoUrl,
    /// The argument at the given index looks like a URL but has no
    /// canonical form.
    InvalidUrl(usize),
}

pub open spec fn looks_like_url(a: Seq<char>) -> bool {
    has_prefix(a, http_prefix()) || has_prefix(a, ssh_prefix())
}

/// Index of the first argument that looks like a URL, or `args.len()`.
pub open spec fn first_url_index(args: Seq<Seq<char>>) -> int
    decreases args.len(),
{
    if args.len() == 0 {
        0
    } else if looks_like_url(args[0]) {
        0
    } else {
        1 + first_url_index(args.drop_first())
    }
}

/// Whether one of the remotes of `r` has canonical form `key`. A remote
/// that is not a URL (a local path, say) names no repository and matches
/// nothing.
pub open spec fn has_remote(r: ProjectMetadataView, key: Seq<char>) -> bool {
    exists|k: int| 0 <= k < r.upstream.len() && canonical(#[trigger] r.upstream[k]) == Some(key)
}

/// Index of the first record with a remote of canonical form `key`, or `c.len()`.
pub open spec fn first_match(c: Seq<ProjectMetadataView>, key: Seq<char>) -> int
    decreases c.len(),
{
    if c.len() == 0 {
        0
    } else if has_remote(c[0], key) {
        0
    } else {
        1 + first_match(c.drop_first(), key)
    }
}

proof fn lemma_first_url_index_at(args: Seq<Seq<char>>, i: int)
    requires
        0 <= i <= args.len(),
        forall|j: int| 0 <= j < i ==> !looks_like_url(args[j]),
        i == args.len() || looks_like_url(args[i]),
    ensures
        first_url_index(args) == i,
    decreases i,
{
    if i > 0 {
        let t = args.drop_first();
        assert forall|j: int| 0 <= j < i - 1 implies !looks_like_url(t[j]) by {
            assert(t[j] == args[j + 1]);
        }
        if i < args.len() {
            assert(t[i - 1] == args[i]);
        }
        lemma_first_url_index_at(t, i - 1);
    }
}

proof fn lemma_first_match_at(c: Seq<ProjectMetadataView>, key: Seq<char>, i: int)
    requires
        0 <= i <= c.len(),
        forall|j: int| 0 <= j < i ==> !has_remote(#[trigger] c[j], key),
        i == c.len() || has_remote(c[i], key),
    ensures
        first_match(c, key) == i,
    decreases i,
{
    if i > 0 {
        let t = c.drop_first();
        assert forall|j: int| 0 <= j < i - 1 implies !has_remote(#[trigger] t[j], key) by {
            assert(t[j] == c[j + 1]);
        }
        if i < c.len() {
            assert(t[i - 1] == c[i]);
        }
        lemma_first_match_at(t, key, i - 1);
    }
}

/// Whether one of `remotes` canonicalizes to `key`.
fn any_remote_matches(remotes: &Vec<String>, key: &String) -> (r: bool)
    ensures
        r == exists|k: int| 0 <= k < remotes@.len() && canonical(#[trigger] remotes@[k]@) == Some(key@),
{
    let mut k: usize = 0;
    while k < remotes.len()
        invariant
            k <= remotes.len(),
            forall|j: int| 0 <= j < k ==> canonical(#[trigger] remotes@[j]@) != Some(key@),
        decreases remotes.len() - k,
    {
        match get_canonical(remotes[k].as_str()) {
            Ok(c) => {
                if c == *key {
                    return true;
                }
            },
            Err(_) => {},
        }
        k = k + 1;
    }
    false
}

/// Decides a clone request from its arguments and the cache: the first
/// argument that starts with `http` or `git@` is the URL; the first record
/// with a remote of the same canonical form is the existing clone.
pub fn check_clone(args: &Vec<String>, cache: &Vec<ProjectMetadata>) -> (r: Result<CloneDecision, CloneError>)
    ensures
        ({
            let a = args@.map_values(|s: String| s@);
            let u = first_url_index(a);
            let c = cache_view(cache@);
            &&& (r == Err::<CloneDecision, CloneError>(CloneError::NoUrl) <==> u == a.len())
            &&& (r == Err::<CloneDecision, CloneError>(CloneError::InvalidUrl(u as usize)) <==> u < a.len()
                && canonical(a[u]) is None)
            &&& (r is Ok <==> u < a.len() && canonical(a[u]) is Some)
            &&& (r matches Ok(CloneDecision::AlreadyCloned { url_index, record_index }) ==> url_index == u
                && record_index == first_match(c, canonical(a[u])->0) && record_index < c.len())
            &&& (r matches Ok(CloneDecision::Clone { url_index }) ==> url_index == u && first_match(
                c,
                canonical(a[u])->0,
            ) == c.len())
        }),
{
    let ghost a = args@.map_values(|s: String| s@);
    let ghost c = cache_view(cache@);
    proof {
        reveal_strlit("http");
        reveal_strlit("git@");
        assert("http"@ =~= http_prefix());
        assert("git@"@ =~= ssh_prefix());
    }
    let mut i: usize = 0;
    while i < args.len()
        invariant
            i <= args.len(),
            a == args@.map_values(|s: String| s@),
            "http"@ == http_prefix(),
            "git@"@ == ssh_prefix(),
            forall|j: int| 0 <= j < i ==> !looks_like_url(a[j]),
        ensures
            i <= args.len(),
            forall|j: int| 0 <= j < i ==> !looks_like_url(a[j]),
            i == args.len() || looks_like_url(a[i as int]),
        decreases args.len() - i,
    {
        let s = args[i].as_str();
        let n = s.unicode_len();
        assert(s@.subrange(0, n as int) =~= s@);
        assert(a[i as int] == s@);
        if matches_at(s, 0, n, "http") || matches_at(s, 0, n, "git@") {
            break;
        }
        i = i + 1;
    }
    proof {
        lemma_first_url_index_at(a, i as int);
    }
    if i == args.len() {
        return Err(CloneError::NoUrl);
    }
    assert(a[i as int] == args@[i as int]@);
    let key = match get_canonical(args[i].as_str()) {
        Ok(k) => k,
        Err(_) => return Err(CloneError::InvalidUrl(i)),
    };
    let mut j: usize = 0;
    while j < cache.len()
        invariant
            j <= cache.len(),
            c == cache_view(cache@),
            a == args@.map_values(|s: String| s@),
            i < args.len(),
            first_url_index(a) == i,
            canonical(a[i as int]) == Some(key@),
            forall|m: int| 0 <= m < j ==> !has_remote(#[trigger] c[m], key@),
        decreases cache.len() - j,
    {
        let found = any_remote_matches(&cache[j].upstream, &key);
        proof {
            let rv = c[j as int];
            assert(rv.upstream =~= cache@[j as int].upstream@.map_values(|u: String| u@));
            if found {
                let k = choose|k: int|
                    0 <= k < cache@[j as int].upstream@.len() && canonical(
                        #[trigger] cache@[j as int].upstream@[k]@,
                    ) == Some(key@);
                assert(rv.upstream[k] == cache@[j as int].upstream@[k]@);
                assert(has_remote(rv, key@));
            } else {
                assert forall|k: int| 0 <= k < rv.upstream.len() implies canonical(
                    #[trigger] rv.upstream[k],
                ) != Some(key@) by {
                    assert(rv.upstream[k] == cache@[j as int].upstream@[k]@);
                }
            }
        }
        if found {
            proof {
                lemma_first_match_at(c, key@, j as int);
            }
            return Ok(CloneDecision::AlreadyCloned { url_index: i, record_index: j });
        }
        j = j + 1;
    }
    proof {
        lemma_first_match_at(c, key@, j as int);
    }
    Ok(CloneDecision::Clone { url_index: i })
}

} // verus!
