//! The repository cache: one record per repository, merged by path and
//! ordered with the most recently active repositories first.
use vstd::prelude::*;
use vstd::string::StrSliceExecFns;
use vstd::seq_lib::{to_multiset_build, to_multiset_insert};
use crate::text::{has_prefix, matches_at};
use crate::timestamp::{lemma_le_total_order, Timestamp};

verus! {

/// What is known of one local repository.
#[derive(Debug)]
pub struct ProjectMetadata {
    /// Root directory of the repository; the key of the cache.
    pub path: String,
    /// Remote URLs as `git remote -v` lists them, with their notes.
    pub upstream: Vec<String>,
    /// Time of the latest commit, if any.
    pub latest_commit: Option<Timestamp>,
}

pub struct ProjectMetadataView {
    pub path: Seq<char>,
    pub upstream: Seq<Seq<char>>,
    pub latest_commit: Option<Timestamp>,
}

impl View for ProjectMetadata {
    type V = ProjectMetadataView;

    open spec fn view(&self) -> ProjectMetadataView {
        ProjectMetadataView {
            path: self.path@,
            upstream: self.upstream@.map_values(|u: String| u@),
            latest_commit: self.latest_commit,
        }
    }
}

pub open spec fn cache_view(c: Seq<ProjectMetadata>) -> Seq<ProjectMetadataView> {
    c.map_values(|r: ProjectMetadata| r@)
}

/// Position of the first record of `c` with path `p`, or `c.len()`.
pub open spec fn path_index(c: Seq<ProjectMetadataView>, p: Seq<char>) -> int
    decreases c.len(),
{
    if c.len() == 0 {
        0
    } else if c[0].path == p {
        0
    } else {
        1 + path_index(c.drop_first(), p)
    }
}

/// No two records share a path.
pub open spec fn unique_paths(c: Seq<ProjectMetadataView>) -> bool {
    forall|i: int, j: int| 0 <= i < j < c.len() ==> c[i].path != c[j].path
}

/// `c` after merging `r`: the first record with the path of `r`, if any,
/// is replaced by the last record, the last place dropped, and `r`
/// appended.
pub open spec fn merged(c: Seq<ProjectMetadataView>, r: ProjectMetadataView) -> Seq<ProjectMetadataView> {
    let i = path_index(c, r.path);
    if i < c.len() {
        c.update(i, c.last()).drop_last().push(r)
    } else {
        c.push(r)
    }
}

/// `c` after merging each of `rs` in turn.
pub open spec fn merged_all(c: Seq<ProjectMetadataView>, rs: Seq<ProjectMetadataView>) -> Seq<ProjectMetadataView>
    decreases rs.len(),
{
    if rs.len() == 0 {
        c
    } else {
        merged_all(merged(c, rs[0]), rs.drop_first())
    }
}

/// Whether a commit at `a` is at least as recent as one at `b`; no commit
/// at all is older than any commit.
pub open spec fn newer_or_same(a: Option<Timestamp>, b: Option<Timestamp>) -> bool {
    match (a, b) {
        (_, None) => true,
        (None, Some(_)) => false,
        (Some(x), Some(y)) => y.spec_le(x),
    }
}

/// Most recent commit first, records without a commit last.
pub open spec fn sorted_by_recency(c: Seq<ProjectMetadataView>) -> bool {
    forall|i: int, j: int|
        0 <= i < j < c.len() ==> newer_or_same(#[trigger] c[i].latest_commit, #[trigger] c[j].latest_commit)
}

pub proof fn lemma_path_index(c: Seq<ProjectMetadataView>, p: Seq<char>)
    ensures
        0 <= path_index(c, p) <= c.len(),
        path_index(c, p) < c.len() ==> c[path_index(c, p)].path == p,
        forall|j: int| 0 <= j < path_index(c, p) ==> c[j].path != p,
    decreases c.len(),
{
    if c.len() > 0 && c[0].path != p {
        lemma_path_index(c.drop_first(), p);
        assert forall|j: int| 0 <= j < path_index(c, p) implies c[j].path != p by {
            if j > 0 {
                assert(c[j] == c.drop_first()[j - 1]);
            }
        }
    }
}

proof fn lemma_path_index_at(c: Seq<ProjectMetadataView>, p: Seq<char>, i: int)
    requires
        0 <= i <= c.len(),
        forall|j: int| 0 <= j < i ==> c[j].path != p,
        i == c.len() || c[i].path == p,
    ensures
        path_index(c, p) == i,
    decreases i,
{
    if i > 0 {
        let t = c.drop_first();
        assert forall|j: int| 0 <= j < i - 1 implies t[j].path != p by {
            assert(t[j] == c[j + 1]);
        }
        if i < c.len() {
            assert(t[i - 1] == c[i]);
        }
        lemma_path_index_at(t, p, i - 1);
    }
}

/// Merging keeps paths unique, ends with the merged record, and keeps every
/// record of another path.
pub proof fn lemma_merged(c: Seq<ProjectMetadataView>, r: ProjectMetadataView)
    requires
        unique_paths(c),
    ensures
        unique_paths(merged(c, r)),
        merged(c, r).last() == r,
        forall|j: int| 0 <= j < merged(c, r).len() - 1 ==> merged(c, r)[j].path != r.path,
        forall|j: int| 0 <= j < c.len() && c[j].path != r.path ==> merged(c, r).contains(c[j]),
{
    lemma_path_index(c, r.path);
    let i = path_index(c, r.path);
    let m = merged(c, r);
    if i < c.len() {
        let d = c.update(i, c.last()).drop_last();
        assert forall|j: int| 0 <= j < d.len() implies d[j].path != r.path by {
            if j == i {
                assert(c[c.len() - 1].path != c[i].path);
            } else {
                assert(c[j].path != c[i].path);
            }
        }
        assert forall|a: int, b: int| 0 <= a < b < m.len() implies m[a].path != m[b].path by {
            if b < d.len() {
                if a == i {
                    assert(c[c.len() - 1].path != c[b].path);
                } else if b == i {
                    assert(c[a].path != c[c.len() - 1].path);
                } else {
                    assert(c[a].path != c[b].path);
                }
            }
        }
        assert forall|j: int| 0 <= j < c.len() && c[j].path != r.path implies m.contains(c[j]) by {
            if j == c.len() - 1 && j != i {
                assert(m[i] == c[j]);
            } else {
                assert(m[j] == c[j]);
            }
        }
    } else {
        assert forall|j: int| 0 <= j < c.len() && c[j].path != r.path implies m.contains(c[j]) by {
            assert(m[j] == c[j]);
        }
    }
}

/// Scanning one repository twice in a row leaves exactly one record for
/// its path, the one of the second scan.
pub proof fn lemma_rescan_keeps_one(
    c: Seq<ProjectMetadataView>,
    first: ProjectMetadataView,
    second: ProjectMetadataView,
)
    requires
        unique_paths(c),
        first.path == second.path,
    ensures
        ({
            let m = merged(merged(c, first), second);
            &&& unique_paths(m)
            &&& m.last() == second
            &&& forall|j: int| 0 <= j < m.len() && m[j].path == second.path ==> m[j] == second
        }),
{
    lemma_merged(c, first);
    lemma_merged(merged(c, first), second);
}

/// Merges a freshly read record into the cache: a record with the same
/// path is replaced, none is duplicated.
pub fn update_repo_data(cache: &mut Vec<ProjectMetadata>, data: ProjectMetadata)
    ensures
        cache_view(final(cache)@) == merged(cache_view(old(cache)@), data@),
{
    let ghost c = cache_view(cache@);
    let mut i: usize = 0;
    while i < cache.len()
        invariant
            i <= cache.len(),
            c == cache_view(cache@),
            forall|j: int| 0 <= j < i ==> c[j].path != data.path@,
        ensures
            i <= cache.len(),
            forall|j: int| 0 <= j < i ==> c[j].path != data.path@,
            i == cache.len() || c[i as int].path == data.path@,
        decreases cache.len() - i,
    {
        if cache[i].path == data.path {
            break;
        }
        i = i + 1;
    }
    proof {
        lemma_path_index_at(c, data@.path, i as int);
    }
    if i < cache.len() {
        cache.swap_remove(i);
        assert(cache_view(cache@) =~= c.update(i as int, c.last()).drop_last());
    }
    cache.push(data);
    assert(cache_view(cache@) =~= merged(c, data@));
}

/// Whether a commit at `a` is at least as recent as one at `b`.
pub fn is_newer_or_same(a: &Option<Timestamp>, b: &Option<Timestamp>) -> (r: bool)
    ensures
        r == newer_or_same(*a, *b),
{
    match (a, b) {
        (_, None) => true,
        (None, Some(_)) => false,
        (Some(x), Some(y)) => y.le(x),
    }
}

proof fn lemma_recency_order(a: Option<Timestamp>, b: Option<Timestamp>, c: Option<Timestamp>)
    ensures
        newer_or_same(a, b) || newer_or_same(b, a),
        newer_or_same(a, b) && newer_or_same(b, c) ==> newer_or_same(a, c),
{
    if a is Some && b is Some && c is Some {
        lemma_le_total_order(a->0, b->0, c->0);
    } else if a is Some && b is Some {
        lemma_le_total_order(a->0, b->0, b->0);
    }
}

/// The records of `cache` ordered by recency: most recent commit first,
/// records without a commit last.
pub fn sort_by_recency(cache: Vec<ProjectMetadata>) -> (r: Vec<ProjectMetadata>)
    ensures
        sorted_by_recency(cache_view(r@)),
        cache_view(r@).to_multiset() == cache_view(cache@).to_multiset(),
{
    let mut rest = cache;
    let mut out: Vec<ProjectMetadata> = Vec::new();
    proof {
        broadcast use vstd::seq_lib::group_to_multiset_ensures, vstd::multiset::group_multiset_axioms;
        assert(cache_view(rest@) =~= cache_view(cache@));
        assert(cache_view(out@).to_multiset().len() == 0);
        assert(cache_view(out@).to_multiset().add(cache_view(rest@).to_multiset())
            =~= cache_view(cache@).to_multiset());
    }
    while rest.len() > 0
        invariant
            sorted_by_recency(cache_view(out@)),
            cache_view(out@).to_multiset().add(cache_view(rest@).to_multiset())
                == cache_view(cache@).to_multiset(),
        decreases rest.len(),
    {
        let ghost before_rest = cache_view(rest@);
        let x = rest.pop().unwrap();
        proof {
            assert(before_rest =~= cache_view(rest@).push(x@));
            to_multiset_build(cache_view(rest@), x@);
        }
        let ghost o = cache_view(out@);
        let mut p: usize = 0;
        while p < out.len()
            invariant
                p <= out.len(),
                o == cache_view(out@),
                forall|j: int| 0 <= j < p ==> newer_or_same(#[trigger] o[j].latest_commit, x.latest_commit),
            ensures
                p <= out.len(),
                forall|j: int| 0 <= j < p ==> newer_or_same(#[trigger] o[j].latest_commit, x.latest_commit),
                p == out.len() || !newer_or_same(o[p as int].latest_commit, x.latest_commit),
            decreases out.len() - p,
        {
            if !is_newer_or_same(&out[p].latest_commit, &x.latest_commit) {
                break;
            }
            p = p + 1;
        }
        let ghost xv = x@;
        out.insert(p, x);
        proof {
            let n = cache_view(out@);
            assert(n =~= o.insert(p as int, xv));
            to_multiset_insert(o, p as int, xv);
            if p < o.len() {
                lemma_recency_order(o[p as int].latest_commit, xv.latest_commit, xv.latest_commit);
            }
            assert forall|i: int, j: int| 0 <= i < j < n.len() implies newer_or_same(
                #[trigger] n[i].latest_commit,
                #[trigger] n[j].latest_commit,
            ) by {
                if j < p {
                } else if j == p {
                    assert(n[i] == o[i]);
                } else if i == p {
                    assert(n[j] == o[j - 1]);
                    if j - 1 > p {
                        assert(newer_or_same(o[p as int].latest_commit, o[j - 1].latest_commit));
                    }
                    lemma_recency_order(xv.latest_commit, o[p as int].latest_commit, o[j - 1].latest_commit);
                } else if i < p {
                    assert(n[i] == o[i]);
                    assert(n[j] == o[j - 1]);
                } else {
                    assert(n[i] == o[i - 1]);
                    assert(n[j] == o[j - 1]);
                }
            }
        }
    }
    proof {
        broadcast use vstd::seq_lib::group_to_multiset_ensures, vstd::multiset::group_multiset_axioms;
        assert(cache_view(rest@).to_multiset().len() == 0);
        assert(cache_view(out@).to_multiset().add(cache_view(rest@).to_multiset())
            =~= cache_view(out@).to_multiset());
    }
    out
}


/// The cache after a scan: each record found is merged in turn into the
/// cache read before, and the result is ordered by recency.
pub fn build_cache(cache: Vec<ProjectMetadata>, found: Vec<ProjectMetadata>) -> (r: Vec<ProjectMetadata>)
    ensures
        sorted_by_recency(cache_view(r@)),
        cache_view(r@).to_multiset() == merged_all(cache_view(cache@), cache_view(found@)).to_multiset(),
{
    let mut data = cache;
    let mut rest = found;
    while rest.len() > 0
        invariant
            merged_all(cache_view(data@), cache_view(rest@)) == merged_all(
                cache_view(cache@),
                cache_view(found@),
            ),
        decreases rest.len(),
    {
        let ghost before = cache_view(rest@);
        let record = rest.remove(0);
        assert(cache_view(rest@) =~= before.drop_first());
        update_repo_data(&mut data, record);
    }
    assert(cache_view(rest@) =~= Seq::<ProjectMetadataView>::empty());
    sort_by_recency(data)
}

/// Whether a record is listed among the recent ones: it has a commit and,
/// when a maximum age is given, its commit is no older than that and its
/// path lies under `location`.
pub open spec fn is_shown(r: ProjectMetadataView, age: i64, max_age: Option<i64>, location: Seq<char>) -> bool {
    r.latest_commit is Some && (max_age is None || (age <= max_age->0 && has_prefix(r.path, location)))
}

/// Paths of the records of `c` that are shown, in order; `ages[i]` is the
/// age of the latest commit of `c[i]`.
pub open spec fn shown_paths(
    c: Seq<ProjectMetadataView>,
    ages: Seq<i64>,
    max_age: Option<i64>,
    location: Seq<char>,
) -> Seq<Seq<char>>
    decreases c.len(),
{
    if c.len() == 0 || ages.len() == 0 {
        Seq::empty()
    } else {
        let prev = shown_paths(c.drop_last(), ages.drop_last(), max_age, location);
        if is_shown(c.last(), ages.last(), max_age, location) {
            prev.push(c.last().path)
        } else {
            prev
        }
    }
}

/// Paths of the recently active repositories, in cache order. `ages[i]` is
/// the time elapsed since the latest commit of `data[i]`, in the unit of
/// `max_age`.
pub fn recent_paths(data: &Vec<ProjectMetadata>, ages: &Vec<i64>, max_age: Option<i64>, location: &str) -> (r:
    Vec<String>)
    requires
        ages.len() == data.len(),
    ensures
        r@.map_values(|p: String| p@) == shown_paths(cache_view(data@), ages@, max_age, location@),
{
    let mut out: Vec<String> = Vec::new();
    let mut i: usize = 0;
    assert(out@.map_values(|p: String| p@) =~= Seq::<Seq<char>>::empty());
    while i < data.len()
        invariant
            i <= data.len(),
            ages.len() == data.len(),
            out@.map_values(|p: String| p@) == shown_paths(
                cache_view(data@).subrange(0, i as int),
                ages@.subrange(0, i as int),
                max_age,
                location@,
            ),
        decreases data.len() - i,
    {
        let e = &data[i];
        let shown = e.latest_commit.is_some() && match max_age {
            None => true,
            Some(m) => ages[i] <= m && matches_at(e.path.as_str(), 0, e.path.as_str().unicode_len(), location),
        };
        let ghost c1 = cache_view(data@).subrange(0, i + 1);
        let ghost a1 = ages@.subrange(0, i + 1);
        assert(c1.drop_last() =~= cache_view(data@).subrange(0, i as int));
        assert(a1.drop_last() =~= ages@.subrange(0, i as int));
        assert(e.path@.subrange(0, e.path@.len() as int) =~= e.path@);
        let ghost before = out@.map_values(|p: String| p@);
        if shown {
            out.push(e.path.clone());
            assert(out@.map_values(|p: String| p@) =~= before.push(e.path@));
        }
        i = i + 1;
    }
    assert(cache_view(data@).subrange(0, data.len() as int) =~= cache_view(data@));
    assert(ages@.subrange(0, data.len() as int) =~= ages@);
    out
}

} // verus!
