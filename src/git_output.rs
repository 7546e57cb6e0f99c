//! Reading what git prints for the two queries made of each repository:
//! `git remote -v` and `git log -n 1 --format=%ci`.
use vstd::prelude::*;
use vstd::string::StrSliceExecFns;
use crate::text::{
    after_first, before_first, bounded_decimal, field, field_bounds, find_char, index_of,
    lemma_index_of_bounds, parse_decimal,
};
use crate::cache::ProjectMetadata;
use crate::timestamp::{make_timestamp, valid_date, valid_time, Timestamp};

verus! {

/// Output of git that does not have the expected shape.
#[derive(Debug, Clone, Copy, PartialEq, Eq, Structural)]
pub enum GitOutputError {
    /// A non-empty line of the remote list without a tab.
    RemoteLineWithoutTab,
    /// A commit time that is not `YYYY-MM-DD HH:MM:SS ...` with a valid date and time.
    MalformedCommitTime,
}

pub open spec fn views(v: Seq<String>) -> Seq<Seq<char>> {
    v.map_values(|x: String| x@)
}

/// What follows the first line of `s`: empty when there is no newline.
pub open spec fn rest_after_line(s: Seq<char>) -> Seq<char> {
    after_first(s, '\n')
}

/// The remotes of `git remote -v` output, one per line `<name>\t<url> (<dir>)`:
/// the part after the tab of each line, where it is non-empty. Empty lines
/// are skipped; `None` when a non-empty line has no tab.
pub open spec fn remotes_of(s: Seq<char>) -> Option<Seq<Seq<char>>>
    decreases s.len()
    via remotes_of_decreases
{
    if s.len() == 0 {
        Some(Seq::empty())
    } else {
        let line = before_first(s, '\n');
        let tail = if index_of(s, '\n') < s.len() {
            remotes_of(s.subrange(index_of(s, '\n') + 1, s.len() as int))
        } else {
            Some(Seq::empty())
        };
        match tail {
            None => None,
            Some(t) => if line.len() == 0 {
                Some(t)
            } else if index_of(line, '\t') == line.len() {
                None
            } else if after_first(line, '\t').len() == 0 {
                Some(t)
            } else {
                Some(seq![after_first(line, '\t')] + t)
            },
        }
    }
}

#[via_fn]
proof fn remotes_of_decreases(s: Seq<char>) {
    lemma_index_of_bounds(s, '\n');
}

pub open spec fn prepend(a: Seq<Seq<char>>, t: Option<Seq<Seq<char>>>) -> Option<Seq<Seq<char>>> {
    match t {
        Some(t) => Some(a + t),
        None => None,
    }
}

/// The remote URLs, each with its `(fetch)` or `(push)` note, listed in
/// the output of `git remote -v`.
pub fn parse_remotes(out: &str) -> (r: Result<Vec<String>, GitOutputError>)
    ensures
        r is Ok <==> remotes_of(out@) is Some,
        r matches Ok(v) ==> remotes_of(out@) == Some(views(v@)),
        r matches Err(e) ==> e == GitOutputError::RemoteLineWithoutTab,
{
    let n = out.unicode_len();
    let mut acc: Vec<String> = Vec::new();
    let mut pos: usize = 0;
    assert(out@.subrange(0, n as int) =~= out@);
    assert(views(acc@) =~= Seq::<Seq<char>>::empty());
    while pos < n
        invariant
            pos <= n,
            n == out@.len(),
            remotes_of(out@) == prepend(views(acc@), remotes_of(out@.subrange(pos as int, n as int))),
        decreases n - pos,
    {
        let ghost sub = out@.subrange(pos as int, n as int);
        let e = find_char(out, pos, n, '\n');
        let ghost line = sub.subrange(0, e - pos);
        assert(line =~= out@.subrange(pos as int, e as int));
        assert(line == before_first(sub, '\n'));
        let next: usize = if e < n { e + 1 } else { n };
        let ghost rest = out@.subrange(next as int, n as int);
        if e < n {
            assert(sub.subrange(e - pos + 1, sub.len() as int) =~= rest);
        } else {
            assert(rest =~= Seq::<char>::empty());
        }
        if e > pos {
            let t = find_char(out, pos, e, '\t');
            if t == e {
                return Err(GitOutputError::RemoteLineWithoutTab);
            }
            assert(after_first(line, '\t') =~= out@.subrange(t + 1, e as int));
            if t + 1 < e {
                let url = out.substring_char(t + 1, e).to_owned();
                let ghost before = views(acc@);
                acc.push(url);
                assert(views(acc@) =~= before + seq![url@]);
            }
        }
        pos = next;
    }
    assert(out@.subrange(n as int, n as int) =~= Seq::<char>::empty());
    assert(views(acc@) + Seq::<Seq<char>>::empty() =~= views(acc@));
    Ok(acc)
}


/// The `k`-th field of `s` split at `c`, read as a decimal number no larger
/// than `max`.
pub open spec fn number_in(s: Seq<char>, c: char, k: nat, max: nat) -> Option<nat> {
    match field(s, c, k) {
        Some(f) => bounded_decimal(f, max),
        None => None,
    }
}

pub open spec fn i32_max() -> nat {
    0x7fff_ffff
}

pub open spec fn u32_max() -> nat {
    0xffff_ffff
}

/// The commit time in `git log --format=%ci` output
/// `YYYY-MM-DD HH:MM:SS <offset>`: the first space-separated word holds
/// year, month and day split at `-`, the second hour, minute and second
/// split at `:`; further fields and the offset are ignored.
pub open spec fn commit_time_of(out: Seq<char>) -> Option<Timestamp> {
    let date = before_first(out, ' ');
    match field(out, ' ', 1) {
        None => None,
        Some(time) => {
            let y = number_in(date, '-', 0, i32_max());
            let mo = number_in(date, '-', 1, u32_max());
            let d = number_in(date, '-', 2, u32_max());
            let h = number_in(time, ':', 0, u32_max());
            let mi = number_in(time, ':', 1, u32_max());
            let se = number_in(time, ':', 2, u32_max());
            if y is Some && mo is Some && d is Some && h is Some && mi is Some && se is Some
                && valid_date(y->0 as int, mo->0 as int, d->0 as int) && valid_time(
                h->0 as int,
                mi->0 as int,
                se->0 as int,
            ) {
                Some(
                    Timestamp {
                        year: y->0 as i32,
                        month: mo->0 as u32,
                        day: d->0 as u32,
                        hour: h->0 as u32,
                        minute: mi->0 as u32,
                        second: se->0 as u32,
                    },
                )
            } else {
                None
            }
        },
    }
}

/// `number_in(s@.subrange(start, end), c, k, max)`.
fn number_field(s: &str, start: usize, end: usize, c: char, k: usize, max: u32) -> (r: Option<u32>)
    requires
        start <= end <= s@.len(),
    ensures
        r matches Some(v) ==> number_in(s@.subrange(start as int, end as int), c, k as nat, max as nat)
            == Some(v as nat),
        r is None ==> number_in(s@.subrange(start as int, end as int), c, k as nat, max as nat) is None,
{
    match field_bounds(s, start, end, c, k) {
        Some((a, b)) => parse_decimal(s, a, b, max),
        None => None,
    }
}

/// The time of the latest commit in the output of `git log -n 1 --format=%ci`:
/// `None` for empty output (a repository without commits).
pub fn parse_commit_time(out: &str) -> (r: Result<Option<Timestamp>, GitOutputError>)
    ensures
        out@.len() == 0 ==> r == Ok::<Option<Timestamp>, GitOutputError>(None),
        out@.len() > 0 ==> (r is Ok <==> commit_time_of(out@) is Some),
        out@.len() > 0 && r is Ok ==> r->Ok_0 == commit_time_of(out@),
        r matches Err(e) ==> e == GitOutputError::MalformedCommitTime,
        r matches Ok(Some(t)) ==> t.wf(),
{
    let n = out.unicode_len();
    if n == 0 {
        return Ok(None);
    }
    assert(out@.subrange(0, n as int) =~= out@);
    let d_end = find_char(out, 0, n, ' ');
    assert(out@.subrange(0, d_end as int) =~= before_first(out@, ' '));
    let (ta, tb) = match field_bounds(out, 0, n, ' ', 1) {
        Some(bounds) => bounds,
        None => return Err(GitOutputError::MalformedCommitTime),
    };
    let y = number_field(out, 0, d_end, '-', 0, 0x7fff_ffff);
    let mo = number_field(out, 0, d_end, '-', 1, 0xffff_ffff);
    let d = number_field(out, 0, d_end, '-', 2, 0xffff_ffff);
    let h = number_field(out, ta, tb, ':', 0, 0xffff_ffff);
    let mi = number_field(out, ta, tb, ':', 1, 0xffff_ffff);
    let se = number_field(out, ta, tb, ':', 2, 0xffff_ffff);
    match (y, mo, d, h, mi, se) {
        (Some(y), Some(mo), Some(d), Some(h), Some(mi), Some(se)) => {
            match make_timestamp(y as i32, mo, d, h, mi, se) {
                Some(t) => Ok(Some(t)),
                None => Err(GitOutputError::MalformedCommitTime),
            }
        },
        _ => Err(GitOutputError::MalformedCommitTime),
    }
}


/// The record of the repository at `path`, from the outputs of
/// `git remote -v` and of `git log -n 1 --format=%ci` run on it.
pub fn metadata_from_output(path: String, remotes_out: &str, log_out: &str) -> (r: Result<
    ProjectMetadata,
    GitOutputError,
>)
    ensures
        r is Ok <==> remotes_of(remotes_out@) is Some && (log_out@.len() == 0 || commit_time_of(
            log_out@,
        ) is Some),
        r matches Ok(m) ==> m.path@ == path@ && remotes_of(remotes_out@) == Some(views(m.upstream@))
            && m.latest_commit == (if log_out@.len() == 0 {
            None
        } else {
            commit_time_of(log_out@)
        }),
        r matches Err(e) ==> (e == GitOutputError::RemoteLineWithoutTab <==> remotes_of(remotes_out@) is None),
{
    let upstream = match parse_remotes(remotes_out) {
        Ok(v) => v,
        Err(e) => return Err(e),
    };
    let latest_commit = match parse_commit_time(log_out) {
        Ok(t) => t,
        Err(e) => return Err(e),
    };
    Ok(ProjectMetadata { path, upstream, latest_commit })
}

} // verus!
