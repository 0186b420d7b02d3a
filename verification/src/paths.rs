//! The paths that lines are asked for under: which of them can be served.

use crate::db::Db;
use crate::failure::{listing, push_listing, Failure};
use crate::model::{line_map_wf, PathDigestMap, PathLineMap};
use crate::select::line_map_view;
use crate::str_map::StrMap;
use crate::text::{lemma_views_push, lex_lt, str_eq, views};
use crate::warn::{warn, warning_text};
use vstd::prelude::*;
use vstd::string::StringExecFns;

verus! {

/// What can be said of a path that lines are asked for under.
#[derive(Clone, Copy, Debug, PartialEq, Eq, Structural)]
pub enum PathStatus {
    /// There is no such file: a failure.
    Nonexistent,
    /// The file is there and no test ran it: worth a warning.
    Uncovered,
    /// The file is there and the store has a digest of it.
    Valid,
}

/// The status of `path`, given the paths that exist and the digests of the
/// store.
pub open spec fn path_status(digests: PathDigestMap, existing: Seq<Seq<char>>, path: Seq<char>) -> PathStatus {
    if !existing.contains(path) {
        PathStatus::Nonexistent
    } else if !digests.has_key(path) {
        PathStatus::Uncovered
    } else {
        PathStatus::Valid
    }
}

/// Those of the first `n` of `paths` that have the status `status`, in order.
pub open spec fn paths_with(
    paths: Seq<Seq<char>>,
    digests: PathDigestMap,
    existing: Seq<Seq<char>>,
    status: PathStatus,
    n: int,
) -> Seq<Seq<char>>
    decreases n,
{
    if n <= 0 {
        Seq::empty()
    } else if path_status(digests, existing, paths[n - 1]) == status {
        paths_with(paths, digests, existing, status, n - 1).push(paths[n - 1])
    } else {
        paths_with(paths, digests, existing, status, n - 1)
    }
}

/// Those of the first `n` entries of `asked` whose path is valid, in order.
pub open spec fn valid_entries(
    asked: Seq<(Seq<char>, Seq<(int, int)>)>,
    digests: PathDigestMap,
    existing: Seq<Seq<char>>,
    n: int,
) -> Seq<(Seq<char>, Seq<(int, int)>)>
    decreases n,
{
    if n <= 0 {
        Seq::empty()
    } else if path_status(digests, existing, asked[n - 1].0) == PathStatus::Valid {
        valid_entries(asked, digests, existing, n - 1).push(asked[n - 1])
    } else {
        valid_entries(asked, digests, existing, n - 1)
    }
}

/// The paths that were asked for and cannot be served.
#[derive(Debug)]
pub struct PathsNeedingWarning {
    /// Paths that do not exist.
    pub nonexistent: Vec<String>,
    /// Paths that exist and that no test ran.
    pub uncovered: Vec<String>,
}

/// Whether `list` holds the text `s`.
pub fn contains_text(list: &Vec<String>, s: &str) -> (r: bool)
    ensures
        r == views(list@).contains(s@),
{
    let mut i: usize = 0;
    while i < list.len()
        invariant
            0 <= i <= list@.len(),
            forall|j: int| 0 <= j < i ==> views(list@)[j] != s@,
        decreases list@.len() - i,
    {
        if str_eq(list[i].as_str(), s) {
            assert(views(list@)[i as int] == s@);
            return true;
        }
        i += 1;
    }
    false
}

/// Sorts the paths that lines are asked for under. `existing` names the paths
/// that are files on disk. A path that does not exist, and a path that exists
/// but has no digest in the store, leaves the map and is reported; the others
/// stay, with their lines, in their order.
pub fn validate_paths(db: &Db, path_line_map: &mut PathLineMap, existing: &Vec<String>) -> (r:
    PathsNeedingWarning)
    requires
        db.wf(),
        line_map_wf(*old(path_line_map)),
    ensures
        line_map_wf(*final(path_line_map)),
        line_map_view(*final(path_line_map)) == valid_entries(
            line_map_view(*old(path_line_map)),
            db.path_digest_map,
            views(existing@),
            old(path_line_map).keys().len() as int,
        ),
        views(r.nonexistent@) == paths_with(
            old(path_line_map).keys(),
            db.path_digest_map,
            views(existing@),
            PathStatus::Nonexistent,
            old(path_line_map).keys().len() as int,
        ),
        views(r.uncovered@) == paths_with(
            old(path_line_map).keys(),
            db.path_digest_map,
            views(existing@),
            PathStatus::Uncovered,
            old(path_line_map).keys().len() as int,
        ),
{
    let mut nonexistent: Vec<String> = Vec::new();
    let mut uncovered: Vec<String> = Vec::new();
    let mut kept: PathLineMap = StrMap::new();
    let ghost asked = line_map_view(*path_line_map);
    let ghost keys = path_line_map.keys();
    let ghost digests = db.path_digest_map;
    let ghost on_disk = views(existing@);
    let mut q: usize = 0;
    assert(line_map_view(kept) =~= valid_entries(asked, digests, on_disk, 0));
    assert(views(nonexistent@) =~= paths_with(keys, digests, on_disk, PathStatus::Nonexistent, 0));
    assert(views(uncovered@) =~= paths_with(keys, digests, on_disk, PathStatus::Uncovered, 0));
    while q < path_line_map.len()
        invariant
            db.wf(),
            line_map_wf(*path_line_map),
            asked == line_map_view(*path_line_map),
            keys == path_line_map.keys(),
            digests == db.path_digest_map,
            on_disk == views(existing@),
            0 <= q <= keys.len(),
            line_map_wf(kept),
            forall|t: int, p: int|
                0 <= t < kept.keys().len() && q <= p < keys.len() ==> lex_lt(
                    #[trigger] kept.keys()[t],
                    #[trigger] keys[p],
                ),
            line_map_view(kept) == valid_entries(asked, digests, on_disk, q as int),
            views(nonexistent@) == paths_with(keys, digests, on_disk, PathStatus::Nonexistent, q as int),
            views(uncovered@) == paths_with(keys, digests, on_disk, PathStatus::Uncovered, q as int),
        decreases keys.len() - q,
    {
        let path = path_line_map.key(q);
        assert(asked[q as int].0 == path@);
        if !contains_text(existing, path.as_str()) {
            let p = path.clone();
            proof {
                lemma_views_push(nonexistent@, p);
            }
            nonexistent.push(p);
        } else if !db.path_digest_map.contains_key(path.as_str()) {
            let p = path.clone();
            proof {
                lemma_views_push(uncovered@, p);
            }
            uncovered.push(p);
        } else {
            let key = path.clone();
            let set = path_line_map.value(q).clone();
            let ghost before = line_map_view(kept);
            proof {
                assert forall|t: int, p: int|
                    0 <= t < kept.keys().len() + 1 && q + 1 <= p < keys.len() implies lex_lt(
                    #[trigger] kept.keys().push(key@)[t],
                    #[trigger] keys[p],
                ) by {
                    if t == kept.keys().len() {
                        assert(lex_lt(keys[q as int], keys[p]));
                    }
                }
            }
            kept.push(key, set);
            assert(line_map_view(kept) =~= before.push((key@, set.spans())));
        }
        q += 1;
    }
    *path_line_map = kept;
    PathsNeedingWarning { nonexistent, uncovered }
}

/// The message of the warning about paths that no test ran.
pub open spec fn uncovered_paths_message(paths: Seq<Seq<char>>) -> Seq<char> {
    "the following paths are not covered by any test:"@ + listing(paths)
}

/// What is to be said about paths that cannot be served: `nonexistent` do not
/// exist, `uncovered` exist and no test ran them. Paths that do not exist are a
/// failure, whatever else there is. Paths that no test ran are worth a warning,
/// which is a failure where warnings are denied. Where there is neither,
/// nothing is to be said.
pub open spec fn is_path_verdict(
    nonexistent: Seq<Seq<char>>,
    uncovered: Seq<Seq<char>>,
    deny_warnings: bool,
    verdict: Result<Option<String>, Failure>,
) -> bool {
    if nonexistent.len() > 0 {
        verdict matches Err(Failure::NonexistentPaths(paths)) && views(paths@) == nonexistent
    } else if uncovered.len() == 0 {
        verdict matches Ok(None)
    } else if deny_warnings {
        verdict matches Err(Failure::Warning(m)) && m@ == uncovered_paths_message(uncovered)
    } else {
        verdict matches Ok(Some(text)) && text@ == warning_text(uncovered_paths_message(uncovered))
    }
}

/// What is to be said about the paths that cannot be served, as
/// `is_path_verdict` says.
pub fn warn_about_paths(paths_needing_warning: PathsNeedingWarning, deny_warnings: bool) -> (r:
    Result<Option<String>, Failure>)
    ensures
        is_path_verdict(
            views(paths_needing_warning.nonexistent@),
            views(paths_needing_warning.uncovered@),
            deny_warnings,
            r,
        ),
{
    let PathsNeedingWarning { nonexistent, uncovered } = paths_needing_warning;
    if nonexistent.len() > 0 {
        return Err(Failure::NonexistentPaths(nonexistent));
    }
    if uncovered.len() > 0 {
        let mut msg = String::new();
        msg.append("the following paths are not covered by any test:");
        push_listing(&mut msg, &uncovered);
        assert(msg@ =~= uncovered_paths_message(views(uncovered@)));
        return match warn(msg.as_str(), deny_warnings) {
            Ok(text) => Ok(Some(text)),
            Err(e) => Err(e),
        };
    }
    Ok(None)
}

/// Checks the paths that lines are asked for under, in one go. `existing`
/// names the paths that are files on disk. A path that does not exist makes
/// the call fail, always. A path that exists and has no digest in the store is
/// worth a warning, which is a failure where warnings are denied. The valid
/// paths stay in the map with their lines, in their order; the others leave it.
pub fn check_paths(
    db: &Db,
    path_line_map: &mut PathLineMap,
    existing: &Vec<String>,
    deny_warnings: bool,
) -> (r: Result<Option<String>, Failure>)
    requires
        db.wf(),
        line_map_wf(*old(path_line_map)),
    ensures
        line_map_wf(*final(path_line_map)),
        line_map_view(*final(path_line_map)) == valid_entries(
            line_map_view(*old(path_line_map)),
            db.path_digest_map,
            views(existing@),
            old(path_line_map).keys().len() as int,
        ),
        is_path_verdict(
            paths_with(
                old(path_line_map).keys(),
                db.path_digest_map,
                views(existing@),
                PathStatus::Nonexistent,
                old(path_line_map).keys().len() as int,
            ),
            paths_with(
                old(path_line_map).keys(),
                db.path_digest_map,
                views(existing@),
                PathStatus::Uncovered,
                old(path_line_map).keys().len() as int,
            ),
            deny_warnings,
            r,
        ),
{
    let found = validate_paths(db, path_line_map, existing);
    warn_about_paths(found, deny_warnings)
}

} // verus!
