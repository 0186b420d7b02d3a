//! The selection of tests for a set of lines.

use crate::db::Db;
use crate::failure::Failure;
use crate::model::{
    coverage_map_wf, crate_maps_wf, line_map_wf, test_views, PackageCrateMap, PathCoverageMap,
    PathDigestMap, PathLineMap, Test, TestCoverage,
};
use crate::range_set::RangeSet;
use crate::str_map::StrMap;
use vstd::prelude::*;

verus! {

/// Some line of `lines` is in `set`.
pub open spec fn meets(lines: Seq<u32>, set: Set<int>) -> bool {
    exists|k: int| 0 <= k < lines.len() && set.contains(#[trigger] lines[k] as int)
}

/// The record of one test hits `path`: the path is asked for, the test ran
/// lines of it, and one of those lines is among the lines asked for.
pub open spec fn hits(record: PathCoverageMap, asked: PathLineMap, path: Seq<char>) -> bool {
    &&& record.has_key(path)
    &&& asked.has_key(path)
    &&& meets(record.value_of(path)@, asked.value_of(path)@)
}

/// `(i, j, k)` is the place of a test: package `i`, crate target `j` of it,
/// test `k` of that.
pub open spec fn is_place(coverage: PackageCrateMap<Vec<TestCoverage>>, i: int, j: int, k: int) -> bool {
    &&& 0 <= i < coverage.values().len()
    &&& 0 <= j < coverage.values()[i].values().len()
    &&& 0 <= k < coverage.values()[i].values()[j]@.len()
}

/// The test at place `(i, j, k)` and what it ran.
pub open spec fn record_at(coverage: PackageCrateMap<Vec<TestCoverage>>, i: int, j: int, k: int) -> TestCoverage {
    coverage.values()[i].values()[j]@[k]
}

/// The place `(i, j, k)` comes before `(i2, j2, k2)` in the order in which
/// tests are considered: by package, then by crate target, then as stored.
pub open spec fn comes_before(i: int, j: int, k: int, i2: int, j2: int, k2: int) -> bool {
    i < i2 || (i == i2 && (j < j2 || (j == j2 && k < k2)))
}

/// The test at place `(i, j, k)` hits `path`.
pub open spec fn hits_at(
    coverage: PackageCrateMap<Vec<TestCoverage>>,
    asked: PathLineMap,
    path: Seq<char>,
    i: int,
    j: int,
    k: int,
) -> bool {
    is_place(coverage, i, j, k) && hits(record_at(coverage, i, j, k).coverage, asked, path)
}

/// Some test before place `(i, j, k)` hits `path`.
pub open spec fn hit_before(
    coverage: PackageCrateMap<Vec<TestCoverage>>,
    asked: PathLineMap,
    path: Seq<char>,
    i: int,
    j: int,
    k: int,
) -> bool {
    exists|i2: int, j2: int, k2: int| #[trigger]
        hits_at(coverage, asked, path, i2, j2, k2) && comes_before(i2, j2, k2, i, j, k)
}

/// Some test hits `path`.
pub open spec fn hit_by_some(
    coverage: PackageCrateMap<Vec<TestCoverage>>,
    asked: PathLineMap,
    path: Seq<char>,
) -> bool {
    exists|i: int, j: int, k: int| #[trigger] hits_at(coverage, asked, path, i, j, k)
}

/// The test at place `(i, j, k)` is selected: it is the first test to hit some
/// path that is asked for.
pub open spec fn selected(
    coverage: PackageCrateMap<Vec<TestCoverage>>,
    asked: PathLineMap,
    i: int,
    j: int,
    k: int,
) -> bool {
    exists|path: Seq<char>| #[trigger]
        hits_at(coverage, asked, path, i, j, k) && !hit_before(coverage, asked, path, i, j, k)
}

/// The identities of the selected tests among the first `n` of crate target
/// `j` of package `i`, in stored order.
pub open spec fn selected_tests(
    coverage: PackageCrateMap<Vec<TestCoverage>>,
    asked: PathLineMap,
    i: int,
    j: int,
    n: int,
) -> Seq<Seq<Seq<char>>>
    decreases n,
{
    if n <= 0 {
        Seq::empty()
    } else if selected(coverage, asked, i, j, n - 1) {
        selected_tests(coverage, asked, i, j, n - 1).push(record_at(coverage, i, j, n - 1).test@)
    } else {
        selected_tests(coverage, asked, i, j, n - 1)
    }
}

/// The paths of a map of lines, each with the stored ranges of its lines, in
/// stored order.
pub open spec fn line_map_view(map: PathLineMap) -> Seq<(Seq<char>, Seq<(int, int)>)> {
    Seq::new(map.keys().len(), |q: int| (map.keys()[q], map.values()[q].spans()))
}

/// Those of the first `n` entries of `asked` whose path no test hits, in
/// stored order, each with all the lines asked for under it.
pub open spec fn left_uncovered(
    coverage: PackageCrateMap<Vec<TestCoverage>>,
    asked: PathLineMap,
    n: int,
) -> Seq<(Seq<char>, Seq<(int, int)>)>
    decreases n,
{
    if n <= 0 {
        Seq::empty()
    } else if hit_by_some(coverage, asked, asked.keys()[n - 1]) {
        left_uncovered(coverage, asked, n - 1)
    } else {
        left_uncovered(coverage, asked, n - 1).push(
            (asked.keys()[n - 1], asked.values()[n - 1].spans()),
        )
    }
}

/// The tests to run for the lines asked for, and the lines that no selected
/// test stands for.
#[derive(Debug)]
pub struct Selection {
    /// The selected tests of each crate target, in stored order.
    pub tests: PackageCrateMap<Vec<Test>>,
    /// The paths that no test hits, each with the lines asked for under it.
    pub uncovered: PathLineMap,
}

/// `selection` is what selecting for `asked` over `coverage` gives. Tests are
/// considered package by package in ascending order of the names, crate target
/// by crate target in ascending order of the keys, and then as stored. A test
/// is selected exactly if it is the first to hit some path: once a test has
/// been selected for a path, no later test is selected because of that path,
/// and all lines asked for under the path count as covered. The result has an
/// entry for every package and crate target of `coverage`. What is left
/// uncovered are the paths that no test hits.
pub open spec fn is_selection(
    coverage: PackageCrateMap<Vec<TestCoverage>>,
    asked: PathLineMap,
    selection: Selection,
) -> bool {
    &&& crate_maps_wf(selection.tests)
    &&& line_map_wf(selection.uncovered)
    &&& selection.tests.keys() == coverage.keys()
    &&& forall|i: int|
        0 <= i < coverage.keys().len() ==> (#[trigger] selection.tests.values()[i]).keys()
            == coverage.values()[i].keys()
    &&& forall|i: int, j: int|
        0 <= i < coverage.values().len() && 0 <= j < coverage.values()[i].values().len()
            ==> test_views((#[trigger] selection.tests.values()[i].values()[j])@) == selected_tests(
            coverage,
            asked,
            i,
            j,
            coverage.values()[i].values()[j]@.len() as int,
        )
    &&& line_map_view(selection.uncovered) == left_uncovered(
        coverage,
        asked,
        asked.keys().len() as int,
    )
}

/// Whether some line of `lines` is in `set`.
pub fn meets_any(lines: &Vec<u32>, set: &RangeSet<u32>) -> (r: bool)
    requires
        set.wf(),
    ensures
        r == meets(lines@, set@),
{
    let mut k: usize = 0;
    while k < lines.len()
        invariant
            0 <= k <= lines@.len(),
            set.wf(),
            forall|l: int| 0 <= l < k ==> !set@.contains(#[trigger] lines@[l] as int),
        decreases lines@.len() - k,
    {
        if set.contains(lines[k]) {
            return true;
        }
        k += 1;
    }
    false
}

/// Considers one test. `outstanding[q]` says whether entry `q` of `asked` still
/// waits for a test. The test is taken, and `true` returned, exactly if it hits
/// a path that still waits; every path it hits then waits no longer.
fn take_test(record: &PathCoverageMap, asked: &PathLineMap, outstanding: &mut Vec<bool>) -> (r:
    bool)
    requires
        record.wf(),
        line_map_wf(*asked),
        old(outstanding)@.len() == asked.keys().len(),
    ensures
        final(outstanding)@.len() == asked.keys().len(),
        forall|q: int|
            0 <= q < asked.keys().len() ==> (#[trigger] final(outstanding)@[q]) == (old(
                outstanding,
            )@[q] && !hits(*record, *asked, asked.keys()[q])),
        r == exists|q: int|
            0 <= q < asked.keys().len() && #[trigger] old(outstanding)@[q] && hits(
                *record,
                *asked,
                asked.keys()[q],
            ),
{
    let ghost before = outstanding@;
    let mut taken = false;
    let mut f: usize = 0;
    let n = record.len();
    proof {
        assert forall|q: int| 0 <= q < asked.keys().len() implies record.place_of(
            #[trigger] asked.keys()[q],
        ) >= 0 by {
            record.lemma_place_of(asked.keys()[q]);
        }
    }
    while f < n
        invariant
            0 <= f <= n,
            n == record.keys().len(),
            record.wf(),
            line_map_wf(*asked),
            before.len() == asked.keys().len(),
            outstanding@.len() == asked.keys().len(),
            forall|q: int|
                0 <= q < asked.keys().len() ==> (#[trigger] outstanding@[q]) == (before[q] && !(
                record.place_of(asked.keys()[q]) < f && hits(*record, *asked, asked.keys()[q]))),
            taken == exists|q: int|
                0 <= q < asked.keys().len() && #[trigger] before[q] && record.place_of(
                    asked.keys()[q],
                ) < f && hits(*record, *asked, asked.keys()[q]),
        decreases n - f,
    {
        let path = record.key(f);
        let (q, found) = asked.locate(path.as_str());
        let ghost state = outstanding@;
        let ghost was_taken = taken;
        proof {
            record.lemma_place_of(path@);
            asked.lemma_place_of(path@);
        }
        if found && outstanding[q] {
            if meets_any(record.value(f), asked.value(q)) {
                outstanding.set(q, false);
                taken = true;
                assert(hits(*record, *asked, asked.keys()[q as int]));
            }
        }
        proof {
            assert forall|p: int| 0 <= p < asked.keys().len() implies (#[trigger] outstanding@[p]) == (
            before[p] && !(record.place_of(asked.keys()[p]) < f + 1 && hits(
                *record,
                *asked,
                asked.keys()[p],
            ))) by {
                record.lemma_place_of(asked.keys()[p]);
                if record.place_of(asked.keys()[p]) == f && record.has_key(asked.keys()[p]) {
                    assert(asked.keys()[p] == path@);
                    assert(p == q);
                }
            }
            let now = exists|p: int|
                0 <= p < asked.keys().len() && #[trigger] before[p] && record.place_of(
                    asked.keys()[p],
                ) < f + 1 && hits(*record, *asked, asked.keys()[p]);
            if taken {
                if was_taken {
                    let p = choose|p: int|
                        0 <= p < asked.keys().len() && #[trigger] before[p] && record.place_of(
                            asked.keys()[p],
                        ) < f && hits(*record, *asked, asked.keys()[p]);
                    assert(before[p] && record.place_of(asked.keys()[p]) < f + 1);
                } else {
                    assert(before[q as int] && record.place_of(asked.keys()[q as int]) < f + 1);
                }
                assert(now);
            } else if now {
                let p = choose|p: int|
                    0 <= p < asked.keys().len() && #[trigger] before[p] && record.place_of(
                        asked.keys()[p],
                    ) < f + 1 && hits(*record, *asked, asked.keys()[p]);
                record.lemma_place_of(asked.keys()[p]);
                if record.place_of(asked.keys()[p]) == f {
                    assert(asked.keys()[p] == path@);
                    assert(p == q);
                    assert(state[p] == before[p]);
                } else {
                    assert(before[p] && record.place_of(asked.keys()[p]) < f);
                }
                assert(false);
            }
        }
        f += 1;
    }
    proof {
        assert forall|q: int| 0 <= q < asked.keys().len() implies (#[trigger] outstanding@[q]) == (
        before[q] && !hits(*record, *asked, asked.keys()[q])) by {
            record.lemma_place_of(asked.keys()[q]);
        }
        let all = exists|q: int|
            0 <= q < asked.keys().len() && #[trigger] before[q] && hits(
                *record,
                *asked,
                asked.keys()[q],
            );
        if taken {
            let p = choose|p: int|
                0 <= p < asked.keys().len() && #[trigger] before[p] && record.place_of(
                    asked.keys()[p],
                ) < n && hits(*record, *asked, asked.keys()[p]);
            assert(before[p] && hits(*record, *asked, asked.keys()[p]));
        } else if all {
            let p = choose|p: int|
                0 <= p < asked.keys().len() && #[trigger] before[p] && hits(
                    *record,
                    *asked,
                    asked.keys()[p],
                );
            record.lemma_place_of(asked.keys()[p]);
            assert(before[p] && record.place_of(asked.keys()[p]) < n);
        }
    }
    taken
}

/// `outstanding` says of each entry of `asked` whether no test before place
/// `(i, j, k)` hits its path.
pub open spec fn waiting(
    coverage: PackageCrateMap<Vec<TestCoverage>>,
    asked: PathLineMap,
    outstanding: Seq<bool>,
    i: int,
    j: int,
    k: int,
) -> bool {
    &&& outstanding.len() == asked.keys().len()
    &&& forall|q: int|
        0 <= q < asked.keys().len() ==> (#[trigger] outstanding[q]) == !hit_before(
            coverage,
            asked,
            asked.keys()[q],
            i,
            j,
            k,
        )
}

/// The tests before the place after `(i, j, k)` are those before `(i, j, k)`
/// and the test at `(i, j, k)`.
proof fn lemma_after_test(
    coverage: PackageCrateMap<Vec<TestCoverage>>,
    asked: PathLineMap,
    path: Seq<char>,
    i: int,
    j: int,
    k: int,
)
    ensures
        hit_before(coverage, asked, path, i, j, k + 1) == (hit_before(coverage, asked, path, i, j, k)
            || hits_at(coverage, asked, path, i, j, k)),
{
    if hit_before(coverage, asked, path, i, j, k + 1) {
        let (i2, j2, k2) = choose|i2: int, j2: int, k2: int| #[trigger]
            hits_at(coverage, asked, path, i2, j2, k2) && comes_before(i2, j2, k2, i, j, k + 1);
        if !(i2 == i && j2 == j && k2 == k) {
            assert(hits_at(coverage, asked, path, i2, j2, k2) && comes_before(i2, j2, k2, i, j, k));
        }
    }
    if hit_before(coverage, asked, path, i, j, k) {
        let (i2, j2, k2) = choose|i2: int, j2: int, k2: int| #[trigger]
            hits_at(coverage, asked, path, i2, j2, k2) && comes_before(i2, j2, k2, i, j, k);
        assert(hits_at(coverage, asked, path, i2, j2, k2) && comes_before(i2, j2, k2, i, j, k + 1));
    }
    if hits_at(coverage, asked, path, i, j, k) {
        assert(hits_at(coverage, asked, path, i, j, k) && comes_before(i, j, k, i, j, k + 1));
    }
}

/// After the last test of a crate target comes the first test of the next.
proof fn lemma_after_crate(
    coverage: PackageCrateMap<Vec<TestCoverage>>,
    asked: PathLineMap,
    path: Seq<char>,
    i: int,
    j: int,
)
    requires
        0 <= i < coverage.values().len(),
        0 <= j < coverage.values()[i].values().len(),
    ensures
        hit_before(coverage, asked, path, i, j + 1, 0) == hit_before(
            coverage,
            asked,
            path,
            i,
            j,
            coverage.values()[i].values()[j]@.len() as int,
        ),
{
    let n = coverage.values()[i].values()[j]@.len() as int;
    if hit_before(coverage, asked, path, i, j + 1, 0) {
        let (i2, j2, k2) = choose|i2: int, j2: int, k2: int| #[trigger]
            hits_at(coverage, asked, path, i2, j2, k2) && comes_before(i2, j2, k2, i, j + 1, 0);
        assert(hits_at(coverage, asked, path, i2, j2, k2) && comes_before(i2, j2, k2, i, j, n));
    }
    if hit_before(coverage, asked, path, i, j, n) {
        let (i2, j2, k2) = choose|i2: int, j2: int, k2: int| #[trigger]
            hits_at(coverage, asked, path, i2, j2, k2) && comes_before(i2, j2, k2, i, j, n);
        assert(hits_at(coverage, asked, path, i2, j2, k2) && comes_before(i2, j2, k2, i, j + 1, 0));
    }
}

/// After the last crate target of a package comes the first of the next.
proof fn lemma_after_package(
    coverage: PackageCrateMap<Vec<TestCoverage>>,
    asked: PathLineMap,
    path: Seq<char>,
    i: int,
)
    requires
        0 <= i < coverage.values().len(),
    ensures
        hit_before(coverage, asked, path, i + 1, 0, 0) == hit_before(
            coverage,
            asked,
            path,
            i,
            coverage.values()[i].values().len() as int,
            0,
        ),
{
    let n = coverage.values()[i].values().len() as int;
    if hit_before(coverage, asked, path, i + 1, 0, 0) {
        let (i2, j2, k2) = choose|i2: int, j2: int, k2: int| #[trigger]
            hits_at(coverage, asked, path, i2, j2, k2) && comes_before(i2, j2, k2, i + 1, 0, 0);
        assert(hits_at(coverage, asked, path, i2, j2, k2) && comes_before(i2, j2, k2, i, n, 0));
    }
    if hit_before(coverage, asked, path, i, n, 0) {
        let (i2, j2, k2) = choose|i2: int, j2: int, k2: int| #[trigger]
            hits_at(coverage, asked, path, i2, j2, k2) && comes_before(i2, j2, k2, i, n, 0);
        assert(hits_at(coverage, asked, path, i2, j2, k2) && comes_before(i2, j2, k2, i + 1, 0, 0));
    }
}

/// Every test comes before the place after the last package, and none before
/// the first place.
proof fn lemma_before_all(
    coverage: PackageCrateMap<Vec<TestCoverage>>,
    asked: PathLineMap,
    path: Seq<char>,
)
    ensures
        !hit_before(coverage, asked, path, 0, 0, 0),
        hit_before(coverage, asked, path, coverage.values().len() as int, 0, 0) == hit_by_some(
            coverage,
            asked,
            path,
        ),
{
    let n = coverage.values().len() as int;
    if hit_before(coverage, asked, path, 0, 0, 0) {
        let (i2, j2, k2) = choose|i2: int, j2: int, k2: int| #[trigger]
            hits_at(coverage, asked, path, i2, j2, k2) && comes_before(i2, j2, k2, 0, 0, 0);
    }
    if hit_before(coverage, asked, path, n, 0, 0) {
        let (i2, j2, k2) = choose|i2: int, j2: int, k2: int| #[trigger]
            hits_at(coverage, asked, path, i2, j2, k2) && comes_before(i2, j2, k2, n, 0, 0);
        assert(hits_at(coverage, asked, path, i2, j2, k2));
    }
    if hit_by_some(coverage, asked, path) {
        let (i2, j2, k2) = choose|i2: int, j2: int, k2: int| #[trigger]
            hits_at(coverage, asked, path, i2, j2, k2);
        assert(hits_at(coverage, asked, path, i2, j2, k2) && comes_before(i2, j2, k2, n, 0, 0));
    }
}

/// The selected tests of crate target `j` of package `i`. `outstanding` comes
/// in as of the crate target's first test and goes out as of the place after
/// its last.
fn select_in_crate(
    coverage: &PackageCrateMap<Vec<TestCoverage>>,
    asked: &PathLineMap,
    i: usize,
    j: usize,
    outstanding: &mut Vec<bool>,
) -> (r: Vec<Test>)
    requires
        coverage_map_wf(*coverage),
        line_map_wf(*asked),
        i < coverage.values().len(),
        j < coverage.values()[i as int].values().len(),
        waiting(*coverage, *asked, old(outstanding)@, i as int, j as int, 0),
    ensures
        waiting(*coverage, *asked, final(outstanding)@, i as int, j + 1, 0),
        test_views(r@) == selected_tests(
            *coverage,
            *asked,
            i as int,
            j as int,
            coverage.values()[i as int].values()[j as int]@.len() as int,
        ),
{
    let tests = coverage.value(i).value(j);
    let mut out: Vec<Test> = Vec::new();
    let mut k: usize = 0;
    assert(test_views(out@) =~= selected_tests(*coverage, *asked, i as int, j as int, 0));
    while k < tests.len()
        invariant
            coverage_map_wf(*coverage),
            line_map_wf(*asked),
            i < coverage.values().len(),
            j < coverage.values()[i as int].values().len(),
            *tests == coverage.values()[i as int].values()[j as int],
            0 <= k <= tests@.len(),
            waiting(*coverage, *asked, outstanding@, i as int, j as int, k as int),
            test_views(out@) == selected_tests(*coverage, *asked, i as int, j as int, k as int),
        decreases tests@.len() - k,
    {
        let ghost before = outstanding@;
        let ghost record = tests@[k as int];
        assert(is_place(*coverage, i as int, j as int, k as int));
        assert(record == record_at(*coverage, i as int, j as int, k as int));
        let taken = take_test(&tests[k].coverage, asked, outstanding);
        proof {
            assert forall|q: int| 0 <= q < asked.keys().len() implies (#[trigger] outstanding@[q])
                == !hit_before(*coverage, *asked, asked.keys()[q], i as int, j as int, k + 1) by {
                lemma_after_test(*coverage, *asked, asked.keys()[q], i as int, j as int, k as int);
            }
            if taken {
                let q = choose|q: int|
                    0 <= q < asked.keys().len() && #[trigger] before[q] && hits(
                        record.coverage,
                        *asked,
                        asked.keys()[q],
                    );
                assert(hits_at(*coverage, *asked, asked.keys()[q], i as int, j as int, k as int));
                assert(selected(*coverage, *asked, i as int, j as int, k as int));
            } else if selected(*coverage, *asked, i as int, j as int, k as int) {
                let path = choose|path: Seq<char>| #[trigger]
                    hits_at(*coverage, *asked, path, i as int, j as int, k as int) && !hit_before(
                        *coverage,
                        *asked,
                        path,
                        i as int,
                        j as int,
                        k as int,
                    );
                let q = choose|q: int| 0 <= q < asked.keys().len() && asked.keys()[q] == path;
                assert(before[q]);
                assert(false);
            }
        }
        if taken {
            let test = tests[k].test.clone();
            assert(test_views(out@.push(test)) =~= test_views(out@).push(test@));
            out.push(test);
        }
        k += 1;
    }
    proof {
        assert forall|q: int| 0 <= q < asked.keys().len() implies (#[trigger] outstanding@[q])
            == !hit_before(*coverage, *asked, asked.keys()[q], i as int, j + 1, 0) by {
            lemma_after_crate(*coverage, *asked, asked.keys()[q], i as int, j as int);
        }
    }
    out
}

/// The selected tests of each crate target of package `i`.
fn select_in_package(
    coverage: &PackageCrateMap<Vec<TestCoverage>>,
    asked: &PathLineMap,
    i: usize,
    outstanding: &mut Vec<bool>,
) -> (r: StrMap<Vec<Test>>)
    requires
        coverage_map_wf(*coverage),
        line_map_wf(*asked),
        i < coverage.values().len(),
        waiting(*coverage, *asked, old(outstanding)@, i as int, 0, 0),
    ensures
        waiting(*coverage, *asked, final(outstanding)@, i + 1, 0, 0),
        r.wf(),
        r.keys() == coverage.values()[i as int].keys(),
        forall|j: int|
            0 <= j < coverage.values()[i as int].values().len() ==> test_views(
                (#[trigger] r.values()[j])@,
            ) == selected_tests(
                *coverage,
                *asked,
                i as int,
                j,
                coverage.values()[i as int].values()[j]@.len() as int,
            ),
{
    let crates = coverage.value(i);
    let mut out: StrMap<Vec<Test>> = StrMap::new();
    let mut j: usize = 0;
    assert(out.keys() =~= crates.keys().take(0));
    while j < crates.len()
        invariant
            coverage_map_wf(*coverage),
            line_map_wf(*asked),
            i < coverage.values().len(),
            *crates == coverage.values()[i as int],
            crates.wf(),
            0 <= j <= crates.keys().len(),
            waiting(*coverage, *asked, outstanding@, i as int, j as int, 0),
            out.wf(),
            out.keys() == crates.keys().take(j as int),
            forall|l: int|
                0 <= l < j ==> test_views((#[trigger] out.values()[l])@) == selected_tests(
                    *coverage,
                    *asked,
                    i as int,
                    l,
                    coverage.values()[i as int].values()[l]@.len() as int,
                ),
        decreases crates.keys().len() - j,
    {
        let tests = select_in_crate(coverage, asked, i, j, outstanding);
        let key = crates.key(j).clone();
        proof {
            assert forall|t: int| 0 <= t < out.keys().len() implies crate::text::lex_lt(
                #[trigger] out.keys()[t],
                key@,
            ) by {
                assert(out.keys()[t] == crates.keys()[t]);
            }
            assert(crates.keys().take(j + 1) =~= crates.keys().take(j as int).push(key@));
        }
        out.push(key, tests);
        j += 1;
    }
    proof {
        assert(crates.keys().take(crates.keys().len() as int) =~= crates.keys());
        assert forall|q: int| 0 <= q < asked.keys().len() implies (#[trigger] outstanding@[q])
            == !hit_before(*coverage, *asked, asked.keys()[q], i + 1, 0, 0) by {
            lemma_after_package(*coverage, *asked, asked.keys()[q], i as int);
        }
    }
    out
}

/// Selects the tests to run for the lines asked for, as `is_selection` says.
pub fn tests_for_path_lines(
    coverage_map: &PackageCrateMap<Vec<TestCoverage>>,
    path_line_map: &PathLineMap,
) -> (r: Selection)
    requires
        coverage_map_wf(*coverage_map),
        line_map_wf(*path_line_map),
    ensures
        is_selection(*coverage_map, *path_line_map, r),
{
    let mut outstanding: Vec<bool> = Vec::new();
    let mut q: usize = 0;
    while q < path_line_map.len()
        invariant
            path_line_map.wf(),
            0 <= q <= path_line_map.keys().len(),
            outstanding@.len() == q,
            forall|p: int| 0 <= p < q ==> #[trigger] outstanding@[p],
        decreases path_line_map.keys().len() - q,
    {
        outstanding.push(true);
        q += 1;
    }
    proof {
        assert forall|p: int| 0 <= p < path_line_map.keys().len() implies (#[trigger] outstanding@[p])
            == !hit_before(*coverage_map, *path_line_map, path_line_map.keys()[p], 0, 0, 0) by {
            lemma_before_all(*coverage_map, *path_line_map, path_line_map.keys()[p]);
        }
    }
    let mut tests: PackageCrateMap<Vec<Test>> = StrMap::new();
    let mut i: usize = 0;
    assert(tests.keys() =~= coverage_map.keys().take(0));
    while i < coverage_map.len()
        invariant
            coverage_map_wf(*coverage_map),
            line_map_wf(*path_line_map),
            0 <= i <= coverage_map.keys().len(),
            waiting(*coverage_map, *path_line_map, outstanding@, i as int, 0, 0),
            crate_maps_wf(tests),
            tests.keys() == coverage_map.keys().take(i as int),
            forall|l: int|
                0 <= l < i ==> (#[trigger] tests.values()[l]).keys() == coverage_map.values()[l].keys(),
            forall|l: int, j: int|
                0 <= l < i && 0 <= j < coverage_map.values()[l].values().len() ==> test_views(
                    (#[trigger] tests.values()[l].values()[j])@,
                ) == selected_tests(
                    *coverage_map,
                    *path_line_map,
                    l,
                    j,
                    coverage_map.values()[l].values()[j]@.len() as int,
                ),
        decreases coverage_map.keys().len() - i,
    {
        let crates = select_in_package(coverage_map, path_line_map, i, &mut outstanding);
        let key = coverage_map.key(i).clone();
        proof {
            assert forall|t: int| 0 <= t < tests.keys().len() implies crate::text::lex_lt(
                #[trigger] tests.keys()[t],
                key@,
            ) by {
                assert(tests.keys()[t] == coverage_map.keys()[t]);
            }
            assert(coverage_map.keys().take(i + 1) =~= coverage_map.keys().take(i as int).push(
                key@,
            ));
        }
        tests.push(key, crates);
        i += 1;
    }
    assert(coverage_map.keys().take(coverage_map.keys().len() as int) =~= coverage_map.keys());
    let mut uncovered: PathLineMap = StrMap::new();
    let mut q: usize = 0;
    assert(line_map_view(uncovered) =~= left_uncovered(*coverage_map, *path_line_map, 0));
    while q < path_line_map.len()
        invariant
            line_map_wf(*path_line_map),
            0 <= q <= path_line_map.keys().len(),
            waiting(
                *coverage_map,
                *path_line_map,
                outstanding@,
                coverage_map.values().len() as int,
                0,
                0,
            ),
            line_map_wf(uncovered),
            forall|t: int, p: int|
                0 <= t < uncovered.keys().len() && q <= p < path_line_map.keys().len()
                    ==> crate::text::lex_lt(
                    #[trigger] uncovered.keys()[t],
                    #[trigger] path_line_map.keys()[p],
                ),
            line_map_view(uncovered) == left_uncovered(*coverage_map, *path_line_map, q as int),
        decreases path_line_map.keys().len() - q,
    {
        proof {
            lemma_before_all(*coverage_map, *path_line_map, path_line_map.keys()[q as int]);
        }
        if outstanding[q] {
            let key = path_line_map.key(q).clone();
            let set = path_line_map.value(q).clone();
            let ghost before = line_map_view(uncovered);
            proof {
                assert forall|t: int, p: int|
                    0 <= t < uncovered.keys().len() + 1 && q + 1 <= p < path_line_map.keys().len()
                    implies crate::text::lex_lt(
                    #[trigger] uncovered.keys().push(key@)[t],
                    #[trigger] path_line_map.keys()[p],
                ) by {
                    if t == uncovered.keys().len() {
                        assert(crate::text::lex_lt(
                            path_line_map.keys()[q as int],
                            path_line_map.keys()[p],
                        ));
                    }
                }
            }
            uncovered.push(key, set);
            assert(line_map_view(uncovered) =~= before.push((key@, set.spans())));
        }
        q += 1;
    }
    Selection { tests, uncovered }
}

/// The test ran no line of any file.
pub open spec fn no_lines(record: PathCoverageMap) -> bool {
    forall|f: int| 0 <= f < record.values().len() ==> (#[trigger] record.values()[f])@.len() == 0
}

/// The contents of the file at `path` are not what the store knows: the store
/// has no digest of it, or another one than the current.
pub open spec fn contents_changed(stored: PathDigestMap, current: PathDigestMap, path: Seq<char>) -> bool {
    !(stored.has_key(path) && stored.value_of(path)@ == current.value_of(path)@)
}

/// The test ran a file whose contents have changed.
pub open spec fn ran_changed_file(
    record: PathCoverageMap,
    stored: PathDigestMap,
    current: PathDigestMap,
) -> bool {
    exists|f: int| 0 <= f < record.keys().len() && contents_changed(stored, current, #[trigger] record.keys()[f])
}

/// Whether a test with this record is picked. Without digests, the tests that
/// ran nothing are picked; with the stored and the current digests, the tests
/// that ran a file whose contents have changed.
pub open spec fn picks(digests: Option<(&PathDigestMap, &PathDigestMap)>, record: PathCoverageMap) -> bool {
    match digests {
        None => no_lines(record),
        Some((stored, current)) => ran_changed_file(record, *stored, *current),
    }
}

/// The current digest of every file of the record is known.
pub open spec fn digests_known(
    digests: Option<(&PathDigestMap, &PathDigestMap)>,
    record: PathCoverageMap,
) -> bool {
    match digests {
        None => true,
        Some((stored, current)) => forall|f: int|
            0 <= f < record.keys().len() ==> current.has_key(#[trigger] record.keys()[f]),
    }
}

/// The current digest of every file that any test ran is known.
pub open spec fn all_digests_known(
    coverage: PackageCrateMap<Vec<TestCoverage>>,
    digests: Option<(&PathDigestMap, &PathDigestMap)>,
) -> bool {
    forall|i: int, j: int, k: int| #[trigger]
        is_place(coverage, i, j, k) ==> digests_known(digests, record_at(coverage, i, j, k).coverage)
}

/// The identities of the picked tests among the first `n` of `tests`, in
/// stored order.
pub open spec fn picked_tests(
    tests: Seq<TestCoverage>,
    digests: Option<(&PathDigestMap, &PathDigestMap)>,
    n: int,
) -> Seq<Seq<Seq<char>>>
    decreases n,
{
    if n <= 0 {
        Seq::empty()
    } else if picks(digests, tests[n - 1].coverage) {
        picked_tests(tests, digests, n - 1).push(tests[n - 1].test@)
    } else {
        picked_tests(tests, digests, n - 1)
    }
}

/// `picked` has an entry for every package and crate target of `coverage`, and
/// under each the picked tests of that crate target in stored order.
pub open spec fn is_pick(
    coverage: PackageCrateMap<Vec<TestCoverage>>,
    digests: Option<(&PathDigestMap, &PathDigestMap)>,
    picked: PackageCrateMap<Vec<Test>>,
) -> bool {
    &&& crate_maps_wf(picked)
    &&& picked.keys() == coverage.keys()
    &&& forall|i: int|
        0 <= i < coverage.keys().len() ==> (#[trigger] picked.values()[i]).keys()
            == coverage.values()[i].keys()
    &&& forall|i: int, j: int|
        0 <= i < coverage.values().len() && 0 <= j < coverage.values()[i].values().len()
            ==> test_views((#[trigger] picked.values()[i].values()[j])@) == picked_tests(
            coverage.values()[i].values()[j]@,
            digests,
            coverage.values()[i].values()[j]@.len() as int,
        )
}

/// Whether two digests are the same.
pub fn same_digest(a: &[u8; 32], b: &[u8; 32]) -> (r: bool)
    ensures
        r == (a@ == b@),
{
    let mut i: usize = 0;
    while i < 32
        invariant
            0 <= i <= 32,
            forall|j: int| 0 <= j < i ==> a@[j] == b@[j],
        decreases 32 - i,
    {
        if a[i] != b[i] {
            return false;
        }
        i += 1;
    }
    assert(a@ =~= b@);
    true
}

/// Whether the file at `path`, whose contents now have the digest `digest`, has
/// changed since the store was built.
pub fn path_contents_changed(stored: &PathDigestMap, path: &str, digest: &[u8; 32]) -> (r: bool)
    requires
        stored.wf(),
    ensures
        r == !(stored.has_key(path@) && stored.value_of(path@)@ == digest@),
{
    match stored.get(path) {
        Some(known) => !same_digest(known, digest),
        None => true,
    }
}

/// `failure` names a path of which no current digest is known.
pub open spec fn wants_digest(digests: Option<(&PathDigestMap, &PathDigestMap)>, failure: Failure) -> bool {
    failure matches Failure::DigestUnknown(path) && (digests matches Some((stored, current))
        && !current.has_key(path@))
}

/// Whether the test with this record is picked, or the path of a file of the
/// record whose current digest is not known.
fn pick_test(record: &PathCoverageMap, digests: Option<(&PathDigestMap, &PathDigestMap)>) -> (r:
    Result<bool, Failure>)
    requires
        record.wf(),
        digests matches Some((stored, current)) ==> stored.wf() && current.wf(),
    ensures
        r matches Ok(b) ==> digests_known(digests, *record) && b == picks(digests, *record),
        r matches Err(e) ==> !digests_known(digests, *record) && wants_digest(digests, e),
{
    let mut f: usize = 0;
    match digests {
        None => {
            while f < record.len()
                invariant
                    record.wf(),
                    digests is None,
                    0 <= f <= record.keys().len(),
                    forall|g: int| 0 <= g < f ==> (#[trigger] record.values()[g])@.len() == 0,
                decreases record.keys().len() - f,
            {
                if record.value(f).len() != 0 {
                    assert(record.values()[f as int]@.len() != 0);
                    return Ok(false);
                }
                f += 1;
            }
            Ok(true)
        },
        Some((stored, current)) => {
            let mut changed = false;
            while f < record.len()
                invariant
                    record.wf(),
                    stored.wf(),
                    current.wf(),
                    digests == Some((stored, current)),
                    0 <= f <= record.keys().len(),
                    forall|g: int| 0 <= g < f ==> current.has_key(#[trigger] record.keys()[g]),
                    changed == exists|g: int|
                        0 <= g < f && contents_changed(*stored, *current, #[trigger] record.keys()[g]),
                decreases record.keys().len() - f,
            {
                let path = record.key(f);
                match current.get(path.as_str()) {
                    None => {
                        assert(!current.has_key(record.keys()[f as int]));
                        return Err(Failure::DigestUnknown(path.clone()));
                    },
                    Some(digest) => {
                        let here = path_contents_changed(stored, path.as_str(), digest);
                        assert(here == contents_changed(*stored, *current, record.keys()[f as int]));
                        proof {
                            let was = changed;
                            let now = exists|g: int|
                                0 <= g < f + 1 && contents_changed(
                                    *stored,
                                    *current,
                                    #[trigger] record.keys()[g],
                                );
                            if was {
                                let g = choose|g: int|
                                    0 <= g < f && contents_changed(
                                        *stored,
                                        *current,
                                        #[trigger] record.keys()[g],
                                    );
                                assert(0 <= g < f + 1);
                            }
                            if now && !here && !was {
                                let g = choose|g: int|
                                    0 <= g < f + 1 && contents_changed(
                                        *stored,
                                        *current,
                                        #[trigger] record.keys()[g],
                                    );
                                assert(g < f);
                            }
                        }
                        if here {
                            changed = true;
                        }
                    },
                }
                f += 1;
            }
            Ok(changed)
        },
    }
}

/// The picked tests of every crate target, or the failure of the first file
/// met whose current digest is not known.
fn pick_tests(
    coverage: &PackageCrateMap<Vec<TestCoverage>>,
    digests: Option<(&PathDigestMap, &PathDigestMap)>,
) -> (r: Result<PackageCrateMap<Vec<Test>>, Failure>)
    requires
        coverage_map_wf(*coverage),
        digests matches Some((stored, current)) ==> stored.wf() && current.wf(),
    ensures
        r matches Ok(picked) ==> all_digests_known(*coverage, digests) && is_pick(
            *coverage,
            digests,
            picked,
        ),
        r matches Err(e) ==> !all_digests_known(*coverage, digests) && wants_digest(digests, e),
{
    let mut out: PackageCrateMap<Vec<Test>> = StrMap::new();
    let mut i: usize = 0;
    assert(out.keys() =~= coverage.keys().take(0));
    while i < coverage.len()
        invariant
            coverage_map_wf(*coverage),
            digests matches Some((stored, current)) ==> stored.wf() && current.wf(),
            0 <= i <= coverage.keys().len(),
            crate_maps_wf(out),
            out.keys() == coverage.keys().take(i as int),
            forall|l: int| 0 <= l < i ==> (#[trigger] out.values()[l]).keys() == coverage.values()[l].keys(),
            forall|l: int, j: int|
                0 <= l < i && 0 <= j < coverage.values()[l].values().len() ==> test_views(
                    (#[trigger] out.values()[l].values()[j])@,
                ) == picked_tests(
                    coverage.values()[l].values()[j]@,
                    digests,
                    coverage.values()[l].values()[j]@.len() as int,
                ),
            forall|l: int, j: int, k: int| #[trigger]
                is_place(*coverage, l, j, k) && l < i ==> digests_known(
                    digests,
                    record_at(*coverage, l, j, k).coverage,
                ),
        decreases coverage.keys().len() - i,
    {
        let crates = coverage.value(i);
        let mut inner: StrMap<Vec<Test>> = StrMap::new();
        let mut j: usize = 0;
        assert(inner.keys() =~= crates.keys().take(0));
        while j < crates.len()
            invariant
                coverage_map_wf(*coverage),
                digests matches Some((stored, current)) ==> stored.wf() && current.wf(),
                i < coverage.values().len(),
                *crates == coverage.values()[i as int],
                crates.wf(),
                0 <= j <= crates.keys().len(),
                inner.wf(),
                inner.keys() == crates.keys().take(j as int),
                forall|l: int|
                    0 <= l < j ==> test_views((#[trigger] inner.values()[l])@) == picked_tests(
                        crates.values()[l]@,
                        digests,
                        crates.values()[l]@.len() as int,
                    ),
                forall|l: int, k: int| #[trigger]
                    is_place(*coverage, i as int, l, k) && l < j ==> digests_known(
                        digests,
                        record_at(*coverage, i as int, l, k).coverage,
                    ),
            decreases crates.keys().len() - j,
        {
            let tests = crates.value(j);
            let mut picked: Vec<Test> = Vec::new();
            let mut k: usize = 0;
            assert(test_views(picked@) =~= picked_tests(tests@, digests, 0));
            while k < tests.len()
                invariant
                    coverage_map_wf(*coverage),
                    digests matches Some((stored, current)) ==> stored.wf() && current.wf(),
                    i < coverage.values().len(),
                    j < coverage.values()[i as int].values().len(),
                    *tests == coverage.values()[i as int].values()[j as int],
                    0 <= k <= tests@.len(),
                    test_views(picked@) == picked_tests(tests@, digests, k as int),
                    forall|l: int| #[trigger]
                        is_place(*coverage, i as int, j as int, l) && l < k ==> digests_known(
                            digests,
                            record_at(*coverage, i as int, j as int, l).coverage,
                        ),
                decreases tests@.len() - k,
            {
                assert(is_place(*coverage, i as int, j as int, k as int));
                match pick_test(&tests[k].coverage, digests) {
                    Err(e) => {
                        return Err(e);
                    },
                    Ok(take) => {
                        if take {
                            let test = tests[k].test.clone();
                            assert(test_views(picked@.push(test)) =~= test_views(picked@).push(test@));
                            picked.push(test);
                        }
                    },
                }
                k += 1;
            }
            let key = crates.key(j).clone();
            proof {
                assert forall|t: int| 0 <= t < inner.keys().len() implies crate::text::lex_lt(
                    #[trigger] inner.keys()[t],
                    key@,
                ) by {
                    assert(inner.keys()[t] == crates.keys()[t]);
                }
                assert(crates.keys().take(j + 1) =~= crates.keys().take(j as int).push(key@));
            }
            inner.push(key, picked);
            j += 1;
        }
        let key = coverage.key(i).clone();
        proof {
            assert(crates.keys().take(crates.keys().len() as int) =~= crates.keys());
            assert forall|t: int| 0 <= t < out.keys().len() implies crate::text::lex_lt(
                #[trigger] out.keys()[t],
                key@,
            ) by {
                assert(out.keys()[t] == coverage.keys()[t]);
            }
            assert(coverage.keys().take(i + 1) =~= coverage.keys().take(i as int).push(key@));
        }
        out.push(key, inner);
        i += 1;
    }
    assert(coverage.keys().take(coverage.keys().len() as int) =~= coverage.keys());
    Ok(out)
}

/// The tests that ran no line of any file, under every package and crate
/// target of the coverage. What is asked for plays no part.
pub fn zero_coverage_tests(coverage_map: &PackageCrateMap<Vec<TestCoverage>>) -> (r: PackageCrateMap<
    Vec<Test>,
>)
    requires
        coverage_map_wf(*coverage_map),
    ensures
        is_pick(*coverage_map, None, r),
{
    match pick_tests(coverage_map, None) {
        Ok(picked) => picked,
        Err(_) => {
            // Without digests none can be wanting: this arm is never taken.
            assert(all_digests_known(*coverage_map, None));
            StrMap::new()
        },
    }
}

/// The tests to run anew: those that ran a file whose current digest is not
/// the one that the store knows. `current` holds the digest of the present
/// contents of every file that the coverage names; where one is wanting, the
/// call fails.
pub fn tests_for_refresh(
    db: &Db,
    coverage_map: &PackageCrateMap<Vec<TestCoverage>>,
    current: &PathDigestMap,
) -> (r: Result<PackageCrateMap<Vec<Test>>, Failure>)
    requires
        db.wf(),
        coverage_map_wf(*coverage_map),
        current.wf(),
    ensures
        r is Ok <==> all_digests_known(*coverage_map, Some((&db.path_digest_map, current))),
        r matches Ok(picked) ==> is_pick(
            *coverage_map,
            Some((&db.path_digest_map, current)),
            picked,
        ),
        r matches Err(e) ==> (e matches Failure::DigestUnknown(path) && !current.has_key(path@)),
{
    pick_tests(coverage_map, Some((&db.path_digest_map, current)))
}

/// Whether no test stands under any package and crate target.
pub fn test_map_is_empty(test_map: &PackageCrateMap<Vec<Test>>) -> (r: bool)
    requires
        crate_maps_wf(*test_map),
    ensures
        r == forall|i: int, j: int|
            0 <= i < test_map.values().len() && 0 <= j < test_map.values()[i].values().len() ==> (
            #[trigger] test_map.values()[i].values()[j])@.len() == 0,
{
    let mut i: usize = 0;
    while i < test_map.len()
        invariant
            crate_maps_wf(*test_map),
            0 <= i <= test_map.keys().len(),
            forall|l: int, j: int|
                0 <= l < i && 0 <= j < test_map.values()[l].values().len() ==> (
                #[trigger] test_map.values()[l].values()[j])@.len() == 0,
        decreases test_map.keys().len() - i,
    {
        let crates = test_map.value(i);
        let mut j: usize = 0;
        while j < crates.len()
            invariant
                crates.wf(),
                0 <= i < test_map.values().len(),
                *crates == test_map.values()[i as int],
                0 <= j <= crates.keys().len(),
                forall|l: int| 0 <= l < j ==> (#[trigger] crates.values()[l])@.len() == 0,
            decreases crates.keys().len() - j,
        {
            if crates.value(j).len() != 0 {
                assert(test_map.values()[i as int].values()[j as int]@.len() != 0);
                return false;
            }
            j += 1;
        }
        i += 1;
    }
    true
}

/// Selection determinism. Two selections for the same coverage and the same
/// lines asked for name the same packages and crate targets, the same tests
/// under each in the same order, and leave the same lines uncovered, which are
/// then reported in the same words.
pub proof fn lemma_selection_deterministic(
    coverage: PackageCrateMap<Vec<TestCoverage>>,
    asked: PathLineMap,
    first: Selection,
    second: Selection,
)
    requires
        coverage_map_wf(coverage),
        is_selection(coverage, asked, first),
        is_selection(coverage, asked, second),
    ensures
        first.tests.keys() == second.tests.keys(),
        forall|i: int|
            0 <= i < first.tests.keys().len() ==> (#[trigger] first.tests.values()[i]).keys()
                == second.tests.values()[i].keys(),
        forall|i: int, j: int|
            0 <= i < first.tests.values().len() && 0 <= j < first.tests.values()[i].values().len()
                ==> test_views((#[trigger] first.tests.values()[i].values()[j])@) == test_views(
                second.tests.values()[i].values()[j]@,
            ),
        line_map_view(first.uncovered) == line_map_view(second.uncovered),
        crate::report::uncovered_lines_message(line_map_view(first.uncovered))
            == crate::report::uncovered_lines_message(line_map_view(second.uncovered)),
{
    assert forall|i: int, j: int|
        0 <= i < first.tests.values().len() && 0 <= j < first.tests.values()[i].values().len()
        implies test_views((#[trigger] first.tests.values()[i].values()[j])@) == test_views(
        second.tests.values()[i].values()[j]@,
    ) by {
        assert(first.tests.values()[i].keys() == coverage.values()[i].keys());
        assert(first.tests.values()[i].wf() && coverage.values()[i].wf());
        assert(test_views(second.tests.values()[i].values()[j]@) == selected_tests(
            coverage,
            asked,
            i,
            j,
            coverage.values()[i].values()[j]@.len() as int,
        ));
    }
}

/// A test is among the picked of the first `n` exactly if one of them with its
/// identity is picked.
pub proof fn lemma_picked_tests(
    tests: Seq<TestCoverage>,
    digests: Option<(&PathDigestMap, &PathDigestMap)>,
    n: int,
    test: Seq<Seq<char>>,
)
    requires
        0 <= n <= tests.len(),
    ensures
        picked_tests(tests, digests, n).contains(test) <==> exists|k: int|
            0 <= k < n && picks(digests, (#[trigger] tests[k]).coverage) && tests[k].test@ == test,
    decreases n,
{
    if n > 0 {
        lemma_picked_tests(tests, digests, n - 1, test);
        let before = picked_tests(tests, digests, n - 1);
        let now = picked_tests(tests, digests, n);
        if now.contains(test) {
            let w = choose|w: int| 0 <= w < now.len() && now[w] == test;
            if w < before.len() {
                assert(before[w] == test);
            } else {
                assert(picks(digests, tests[n - 1].coverage) && tests[n - 1].test@ == test);
            }
        }
        if exists|k: int|
            0 <= k < n && picks(digests, (#[trigger] tests[k]).coverage) && tests[k].test@ == test {
            let k = choose|k: int|
                0 <= k < n && picks(digests, (#[trigger] tests[k]).coverage) && tests[k].test@ == test;
            if k < n - 1 {
                assert(before.contains(test));
                let w = choose|w: int| 0 <= w < before.len() && before[w] == test;
                assert(now[w] == test);
            } else {
                assert(now[now.len() - 1] == test);
            }
        }
    }
}

/// Zero coverage. Under a crate target, a test is among those picked for zero
/// coverage exactly if a test of that identity ran no line of any file; a test
/// that ran a line of some file is not picked on its own account.
pub proof fn lemma_zero_coverage(
    coverage: PackageCrateMap<Vec<TestCoverage>>,
    picked: PackageCrateMap<Vec<Test>>,
    i: int,
    j: int,
    test: Seq<Seq<char>>,
)
    requires
        is_pick(coverage, None, picked),
        0 <= i < coverage.values().len(),
        0 <= j < coverage.values()[i].values().len(),
    ensures
        test_views(picked.values()[i].values()[j]@).contains(test) <==> exists|k: int|
            0 <= k < coverage.values()[i].values()[j]@.len() && no_lines(
                (#[trigger] coverage.values()[i].values()[j]@[k]).coverage,
            ) && coverage.values()[i].values()[j]@[k].test@ == test,
{
    let tests = coverage.values()[i].values()[j]@;
    lemma_picked_tests(tests, None, tests.len() as int, test);
    assert(test_views(picked.values()[i].values()[j]@) == picked_tests(tests, None, tests.len() as int));
}

} // verus!
