//! One invocation from end to end: what is selected, what is to be said, and
//! what is to be run.

use crate::db::Db;
use crate::failure::Failure;
use crate::model::{
    coverage_map_wf, crate_maps_wf, line_map_wf, test_views, PackageCrateMap, PathDigestMap,
    PathLineMap, Test, TestCoverage,
};
use crate::opts::Opts;
use crate::report::{nothing_left, uncovered_lines_message, warn_about_uncovered_lines};
use crate::run::{package_steps, run_tests as plan_run, settings_for, step_views, RunPlan};
use crate::select::{
    all_digests_known, is_pick, is_selection, left_uncovered, line_map_view, picked_tests,
    selected_tests, test_map_is_empty, tests_for_path_lines, tests_for_refresh, zero_coverage_tests,
    Selection,
};
use crate::str_map::StrMap;
use crate::text::lex_lt;
use crate::warn::warning_text;
use vstd::prelude::*;

verus! {

/// Where lines are asked for besides the options.
#[derive(Clone, Copy, Debug, PartialEq, Eq, Structural)]
pub enum Source {
    /// Nowhere.
    Options,
    /// In a diff on standard input.
    Diff,
    /// In specifications on standard input.
    Stdin,
}

/// Where more lines are to be read. A diff and specifications cannot both come
/// from standard input.
pub fn extra_source(diff: bool, line_dash_used: bool) -> (r: Result<Source, Failure>)
    ensures
        diff && line_dash_used ==> r matches Err(Failure::DiffWithStdin),
        diff && !line_dash_used ==> r == Ok::<Source, Failure>(Source::Diff),
        !diff && line_dash_used ==> r == Ok::<Source, Failure>(Source::Stdin),
        !diff && !line_dash_used ==> r == Ok::<Source, Failure>(Source::Options),
{
    if diff {
        if line_dash_used {
            Err(Failure::DiffWithStdin)
        } else {
            Ok(Source::Diff)
        }
    } else if line_dash_used {
        Ok(Source::Stdin)
    } else {
        Ok(Source::Options)
    }
}

/// The tests of `first` followed, under each crate target, by those of
/// `second`. Both name the same packages and crate targets.
fn append_tests(first: &PackageCrateMap<Vec<Test>>, second: &PackageCrateMap<Vec<Test>>) -> (r:
    PackageCrateMap<Vec<Test>>)
    requires
        crate_maps_wf(*first),
        crate_maps_wf(*second),
        first.keys() == second.keys(),
        forall|i: int|
            0 <= i < first.keys().len() ==> (#[trigger] first.values()[i]).keys()
                == second.values()[i].keys(),
    ensures
        crate_maps_wf(r),
        r.keys() == first.keys(),
        forall|i: int| 0 <= i < first.keys().len() ==> (#[trigger] r.values()[i]).keys() == first.values()[i].keys(),
        forall|i: int, j: int|
            0 <= i < first.values().len() && 0 <= j < first.values()[i].values().len() ==> test_views(
                (#[trigger] r.values()[i].values()[j])@,
            ) == test_views(first.values()[i].values()[j]@) + test_views(
                second.values()[i].values()[j]@,
            ),
{
    let mut out: PackageCrateMap<Vec<Test>> = StrMap::new();
    let mut i: usize = 0;
    assert(out.keys() =~= first.keys().take(0));
    while i < first.len()
        invariant
            crate_maps_wf(*first),
            crate_maps_wf(*second),
            first.keys() == second.keys(),
            forall|l: int|
                0 <= l < first.keys().len() ==> (#[trigger] first.values()[l]).keys()
                    == second.values()[l].keys(),
            0 <= i <= first.keys().len(),
            crate_maps_wf(out),
            out.keys() == first.keys().take(i as int),
            forall|l: int| 0 <= l < i ==> (#[trigger] out.values()[l]).keys() == first.values()[l].keys(),
            forall|l: int, j: int|
                0 <= l < i && 0 <= j < first.values()[l].values().len() ==> test_views(
                    (#[trigger] out.values()[l].values()[j])@,
                ) == test_views(first.values()[l].values()[j]@) + test_views(
                    second.values()[l].values()[j]@,
                ),
        decreases first.keys().len() - i,
    {
        let crates = first.value(i);
        let others = second.value(i);
        let mut inner: StrMap<Vec<Test>> = StrMap::new();
        let mut j: usize = 0;
        assert(inner.keys() =~= crates.keys().take(0));
        while j < crates.len()
            invariant
                crates.wf(),
                others.wf(),
                crates.keys() == others.keys(),
                0 <= j <= crates.keys().len(),
                inner.wf(),
                inner.keys() == crates.keys().take(j as int),
                forall|l: int|
                    0 <= l < j ==> test_views((#[trigger] inner.values()[l])@) == test_views(
                        crates.values()[l]@,
                    ) + test_views(others.values()[l]@),
            decreases crates.keys().len() - j,
        {
            let mut tests: Vec<Test> = Vec::new();
            let a = crates.value(j);
            let b = others.value(j);
            let mut k: usize = 0;
            assert(test_views(tests@) =~= test_views(a@).take(0));
            while k < a.len()
                invariant
                    0 <= k <= a@.len(),
                    test_views(tests@) == test_views(a@).take(k as int),
                decreases a@.len() - k,
            {
                let test = a[k].clone();
                assert(test_views(tests@.push(test)) =~= test_views(tests@).push(test@));
                assert(test_views(a@).take(k + 1) =~= test_views(a@).take(k as int).push(a@[k as int]@));
                tests.push(test);
                k += 1;
            }
            assert(test_views(a@).take(a@.len() as int) =~= test_views(a@));
            let mut k: usize = 0;
            assert(test_views(tests@) =~= test_views(a@) + test_views(b@).take(0));
            while k < b.len()
                invariant
                    0 <= k <= b@.len(),
                    test_views(tests@) == test_views(a@) + test_views(b@).take(k as int),
                decreases b@.len() - k,
            {
                let test = b[k].clone();
                assert(test_views(tests@.push(test)) =~= test_views(tests@).push(test@));
                assert(test_views(a@) + test_views(b@).take(k + 1) =~= (test_views(a@) + test_views(
                    b@,
                ).take(k as int)).push(b@[k as int]@));
                tests.push(test);
                k += 1;
            }
            assert(test_views(b@).take(b@.len() as int) =~= test_views(b@));
            let key = crates.key(j).clone();
            proof {
                assert forall|t: int| 0 <= t < inner.keys().len() implies lex_lt(
                    #[trigger] inner.keys()[t],
                    key@,
                ) by {
                    assert(inner.keys()[t] == crates.keys()[t]);
                }
                assert(crates.keys().take(j + 1) =~= crates.keys().take(j as int).push(key@));
            }
            inner.push(key, tests);
            j += 1;
        }
        let key = first.key(i).clone();
        proof {
            assert(crates.keys().take(crates.keys().len() as int) =~= crates.keys());
            assert forall|t: int| 0 <= t < out.keys().len() implies lex_lt(#[trigger] out.keys()[t], key@) by {
                assert(out.keys()[t] == first.keys()[t]);
            }
            assert(first.keys().take(i + 1) =~= first.keys().take(i as int).push(key@));
        }
        out.push(key, inner);
        i += 1;
    }
    assert(first.keys().take(first.keys().len() as int) =~= first.keys());
    out
}

/// What an invocation comes to.
#[derive(Debug)]
pub struct Outcome {
    /// The tests to run, under each package and crate target.
    pub tests: PackageCrateMap<Vec<Test>>,
    /// The lines that no selected test stands for.
    pub uncovered: PathLineMap,
    /// The warning to show, if there is one.
    pub warning: Option<String>,
    /// The run of the tests; none where there is nothing to do.
    pub plan: Option<RunPlan>,
}

/// The tests that an invocation runs under crate target `j` of package `i`:
/// those selected for the lines asked for, and behind them, where they are
/// asked for, those that ran nothing.
pub open spec fn tests_to_run(
    coverage: PackageCrateMap<Vec<TestCoverage>>,
    asked: PathLineMap,
    zero_coverage: bool,
    i: int,
    j: int,
) -> Seq<Seq<Seq<char>>> {
    let tests = coverage.values()[i].values()[j]@;
    selected_tests(coverage, asked, i, j, tests.len() as int) + if zero_coverage {
        picked_tests(tests, None, tests.len() as int)
    } else {
        Seq::empty()
    }
}

/// There is nothing to run.
pub open spec fn nothing_to_do(tests: PackageCrateMap<Vec<Test>>) -> bool {
    forall|i: int, j: int|
        0 <= i < tests.values().len() && 0 <= j < tests.values()[i].values().len() ==> (
        #[trigger] tests.values()[i].values()[j])@.len() == 0
}

/// Selects the tests for the lines asked for and plans their run. The paths of
/// `path_line_map` are those that passed validation. Lines left uncovered are a
/// warning, which is a failure where warnings are denied. Where the options ask
/// for them, the tests that ran nothing are run as well. The tests are run
/// without coverage; where there is none to run, there is no plan.
pub fn run_tests(
    coverage_map: &PackageCrateMap<Vec<TestCoverage>>,
    path_line_map: &PathLineMap,
    opts: &Opts,
) -> (r: Result<Outcome, Failure>)
    requires
        coverage_map_wf(*coverage_map),
        line_map_wf(*path_line_map),
    ensures
        r is Err <==> opts.deny_warnings && !nothing_left(
            left_uncovered(*coverage_map, *path_line_map, path_line_map.keys().len() as int),
        ),
        r matches Err(e) ==> (e matches Failure::Warning(m) && m@ == uncovered_lines_message(
            left_uncovered(*coverage_map, *path_line_map, path_line_map.keys().len() as int),
        )),
        r matches Ok(outcome) ==> {
            let left = left_uncovered(*coverage_map, *path_line_map, path_line_map.keys().len() as int);
            &&& crate_maps_wf(outcome.tests)
            &&& outcome.tests.keys() == coverage_map.keys()
            &&& forall|i: int|
                0 <= i < coverage_map.keys().len() ==> (#[trigger] outcome.tests.values()[i]).keys()
                    == coverage_map.values()[i].keys()
            &&& forall|i: int, j: int|
                0 <= i < coverage_map.values().len() && 0 <= j
                    < coverage_map.values()[i].values().len() ==> test_views(
                    (#[trigger] outcome.tests.values()[i].values()[j])@,
                ) == tests_to_run(*coverage_map, *path_line_map, opts.zero_coverage, i, j)
            &&& line_map_view(outcome.uncovered) == left
            &&& match outcome.warning {
                Some(text) => !nothing_left(left) && text@ == warning_text(
                    uncovered_lines_message(left),
                ),
                None => nothing_left(left),
            }
            &&& match outcome.plan {
                Some(plan) => !nothing_to_do(outcome.tests) && step_views(plan.steps@)
                    == package_steps(
                    outcome.tests,
                    settings_for(outcome.tests, false, *opts),
                    outcome.tests.keys().len() as int,
                ),
                None => nothing_to_do(outcome.tests),
            }
        },
{
    let Selection { tests: selected, uncovered } = tests_for_path_lines(coverage_map, path_line_map);
    let warning = match warn_about_uncovered_lines(&uncovered, opts.deny_warnings) {
        Ok(warning) => warning,
        Err(e) => {
            return Err(e);
        },
    };
    let tests = if opts.zero_coverage {
        let zero = zero_coverage_tests(coverage_map);
        append_tests(&selected, &zero)
    } else {
        proof {
            assert forall|i: int, j: int|
                0 <= i < coverage_map.values().len() && 0 <= j
                    < coverage_map.values()[i].values().len() implies test_views(
                (#[trigger] selected.values()[i].values()[j])@,
            ) == tests_to_run(*coverage_map, *path_line_map, false, i, j) by {
                let tests = coverage_map.values()[i].values()[j]@;
                assert(selected_tests(*coverage_map, *path_line_map, i, j, tests.len() as int)
                    + Seq::<Seq<Seq<char>>>::empty() =~= selected_tests(
                    *coverage_map,
                    *path_line_map,
                    i,
                    j,
                    tests.len() as int,
                ));
            }
        }
        selected
    };
    let plan = if test_map_is_empty(&tests) {
        None
    } else {
        Some(plan_run(&tests, false, opts))
    };
    Ok(Outcome { tests, uncovered, warning, plan })
}

/// What a refresh comes to.
#[derive(Debug)]
pub struct Refresh {
    /// The tests to run anew.
    pub tests: PackageCrateMap<Vec<Test>>,
    /// Their run, under coverage.
    pub plan: RunPlan,
    /// Whether the digests are to be rebuilt after the run: they are, unless
    /// the tests are not run.
    pub rebuild_digests: bool,
}

/// Plans a refresh: the tests that ran a file whose contents have changed are
/// run anew under coverage, and after the run the digests are rebuilt from the
/// files' present contents. `current` holds the present digest of every file
/// that the coverage names; where one is wanting, the refresh fails.
pub fn refresh(
    db: &Db,
    coverage_map: &PackageCrateMap<Vec<TestCoverage>>,
    current: &PathDigestMap,
    opts: &Opts,
) -> (r: Result<Refresh, Failure>)
    requires
        db.wf(),
        coverage_map_wf(*coverage_map),
        current.wf(),
    ensures
        r is Ok <==> all_digests_known(*coverage_map, Some((&db.path_digest_map, current))),
        r matches Err(e) ==> (e matches Failure::DigestUnknown(path) && !current.has_key(path@)),
        r matches Ok(refresh) ==> is_pick(
            *coverage_map,
            Some((&db.path_digest_map, current)),
            refresh.tests,
        ) && step_views(refresh.plan.steps@) == package_steps(
            refresh.tests,
            settings_for(refresh.tests, true, *opts),
            refresh.tests.keys().len() as int,
        ) && refresh.rebuild_digests == !opts.no_run,
{
    let tests = match tests_for_refresh(db, coverage_map, current) {
        Ok(tests) => tests,
        Err(e) => {
            return Err(e);
        },
    };
    let plan = plan_run(&tests, true, opts);
    Ok(Refresh { tests, plan, rebuild_digests: !opts.no_run })
}

} // verus!
