//! Building a store: what is to be done before the tests are run, and which
//! tests there are to run.

use crate::failure::Failure;
use crate::model::{crate_maps_wf, test_views, PackageCrateMap, Test};
use crate::str_map::StrMap;
use crate::text::{lex_lt, occurs_at, split_on, strip_suffix, views};
use crate::model::segment_separator;
use vstd::prelude::*;
use vstd::string::StringExecFns;

verus! {

/// What is to be done to the store's directory before it is filled.
#[derive(Clone, Copy, Debug, PartialEq, Eq, Structural)]
pub struct BuildPlan {
    /// The store that is there is moved aside, to be put back if the build
    /// does not come to its end.
    pub save_existing: bool,
    /// The directory of the store is made, with its note.
    pub create_store: bool,
    /// Tests whose artifact is there already are not run again.
    pub missing_only: bool,
}

/// Decides how a build starts. To build only what is missing there has to be a
/// store, which is then left in place. Else a store that is there is moved
/// aside, and the directory is made anew.
pub fn build(store_exists: bool, missing_only: bool) -> (r: Result<BuildPlan, Failure>)
    ensures
        !store_exists && missing_only ==> r matches Err(Failure::StoreMissing),
        !(!store_exists && missing_only) ==> r == Ok::<BuildPlan, Failure>(
            (BuildPlan {
                save_existing: store_exists && !missing_only,
                create_store: !missing_only,
                missing_only,
            }),
        ),
{
    if store_exists {
        Ok(BuildPlan { save_existing: !missing_only, create_store: !missing_only, missing_only })
    } else if missing_only {
        Err(Failure::StoreMissing)
    } else {
        Ok(BuildPlan { save_existing: false, create_store: true, missing_only })
    }
}

/// The note that is left in a new store's directory.
pub open spec fn readme_text() -> Seq<char> {
    "This directory and its contents were automatically generated by cargo-line-test.\n"@
}

/// The note that is left in a new store's directory.
pub fn readme() -> (r: String)
    ensures
        r@ == readme_text(),
{
    String::from_str(
        "This directory and its contents were automatically generated by cargo-line-test.\n",
    )
}

/// A target of a package, as the build's metadata describe it.
#[derive(Debug)]
pub struct Target {
    pub name: String,
    pub is_bin: bool,
    pub is_lib: bool,
    pub is_test: bool,
}

/// A package and its targets.
#[derive(Debug)]
pub struct Package {
    pub name: String,
    pub targets: Vec<Target>,
}

/// The key of a binary target: this before its name.
pub open spec fn bin_prefix() -> Seq<char> {
    "bin:"@
}

/// The key of the library target.
pub open spec fn lib_key() -> Seq<char> {
    "lib"@
}

/// The key of a target as a crate target of the store: `bin:` and the name for
/// a binary, `lib` for the library, the name for an integration test. A target
/// of another kind is no crate target.
pub open spec fn crate_key(target: Target) -> Option<Seq<char>> {
    if target.is_bin {
        Some(bin_prefix() + target.name@)
    } else if target.is_lib {
        Some(lib_key())
    } else if target.is_test {
        Some(target.name@)
    } else {
        None
    }
}

/// The key of a target, as `crate_key` says.
pub fn target_key(target: &Target) -> (r: Option<String>)
    ensures
        r matches Some(key) ==> crate_key(*target) == Some(key@),
        r is None ==> crate_key(*target) is None,
{
    if target.is_bin {
        let mut key = String::from_str("bin:");
        key.append(target.name.as_str());
        Some(key)
    } else if target.is_lib {
        Some(String::from_str("lib"))
    } else if target.is_test {
        Some(target.name.clone())
    } else {
        None
    }
}

/// Target `t` of package `i` makes `key` a crate target of the package named
/// `name`.
pub open spec fn keyed_at(packages: Seq<Package>, i: int, t: int, name: Seq<char>, key: Seq<char>) -> bool {
    &&& 0 <= i < packages.len()
    &&& 0 <= t < packages[i].targets@.len()
    &&& packages[i].name@ == name
    &&& crate_key(packages[i].targets@[t]) == Some(key)
}

/// `key` is a crate target of the package named `name`, by a target before
/// target `t` of package `i`.
pub open spec fn keyed_before(
    packages: Seq<Package>,
    i: int,
    t: int,
    name: Seq<char>,
    key: Seq<char>,
) -> bool {
    exists|i2: int, t2: int| #[trigger]
        keyed_at(packages, i2, t2, name, key) && (i2 < i || (i2 == i && t2 < t))
}

/// `map` has the crate target `key` under the package `name`.
pub open spec fn has_crate<T>(map: PackageCrateMap<T>, name: Seq<char>, key: Seq<char>) -> bool {
    map.has_key(name) && map.value_of(name).has_key(key)
}

/// The crate targets of each package: those of its targets that are binaries,
/// libraries or integration tests, by their keys. A package without such a
/// target does not occur.
pub fn package_crates(packages: &Vec<Package>) -> (r: PackageCrateMap<()>)
    ensures
        crate_maps_wf(r),
        forall|name: Seq<char>, key: Seq<char>| #[trigger]
            has_crate(r, name, key) == keyed_before(packages@, packages@.len() as int, 0, name, key),
        forall|name: Seq<char>| #[trigger]
            r.has_key(name) ==> exists|key: Seq<char>| r.value_of(name).has_key(key),
{
    let mut map: PackageCrateMap<()> = StrMap::new();
    let mut i: usize = 0;
    proof {
        assert forall|name: Seq<char>, key: Seq<char>| #[trigger]
            has_crate(map, name, key) == keyed_before(packages@, 0, 0, name, key) by {
            if keyed_before(packages@, 0, 0, name, key) {
                let (i2, t2) = choose|i2: int, t2: int| #[trigger]
                    keyed_at(packages@, i2, t2, name, key) && (i2 < 0 || (i2 == 0 && t2 < 0));
            }
        }
    }
    while i < packages.len()
        invariant
            0 <= i <= packages@.len(),
            crate_maps_wf(map),
            forall|name: Seq<char>, key: Seq<char>| #[trigger]
                has_crate(map, name, key) == keyed_before(packages@, i as int, 0, name, key),
            forall|name: Seq<char>| #[trigger]
                map.has_key(name) ==> exists|key: Seq<char>| map.value_of(name).has_key(key),
        decreases packages@.len() - i,
    {
        let package = &packages[i];
        let ghost before = map;
        let mut crates: StrMap<()> = match map.remove(package.name.as_str()) {
            Some(crates) => {
                proof {
                    before.lemma_place_of(package.name@);
                }
                crates
            },
            None => StrMap::new(),
        };
        let ghost had = crates;
        proof {
            assert forall|q: int| 0 <= q < map.values().len() implies (#[trigger] map.values()[q]).wf() by {
                let p = before.place_of(package.name@);
                if before.has_key(package.name@) {
                    if q < p {
                        assert(map.values()[q] == before.values()[q]);
                    } else {
                        assert(map.values()[q] == before.values()[q + 1]);
                    }
                }
            }
            assert forall|key: Seq<char>| #[trigger]
                had.has_key(key) == keyed_before(packages@, i as int, 0, package.name@, key) by {
                assert(has_crate(before, package.name@, key) == keyed_before(
                    packages@,
                    i as int,
                    0,
                    package.name@,
                    key,
                ));
                if !before.has_key(package.name@) && had.has_key(key) {
                    let w = choose|w: int| 0 <= w < had.keys().len() && had.keys()[w] == key;
                }
            }
        }
        let mut t: usize = 0;
        while t < package.targets.len()
            invariant
                0 <= i < packages@.len(),
                *package == packages@[i as int],
                0 <= t <= package.targets@.len(),
                crates.wf(),
                forall|key: Seq<char>| #[trigger]
                    crates.has_key(key) == keyed_before(packages@, i as int, t as int, package.name@, key),
            decreases package.targets@.len() - t,
        {
            let ghost seen = crates;
            let added = target_key(&package.targets[t]);
            match added {
                Some(key) => {
                    crates.insert(key, ());
                },
                None => {},
            }
            proof {
                assert forall|key: Seq<char>| #[trigger]
                    crates.has_key(key) == keyed_before(packages@, i as int, t + 1, package.name@, key) by {
                    let here = crate_key(package.targets@[t as int]) == Some(key);
                    assert(seen.has_key(key) == keyed_before(
                        packages@,
                        i as int,
                        t as int,
                        package.name@,
                        key,
                    ));
                    if keyed_before(packages@, i as int, t + 1, package.name@, key) {
                        let (i2, t2) = choose|i2: int, t2: int| #[trigger]
                            keyed_at(packages@, i2, t2, package.name@, key) && (i2 < i || (i2 == i && t2
                                < t + 1));
                        if !(i2 == i && t2 == t) {
                            assert(keyed_at(packages@, i2, t2, package.name@, key) && (i2 < i || (i2
                                == i && t2 < t)));
                        }
                    }
                    if keyed_before(packages@, i as int, t as int, package.name@, key) {
                        let (i2, t2) = choose|i2: int, t2: int| #[trigger]
                            keyed_at(packages@, i2, t2, package.name@, key) && (i2 < i || (i2 == i && t2
                                < t));
                        assert(keyed_at(packages@, i2, t2, package.name@, key) && (i2 < i || (i2 == i
                            && t2 < t + 1)));
                    }
                    if here {
                        assert(keyed_at(packages@, i as int, t as int, package.name@, key) && (i < i
                            || (i == i && t < t + 1)));
                    }
                }
            }
            t += 1;
        }
        let ghost stripped = map;
        let ghost filled = crates;
        if !crates.is_empty() {
            map.insert(package.name.clone(), crates);
        }
        proof {
            assert forall|q: int| 0 <= q < map.values().len() implies (#[trigger] map.values()[q]).wf() by {
                if map.values()[q] != filled {
                    if stripped.values().contains(map.values()[q]) {
                        let w = choose|w: int|
                            0 <= w < stripped.values().len() && stripped.values()[w] == map.values()[q];
                        assert(stripped.values()[w].wf());
                    }
                }
            }
            assert forall|name: Seq<char>, key: Seq<char>| #[trigger]
                has_crate(map, name, key) == keyed_before(packages@, i + 1, 0, name, key) by {
                assert(has_crate(before, name, key) == keyed_before(packages@, i as int, 0, name, key));
                if name == package.name@ {
                    assert(filled.has_key(key) == keyed_before(
                        packages@,
                        i as int,
                        package.targets@.len() as int,
                        name,
                        key,
                    ));
                    if filled.keys().len() == 0 && filled.has_key(key) {
                        let w = choose|w: int| 0 <= w < filled.keys().len() && filled.keys()[w] == key;
                    }
                }
                if keyed_before(packages@, i + 1, 0, name, key) {
                    let (i2, t2) = choose|i2: int, t2: int| #[trigger]
                        keyed_at(packages@, i2, t2, name, key) && (i2 < i + 1 || (i2 == i + 1 && t2 < 0));
                    if i2 == i {
                        assert(keyed_at(packages@, i2, t2, name, key) && (i2 < i || (i2 == i && t2
                            < package.targets@.len())));
                    } else {
                        assert(keyed_at(packages@, i2, t2, name, key) && (i2 < i || (i2 == i && t2 < 0)));
                    }
                }
                if name == package.name@ && keyed_before(
                    packages@,
                    i as int,
                    package.targets@.len() as int,
                    name,
                    key,
                ) {
                    let (i2, t2) = choose|i2: int, t2: int| #[trigger]
                        keyed_at(packages@, i2, t2, name, key) && (i2 < i || (i2 == i && t2
                            < package.targets@.len()));
                    assert(keyed_at(packages@, i2, t2, name, key) && (i2 < i + 1 || (i2 == i + 1 && t2
                        < 0)));
                }
                if name != package.name@ && keyed_before(packages@, i as int, 0, name, key) {
                    let (i2, t2) = choose|i2: int, t2: int| #[trigger]
                        keyed_at(packages@, i2, t2, name, key) && (i2 < i || (i2 == i && t2 < 0));
                    assert(keyed_at(packages@, i2, t2, name, key) && (i2 < i + 1 || (i2 == i + 1 && t2
                        < 0)));
                }
            }
            assert forall|name: Seq<char>| #[trigger] map.has_key(name) implies exists|key: Seq<char>|
                map.value_of(name).has_key(key) by {
                if name == package.name@ {
                    assert(filled.keys().len() > 0);
                    assert(filled.has_key(filled.keys()[0]));
                } else {
                    assert(before.has_key(name));
                    let key = choose|key: Seq<char>| before.value_of(name).has_key(key);
                    assert(map.value_of(name).has_key(key));
                }
            }
        }
        i += 1;
    }
    map
}

/// What ends a line of a test listing that names a test.
pub open spec fn test_suffix() -> Seq<char> {
    ": test"@
}

/// The test that a line of a test listing names, if it names one: the line
/// ends with `: test`, and what stands before is the test's identity.
pub open spec fn listed_test(line: Seq<char>) -> Option<Seq<Seq<char>>> {
    if test_suffix().len() <= line.len() && occurs_at(line, test_suffix(), line.len() - test_suffix().len()) {
        Some(split_on(line.take(line.len() - test_suffix().len()), segment_separator()))
    } else {
        None
    }
}

/// The tests that the first `n` lines of a test listing name, in their order.
pub open spec fn listed_tests(lines: Seq<Seq<char>>, n: int) -> Seq<Seq<Seq<char>>>
    decreases n,
{
    if n <= 0 {
        Seq::empty()
    } else {
        match listed_test(lines[n - 1]) {
            Some(test) => listed_tests(lines, n - 1).push(test),
            None => listed_tests(lines, n - 1),
        }
    }
}

/// The tests of a crate target, read off the lines that its test listing
/// printed. Lines that name no test are passed over.
pub fn package_crate_tests(lines: &Vec<String>) -> (r: Vec<Test>)
    ensures
        test_views(r@) == listed_tests(views(lines@), lines@.len() as int),
{
    let mut tests: Vec<Test> = Vec::new();
    let mut i: usize = 0;
    assert(test_views(tests@) =~= listed_tests(views(lines@), 0));
    while i < lines.len()
        invariant
            0 <= i <= lines@.len(),
            test_views(tests@) == listed_tests(views(lines@), i as int),
        decreases lines@.len() - i,
    {
        assert(views(lines@)[i as int] == lines@[i as int]@);
        match strip_suffix(lines[i].as_str(), ": test") {
            Some(path) => {
                let test = Test::parse(path.as_str());
                assert(test_views(tests@.push(test)) =~= test_views(tests@).push(test@));
                tests.push(test);
            },
            None => {},
        }
        i += 1;
    }
    tests
}

/// The tests of every crate target, read off the test listing of each.
/// `listings` holds, under each package and crate target, the lines that the
/// listing printed.
pub fn package_crate_test_map(listings: &PackageCrateMap<Vec<String>>) -> (r: PackageCrateMap<
    Vec<Test>,
>)
    requires
        crate_maps_wf(*listings),
    ensures
        crate_maps_wf(r),
        r.keys() == listings.keys(),
        forall|i: int|
            0 <= i < listings.keys().len() ==> (#[trigger] r.values()[i]).keys()
                == listings.values()[i].keys(),
        forall|i: int, j: int|
            0 <= i < listings.values().len() && 0 <= j < listings.values()[i].values().len()
                ==> test_views((#[trigger] r.values()[i].values()[j])@) == listed_tests(
                views(listings.values()[i].values()[j]@),
                listings.values()[i].values()[j]@.len() as int,
            ),
{
    let mut out: PackageCrateMap<Vec<Test>> = StrMap::new();
    let mut i: usize = 0;
    assert(out.keys() =~= listings.keys().take(0));
    while i < listings.len()
        invariant
            crate_maps_wf(*listings),
            0 <= i <= listings.keys().len(),
            crate_maps_wf(out),
            out.keys() == listings.keys().take(i as int),
            forall|l: int| 0 <= l < i ==> (#[trigger] out.values()[l]).keys() == listings.values()[l].keys(),
            forall|l: int, j: int|
                0 <= l < i && 0 <= j < listings.values()[l].values().len() ==> test_views(
                    (#[trigger] out.values()[l].values()[j])@,
                ) == listed_tests(
                    views(listings.values()[l].values()[j]@),
                    listings.values()[l].values()[j]@.len() as int,
                ),
        decreases listings.keys().len() - i,
    {
        let crates = listings.value(i);
        let mut inner: StrMap<Vec<Test>> = StrMap::new();
        let mut j: usize = 0;
        assert(inner.keys() =~= crates.keys().take(0));
        while j < crates.len()
            invariant
                crates.wf(),
                0 <= j <= crates.keys().len(),
                inner.wf(),
                inner.keys() == crates.keys().take(j as int),
                forall|l: int|
                    0 <= l < j ==> test_views((#[trigger] inner.values()[l])@) == listed_tests(
                        views(crates.values()[l]@),
                        crates.values()[l]@.len() as int,
                    ),
            decreases crates.keys().len() - j,
        {
            let tests = package_crate_tests(crates.value(j));
            let key = crates.key(j).clone();
            proof {
                assert forall|t: int| 0 <= t < inner.keys().len() implies lex_lt(
                    #[trigger] inner.keys()[t],
                    key@,
                ) by {
                    assert(inner.keys()[t] == crates.keys()[t]);
                }
                assert(crates.keys().take(j + 1) =~= crates.keys().take(j as int).push(key@));
            }
            inner.push(key, tests);
            j += 1;
        }
        let key = listings.key(i).clone();
        proof {
            assert(crates.keys().take(crates.keys().len() as int) =~= crates.keys());
            assert forall|t: int| 0 <= t < out.keys().len() implies lex_lt(#[trigger] out.keys()[t], key@) by {
                assert(out.keys()[t] == listings.keys()[t]);
            }
            assert(listings.keys().take(i + 1) =~= listings.keys().take(i as int).push(key@));
        }
        out.push(key, inner);
        i += 1;
    }
    assert(listings.keys().take(listings.keys().len() as int) =~= listings.keys());
    out
}

/// The store holds an artifact of `test` under the package `name` and the
/// crate target `key`.
pub open spec fn stored_has(
    stored: PackageCrateMap<Vec<Test>>,
    name: Seq<char>,
    key: Seq<char>,
    test: Seq<Seq<char>>,
) -> bool {
    has_crate(stored, name, key) && test_views(stored.value_of(name).value_of(key)@).contains(test)
}

/// Those of the first `n` of `tests` of which the store holds no artifact under
/// the package `name` and the crate target `key`, in their order.
pub open spec fn missing_tests(
    tests: Seq<Test>,
    stored: PackageCrateMap<Vec<Test>>,
    name: Seq<char>,
    key: Seq<char>,
    n: int,
) -> Seq<Seq<Seq<char>>>
    decreases n,
{
    if n <= 0 {
        Seq::empty()
    } else if stored_has(stored, name, key, tests[n - 1]@) {
        missing_tests(tests, stored, name, key, n - 1)
    } else {
        missing_tests(tests, stored, name, key, n - 1).push(tests[n - 1]@)
    }
}

/// Whether `list` holds a test with the identity of `test`.
fn holds_test(list: &Vec<Test>, test: &Test) -> (r: bool)
    ensures
        r == test_views(list@).contains(test@),
{
    let mut i: usize = 0;
    while i < list.len()
        invariant
            0 <= i <= list@.len(),
            forall|j: int| 0 <= j < i ==> test_views(list@)[j] != test@,
        decreases list@.len() - i,
    {
        if list[i].same(test) {
            assert(test_views(list@)[i as int] == test@);
            return true;
        }
        i += 1;
    }
    false
}

/// Takes out of `test_map` every test of which the store holds an artifact
/// already. `stored` names the tests that the store holds. The packages and
/// crate targets stay, and so does the order of the tests.
pub fn remove_tests_with_lcov(test_map: &mut PackageCrateMap<Vec<Test>>, stored: &PackageCrateMap<Vec<Test>>)
    requires
        crate_maps_wf(*old(test_map)),
        crate_maps_wf(*stored),
    ensures
        crate_maps_wf(*final(test_map)),
        final(test_map).keys() == old(test_map).keys(),
        forall|i: int|
            0 <= i < old(test_map).keys().len() ==> (#[trigger] final(test_map).values()[i]).keys()
                == old(test_map).values()[i].keys(),
        forall|i: int, j: int|
            0 <= i < old(test_map).values().len() && 0 <= j < old(test_map).values()[i].values().len()
                ==> test_views((#[trigger] final(test_map).values()[i].values()[j])@)
                == missing_tests(
                old(test_map).values()[i].values()[j]@,
                *stored,
                old(test_map).keys()[i],
                old(test_map).values()[i].keys()[j],
                old(test_map).values()[i].values()[j]@.len() as int,
            ),
{
    let ghost all = *test_map;
    let mut out: PackageCrateMap<Vec<Test>> = StrMap::new();
    let mut i: usize = 0;
    assert(out.keys() =~= all.keys().take(0));
    while i < test_map.len()
        invariant
            all == *test_map,
            crate_maps_wf(all),
            crate_maps_wf(*stored),
            0 <= i <= all.keys().len(),
            crate_maps_wf(out),
            out.keys() == all.keys().take(i as int),
            forall|l: int| 0 <= l < i ==> (#[trigger] out.values()[l]).keys() == all.values()[l].keys(),
            forall|l: int, j: int|
                0 <= l < i && 0 <= j < all.values()[l].values().len() ==> test_views(
                    (#[trigger] out.values()[l].values()[j])@,
                ) == missing_tests(
                    all.values()[l].values()[j]@,
                    *stored,
                    all.keys()[l],
                    all.values()[l].keys()[j],
                    all.values()[l].values()[j]@.len() as int,
                ),
        decreases all.keys().len() - i,
    {
        let name = test_map.key(i);
        let crates = test_map.value(i);
        let stored_crates = stored.get(name.as_str());
        proof {
            stored.lemma_place_of(name@);
        }
        let mut inner: StrMap<Vec<Test>> = StrMap::new();
        let mut j: usize = 0;
        assert(inner.keys() =~= crates.keys().take(0));
        while j < crates.len()
            invariant
                crates.wf(),
                crate_maps_wf(*stored),
                0 <= j <= crates.keys().len(),
                stored_crates matches Some(c) ==> stored.has_key(name@) && *c == stored.value_of(name@)
                    && c.wf(),
                stored_crates is None ==> !stored.has_key(name@),
                inner.wf(),
                inner.keys() == crates.keys().take(j as int),
                forall|l: int|
                    0 <= l < j ==> test_views((#[trigger] inner.values()[l])@) == missing_tests(
                        crates.values()[l]@,
                        *stored,
                        name@,
                        crates.keys()[l],
                        crates.values()[l]@.len() as int,
                    ),
            decreases crates.keys().len() - j,
        {
            let key = crates.key(j);
            let tests = crates.value(j);
            let stored_tests = match stored_crates {
                Some(c) => c.get(key.as_str()),
                None => None,
            };
            let mut kept: Vec<Test> = Vec::new();
            let mut k: usize = 0;
            assert(test_views(kept@) =~= missing_tests(tests@, *stored, name@, key@, 0));
            while k < tests.len()
                invariant
                    0 <= k <= tests@.len(),
                    stored_tests matches Some(list) ==> has_crate(*stored, name@, key@) && *list
                        == stored.value_of(name@).value_of(key@),
                    stored_tests is None ==> !has_crate(*stored, name@, key@),
                    test_views(kept@) == missing_tests(tests@, *stored, name@, key@, k as int),
                decreases tests@.len() - k,
            {
                let there = match stored_tests {
                    Some(list) => holds_test(list, &tests[k]),
                    None => false,
                };
                if !there {
                    let test = tests[k].clone();
                    assert(test_views(kept@.push(test)) =~= test_views(kept@).push(test@));
                    kept.push(test);
                }
                k += 1;
            }
            let new_key = key.clone();
            proof {
                assert forall|t: int| 0 <= t < inner.keys().len() implies lex_lt(
                    #[trigger] inner.keys()[t],
                    new_key@,
                ) by {
                    assert(inner.keys()[t] == crates.keys()[t]);
                }
                assert(crates.keys().take(j + 1) =~= crates.keys().take(j as int).push(new_key@));
            }
            inner.push(new_key, kept);
            j += 1;
        }
        let new_name = name.clone();
        proof {
            assert(crates.keys().take(crates.keys().len() as int) =~= crates.keys());
            assert forall|t: int| 0 <= t < out.keys().len() implies lex_lt(
                #[trigger] out.keys()[t],
                new_name@,
            ) by {
                assert(out.keys()[t] == all.keys()[t]);
            }
            assert(all.keys().take(i + 1) =~= all.keys().take(i as int).push(new_name@));
        }
        out.push(new_name, inner);
        i += 1;
    }
    assert(all.keys().take(all.keys().len() as int) =~= all.keys());
    *test_map = out;
}

} // verus!
