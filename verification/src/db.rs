//! The coverage store as it is read back: which tests it holds, and the digest
//! of each file that they ran.
//!
//! The store is a directory tree: a directory for each package, in it one for
//! each crate target, in that one coverage artifact for each test, named by
//! the test's identity with the extension `lcov`. Which tests the store holds
//! is read off the names alone.

use crate::artifact::{countable, coverage_of, lcov_entries, read_lcov, scan};
use crate::digest::{digest_map_of, digests_of, json_string_map, read_path_digest_map};
use crate::failure::Failure;
use crate::model::{
    coverage_map_wf, crate_maps_wf, segment_separator, test_views, PackageCrateMap, PathDigestMap,
    Test, TestCoverage,
};
use crate::str_map::StrMap;
use crate::text::{chars_of, find_last, last_index, lemma_last_index, lex_lt, split_on, str_eq, text_of};
use vstd::prelude::*;

verus! {

/// What a store holds.
#[derive(Debug)]
pub struct Db {
    /// The tests of each crate target of each package, in stored order.
    pub package_crate_test_map: PackageCrateMap<Vec<Test>>,
    /// The digest of each file that some test ran.
    pub path_digest_map: PathDigestMap,
}

/// The directory of a crate target in the store: its name and the names of the
/// files in it.
#[derive(Debug)]
pub struct CrateDir {
    pub name: String,
    pub files: Vec<String>,
}

/// The directory of a package in the store: its name and the directories in
/// it.
#[derive(Debug)]
pub struct PackageDir {
    pub name: String,
    pub crates: Vec<CrateDir>,
}

/// The extension of a coverage artifact's name.
pub open spec fn artifact_extension() -> Seq<char> {
    "lcov"@
}

/// The place of the dot that parts a file name into stem and extension, or -1
/// where the name has no extension: it holds no dot, or its only dot is its
/// first character.
pub open spec fn extension_dot(name: Seq<char>) -> int {
    let dot = last_index(name, '.');
    if dot <= 0 {
        -1
    } else {
        dot
    }
}

/// `name` names a file: it is not empty, and it is neither `.` nor `..`, which
/// stand for directories.
pub open spec fn names_file(name: Seq<char>) -> bool {
    name.len() > 0 && name != "."@ && name != ".."@
}

/// What stands before the extension of a file name, if the name names a file
/// and has the extension `expected`, or none where none is expected.
pub open spec fn file_stem(name: Seq<char>, expected: Option<Seq<char>>) -> Option<Seq<char>> {
    let dot = extension_dot(name);
    if !names_file(name) {
        None
    } else if dot < 0 {
        if expected is None {
            Some(name)
        } else {
            None
        }
    } else if expected == Some(name.skip(dot + 1)) {
        Some(name.take(dot))
    } else {
        None
    }
}

/// The stem of a file name, as `file_stem` says. A name without stem, or with
/// another extension than the expected, is a failure.
pub fn file_stem_utf8(name: &str, expected_extension: Option<&str>) -> (r: Result<String, Failure>)
    ensures
        r matches Ok(stem) ==> file_stem(
            name@,
            match expected_extension {
                Some(e) => Some(e@),
                None => None,
            },
        ) == Some(stem@),
        r matches Err(e) ==> file_stem(
            name@,
            match expected_extension {
                Some(e) => Some(e@),
                None => None,
            },
        ) is None && (e matches Failure::FileName(n) && n@ == name@),
{
    let chars = chars_of(name);
    proof {
        lemma_last_index(name@, '.');
    }
    if chars.len() == 0 || str_eq(name, ".") || str_eq(name, "..") {
        return Err(Failure::FileName(name.to_owned()));
    }
    let dot = match find_last(&chars, '.') {
        Some(dot) => if dot == 0 {
            None
        } else {
            Some(dot)
        },
        None => None,
    };
    match dot {
        None => match expected_extension {
            None => Ok(name.to_owned()),
            Some(_) => Err(Failure::FileName(name.to_owned())),
        },
        Some(dot) => {
            let extension = text_of(name, dot + 1, chars.len());
            assert(name@.subrange(dot + 1, name@.len() as int) =~= name@.skip(dot + 1));
            assert(name@.subrange(0, dot as int) =~= name@.take(dot as int));
            match expected_extension {
                Some(expected) => if str_eq(extension.as_str(), expected) {
                    Ok(text_of(name, 0, dot))
                } else {
                    Err(Failure::FileName(name.to_owned()))
                },
                None => Err(Failure::FileName(name.to_owned())),
            }
        },
    }
}

/// The tests that the first `n` file names of a crate target's directory name,
/// in their order, if each is the name of a coverage artifact.
pub open spec fn crate_tests(files: Seq<String>, n: int) -> Option<Seq<Seq<Seq<char>>>>
    decreases n,
{
    if n <= 0 {
        Some(Seq::empty())
    } else {
        match (crate_tests(files, n - 1), file_stem(files[n - 1]@, Some(artifact_extension()))) {
            (Some(tests), Some(stem)) => Some(tests.push(split_on(stem, segment_separator()))),
            _ => None,
        }
    }
}

/// The tests of each of the first `n` crate targets of a package's directory,
/// by the crate target's key, if every name is fit.
pub open spec fn package_crates_of(crates: Seq<CrateDir>, n: int) -> Option<
    Map<Seq<char>, Seq<Seq<Seq<char>>>>,
>
    decreases n,
{
    if n <= 0 {
        Some(Map::empty())
    } else {
        match (
            package_crates_of(crates, n - 1),
            file_stem(crates[n - 1].name@, None),
            crate_tests(crates[n - 1].files@, crates[n - 1].files@.len() as int),
        ) {
            (Some(map), Some(key), Some(tests)) => Some(map.insert(key, tests)),
            _ => None,
        }
    }
}

/// The tests of each crate target of each of the first `n` packages of a
/// store, by the package's name, if every name is fit.
pub open spec fn store_packages_of(packages: Seq<PackageDir>, n: int) -> Option<
    Map<Seq<char>, Map<Seq<char>, Seq<Seq<Seq<char>>>>>,
>
    decreases n,
{
    if n <= 0 {
        Some(Map::empty())
    } else {
        match (
            store_packages_of(packages, n - 1),
            file_stem(packages[n - 1].name@, None),
            package_crates_of(packages[n - 1].crates@, packages[n - 1].crates@.len() as int),
        ) {
            (Some(map), Some(name), Some(crates)) => Some(map.insert(name, crates)),
            _ => None,
        }
    }
}

/// The tests of each crate target, by its key.
pub open spec fn crate_map_of(map: StrMap<Vec<Test>>) -> Map<Seq<char>, Seq<Seq<Seq<char>>>> {
    Map::new(|k: Seq<char>| map.has_key(k), |k: Seq<char>| test_views(map.value_of(k)@))
}

/// The tests of each crate target of each package, by name and key.
pub open spec fn test_map_of(map: PackageCrateMap<Vec<Test>>) -> Map<
    Seq<char>,
    Map<Seq<char>, Seq<Seq<Seq<char>>>>,
> {
    Map::new(|k: Seq<char>| map.has_key(k), |k: Seq<char>| crate_map_of(map.value_of(k)))
}

proof fn lemma_crate_tests_fail(files: Seq<String>, bad: int, n: int)
    requires
        0 <= bad <= n,
        crate_tests(files, bad) is None,
    ensures
        crate_tests(files, n) is None,
    decreases n,
{
    if bad < n {
        lemma_crate_tests_fail(files, bad, n - 1);
    }
}

proof fn lemma_package_crates_fail(crates: Seq<CrateDir>, bad: int, n: int)
    requires
        0 <= bad <= n,
        package_crates_of(crates, bad) is None,
    ensures
        package_crates_of(crates, n) is None,
    decreases n,
{
    if bad < n {
        lemma_package_crates_fail(crates, bad, n - 1);
    }
}

proof fn lemma_store_packages_fail(packages: Seq<PackageDir>, bad: int, n: int)
    requires
        0 <= bad <= n,
        store_packages_of(packages, bad) is None,
    ensures
        store_packages_of(packages, n) is None,
    decreases n,
{
    if bad < n {
        lemma_store_packages_fail(packages, bad, n - 1);
    }
}

/// The tests that the files of a crate target's directory name.
pub fn read_crate_dir(files: &Vec<String>) -> (r: Result<Vec<Test>, Failure>)
    ensures
        crate_tests(files@, files@.len() as int) matches Some(tests) ==> (r matches Ok(found)
            && test_views(found@) == tests),
        crate_tests(files@, files@.len() as int) is None ==> r matches Err(Failure::FileName(_)),
{
    let mut tests: Vec<Test> = Vec::new();
    let mut i: usize = 0;
    assert(test_views(tests@) =~= Seq::<Seq<Seq<char>>>::empty());
    while i < files.len()
        invariant
            0 <= i <= files@.len(),
            crate_tests(files@, i as int) == Some(test_views(tests@)),
        decreases files@.len() - i,
    {
        proof {
            if crate_tests(files@, i + 1) is None {
                lemma_crate_tests_fail(files@, i + 1, files@.len() as int);
            }
        }
        let stem = match file_stem_utf8(files[i].as_str(), Some("lcov")) {
            Ok(stem) => stem,
            Err(e) => {
                return Err(e);
            },
        };
        let test = Test::parse(stem.as_str());
        assert(test_views(tests@.push(test)) =~= test_views(tests@).push(test@));
        tests.push(test);
        i += 1;
    }
    Ok(tests)
}

/// The tests of each crate target of a package's directory.
pub fn read_package_dir(crates: &Vec<CrateDir>) -> (r: Result<StrMap<Vec<Test>>, Failure>)
    ensures
        package_crates_of(crates@, crates@.len() as int) matches Some(map) ==> (r matches Ok(found)
            && found.wf() && crate_map_of(found) == map),
        package_crates_of(crates@, crates@.len() as int) is None ==> r matches Err(
            Failure::FileName(_),
        ),
{
    let mut map: StrMap<Vec<Test>> = StrMap::new();
    let mut i: usize = 0;
    assert(crate_map_of(map) =~= Map::<Seq<char>, Seq<Seq<Seq<char>>>>::empty());
    while i < crates.len()
        invariant
            0 <= i <= crates@.len(),
            map.wf(),
            package_crates_of(crates@, i as int) == Some(crate_map_of(map)),
        decreases crates@.len() - i,
    {
        proof {
            if package_crates_of(crates@, i + 1) is None {
                lemma_package_crates_fail(crates@, i + 1, crates@.len() as int);
            }
        }
        let key = match file_stem_utf8(crates[i].name.as_str(), None) {
            Ok(key) => key,
            Err(e) => {
                return Err(e);
            },
        };
        let tests = match read_crate_dir(&crates[i].files) {
            Ok(tests) => tests,
            Err(e) => {
                return Err(e);
            },
        };
        let ghost before = crate_map_of(map);
        let ghost views = test_views(tests@);
        map.insert(key, tests);
        assert(crate_map_of(map) =~= before.insert(key@, views));
        i += 1;
    }
    Ok(map)
}

/// The tests of each crate target of each package of a store, read off the
/// names of its directories and files.
pub fn read_package_crate_test_map(packages: &Vec<PackageDir>) -> (r: Result<
    PackageCrateMap<Vec<Test>>,
    Failure,
>)
    ensures
        store_packages_of(packages@, packages@.len() as int) matches Some(map) ==> (r matches Ok(
            found,
        ) && crate_maps_wf(found) && test_map_of(found) == map),
        store_packages_of(packages@, packages@.len() as int) is None ==> r matches Err(
            Failure::FileName(_),
        ),
{
    let mut map: PackageCrateMap<Vec<Test>> = StrMap::new();
    let mut i: usize = 0;
    assert(test_map_of(map) =~= Map::<Seq<char>, Map<Seq<char>, Seq<Seq<Seq<char>>>>>::empty());
    while i < packages.len()
        invariant
            0 <= i <= packages@.len(),
            crate_maps_wf(map),
            store_packages_of(packages@, i as int) == Some(test_map_of(map)),
        decreases packages@.len() - i,
    {
        proof {
            if store_packages_of(packages@, i + 1) is None {
                lemma_store_packages_fail(packages@, i + 1, packages@.len() as int);
            }
        }
        let name = match file_stem_utf8(packages[i].name.as_str(), None) {
            Ok(name) => name,
            Err(e) => {
                return Err(e);
            },
        };
        let crates = match read_package_dir(&packages[i].crates) {
            Ok(crates) => crates,
            Err(e) => {
                return Err(e);
            },
        };
        let ghost before = test_map_of(map);
        let ghost old_map = map;
        let ghost inner = crate_map_of(crates);
        map.insert(name, crates);
        proof {
            assert forall|q: int| 0 <= q < map.values().len() implies (#[trigger] map.values()[q]).wf() by {
                if map.values()[q] != crates {
                    let w = choose|w: int|
                        0 <= w < old_map.values().len() && old_map.values()[w] == map.values()[q];
                    assert(old_map.values()[w].wf());
                }
            }
            assert(test_map_of(map) =~= before.insert(name@, inner));
        }
        i += 1;
    }
    Ok(map)
}

/// The directory of a store, under the directory that is worked in.
pub open spec fn store_dir_text() -> Seq<char> {
    "line-test.db"@
}

/// The directory of a store that holds the packages.
pub open spec fn packages_dir_text() -> Seq<char> {
    "line-test.db/packages"@
}

/// The side file of a store.
pub open spec fn digests_path_text() -> Seq<char> {
    "line-test.db/digests.json"@
}

/// The directory of a store.
pub fn store_dir() -> (r: String)
    ensures
        r@ == store_dir_text(),
{
    "line-test.db".to_owned()
}

/// The directory of a store that holds the packages.
pub fn packages_dir() -> (r: String)
    ensures
        r@ == packages_dir_text(),
{
    "line-test.db/packages".to_owned()
}

/// The side file of a store.
pub fn digests_path() -> (r: String)
    ensures
        r@ == digests_path_text(),
{
    "line-test.db/digests.json".to_owned()
}

/// The tests of which the store holds an artifact. `packages` lists the
/// directory of the packages, where there is one; where there is none, the
/// store holds no artifact.
pub fn stored_tests(packages: Option<&Vec<PackageDir>>) -> (r: Result<
    PackageCrateMap<Vec<Test>>,
    Failure,
>)
    ensures
        packages is None ==> (r matches Ok(found) && crate_maps_wf(found) && found.keys().len() == 0),
        packages matches Some(list) ==> match store_packages_of(list@, list@.len() as int) {
            Some(map) => r matches Ok(found) && crate_maps_wf(found) && test_map_of(found) == map,
            None => r matches Err(Failure::FileName(_)),
        },
{
    match packages {
        None => Ok(StrMap::new()),
        Some(list) => read_package_crate_test_map(list),
    }
}

/// Reads a store: its tests off the names of its directories and files, its
/// digests out of the text of the side file.
pub fn read(packages: &Vec<PackageDir>, digests_json: &str) -> (r: Result<Db, Failure>)
    ensures
        r matches Ok(db) ==> db.wf() && store_packages_of(packages@, packages@.len() as int) == Some(
            test_map_of(db.package_crate_test_map),
        ) && (json_string_map(digests_json@) matches Some(entries) && digests_of(
            entries,
            entries.len() as int,
        ) == Some(digest_map_of(db.path_digest_map))),
        r is Ok <==> store_packages_of(packages@, packages@.len() as int) is Some && (json_string_map(
            digests_json@,
        ) matches Some(entries) && digests_of(entries, entries.len() as int) is Some),
        r matches Err(e) ==> if store_packages_of(packages@, packages@.len() as int) is None {
            e is FileName
        } else {
            e is DigestFile || e is DigestHex || e is DigestLength
        },
{
    let package_crate_test_map = match read_package_crate_test_map(packages) {
        Ok(map) => map,
        Err(e) => {
            return Err(e);
        },
    };
    let path_digest_map = match read_path_digest_map(digests_json) {
        Ok(map) => map,
        Err(e) => {
            return Err(e);
        },
    };
    Ok(Db { package_crate_test_map, path_digest_map })
}

/// What the artifact `bytes` says a test ran, if it can be read and has no
/// flaw.
pub open spec fn artifact_record(bytes: Seq<u8>, base: Seq<char>) -> Option<Map<Seq<char>, Seq<u32>>> {
    if !countable(bytes) {
        None
    } else {
        match lcov_entries(bytes) {
            None => None,
            Some(entries) => match scan(entries, base, entries.len() as int) {
                Ok(end) => Some(end.closed),
                Err(_) => None,
            },
        }
    }
}

/// Every test of the list has its artifact, at the same place, and every
/// artifact can be read and has no flaw.
pub open spec fn list_fits(tests: Seq<Test>, artifacts: Seq<Vec<u8>>, base: Seq<char>) -> bool {
    &&& tests.len() == artifacts.len()
    &&& forall|k: int| 0 <= k < artifacts.len() ==> artifact_record((#[trigger] artifacts[k])@, base) is Some
}

/// The crate targets are the same on both sides, and the tests of each fit
/// their artifacts.
pub open spec fn crates_fit(
    tests: StrMap<Vec<Test>>,
    artifacts: StrMap<Vec<Vec<u8>>>,
    base: Seq<char>,
) -> bool {
    &&& tests.keys() == artifacts.keys()
    &&& forall|j: int|
        0 <= j < tests.values().len() ==> list_fits(
            (#[trigger] tests.values()[j])@,
            artifacts.values()[j]@,
            base,
        )
}

/// The packages are the same on both sides, and the crate targets of each fit.
pub open spec fn store_fits(
    tests: PackageCrateMap<Vec<Test>>,
    artifacts: PackageCrateMap<Vec<Vec<u8>>>,
    base: Seq<char>,
) -> bool {
    &&& tests.keys() == artifacts.keys()
    &&& forall|i: int|
        0 <= i < tests.values().len() ==> crates_fit(
            #[trigger] tests.values()[i],
            artifacts.values()[i],
            base,
        )
}

/// `records` holds each test of the list with what its artifact says it ran.
pub open spec fn records_match(
    tests: Seq<Test>,
    artifacts: Seq<Vec<u8>>,
    base: Seq<char>,
    records: Seq<TestCoverage>,
) -> bool {
    &&& records.len() == tests.len()
    &&& forall|k: int|
        0 <= k < records.len() ==> {
            let record = #[trigger] records[k];
            &&& record.coverage.wf()
            &&& record.test@ == tests[k]@
            &&& Some(coverage_of(record.coverage)) == artifact_record(artifacts[k]@, base)
        }
}

/// `coverage` holds under each crate target the records of its tests.
pub open spec fn crates_match(
    tests: StrMap<Vec<Test>>,
    artifacts: StrMap<Vec<Vec<u8>>>,
    base: Seq<char>,
    coverage: StrMap<Vec<TestCoverage>>,
) -> bool {
    &&& coverage.wf()
    &&& coverage.keys() == tests.keys()
    &&& forall|j: int|
        0 <= j < coverage.values().len() ==> records_match(
            tests.values()[j]@,
            artifacts.values()[j]@,
            base,
            (#[trigger] coverage.values()[j])@,
        )
}

/// `coverage` holds, for each test of `tests`, under its package and crate
/// target and at its place, the test and what its artifact says it ran.
pub open spec fn is_coverage_of(
    tests: PackageCrateMap<Vec<Test>>,
    artifacts: PackageCrateMap<Vec<Vec<u8>>>,
    base: Seq<char>,
    coverage: PackageCrateMap<Vec<TestCoverage>>,
) -> bool {
    &&& coverage_map_wf(coverage)
    &&& coverage.keys() == tests.keys()
    &&& forall|i: int|
        0 <= i < coverage.values().len() ==> crates_match(
            tests.values()[i],
            artifacts.values()[i],
            base,
            #[trigger] coverage.values()[i],
        )
}

impl Db {
    /// Both maps are well formed.
    pub open spec fn wf(&self) -> bool {
        &&& crate_maps_wf(self.package_crate_test_map)
        &&& self.path_digest_map.wf()
    }

    /// What each test of the store ran. `artifacts` holds the bytes of each
    /// test's coverage artifact, under the test's package and crate target and
    /// at the test's place. A test without artifact, an artifact without test
    /// and an artifact that cannot be read or has a flaw are failures.
    pub fn coverage_map(&self, artifacts: &PackageCrateMap<Vec<Vec<u8>>>, current_dir: &str) -> (r:
        Result<PackageCrateMap<Vec<TestCoverage>>, Failure>)
        requires
            self.wf(),
            crate_maps_wf(*artifacts),
        ensures
            r is Ok <==> store_fits(self.package_crate_test_map, *artifacts, current_dir@),
            r matches Ok(coverage) ==> is_coverage_of(
                self.package_crate_test_map,
                *artifacts,
                current_dir@,
                coverage,
            ),
            r matches Err(e) ==> e is Coverage,
    {
        read_coverage_map(&self.package_crate_test_map, artifacts, current_dir)
    }
}

/// The records of the tests of one crate target.
fn read_records(tests: &Vec<Test>, artifacts: &Vec<Vec<u8>>, current_dir: &str) -> (r: Result<
    Vec<TestCoverage>,
    Failure,
>)
    ensures
        r is Ok <==> list_fits(tests@, artifacts@, current_dir@),
        r matches Ok(records) ==> records_match(tests@, artifacts@, current_dir@, records@),
        r matches Err(e) ==> e is Coverage,
{
    if tests.len() != artifacts.len() {
        return Err(Failure::Coverage);
    }
    let mut records: Vec<TestCoverage> = Vec::new();
    let mut k: usize = 0;
    while k < tests.len()
        invariant
            tests@.len() == artifacts@.len(),
            0 <= k <= tests@.len(),
            records@.len() == k,
            forall|l: int| 0 <= l < k ==> artifact_record((#[trigger] artifacts@[l])@, current_dir@) is Some,
            forall|l: int|
                0 <= l < k ==> {
                    let record = #[trigger] records@[l];
                    &&& record.coverage.wf()
                    &&& record.test@ == tests@[l]@
                    &&& Some(coverage_of(record.coverage)) == artifact_record(
                        artifacts@[l]@,
                        current_dir@,
                    )
                },
        decreases tests@.len() - k,
    {
        let coverage = match read_lcov(&artifacts[k], current_dir) {
            Ok(coverage) => coverage,
            Err(_) => {
                assert(artifact_record(artifacts@[k as int]@, current_dir@) is None);
                return Err(Failure::Coverage);
            },
        };
        records.push(TestCoverage { test: tests[k].clone(), coverage });
        k += 1;
    }
    Ok(records)
}

/// The records of the tests of each crate target of one package.
fn read_crate_records(
    tests: &StrMap<Vec<Test>>,
    artifacts: &StrMap<Vec<Vec<u8>>>,
    current_dir: &str,
) -> (r: Result<StrMap<Vec<TestCoverage>>, Failure>)
    requires
        tests.wf(),
        artifacts.wf(),
    ensures
        r is Ok <==> crates_fit(*tests, *artifacts, current_dir@),
        r matches Ok(coverage) ==> crates_match(*tests, *artifacts, current_dir@, coverage),
        r matches Err(e) ==> e is Coverage,
{
    if tests.len() != artifacts.len() {
        return Err(Failure::Coverage);
    }
    let mut out: StrMap<Vec<TestCoverage>> = StrMap::new();
    let mut j: usize = 0;
    assert(out.keys() =~= tests.keys().take(0));
    while j < tests.len()
        invariant
            tests.wf(),
            artifacts.wf(),
            tests.keys().len() == artifacts.keys().len(),
            0 <= j <= tests.keys().len(),
            out.wf(),
            out.keys() == tests.keys().take(j as int),
            tests.keys().take(j as int) == artifacts.keys().take(j as int),
            forall|l: int|
                0 <= l < j ==> list_fits(
                    (#[trigger] tests.values()[l])@,
                    artifacts.values()[l]@,
                    current_dir@,
                ),
            forall|l: int|
                0 <= l < j ==> records_match(
                    tests.values()[l]@,
                    artifacts.values()[l]@,
                    current_dir@,
                    (#[trigger] out.values()[l])@,
                ),
        decreases tests.keys().len() - j,
    {
        if !str_eq(tests.key(j).as_str(), artifacts.key(j).as_str()) {
            assert(tests.keys()[j as int] != artifacts.keys()[j as int]);
            return Err(Failure::Coverage);
        }
        let records = match read_records(tests.value(j), artifacts.value(j), current_dir) {
            Ok(records) => records,
            Err(e) => {
                assert(!list_fits(tests.values()[j as int]@, artifacts.values()[j as int]@, current_dir@));
                return Err(e);
            },
        };
        let key = tests.key(j).clone();
        proof {
            assert forall|t: int| 0 <= t < out.keys().len() implies lex_lt(#[trigger] out.keys()[t], key@) by {
                assert(out.keys()[t] == tests.keys()[t]);
            }
            assert(tests.keys().take(j + 1) =~= tests.keys().take(j as int).push(key@));
            assert(artifacts.keys().take(j + 1) =~= artifacts.keys().take(j as int).push(key@));
        }
        out.push(key, records);
        j += 1;
    }
    proof {
        assert(tests.keys().take(tests.keys().len() as int) =~= tests.keys());
        assert(artifacts.keys().take(tests.keys().len() as int) =~= artifacts.keys());
    }
    Ok(out)
}

/// What each test of `tests` ran, as `Db::coverage_map` says.
pub fn read_coverage_map(
    tests: &PackageCrateMap<Vec<Test>>,
    artifacts: &PackageCrateMap<Vec<Vec<u8>>>,
    current_dir: &str,
) -> (r: Result<PackageCrateMap<Vec<TestCoverage>>, Failure>)
    requires
        crate_maps_wf(*tests),
        crate_maps_wf(*artifacts),
    ensures
        r is Ok <==> store_fits(*tests, *artifacts, current_dir@),
        r matches Ok(coverage) ==> is_coverage_of(*tests, *artifacts, current_dir@, coverage),
        r matches Err(e) ==> e is Coverage,
{
    if tests.len() != artifacts.len() {
        return Err(Failure::Coverage);
    }
    let mut out: PackageCrateMap<Vec<TestCoverage>> = StrMap::new();
    let mut i: usize = 0;
    assert(out.keys() =~= tests.keys().take(0));
    while i < tests.len()
        invariant
            crate_maps_wf(*tests),
            crate_maps_wf(*artifacts),
            tests.keys().len() == artifacts.keys().len(),
            0 <= i <= tests.keys().len(),
            out.wf(),
            out.keys() == tests.keys().take(i as int),
            tests.keys().take(i as int) == artifacts.keys().take(i as int),
            forall|l: int|
                0 <= l < i ==> crates_fit(
                    #[trigger] tests.values()[l],
                    artifacts.values()[l],
                    current_dir@,
                ),
            forall|l: int|
                0 <= l < i ==> crates_match(
                    tests.values()[l],
                    artifacts.values()[l],
                    current_dir@,
                    #[trigger] out.values()[l],
                ),
        decreases tests.keys().len() - i,
    {
        if !str_eq(tests.key(i).as_str(), artifacts.key(i).as_str()) {
            assert(tests.keys()[i as int] != artifacts.keys()[i as int]);
            return Err(Failure::Coverage);
        }
        let crates = match read_crate_records(tests.value(i), artifacts.value(i), current_dir) {
            Ok(crates) => crates,
            Err(e) => {
                assert(!crates_fit(tests.values()[i as int], artifacts.values()[i as int], current_dir@));
                return Err(e);
            },
        };
        let key = tests.key(i).clone();
        proof {
            assert forall|t: int| 0 <= t < out.keys().len() implies lex_lt(#[trigger] out.keys()[t], key@) by {
                assert(out.keys()[t] == tests.keys()[t]);
            }
            assert(tests.keys().take(i + 1) =~= tests.keys().take(i as int).push(key@));
            assert(artifacts.keys().take(i + 1) =~= artifacts.keys().take(i as int).push(key@));
        }
        out.push(key, crates);
        i += 1;
    }
    proof {
        assert(tests.keys().take(tests.keys().len() as int) =~= tests.keys());
        assert(artifacts.keys().take(tests.keys().len() as int) =~= artifacts.keys());
        assert forall|a: int, b: int, c: int|
            0 <= a < out.values().len() && 0 <= b < out.values()[a].values().len() && 0 <= c
                < out.values()[a].values()[b]@.len() implies (
        #[trigger] out.values()[a].values()[b]@[c]).coverage.wf() by {
            assert(crates_match(tests.values()[a], artifacts.values()[a], current_dir@, out.values()[a]));
            assert(records_match(
                tests.values()[a].values()[b]@,
                artifacts.values()[a].values()[b]@,
                current_dir@,
                out.values()[a].values()[b]@,
            ));
        }
    }
    Ok(out)
}

/// The name of the artifact of the test with the given segments: the test's
/// text and the extension.
pub open spec fn artifact_name(test: Seq<Seq<char>>) -> Seq<char> {
    crate::text::join(test, segment_separator()) + "."@ + artifact_extension()
}

/// Round trip of identities. A test whose artifact is written under its name
/// is read back off that name as the same test, if it has a segment, if its
/// segments hold no colon and if its text is not empty.
pub proof fn lemma_identity_round_trip(test: Seq<Seq<char>>)
    requires
        test.len() >= 1,
        forall|i: int, p: int| 0 <= i < test.len() && 0 <= p < test[i].len() ==> test[i][p] != ':',
        crate::text::join(test, segment_separator()).len() > 0,
    ensures
        file_stem(artifact_name(test), Some(artifact_extension())) matches Some(stem) && split_on(
            stem,
            segment_separator(),
        ) == test,
{
    reveal_strlit("::");
    reveal_strlit(".");
    reveal_strlit("..");
    reveal_strlit("lcov");
    let text = crate::text::join(test, segment_separator());
    let name = artifact_name(test);
    let dot = text.len() as int;
    assert(name.len() == text.len() + 5);
    assert(name[dot] == '.');
    lemma_last_index(name, '.');
    assert(last_index(name, '.') == dot) by {
        if last_index(name, '.') > dot {
            let p = last_index(name, '.');
            assert(name[p] == "lcov"@[p - dot - 1]);
        }
    }
    assert(name.skip(dot + 1) =~= artifact_extension());
    assert(name.take(dot) =~= text);
    crate::text::lemma_split_join(test, segment_separator());
}

/// The name of a directory reads back as it is: it names a file and has no
/// extension.
pub open spec fn plain_name(name: Seq<char>) -> bool {
    names_file(name) && extension_dot(name) < 0
}

/// The test can be read back off the name of its artifact: it has a segment,
/// its segments hold no colon, and its text is not empty.
pub open spec fn fit_test(test: Seq<Seq<char>>) -> bool {
    &&& test.len() >= 1
    &&& forall|i: int, p: int| 0 <= i < test.len() && 0 <= p < test[i].len() ==> test[i][p] != ':'
    &&& crate::text::join(test, segment_separator()).len() > 0
}

/// `files` are the artifacts of `tests`, one for each and in their order, and
/// each test can be read back.
pub open spec fn lists_tests(tests: Seq<Test>, files: Seq<String>) -> bool {
    &&& files.len() == tests.len()
    &&& forall|k: int|
        0 <= k < files.len() ==> (#[trigger] files[k])@ == artifact_name(tests[k]@) && fit_test(
            tests[k]@,
        )
}

/// `crates` are the directories of the crate targets of `tests`: each is named
/// by a key and lists the tests under that key, and every key has its
/// directory, in whatever order.
pub open spec fn lists_crates(tests: StrMap<Vec<Test>>, crates: Seq<CrateDir>) -> bool {
    &&& forall|j: int|
        0 <= j < crates.len() ==> {
            let dir = #[trigger] crates[j];
            &&& plain_name(dir.name@)
            &&& tests.has_key(dir.name@)
            &&& lists_tests(tests.value_of(dir.name@)@, dir.files@)
        }
    &&& forall|key: Seq<char>| #[trigger]
        tests.has_key(key) ==> exists|j: int| 0 <= j < crates.len() && (#[trigger] crates[j]).name@ == key
}

/// `packages` are the directories of a store that holds an artifact for each
/// test of `tests` and no other: each is named by a package and lists the
/// crate targets of that package, and every package has its directory, in
/// whatever order.
pub open spec fn lists_store(tests: PackageCrateMap<Vec<Test>>, packages: Seq<PackageDir>) -> bool {
    &&& forall|i: int|
        0 <= i < packages.len() ==> {
            let dir = #[trigger] packages[i];
            &&& plain_name(dir.name@)
            &&& tests.has_key(dir.name@)
            &&& lists_crates(tests.value_of(dir.name@), dir.crates@)
        }
    &&& forall|name: Seq<char>| #[trigger]
        tests.has_key(name) ==> exists|i: int|
            0 <= i < packages.len() && (#[trigger] packages[i]).name@ == name
}

/// The tests under the crate targets that the first `n` directories name.
pub open spec fn listed_crates(tests: StrMap<Vec<Test>>, crates: Seq<CrateDir>, n: int) -> Map<
    Seq<char>,
    Seq<Seq<Seq<char>>>,
> {
    Map::new(
        |key: Seq<char>| exists|j: int| 0 <= j < n && (#[trigger] crates[j]).name@ == key,
        |key: Seq<char>| test_views(tests.value_of(key)@),
    )
}

/// The crate targets of the packages that the first `n` directories name.
pub open spec fn listed_packages(
    tests: PackageCrateMap<Vec<Test>>,
    packages: Seq<PackageDir>,
    n: int,
) -> Map<Seq<char>, Map<Seq<char>, Seq<Seq<Seq<char>>>>> {
    Map::new(
        |name: Seq<char>| exists|i: int| 0 <= i < n && (#[trigger] packages[i]).name@ == name,
        |name: Seq<char>| crate_map_of(tests.value_of(name)),
    )
}

proof fn lemma_tests_read_back(tests: Seq<Test>, files: Seq<String>, n: int)
    requires
        lists_tests(tests, files),
        0 <= n <= files.len(),
    ensures
        crate_tests(files, n) == Some(test_views(tests).take(n)),
    decreases n,
{
    if n > 0 {
        lemma_tests_read_back(tests, files, n - 1);
        assert(fit_test(tests[n - 1]@) && files[n - 1]@ == artifact_name(tests[n - 1]@));
        lemma_identity_round_trip(tests[n - 1]@);
        assert(test_views(tests).take(n) =~= test_views(tests).take(n - 1).push(tests[n - 1]@));
    } else {
        assert(test_views(tests).take(0) =~= Seq::<Seq<Seq<char>>>::empty());
    }
}

proof fn lemma_crates_read_back(tests: StrMap<Vec<Test>>, crates: Seq<CrateDir>, n: int)
    requires
        lists_crates(tests, crates),
        0 <= n <= crates.len(),
    ensures
        package_crates_of(crates, n) == Some(listed_crates(tests, crates, n)),
    decreases n,
{
    if n > 0 {
        lemma_crates_read_back(tests, crates, n - 1);
        let dir = crates[n - 1];
        let list = tests.value_of(dir.name@)@;
        lemma_tests_read_back(list, dir.files@, dir.files@.len() as int);
        assert(test_views(list).take(dir.files@.len() as int) =~= test_views(list));
        assert(listed_crates(tests, crates, n) =~= listed_crates(tests, crates, n - 1).insert(
            dir.name@,
            test_views(list),
        ));
    } else {
        assert(listed_crates(tests, crates, 0) =~= Map::<Seq<char>, Seq<Seq<Seq<char>>>>::empty());
    }
}

proof fn lemma_packages_read_back(tests: PackageCrateMap<Vec<Test>>, packages: Seq<PackageDir>, n: int)
    requires
        lists_store(tests, packages),
        0 <= n <= packages.len(),
    ensures
        store_packages_of(packages, n) == Some(listed_packages(tests, packages, n)),
    decreases n,
{
    if n > 0 {
        lemma_packages_read_back(tests, packages, n - 1);
        let dir = packages[n - 1];
        let crates = tests.value_of(dir.name@);
        lemma_crates_read_back(crates, dir.crates@, dir.crates@.len() as int);
        assert(listed_crates(crates, dir.crates@, dir.crates@.len() as int) =~= crate_map_of(crates)) by {
            assert forall|key: Seq<char>| crates.has_key(key) implies listed_crates(
                crates,
                dir.crates@,
                dir.crates@.len() as int,
            ).dom().contains(key) by {
                let j = choose|j: int|
                    0 <= j < dir.crates@.len() && (#[trigger] dir.crates@[j]).name@ == key;
            }
        }
        assert(listed_packages(tests, packages, n) =~= listed_packages(tests, packages, n - 1).insert(
            dir.name@,
            crate_map_of(crates),
        ));
    } else {
        assert(listed_packages(tests, packages, 0) =~= Map::<
            Seq<char>,
            Map<Seq<char>, Seq<Seq<Seq<char>>>>,
        >::empty());
    }
}

/// Round trip of a store's identities. Let a store hold an artifact for each
/// test of `tests`, written under the test's package, crate target and name,
/// and no other, and let `packages` list its directories, in whatever order the
/// directories come. Then what is read off the listing is `tests` again: the
/// same packages, the same crate targets under each, and the same tests under
/// each of these. Names of packages and crate targets must be free of
/// extensions, and each test must be fit to be read back.
pub proof fn lemma_store_round_trip(tests: PackageCrateMap<Vec<Test>>, packages: Seq<PackageDir>)
    requires
        crate_maps_wf(tests),
        lists_store(tests, packages),
    ensures
        store_packages_of(packages, packages.len() as int) == Some(test_map_of(tests)),
{
    let n = packages.len() as int;
    lemma_packages_read_back(tests, packages, n);
    assert(listed_packages(tests, packages, n) =~= test_map_of(tests)) by {
        assert forall|name: Seq<char>| tests.has_key(name) implies listed_packages(
            tests,
            packages,
            n,
        ).dom().contains(name) by {
            let i = choose|i: int| 0 <= i < packages.len() && (#[trigger] packages[i]).name@ == name;
        }
    }
}

} // verus!
