//! The data that the store holds: test identities, coverage records and
//! digests.

use crate::range_set::RangeSet;
use crate::str_map::StrMap;
use crate::text::{join, join_texts, lemma_views_push, split, split_on, str_eq, views};
use vstd::prelude::*;

verus! {

/// The text between the segments of a test's name.
pub open spec fn segment_separator() -> Seq<char> {
    "::"@
}

/// The identity of a test: the segments of its module path and its name.
#[derive(Debug, PartialEq, Eq, PartialOrd, Ord)]
pub struct Test(pub Vec<String>);

impl View for Test {
    type V = Seq<Seq<char>>;

    /// The segments as texts.
    open spec fn view(&self) -> Seq<Seq<char>> {
        views(self.0@)
    }
}

impl Test {
    /// The test that `text` names: its segments are the pieces of `text`
    /// between the separators `::`.
    pub fn parse(text: &str) -> (r: Test)
        ensures
            r@ == split_on(text@, segment_separator()),
    {
        Test(split(text, "::"))
    }

    /// The canonical text of the identity: the segments joined by `::`.
    pub fn to_string(&self) -> (r: String)
        ensures
            r@ == join(self@, segment_separator()),
    {
        join_texts(&self.0, "::")
    }

    /// Moves the identity out and leaves one without segments behind.
    pub fn take(&mut self) -> (r: Test)
        ensures
            r@ == old(self)@,
            final(self)@ == Seq::<Seq<char>>::empty(),
    {
        let mut segments: Vec<String> = Vec::new();
        std::mem::swap(&mut segments, &mut self.0);
        assert(views(self.0@) =~= Seq::<Seq<char>>::empty());
        Test(segments)
    }

    /// Whether two identities have the same segments.
    pub fn same(&self, other: &Test) -> (r: bool)
        ensures
            r == (self@ == other@),
    {
        if self.0.len() != other.0.len() {
            assert(self@.len() != other@.len());
            return false;
        }
        let mut i: usize = 0;
        while i < self.0.len()
            invariant
                0 <= i <= self.0@.len(),
                self.0@.len() == other.0@.len(),
                forall|j: int| 0 <= j < i ==> (#[trigger] self.0@[j])@ == other.0@[j]@,
            decreases self.0@.len() - i,
        {
            if !str_eq(self.0[i].as_str(), other.0[i].as_str()) {
                assert(self@[i as int] != other@[i as int]);
                return false;
            }
            i += 1;
        }
        assert(self@ =~= other@);
        true
    }
}

impl Clone for Test {
    /// A copy with the same segments.
    fn clone(&self) -> (r: Test)
        ensures
            r@ == self@,
    {
        let mut segments: Vec<String> = Vec::new();
        let mut i: usize = 0;
        assert(views(segments@) =~= self@.take(0));
        while i < self.0.len()
            invariant
                0 <= i <= self.0@.len(),
                views(segments@) == self@.take(i as int),
            decreases self.0@.len() - i,
        {
            let s = self.0[i].clone();
            proof {
                lemma_views_push(segments@, s);
                assert(self@.take(i + 1) =~= self@.take(i as int).push(s@));
            }
            segments.push(s);
            i += 1;
        }
        assert(self@.take(self.0@.len() as int) =~= self@);
        Test(segments)
    }
}

/// The texts of a list of test identities.
pub open spec fn test_views(tests: Seq<Test>) -> Seq<Seq<Seq<char>>> {
    Seq::new(tests.len(), |i: int| tests[i]@)
}

/// The lines of each file that one test ran, by the file's path.
pub type PathCoverageMap = StrMap<Vec<u32>>;

/// The lines asked for, by the file's path.
pub type PathLineMap = StrMap<RangeSet<u32>>;

/// The digest of each file's contents, by the file's path.
pub type PathDigestMap = StrMap<[u8; 32]>;

/// A value for each crate target of a package, by the target's key.
pub type CrateMap<T> = StrMap<T>;

/// A value for each crate target of each package, by the package's name and
/// then by the target's key.
pub type PackageCrateMap<T> = StrMap<StrMap<T>>;

/// What one test ran.
#[derive(Debug)]
pub struct TestCoverage {
    pub test: Test,
    pub coverage: PathCoverageMap,
}

/// The map and the map of each package are well formed.
pub open spec fn crate_maps_wf<T>(map: PackageCrateMap<T>) -> bool {
    &&& map.wf()
    &&& forall|i: int| 0 <= i < map.values().len() ==> (#[trigger] map.values()[i]).wf()
}

/// The map and each set of lines in it are well formed.
pub open spec fn line_map_wf(map: PathLineMap) -> bool {
    &&& map.wf()
    &&& forall|i: int| 0 <= i < map.values().len() ==> (#[trigger] map.values()[i]).wf()
}

/// The map, the map of each package and the record of each test are well
/// formed.
pub open spec fn coverage_map_wf(map: PackageCrateMap<Vec<TestCoverage>>) -> bool {
    &&& crate_maps_wf(map)
    &&& forall|i: int, j: int, k: int|
        0 <= i < map.values().len() && 0 <= j < map.values()[i].values().len() && 0 <= k
            < map.values()[i].values()[j]@.len() ==> (#[trigger] map.values()[i].values()[j]@[k]).coverage.wf()
}

} // verus!
