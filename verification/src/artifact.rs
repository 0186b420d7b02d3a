//! Coverage artifacts: the record stream that a test's run under coverage
//! leaves, and what it says the test ran.

use crate::failure::Failure;
use crate::model::PathCoverageMap;
use crate::str_map::StrMap;
use vstd::prelude::*;

verus! {

/// `lcov::reader::Error`, which is handed on unread.
#[verifier::external_type_specification]
#[verifier::external_body]
pub struct ExReadError(lcov::reader::Error);

/// One record of a coverage artifact, as far as the library reads it.
#[derive(Debug)]
pub enum Entry {
    /// Opens the section of a source file.
    SourceFile { path: String },
    /// A line of the open file and how often it ran.
    LineData { line: u32, count: u64 },
    /// Closes the open section.
    EndOfRecord,
    /// A record of any other kind.
    Other,
}

/// A record, with its path as text.
pub enum EntryView {
    SourceFile { path: Seq<char> },
    LineData { line: u32, count: u64 },
    EndOfRecord,
    Other,
}

impl View for Entry {
    type V = EntryView;

    open spec fn view(&self) -> EntryView {
        match self {
            Entry::SourceFile { path } => EntryView::SourceFile { path: path@ },
            Entry::LineData { line, count } => EntryView::LineData { line: *line, count: *count },
            Entry::EndOfRecord => EntryView::EndOfRecord,
            Entry::Other => EntryView::Other,
        }
    }
}

/// The records of a list, with their paths as texts.
pub open spec fn record_views(entries: Seq<Entry>) -> Seq<EntryView> {
    Seq::new(entries.len(), |i: int| entries[i]@)
}

/// The records of the artifact `bytes`, if every line of it is a record.
pub uninterp spec fn lcov_entries(bytes: Seq<u8>) -> Option<Seq<EntryView>>;

/// How many of the first `n` bytes end a line.
pub open spec fn line_ends(bytes: Seq<u8>, n: int) -> int
    decreases n,
{
    if n <= 0 {
        0
    } else {
        line_ends(bytes, n - 1) + if bytes[n - 1] == 10u8 {
            1int
        } else {
            0int
        }
    }
}

/// The lines of the artifact can be counted in a `u32`, as its reader does.
pub open spec fn countable(bytes: Seq<u8>) -> bool {
    line_ends(bytes, bytes.len() as int) < u32::MAX
}

/// `path` without the directory `base` in front of it, if `path` lies under
/// `base`. Paths are compared component by component, as std parts them on
/// Unix.
pub uninterp spec fn relative_to(path: Seq<char>, base: Seq<char>) -> Option<Seq<char>>;

/// `lcov::Reader` over the bytes, read to the end: every line parsed as one
/// record, or the first failure. The reader counts the lines that it reads in
/// a `u32`, and there is at most one line more than there are ends of lines.
#[verifier::external_body]
fn read_entries(bytes: &[u8]) -> (r: Result<Vec<Entry>, lcov::reader::Error>)
    requires
        countable(bytes@),
    ensures
        r is Ok <==> lcov_entries(bytes@) is Some,
        r matches Ok(entries) ==> Some(record_views(entries@)) == lcov_entries(bytes@),
{
    lcov::Reader::new(bytes).map(
        |result| result.map(
            |record| match record {
                lcov::Record::SourceFile { path } => Entry::SourceFile { path: path.to_string_lossy().into_owned() },
                lcov::Record::LineData { line, count, .. } => Entry::LineData { line, count },
                lcov::Record::EndOfRecord => Entry::EndOfRecord,
                _ => Entry::Other,
            },
        ),
    ).collect()
}

/// std's `Path::strip_prefix`, on paths given as text.
#[verifier::external_body]
fn strip_base(path: &str, base: &str) -> (r: Option<String>)
    ensures
        r is Some <==> relative_to(path@, base@) is Some,
        r matches Some(rest) ==> Some(rest@) == relative_to(path@, base@),
{
    std::path::Path::new(path).strip_prefix(base).ok().and_then(|p| p.to_str()).map(|s| s.to_owned())
}

/// How far a record stream has been read: the sections that are closed, the
/// file whose section is open, and the lines of it that ran.
pub struct Scan {
    pub closed: Map<Seq<char>, Seq<u32>>,
    pub open: Option<Seq<char>>,
    pub lines: Seq<u32>,
}

/// What makes a record stream unfit.
pub enum Flaw {
    /// A source file is named while a section is open, or for the second time.
    Repeated,
    /// A line, or the end of a section, where no section is open.
    Missing,
    /// A source file that does not lie under the working directory.
    Outside,
}

/// The state before any record.
pub open spec fn scan_start() -> Scan {
    Scan { closed: Map::empty(), open: None, lines: Seq::empty() }
}

/// The state after `entry`. A source file named while a section is open is a
/// flaw, wherever the file lies. Else it opens a section under its path
/// relative to `base`, unless it lies outside `base` or has a closed section
/// already. A line with a count other than zero joins the lines of the open
/// section. The end of a section closes it. Other records change nothing.
pub open spec fn scan_step(scan: Scan, entry: EntryView, base: Seq<char>) -> Result<Scan, Flaw> {
    match entry {
        EntryView::SourceFile { path } => if scan.open is Some {
            Err(Flaw::Repeated)
        } else {
            match relative_to(path, base) {
                None => Err(Flaw::Outside),
                Some(relative) => if scan.closed.dom().contains(relative) {
                    Err(Flaw::Repeated)
                } else {
                    Ok(Scan { closed: scan.closed, open: Some(relative), lines: Seq::empty() })
                },
            }
        },
        EntryView::LineData { line, count } => if scan.open is None {
            Err(Flaw::Missing)
        } else if count != 0 {
            Ok(Scan { closed: scan.closed, open: scan.open, lines: scan.lines.push(line) })
        } else {
            Ok(scan)
        },
        EntryView::EndOfRecord => match scan.open {
            None => Err(Flaw::Missing),
            Some(path) => Ok(
                Scan { closed: scan.closed.insert(path, scan.lines), open: None, lines: Seq::empty() },
            ),
        },
        EntryView::Other => Ok(scan),
    }
}

/// The state after the first `n` records, or the flaw of the first record that
/// has one.
pub open spec fn scan(entries: Seq<EntryView>, base: Seq<char>, n: int) -> Result<Scan, Flaw>
    decreases n,
{
    if n <= 0 {
        Ok(scan_start())
    } else {
        match scan(entries, base, n - 1) {
            Err(flaw) => Err(flaw),
            Ok(before) => scan_step(before, entries[n - 1], base),
        }
    }
}

/// The lines of each file of a coverage record, by path.
pub open spec fn coverage_of(map: PathCoverageMap) -> Map<Seq<char>, Seq<u32>> {
    Map::new(|k: Seq<char>| map.has_key(k), |k: Seq<char>| map.value_of(k)@)
}

/// The failure that a flaw is reported as.
pub open spec fn reports(failure: Failure, flaw: Flaw) -> bool {
    match flaw {
        Flaw::Repeated => failure is SourceFileRepeated,
        Flaw::Missing => failure is SourceFileMissing,
        Flaw::Outside => failure is OutsideWorkingDirectory,
    }
}

/// A flaw stays: no longer run of records is without it.
proof fn lemma_scan_fail(entries: Seq<EntryView>, base: Seq<char>, bad: int, n: int)
    requires
        0 <= bad <= n,
        scan(entries, base, bad) is Err,
    ensures
        scan(entries, base, n) == scan(entries, base, bad),
    decreases n,
{
    if bad < n {
        lemma_scan_fail(entries, base, bad, n - 1);
    }
}

/// What the records say the test ran: for each source file, by its path
/// relative to `current_dir`, the lines with a count other than zero. The
/// sections that are closed count; one left open at the end does not. A flaw in
/// the stream is a failure.
pub fn coverage_from_entries(entries: &Vec<Entry>, current_dir: &str) -> (r: Result<
    PathCoverageMap,
    Failure,
>)
    ensures
        scan(record_views(entries@), current_dir@, entries@.len() as int) matches Ok(end) ==> (r matches Ok(map)
            && map.wf() && coverage_of(map) == end.closed),
        scan(record_views(entries@), current_dir@, entries@.len() as int) matches Err(flaw) ==> (r matches Err(e)
            && reports(e, flaw)),
{
    let mut map: PathCoverageMap = StrMap::new();
    let mut source_file: Option<String> = None;
    let mut coverage: Vec<u32> = Vec::new();
    let mut i: usize = 0;
    assert(coverage_of(map) =~= Map::<Seq<char>, Seq<u32>>::empty());
    while i < entries.len()
        invariant
            0 <= i <= entries@.len(),
            map.wf(),
            scan(record_views(entries@), current_dir@, i as int) matches Ok(now) && now.closed == coverage_of(map)
                && now.lines == coverage@ && match source_file {
                Some(path) => now.open == Some(path@),
                None => now.open is None,
            },
        decreases entries@.len() - i,
    {
        let ghost now = scan(record_views(entries@), current_dir@, i as int)->Ok_0;
        let ghost next = scan_step(now, record_views(entries@)[i as int], current_dir@);
        assert(scan(record_views(entries@), current_dir@, i + 1) == next);
        proof {
            if next is Err {
                lemma_scan_fail(record_views(entries@), current_dir@, i + 1, entries@.len() as int);
            }
        }
        match &entries[i] {
            Entry::SourceFile { path } => {
                if let Some(open) = source_file {
                    return Err(Failure::SourceFileRepeated(open));
                }
                let relative = match strip_base(path.as_str(), current_dir) {
                    Some(relative) => relative,
                    None => {
                        return Err(Failure::OutsideWorkingDirectory(path.clone()));
                    },
                };
                if map.contains_key(relative.as_str()) {
                    return Err(Failure::SourceFileRepeated(relative));
                }
                source_file = Some(relative);
                coverage = Vec::new();
            },
            Entry::LineData { line, count } => {
                if source_file.is_none() {
                    return Err(Failure::SourceFileMissing);
                }
                if *count != 0 {
                    coverage.push(*line);
                }
            },
            Entry::EndOfRecord => {
                let path = match source_file {
                    Some(path) => path,
                    None => {
                        return Err(Failure::SourceFileMissing);
                    },
                };
                let ghost before = coverage_of(map);
                let ghost lines = coverage@;
                map.insert(path, coverage);
                assert(coverage_of(map) =~= before.insert(path@, lines));
                source_file = None;
                coverage = Vec::new();
            },
            Entry::Other => {},
        }
        i += 1;
    }
    Ok(map)
}

/// Whether the lines of the artifact can be counted in a `u32`.
pub fn is_countable(bytes: &Vec<u8>) -> (r: bool)
    ensures
        r == countable(bytes@),
{
    let mut ends: usize = 0;
    let mut i: usize = 0;
    while i < bytes.len()
        invariant
            0 <= i <= bytes@.len(),
            ends as int == line_ends(bytes@, i as int),
            ends <= i,
        decreases bytes@.len() - i,
    {
        if bytes[i] == 10u8 {
            ends += 1;
        }
        i += 1;
    }
    ends < u32::MAX as usize
}

/// Reads a coverage artifact: what `coverage_from_entries` makes of its
/// records. An artifact that is no record stream, or that has more lines than
/// its reader can count, is a failure.
pub fn read_lcov(bytes: &Vec<u8>, current_dir: &str) -> (r: Result<PathCoverageMap, Failure>)
    ensures
        !countable(bytes@) || lcov_entries(bytes@) is None ==> r matches Err(Failure::Coverage),
        countable(bytes@) ==> (lcov_entries(bytes@) matches Some(entries) ==> match scan(
            entries,
            current_dir@,
            entries.len() as int,
        ) {
            Ok(end) => r matches Ok(map) && map.wf() && coverage_of(map) == end.closed,
            Err(flaw) => r matches Err(e) && reports(e, flaw),
        }),
{
    if !is_countable(bytes) {
        return Err(Failure::Coverage);
    }
    match read_entries(bytes.as_slice()) {
        Err(_) => Err(Failure::Coverage),
        Ok(entries) => coverage_from_entries(&entries, current_dir),
    }
}

/// The paths, relative to `base`, of the source files that the first `n`
/// records name, if each lies under `base`.
pub open spec fn source_paths(entries: Seq<EntryView>, base: Seq<char>, n: int) -> Option<Set<Seq<char>>>
    decreases n,
{
    if n <= 0 {
        Some(Set::empty())
    } else {
        match source_paths(entries, base, n - 1) {
            None => None,
            Some(paths) => match entries[n - 1] {
                EntryView::SourceFile { path } => match relative_to(path, base) {
                    None => None,
                    Some(relative) => Some(paths.insert(relative)),
                },
                _ => Some(paths),
            },
        }
    }
}

/// Once a source file lies outside, no longer run of records gives paths.
proof fn lemma_source_paths_fail(entries: Seq<EntryView>, base: Seq<char>, bad: int, n: int)
    requires
        0 <= bad <= n,
        source_paths(entries, base, bad) is None,
    ensures
        source_paths(entries, base, n) is None,
    decreases n,
{
    if bad < n {
        lemma_source_paths_fail(entries, base, bad, n - 1);
    }
}

/// Adds to `paths` the path, relative to `current_dir`, of every source file
/// that the records name. A source file that does not lie under `current_dir`
/// is a failure.
pub fn ingest_lcov_paths(paths: &mut StrMap<()>, entries: &Vec<Entry>, current_dir: &str) -> (r:
    Result<(), Failure>)
    requires
        old(paths).wf(),
    ensures
        final(paths).wf(),
        source_paths(record_views(entries@), current_dir@, entries@.len() as int) matches Some(found) ==> (r is Ok
            && forall|k: Seq<char>| #[trigger]
            final(paths).has_key(k) == (old(paths).has_key(k) || found.contains(k))),
        source_paths(record_views(entries@), current_dir@, entries@.len() as int) is None ==> r matches Err(
            Failure::OutsideWorkingDirectory(_),
        ),
{
    let ghost start = *paths;
    let mut i: usize = 0;
    while i < entries.len()
        invariant
            0 <= i <= entries@.len(),
            paths.wf(),
            source_paths(record_views(entries@), current_dir@, i as int) matches Some(found) && forall|
                k: Seq<char>,
            | #[trigger] paths.has_key(k) == (start.has_key(k) || found.contains(k)),
        decreases entries@.len() - i,
    {
        match &entries[i] {
            Entry::SourceFile { path } => {
                match strip_base(path.as_str(), current_dir) {
                    None => {
                        proof {
                            lemma_source_paths_fail(
                                record_views(entries@),
                                current_dir@,
                                i + 1,
                                entries@.len() as int,
                            );
                        }
                        return Err(Failure::OutsideWorkingDirectory(path.clone()));
                    },
                    Some(relative) => {
                        paths.insert(relative, ());
                    },
                }
            },
            _ => {},
        }
        i += 1;
    }
    Ok(())
}

/// The paths of the source files that the first `n` artifacts name, if each
/// artifact can be read and each source file lies under `base`.
pub open spec fn all_source_paths(artifacts: Seq<Vec<u8>>, base: Seq<char>, n: int) -> Option<
    Set<Seq<char>>,
>
    decreases n,
{
    if n <= 0 {
        Some(Set::empty())
    } else {
        match all_source_paths(artifacts, base, n - 1) {
            None => None,
            Some(paths) => if !countable(artifacts[n - 1]@) {
                None
            } else {
                match lcov_entries(artifacts[n - 1]@) {
                    None => None,
                    Some(entries) => match source_paths(entries, base, entries.len() as int) {
                        None => None,
                        Some(found) => Some(paths.union(found)),
                    },
                }
            },
        }
    }
}

/// Once an artifact is unfit, no longer run of artifacts gives paths.
proof fn lemma_all_source_paths_fail(artifacts: Seq<Vec<u8>>, base: Seq<char>, bad: int, n: int)
    requires
        0 <= bad <= n,
        all_source_paths(artifacts, base, bad) is None,
    ensures
        all_source_paths(artifacts, base, n) is None,
    decreases n,
{
    if bad < n {
        lemma_all_source_paths_fail(artifacts, base, bad, n - 1);
    }
}

/// The paths of all source files that the artifacts name, each once, in
/// ascending order. These are the files whose digests the store keeps.
pub fn collect_paths(artifacts: &Vec<Vec<u8>>, current_dir: &str) -> (r: Result<Vec<String>, Failure>)
    ensures
        all_source_paths(artifacts@, current_dir@, artifacts@.len() as int) matches Some(found) ==> (
        r matches Ok(paths) && crate::str_map::ascending(crate::text::views(paths@)) && forall|
            k: Seq<char>,
        | #[trigger] crate::text::views(paths@).contains(k) == found.contains(k)),
        all_source_paths(artifacts@, current_dir@, artifacts@.len() as int) is None ==> (r matches Err(
            e,
        ) && (e is Coverage || e is OutsideWorkingDirectory)),
{
    let mut paths: StrMap<()> = StrMap::new();
    let mut i: usize = 0;
    while i < artifacts.len()
        invariant
            0 <= i <= artifacts@.len(),
            paths.wf(),
            all_source_paths(artifacts@, current_dir@, i as int) matches Some(found) && forall|
                k: Seq<char>,
            | #[trigger] paths.has_key(k) == found.contains(k),
        decreases artifacts@.len() - i,
    {
        let bytes = &artifacts[i];
        proof {
            if all_source_paths(artifacts@, current_dir@, i + 1) is None {
                lemma_all_source_paths_fail(artifacts@, current_dir@, i + 1, artifacts@.len() as int);
            }
        }
        if !is_countable(bytes) {
            return Err(Failure::Coverage);
        }
        let entries = match read_entries(bytes.as_slice()) {
            Ok(entries) => entries,
            Err(_) => {
                return Err(Failure::Coverage);
            },
        };
        match ingest_lcov_paths(&mut paths, &entries, current_dir) {
            Ok(()) => {},
            Err(e) => {
                return Err(e);
            },
        }
        i += 1;
    }
    let ghost set = paths;
    let list = paths.into_keys();
    proof {
        let found = all_source_paths(artifacts@, current_dir@, artifacts@.len() as int)->Some_0;
        assert forall|k: Seq<char>| #[trigger]
            crate::text::views(list@).contains(k) == found.contains(k) by {
            assert(set.has_key(k) == found.contains(k));
        }
    }
    Ok(list)
}

} // verus!
