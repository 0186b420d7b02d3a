//! Lines asked for by a unified diff: the lines of the old files that the
//! diff's hunks take away or replace.

use crate::failure::Failure;
use crate::lines::line_map_of;
use crate::model::{line_map_wf, PathLineMap};
use crate::range_set::{covered, lemma_covered_push, RangeSet};
use crate::str_map::StrMap;
use crate::text::{
    chars_of, digit_of, digit_value, matches_at, occurs_at, split, split_on, str_eq, strip_prefix,
    views,
};
use vstd::prelude::*;

verus! {

/// `unidiff::Error`, which is handed on unread.
#[verifier::external_type_specification]
#[verifier::external_body]
pub struct ExPatchError(unidiff::Error);

/// One file of a diff: the name of the old file as the diff gives it, and for
/// each hunk the first line of the old file that it touches and the number of
/// lines of the old file that it spans.
#[derive(Debug)]
pub struct DiffFile {
    pub source_file: String,
    pub hunks: Vec<(usize, usize)>,
}

/// One file of a diff, with its name as text.
pub struct DiffFileView {
    pub source_file: Seq<char>,
    pub hunks: Seq<(usize, usize)>,
}

impl View for DiffFile {
    type V = DiffFileView;

    open spec fn view(&self) -> DiffFileView {
        DiffFileView { source_file: self.source_file@, hunks: self.hunks@ }
    }
}

/// The files of a list, with their names as texts.
pub open spec fn file_views(files: Seq<DiffFile>) -> Seq<DiffFileView> {
    Seq::new(files.len(), |i: int| files[i]@)
}

/// The files of the unified diff `text`, if it is one.
pub uninterp spec fn unidiff_files(text: Seq<char>) -> Option<Seq<DiffFileView>>;

/// What ends a line.
pub open spec fn newline() -> Seq<char> {
    "\n"@
}

/// What a line that names a new file begins with.
pub open spec fn target_mark() -> Seq<char> {
    "+++ "@
}

/// What a line that names an old file begins with.
pub open spec fn source_mark() -> Seq<char> {
    "--- "@
}

/// What a line that heads a hunk begins with.
pub open spec fn hunk_mark() -> Seq<char> {
    "@@ -"@
}

/// The line names an old file beyond doubt: after the mark comes a character
/// that is neither a tab nor a carriage return.
pub open spec fn names_source(line: Seq<char>) -> bool {
    &&& occurs_at(line, source_mark(), 0)
    &&& line.len() > source_mark().len()
    &&& line[source_mark().len() as int] != '\t'
    &&& line[source_mark().len() as int] != '\r'
}

/// A character that may stand among the numbers of a hunk's head.
pub open spec fn in_numbers(c: char) -> bool {
    digit_value(c) >= 0 || c == ',' || c == ' ' || c == '+' || (c as u32) >= 128
}

/// The greatest number that the head of a hunk may hold: half of what a
/// `usize` holds. A position and a length then add up within a `usize`, and so
/// do a position and the lines that are counted on from it, of which a text has
/// no more than it has bytes.
pub open spec fn number_limit() -> int {
    (usize::MAX / 2) as int
}

/// The numbers of a hunk's head, scanned from place `pos` on with the digits
/// just behind worth `value`, are plain: up to the first character that cannot
/// stand among them there is no character outside ASCII, and no run of digits
/// is worth more than `number_limit`.
pub open spec fn numbers_plain(line: Seq<char>, pos: int, value: int) -> bool
    decreases line.len() - pos,
{
    if pos < 0 || pos >= line.len() || !in_numbers(line[pos]) {
        true
    } else if (line[pos] as u32) >= 128 {
        false
    } else if digit_value(line[pos]) >= 0 {
        value * 10 + digit_value(line[pos]) <= number_limit() && numbers_plain(
            line,
            pos + 1,
            value * 10 + digit_value(line[pos]),
        )
    } else {
        numbers_plain(line, pos + 1, 0)
    }
}

/// The text can be handed to the diff parser: a line that begins like the name
/// of a new file comes only after a line that names an old file, and the head
/// of every hunk has plain numbers.
pub open spec fn diff_text_safe(text: Seq<char>) -> bool {
    let lines = split_on(text, newline());
    &&& forall|i: int|
        0 <= i < lines.len() && occurs_at(#[trigger] lines[i], target_mark(), 0) ==> exists|j: int|
            0 <= j < i && names_source(#[trigger] lines[j])
    &&& forall|i: int|
        0 <= i < lines.len() && occurs_at(#[trigger] lines[i], hunk_mark(), 0) ==> numbers_plain(
            lines[i],
            hunk_mark().len() as int,
            0,
        )
}

/// `unidiff::PatchSet::parse` on a new patch set, and of each file that it
/// finds the old file's name and the old-file position and length of each hunk.
/// The parser unwraps the old file's name when it meets a new file's. It
/// unwraps the numbers of a hunk's head as `usize`, which it finds as runs of
/// digits of any script, adds a position and a length, and counts lines on from
/// a position. The text must be safe in the sense above, which rules out that
/// any of these fails.
#[verifier::external_body]
fn parse_patch(text: &str) -> (r: Result<Vec<DiffFile>, unidiff::Error>)
    requires
        diff_text_safe(text@),
    ensures
        r is Ok <==> unidiff_files(text@) is Some,
        r matches Ok(files) ==> Some(file_views(files@)) == unidiff_files(text@),
{
    let mut patch = unidiff::PatchSet::new();
    patch.parse(text)?;
    Ok(
        patch.files().iter().map(
            |file| DiffFile {
                source_file: file.source_file.clone(),
                hunks: file.hunks().iter().map(|hunk| (hunk.source_start, hunk.source_length)).collect(),
            },
        ).collect(),
    )
}

/// Whether the numbers of a hunk's head are plain, as `numbers_plain` says.
fn check_numbers(line: &Vec<char>, from: usize) -> (r: bool)
    requires
        from <= line@.len(),
    ensures
        r == numbers_plain(line@, from as int, 0),
{
    let limit: usize = usize::MAX / 2;
    let mut pos: usize = from;
    let mut value: usize = 0;
    while pos < line.len()
        invariant
            from <= pos <= line@.len(),
            limit == usize::MAX / 2,
            0 <= value <= limit,
            numbers_plain(line@, from as int, 0) == numbers_plain(line@, pos as int, value as int),
        decreases line@.len() - pos,
    {
        let c = line[pos];
        let digit = digit_of(c);
        let outside = (c as u32) >= 128;
        if !(digit.is_some() || c == ',' || c == ' ' || c == '+' || outside) {
            return true;
        }
        if outside {
            return false;
        }
        match digit {
            Some(d) => {
                let d = d as usize;
                if value > (limit - d) / 10 {
                    return false;
                }
                value = value * 10 + d;
            },
            None => {
                value = 0;
            },
        }
        pos += 1;
    }
    true
}

/// Whether the line names an old file beyond doubt.
fn check_names_source(line: &Vec<char>, mark: &Vec<char>) -> (r: bool)
    requires
        mark@ == source_mark(),
    ensures
        r == names_source(line@),
{
    matches_at(line, mark, 0) && line.len() > mark.len() && line[mark.len()] != '\t' && line[mark.len()]
        != '\r'
}

/// Whether the text can be handed to the diff parser.
pub fn is_diff_text_safe(text: &str) -> (r: bool)
    ensures
        r == diff_text_safe(text@),
{
    let lines = split(text, "\n");
    let target = chars_of("+++ ");
    let source = chars_of("--- ");
    let hunk = chars_of("@@ -");
    let ghost texts = split_on(text@, newline());
    let mut source_seen = false;
    let mut i: usize = 0;
    while i < lines.len()
        invariant
            texts == views(lines@),
            texts == split_on(text@, newline()),
            target@ == target_mark(),
            source@ == source_mark(),
            hunk@ == hunk_mark(),
            0 <= i <= lines@.len(),
            source_seen == exists|j: int| 0 <= j < i && names_source(#[trigger] texts[j]),
            forall|k: int|
                0 <= k < i && occurs_at(#[trigger] texts[k], target_mark(), 0) ==> exists|j: int|
                    0 <= j < k && names_source(#[trigger] texts[j]),
            forall|k: int|
                0 <= k < i && occurs_at(#[trigger] texts[k], hunk_mark(), 0) ==> numbers_plain(
                    texts[k],
                    hunk_mark().len() as int,
                    0,
                ),
        decreases lines@.len() - i,
    {
        let line = chars_of(lines[i].as_str());
        assert(line@ == texts[i as int]);
        if matches_at(&line, &target, 0) && !source_seen {
            return false;
        }
        if matches_at(&line, &hunk, 0) {
            if !check_numbers(&line, hunk.len()) {
                return false;
            }
        }
        let names = check_names_source(&line, &source);
        proof {
            if source_seen {
                let j = choose|j: int| 0 <= j < i && names_source(#[trigger] texts[j]);
                assert(0 <= j < i + 1 && names_source(texts[j]));
            }
            if names {
                assert(0 <= i < i + 1 && names_source(texts[i as int]));
            }
            if !source_seen && !names {
                if exists|j: int| 0 <= j < i + 1 && names_source(#[trigger] texts[j]) {
                    let j = choose|j: int| 0 <= j < i + 1 && names_source(#[trigger] texts[j]);
                    assert(j < i);
                }
            }
        }
        if names {
            source_seen = true;
        }
        i += 1;
    }
    true
}

/// The name that a diff gives to the old file where there was none.
pub open spec fn no_file() -> Seq<char> {
    "/dev/null"@
}

/// What the name of an old file begins with.
pub open spec fn source_prefix() -> Seq<char> {
    "a/"@
}

/// The ranges of lines of the old file that the first `n` hunks ask for. A hunk
/// that spans no line of the old file asks for nothing; any other asks for the
/// lines it spans. Line numbers that do not fit a `u32` spoil the whole.
pub open spec fn hunk_ranges(hunks: Seq<(usize, usize)>, n: int) -> Option<Seq<(int, int)>>
    decreases n,
{
    if n <= 0 {
        Some(Seq::empty())
    } else {
        match hunk_ranges(hunks, n - 1) {
            None => None,
            Some(ranges) => if hunks[n - 1].1 == 0 {
                Some(ranges)
            } else if hunks[n - 1].0 + hunks[n - 1].1 <= u32::MAX {
                Some(ranges.push((hunks[n - 1].0 as int, hunks[n - 1].0 + hunks[n - 1].1)))
            } else {
                None
            },
        }
    }
}

/// What the first `n` files of a diff ask for, by path. The file `/dev/null`
/// asks for nothing. The name of any other old file has to begin with `a/`,
/// and the path is what follows; under it the lines of all its hunks are asked
/// for, together with those that earlier files of the same path asked for.
pub open spec fn diff_lines(files: Seq<DiffFileView>, n: int) -> Option<Map<Seq<char>, Set<int>>>
    decreases n,
{
    if n <= 0 {
        Some(Map::empty())
    } else {
        match diff_lines(files, n - 1) {
            None => None,
            Some(asked) => {
                let file = files[n - 1];
                if file.source_file == no_file() {
                    Some(asked)
                } else if !occurs_at(file.source_file, source_prefix(), 0) {
                    None
                } else {
                    let path = file.source_file.skip(source_prefix().len() as int);
                    let before = if asked.dom().contains(path) {
                        asked[path]
                    } else {
                        Set::empty()
                    };
                    match hunk_ranges(file.hunks, file.hunks.len() as int) {
                        None => None,
                        Some(ranges) => Some(asked.insert(path, before.union(covered(ranges)))),
                    }
                }
            },
        }
    }
}

/// Once a file is unfit, no longer run of files asks for anything.
proof fn lemma_diff_lines_fail(files: Seq<DiffFileView>, bad: int, n: int)
    requires
        0 <= bad <= n,
        diff_lines(files, bad) is None,
    ensures
        diff_lines(files, n) is None,
    decreases n,
{
    if bad < n {
        lemma_diff_lines_fail(files, bad, n - 1);
    }
}

/// Once a hunk is unfit, no longer run of hunks gives ranges.
proof fn lemma_hunk_ranges_fail(hunks: Seq<(usize, usize)>, bad: int, n: int)
    requires
        0 <= bad <= n,
        hunk_ranges(hunks, bad) is None,
    ensures
        hunk_ranges(hunks, n) is None,
    decreases n,
{
    if bad < n {
        lemma_hunk_ranges_fail(hunks, bad, n - 1);
    }
}

/// The lines that the files of a diff ask for, as `diff_lines` says.
pub fn path_lines_from_diff(files: &Vec<DiffFile>) -> (r: Result<PathLineMap, Failure>)
    ensures
        diff_lines(file_views(files@), files@.len() as int) matches Some(asked) ==> (r matches Ok(map)
            && line_map_wf(map) && line_map_of(map) == asked),
        diff_lines(file_views(files@), files@.len() as int) is None ==> r matches Err(Failure::Diff),
{
    let mut map: PathLineMap = StrMap::new();
    let mut i: usize = 0;
    assert(line_map_of(map) =~= Map::<Seq<char>, Set<int>>::empty());
    while i < files.len()
        invariant
            0 <= i <= files@.len(),
            line_map_wf(map),
            diff_lines(file_views(files@), i as int) == Some(line_map_of(map)),
        decreases files@.len() - i,
    {
        let file = &files[i];
        proof {
            if diff_lines(file_views(files@), i + 1) is None {
                lemma_diff_lines_fail(file_views(files@), i + 1, files@.len() as int);
            }
        }
        if !str_eq(file.source_file.as_str(), "/dev/null") {
            let path = match strip_prefix(file.source_file.as_str(), "a/") {
                Some(path) => path,
                None => {
                    return Err(Failure::Diff);
                },
            };
            let ghost asked = line_map_of(map);
            let mut line_set = match map.get(path.as_str()) {
                Some(set) => {
                    proof {
                        map.lemma_place_of(path@);
                    }
                    set.clone()
                },
                None => RangeSet::new(),
            };
            let ghost before = line_set@;
            assert(before == if asked.dom().contains(path@) {
                asked[path@]
            } else {
                Set::<int>::empty()
            });
            let ghost mut ranges: Seq<(int, int)> = Seq::empty();
            let mut h: usize = 0;
            assert(line_set@ =~= before.union(covered(ranges)));
            assert(file_views(files@)[i as int] == file@);
            assert(hunk_ranges(file.hunks@, file.hunks@.len() as int) is None ==> diff_lines(
                file_views(files@),
                files@.len() as int,
            ) is None);
            while h < file.hunks.len()
                invariant
                    0 <= h <= file.hunks@.len(),
                    line_set.wf(),
                    hunk_ranges(file.hunks@, file.hunks@.len() as int) is None ==> diff_lines(
                        file_views(files@),
                        files@.len() as int,
                    ) is None,
                    hunk_ranges(file.hunks@, h as int) == Some(ranges),
                    line_set@ == before.union(covered(ranges)),
                decreases file.hunks@.len() - h,
            {
                let (start, length) = file.hunks[h];
                proof {
                    if hunk_ranges(file.hunks@, h + 1) is None {
                        lemma_hunk_ranges_fail(file.hunks@, h + 1, file.hunks@.len() as int);
                    }
                }
                if length != 0 {
                    let end = match start.checked_add(length) {
                        Some(end) => end,
                        None => {
                            return Err(Failure::Diff);
                        },
                    };
                    if end > u32::MAX as usize {
                        return Err(Failure::Diff);
                    }
                    proof {
                        lemma_covered_push(ranges, (start as int, end as int));
                        assert(before.union(covered(ranges)).union(
                            crate::range_set::span_set(start as int, end as int),
                        ) =~= before.union(covered(ranges.push((start as int, end as int)))));
                        ranges = ranges.push((start as int, end as int));
                    }
                    line_set.insert_range(start as u32..end as u32);
                }
                h += 1;
            }
            let ghost old_map = map;
            map.insert(path, line_set);
            proof {
                assert forall|q: int| 0 <= q < map.values().len() implies (#[trigger] map.values()[q]).wf() by {
                    if map.values()[q] != line_set {
                        let w = choose|w: int|
                            0 <= w < old_map.values().len() && old_map.values()[w] == map.values()[q];
                        assert(old_map.values()[w].wf());
                    }
                }
                assert(line_map_of(map) =~= asked.insert(path@, before.union(covered(ranges))));
            }
        }
        i += 1;
    }
    Ok(map)
}

/// The lines that a unified diff asks for. A text that is unsafe to parse, or
/// that the parser refuses, is a failure, and so is a diff whose files are
/// unfit.
pub fn read_diff(text: &str) -> (r: Result<PathLineMap, Failure>)
    ensures
        !diff_text_safe(text@) || unidiff_files(text@) is None ==> r matches Err(Failure::Diff),
        diff_text_safe(text@) ==> (unidiff_files(text@) matches Some(files) ==> match diff_lines(
            files,
            files.len() as int,
        ) {
            Some(asked) => r matches Ok(map) && line_map_wf(map) && line_map_of(map) == asked,
            None => r matches Err(Failure::Diff),
        }),
{
    if !is_diff_text_safe(text) {
        return Err(Failure::Diff);
    }
    match parse_patch(text) {
        Err(_) => Err(Failure::Diff),
        Ok(files) => path_lines_from_diff(&files),
    }
}

} // verus!
