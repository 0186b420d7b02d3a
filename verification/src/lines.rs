//! Line specifications: the lines that tests are asked for, by path.
//!
//! A specification has the form `path:group[,group...]`, where a group is one
//! line number or two line numbers with a hyphen between them.

use crate::failure::Failure;
use crate::model::{line_map_wf, PathLineMap};
use crate::range_set::{covered, lemma_covered_push, RangeSet};
use crate::str_map::StrMap;
use crate::text::{
    chars_of, find_first, find_last, first_index, last_index, lemma_last_index, parse_u32,
    parse_u32_spec, split, split_on, str_eq, text_of, views,
};
use vstd::prelude::*;

verus! {

/// The text that parts the groups of a specification.
pub open spec fn group_separator() -> Seq<char> {
    ","@
}

/// The text that stands for "read specifications from standard input".
pub open spec fn dash() -> Seq<char> {
    "-"@
}

/// The half-open range that a group names. One number `n` names the line `n`.
/// Two numbers `a-b` name the lines from `a` to `b`, both included; where `b`
/// is less than `a` that is no line at all. A number that is not a `u32`
/// written in decimal, or the greatest `u32`, which no half-open range can
/// hold, makes the group malformed.
pub open spec fn group_range(group: Seq<char>) -> Option<(int, int)> {
    let hyphen = first_index(group, '-', 0);
    if hyphen < group.len() {
        match (parse_u32_spec(group.take(hyphen)), parse_u32_spec(group.skip(hyphen + 1))) {
            (Some(first), Some(last)) => if last < u32::MAX {
                Some((first as int, last + 1))
            } else {
                None
            },
            _ => None,
        }
    } else {
        match parse_u32_spec(group) {
            Some(line) => if line < u32::MAX {
                Some((line as int, line + 1))
            } else {
                None
            },
            None => None,
        }
    }
}

/// The ranges of the first `n` groups, if each of them is well formed.
pub open spec fn group_ranges(groups: Seq<Seq<char>>, n: int) -> Option<Seq<(int, int)>>
    decreases n,
{
    if n <= 0 {
        Some(Seq::empty())
    } else {
        match (group_ranges(groups, n - 1), group_range(groups[n - 1])) {
            (Some(ranges), Some(range)) => Some(ranges.push(range)),
            _ => None,
        }
    }
}

/// What a specification asks for: the path before its last colon, and under it
/// the lines of all groups after the colon. A text without colon, or with a
/// malformed group, is no specification.
pub open spec fn line_specification(spec: Seq<char>) -> Option<(Seq<char>, Set<int>)> {
    let colon = last_index(spec, ':');
    if colon < 0 {
        None
    } else {
        let groups = split_on(spec.skip(colon + 1), group_separator());
        match group_ranges(groups, groups.len() as int) {
            Some(ranges) => Some((spec.take(colon), covered(ranges))),
            None => None,
        }
    }
}

/// The range that the group names, as `group_range` says.
pub fn parse_group(group: &str) -> (r: Option<(u32, u32)>)
    ensures
        r matches Some(range) ==> group_range(group@) == Some((range.0 as int, range.1 as int)),
        r is None ==> group_range(group@) is None,
{
    let chars = chars_of(group);
    let hyphen = find_first(&chars, '-', 0);
    if hyphen < chars.len() {
        let first = parse_u32(text_of(group, 0, hyphen).as_str());
        let last = parse_u32(text_of(group, hyphen + 1, chars.len()).as_str());
        assert(group@.subrange(0, hyphen as int) =~= group@.take(hyphen as int));
        assert(group@.subrange(hyphen + 1, group@.len() as int) =~= group@.skip(hyphen + 1));
        match (first, last) {
            (Some(first), Some(last)) => {
                if last < u32::MAX {
                    Some((first, last + 1))
                } else {
                    None
                }
            },
            _ => None,
        }
    } else {
        match parse_u32(group) {
            Some(line) => {
                if line < u32::MAX {
                    Some((line, line + 1))
                } else {
                    None
                }
            },
            None => None,
        }
    }
}

/// The paths and sets of lines of a map of lines, as a mathematical map.
pub open spec fn line_map_of(map: PathLineMap) -> Map<Seq<char>, Set<int>> {
    Map::new(|k: Seq<char>| map.has_key(k), |k: Seq<char>| map.value_of(k)@)
}

/// Reads one line specification. The result holds one path, with the lines
/// that `line_specification` gives. A malformed specification fails, with its
/// text in the failure.
pub fn parse_line_specification(spec: &str) -> (r: Result<PathLineMap, Failure>)
    ensures
        line_specification(spec@) matches Some(asked) ==> (r matches Ok(map) && line_map_wf(map)
            && map.keys() == seq![asked.0] && map.values().len() == 1 && map.values()[0]@
            == asked.1),
        line_specification(spec@) is None ==> (r matches Err(Failure::LineSpecification(text))
            && text@ == spec@),
{
    let chars = chars_of(spec);
    proof {
        lemma_last_index(spec@, ':');
    }
    let colon = match find_last(&chars, ':') {
        Some(colon) => colon,
        None => {
            return Err(Failure::LineSpecification(spec.to_owned()));
        },
    };
    assert(colon < chars.len());
    let path = text_of(spec, 0, colon);
    let lines = text_of(spec, colon + 1, chars.len());
    assert(spec@.subrange(0, colon as int) =~= spec@.take(colon as int));
    assert(spec@.subrange(colon + 1, spec@.len() as int) =~= spec@.skip(colon + 1));
    let groups = split(lines.as_str(), ",");
    let ghost texts = views(groups@);
    let mut line_set = RangeSet::new();
    let ghost mut ranges: Seq<(int, int)> = Seq::empty();
    let mut g: usize = 0;
    assert(line_set@ =~= covered(ranges));
    while g < groups.len()
        invariant
            texts == views(groups@),
            texts == split_on(spec@.skip(colon + 1), group_separator()),
            colon as int == last_index(spec@, ':'),
            0 <= g <= groups@.len(),
            line_set.wf(),
            group_ranges(texts, g as int) == Some(ranges),
            line_set@ == covered(ranges),
        decreases groups@.len() - g,
    {
        match parse_group(groups[g].as_str()) {
            None => {
                assert(group_range(texts[g as int]) is None);
                assert(group_ranges(texts, groups@.len() as int) is None) by {
                    lemma_group_ranges_fail(texts, g as int, groups@.len() as int);
                }
                return Err(Failure::LineSpecification(spec.to_owned()));
            },
            Some(range) => {
                proof {
                    lemma_covered_push(ranges, (range.0 as int, range.1 as int));
                    ranges = ranges.push((range.0 as int, range.1 as int));
                }
                line_set.insert_range(range.0..range.1);
            },
        }
        g += 1;
    }
    let mut map: PathLineMap = StrMap::new();
    map.insert(path, line_set);
    assert(map.keys() =~= seq![spec@.take(colon as int)]);
    Ok(map)
}

/// Once a group is malformed, so is every longer run of groups.
proof fn lemma_group_ranges_fail(groups: Seq<Seq<char>>, bad: int, n: int)
    requires
        0 <= bad < n,
        group_range(groups[bad]) is None,
    ensures
        group_ranges(groups, n) is None,
    decreases n,
{
    if bad < n - 1 {
        lemma_group_ranges_fail(groups, bad, n - 1);
    }
}

/// What the first `n` of `specs` ask for together. A later specification for a
/// path takes the place of an earlier one for the same path. Where `with_dash`
/// holds, a specification that is a lone `-` asks for nothing. One malformed
/// specification spoils the whole.
pub open spec fn specified(specs: Seq<Seq<char>>, with_dash: bool, n: int) -> Option<
    Map<Seq<char>, Set<int>>,
>
    decreases n,
{
    if n <= 0 {
        Some(Map::empty())
    } else {
        match specified(specs, with_dash, n - 1) {
            None => None,
            Some(asked) => if with_dash && specs[n - 1] == dash() {
                Some(asked)
            } else {
                match line_specification(specs[n - 1]) {
                    None => None,
                    Some(one) => Some(asked.insert(one.0, one.1)),
                }
            },
        }
    }
}

/// `text` is the first of `specs` that is malformed.
pub open spec fn first_malformed(specs: Seq<Seq<char>>, with_dash: bool, text: Seq<char>) -> bool {
    exists|i: int|
        0 <= i < specs.len() && #[trigger] specs[i] == text && specified(specs, with_dash, i) is Some
            && specified(specs, with_dash, i + 1) is None
}

/// Reads the specifications of `specs` into one map, as `specified` says.
fn parse_all(specs: &Vec<String>, with_dash: bool) -> (r: Result<(PathLineMap, bool), Failure>)
    ensures
        specified(views(specs@), with_dash, specs@.len() as int) matches Some(asked) ==> (r matches Ok(
            found,
        ) && line_map_wf(found.0) && line_map_of(found.0) == asked && found.1 == (with_dash && views(
            specs@,
        ).contains(dash()))),
        specified(views(specs@), with_dash, specs@.len() as int) is None ==> (r matches Err(
            Failure::LineSpecification(text),
        ) && first_malformed(views(specs@), with_dash, text@)),
{
    let mut map: PathLineMap = StrMap::new();
    let mut dash_used = false;
    let ghost texts = views(specs@);
    let mut i: usize = 0;
    assert(line_map_of(map) =~= Map::<Seq<char>, Set<int>>::empty());
    while i < specs.len()
        invariant
            texts == views(specs@),
            0 <= i <= specs@.len(),
            line_map_wf(map),
            specified(texts, with_dash, i as int) == Some(line_map_of(map)),
            dash_used == (with_dash && texts.take(i as int).contains(dash())),
        decreases specs@.len() - i,
    {
        let spec = specs[i].as_str();
        assert(texts.take(i + 1) =~= texts.take(i as int).push(spec@));
        proof {
            let seen = texts.take(i as int);
            let next = texts.take(i + 1);
            if seen.contains(dash()) {
                let w = choose|w: int| 0 <= w < seen.len() && seen[w] == dash();
                assert(next[w] == dash());
            }
            if next.contains(dash()) && spec@ != dash() {
                let w = choose|w: int| 0 <= w < next.len() && next[w] == dash();
                assert(seen[w] == dash());
            }
            if spec@ == dash() {
                assert(next[i as int] == dash());
            }
        }
        if with_dash && str_eq(spec, "-") {
            dash_used = true;
        } else {
            match parse_line_specification(spec) {
                Err(e) => {
                    assert(specified(texts, with_dash, specs@.len() as int) is None) by {
                        lemma_specified_fail(texts, with_dash, i + 1, specs@.len() as int);
                    }
                    assert(texts[i as int] == spec@ && specified(texts, with_dash, i as int) is Some
                        && specified(texts, with_dash, i + 1) is None);
                    return Err(e);
                },
                Ok(one) => {
                    let ghost before = line_map_of(map);
                    let ghost asked = line_specification(spec@).unwrap();
                    merge_line_maps(&mut map, &one);
                    proof {
                        one.lemma_place_of(asked.0);
                        assert(one.has_key(asked.0));
                        assert(line_map_of(one) =~= Map::<Seq<char>, Set<int>>::empty().insert(
                            asked.0,
                            asked.1,
                        )) by {
                            assert forall|k: Seq<char>| one.has_key(k) implies k == asked.0 by {
                                let w = choose|w: int| 0 <= w < one.keys().len() && one.keys()[w] == k;
                            }
                        }
                        assert(line_map_of(map) =~= before.insert(asked.0, asked.1));
                    }
                },
            }
        }
        i += 1;
    }
    assert(texts.take(specs@.len() as int) =~= texts);
    Ok((map, dash_used))
}

/// Once a specification is malformed, so is every longer run of them.
proof fn lemma_specified_fail(specs: Seq<Seq<char>>, with_dash: bool, bad: int, n: int)
    requires
        0 <= bad <= n,
        specified(specs, with_dash, bad) is None,
    ensures
        specified(specs, with_dash, n) is None,
    decreases n,
{
    if bad < n {
        lemma_specified_fail(specs, with_dash, bad, n - 1);
    }
}

/// Moves what `other` asks for into `map`. Where both have a path, the lines of
/// `other` take the place of those of `map`.
pub fn merge_line_maps(map: &mut PathLineMap, other: &PathLineMap)
    requires
        line_map_wf(*old(map)),
        line_map_wf(*other),
    ensures
        line_map_wf(*final(map)),
        line_map_of(*final(map)) == line_map_of(*old(map)).union_prefer_right(line_map_of(*other)),
{
    let ghost start = *map;
    let mut q: usize = 0;
    proof {
        assert forall|k: Seq<char>| other.has_key(k) implies other.place_of(k) >= 0 by {
            other.lemma_place_of(k);
        }
    }
    while q < other.len()
        invariant
            line_map_wf(*map),
            line_map_wf(*other),
            0 <= q <= other.keys().len(),
            forall|k: Seq<char>| #[trigger]
                map.has_key(k) == (start.has_key(k) || (other.has_key(k) && other.place_of(k) < q)),
            forall|k: Seq<char>|
                other.has_key(k) && other.place_of(k) < q ==> (#[trigger] map.value_of(k))@
                    == other.value_of(k)@,
            forall|k: Seq<char>|
                start.has_key(k) && !(other.has_key(k) && other.place_of(k) < q) ==> (
                #[trigger] map.value_of(k))@ == start.value_of(k)@,
        decreases other.keys().len() - q,
    {
        let ghost before = *map;
        let key = other.key(q).clone();
        let set = other.value(q).clone();
        proof {
            other.lemma_place_of(key@);
            before.lemma_place_of(key@);
            assert(other.values()[q as int].wf());
        }
        map.insert(key, set);
        proof {
            assert forall|i: int| 0 <= i < map.values().len() implies (#[trigger] map.values()[i]).wf() by {
                let p = before.place_of(key@);
                if before.has_key(key@) {
                    if i != p {
                        assert(map.values()[i] == before.values()[i]);
                    }
                } else if i < p {
                    assert(map.values()[i] == before.values()[i]);
                } else if i > p {
                    assert(map.values()[i] == before.values()[i - 1]);
                }
            }
            assert forall|k: Seq<char>| #[trigger]
                map.has_key(k) == (start.has_key(k) || (other.has_key(k) && other.place_of(k) < q + 1)) by {
                other.lemma_place_of(k);
                assert(before.has_key(k) == (start.has_key(k) || (other.has_key(k) && other.place_of(k)
                    < q)));
            }
            assert forall|k: Seq<char>| other.has_key(k) && other.place_of(k) < q + 1 implies (
            #[trigger] map.value_of(k))@ == other.value_of(k)@ by {
                other.lemma_place_of(k);
                if k != key@ {
                    assert(before.has_key(k));
                    assert(before.value_of(k)@ == other.value_of(k)@);
                }
            }
            assert forall|k: Seq<char>|
                start.has_key(k) && !(other.has_key(k) && other.place_of(k) < q + 1) implies (
            #[trigger] map.value_of(k))@ == start.value_of(k)@ by {
                other.lemma_place_of(k);
                assert(before.has_key(k));
                assert(before.value_of(k)@ == start.value_of(k)@);
            }
        }
        q += 1;
    }
    proof {
        assert forall|k: Seq<char>| other.has_key(k) implies other.place_of(k) < other.keys().len() by {
            other.lemma_place_of(k);
        }
        let joined = line_map_of(start).union_prefer_right(line_map_of(*other));
        assert forall|k: Seq<char>| line_map_of(*map).dom().contains(k) == joined.dom().contains(k) by {
            assert(map.has_key(k) == (start.has_key(k) || (other.has_key(k) && other.place_of(k) < q)));
        }
        assert forall|k: Seq<char>| line_map_of(*map).dom().contains(k) implies line_map_of(*map)[k]
            == joined[k] by {
            assert(map.has_key(k));
            if other.has_key(k) {
                assert(map.value_of(k)@ == other.value_of(k)@);
            } else {
                assert(map.value_of(k)@ == start.value_of(k)@);
            }
        }
        assert(line_map_of(*map) =~= joined);
    }
}

/// Reads the line specifications given as options. A lone `-` among them is no
/// specification: it says that specifications are to be read from standard
/// input, and the second part of the result says whether there was one.
pub fn parse_line_specifications(specs: &Vec<String>) -> (r: Result<(PathLineMap, bool), Failure>)
    ensures
        specified(views(specs@), true, specs@.len() as int) matches Some(asked) ==> (r matches Ok(
            found,
        ) && line_map_wf(found.0) && line_map_of(found.0) == asked && found.1 == views(
            specs@,
        ).contains(dash())),
        specified(views(specs@), true, specs@.len() as int) is None ==> (r matches Err(
            Failure::LineSpecification(text),
        ) && first_malformed(views(specs@), true, text@)),
{
    parse_all(specs, true)
}

/// Reads the line specifications that came from standard input, one in each
/// line.
pub fn read_line_specifications(lines: &Vec<String>) -> (r: Result<PathLineMap, Failure>)
    ensures
        specified(views(lines@), false, lines@.len() as int) matches Some(asked) ==> (r matches Ok(
            map,
        ) && line_map_wf(map) && line_map_of(map) == asked),
        specified(views(lines@), false, lines@.len() as int) is None ==> (r matches Err(
            Failure::LineSpecification(text),
        ) && first_malformed(views(lines@), false, text@)),
{
    match parse_all(lines, false) {
        Ok(found) => Ok(found.0),
        Err(e) => Err(e),
    }
}

} // verus!
