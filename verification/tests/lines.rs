use line_test::failure::{Failure, FailureKind};
use line_test::lines::{
    merge_line_maps, parse_group, parse_line_specification, parse_line_specifications,
    read_line_specifications,
};
use line_test::model::PathLineMap;

fn entries(map: &PathLineMap) -> Vec<(String, Vec<(u32, u32)>)> {
    (0..map.len())
        .map(|i| {
            let ranges = map.value(i).clone().into_ranges();
            (map.key(i).clone(), ranges.into_iter().map(|r| (r.start, r.end)).collect())
        })
        .collect()
}

fn strings(texts: &[&str]) -> Vec<String> {
    texts.iter().map(|t| (*t).to_owned()).collect()
}

#[test]
fn a_group_is_a_line_or_a_span_of_lines() {
    assert_eq!(parse_group("7"), Some((7, 8)));
    assert_eq!(parse_group("95-97"), Some((95, 98)));
    assert_eq!(parse_group("5-5"), Some((5, 6)));
    assert_eq!(parse_group("5-3"), Some((5, 4)));
    assert_eq!(parse_group("0"), Some((0, 1)));
    assert_eq!(parse_group("4294967294"), Some((4294967294, 4294967295)));
}

#[test]
fn a_malformed_group_is_none() {
    for group in ["", "-", "5-", "-5", "a", "5-b", "1-2-3", "4294967295", "1-4294967295", "4294967296"] {
        assert_eq!(parse_group(group), None, "{:?}", group);
    }
}

#[test]
fn a_specification_names_a_path_and_its_lines() {
    let map = parse_line_specification("src/main.rs:95-97,99").unwrap();
    assert_eq!(entries(&map), vec![("src/main.rs".to_owned(), vec![(95, 98), (99, 100)])]);
}

#[test]
fn adjacent_and_overlapping_groups_are_merged() {
    let map = parse_line_specification("a.rs:1-3,4,10-12,11-20,5").unwrap();
    assert_eq!(entries(&map), vec![("a.rs".to_owned(), vec![(1, 6), (10, 21)])]);
}

#[test]
fn the_path_ends_at_the_last_colon() {
    let map = parse_line_specification("c:/dir/a.rs:3").unwrap();
    assert_eq!(entries(&map), vec![("c:/dir/a.rs".to_owned(), vec![(3, 4)])]);
    let map = parse_line_specification(":3").unwrap();
    assert_eq!(entries(&map), vec![("".to_owned(), vec![(3, 4)])]);
}

#[test]
fn a_span_that_ends_before_it_begins_asks_for_nothing() {
    let map = parse_line_specification("a.rs:9-2").unwrap();
    assert_eq!(entries(&map), vec![("a.rs".to_owned(), vec![])]);
}

#[test]
fn a_malformed_specification_is_a_parse_failure() {
    for spec in ["src/main.rs", "a.rs:", "a.rs:x", "a.rs:1,", "a.rs:1-", "a.rs:1,,2", "a.rs:4294967295", "-"] {
        match parse_line_specification(spec) {
            Err(failure) => {
                assert_eq!(failure.kind(), FailureKind::Parse, "{:?}", spec);
                assert!(matches!(failure, Failure::LineSpecification(ref text) if text == spec));
            }
            Ok(_) => panic!("accepted {:?}", spec),
        }
    }
}

#[test]
fn specifications_are_gathered_and_a_dash_is_noted() {
    let (map, dash) = parse_line_specifications(&strings(&["b.rs:2", "-", "a.rs:1-2"])).unwrap();
    assert!(dash);
    assert_eq!(
        entries(&map),
        vec![("a.rs".to_owned(), vec![(1, 3)]), ("b.rs".to_owned(), vec![(2, 3)])]
    );
    let (map, dash) = parse_line_specifications(&strings(&["b.rs:2"])).unwrap();
    assert!(!dash);
    assert_eq!(entries(&map), vec![("b.rs".to_owned(), vec![(2, 3)])]);
    let (map, dash) = parse_line_specifications(&vec![]).unwrap();
    assert!(!dash);
    assert!(map.is_empty());
}

#[test]
fn a_later_specification_for_a_path_replaces_an_earlier_one() {
    let (map, _) = parse_line_specifications(&strings(&["a.rs:1", "b.rs:7", "a.rs:5"])).unwrap();
    assert_eq!(
        entries(&map),
        vec![("a.rs".to_owned(), vec![(5, 6)]), ("b.rs".to_owned(), vec![(7, 8)])]
    );
}

#[test]
fn one_malformed_specification_spoils_the_whole() {
    assert!(parse_line_specifications(&strings(&["a.rs:1", "b.rs"])).is_err());
    assert!(read_line_specifications(&strings(&["a.rs:1", "-"])).is_err());
}

#[test]
fn lines_from_standard_input_are_specifications() {
    let map = read_line_specifications(&strings(&["a.rs:1", "b.rs:2-3"])).unwrap();
    assert_eq!(
        entries(&map),
        vec![("a.rs".to_owned(), vec![(1, 2)]), ("b.rs".to_owned(), vec![(2, 4)])]
    );
}

#[test]
fn merging_prefers_the_other_map() {
    let mut map = parse_line_specification("a.rs:1").unwrap();
    merge_line_maps(&mut map, &parse_line_specification("c.rs:3").unwrap());
    merge_line_maps(&mut map, &parse_line_specification("a.rs:9").unwrap());
    merge_line_maps(&mut map, &parse_line_specification("b.rs:2").unwrap());
    assert_eq!(
        entries(&map),
        vec![
            ("a.rs".to_owned(), vec![(9, 10)]),
            ("b.rs".to_owned(), vec![(2, 3)]),
            ("c.rs".to_owned(), vec![(3, 4)])
        ]
    );
}
