use line_test::digest::{
    build_digests, digest_from_hex, digest_to_hex, hash_contents, hash_files,
    path_digest_map_from_entries, read_path_digest_map,
};
use line_test::failure::{Failure, FailureKind};

const ABC: &str = "ba7816bf8f01cfea414140de5dae2223b00361a396177a9cb410ff61f20015ad";
const EMPTY: &str = "e3b0c44298fc1c149afbf4c8996fb92427ae41e4649b934ca495991b7852b855";

#[test]
fn contents_are_hashed_with_sha_256() {
    assert_eq!(digest_to_hex(&hash_contents(&b"abc".to_vec())), ABC);
    assert_eq!(digest_to_hex(&hash_contents(&vec![])), EMPTY);
}

#[test]
fn digests_are_written_in_lower_case_hexadecimal() {
    let mut digest = [0u8; 32];
    digest[0] = 0x0f;
    digest[1] = 0xa0;
    digest[31] = 0xff;
    let text = digest_to_hex(&digest);
    assert_eq!(text.len(), 64);
    assert!(text.starts_with("0fa000"));
    assert!(text.ends_with("00ff"));
}

#[test]
fn digests_read_back_in_either_case() {
    let digest = hash_contents(&b"abc".to_vec());
    assert_eq!(digest_from_hex(ABC).unwrap(), digest);
    assert_eq!(digest_from_hex(&ABC.to_uppercase()).unwrap(), digest);
    assert_eq!(digest_from_hex(&digest_to_hex(&digest)).unwrap(), digest);
}

#[test]
fn a_text_that_is_not_hexadecimal_is_a_parse_failure() {
    for text in ["zz", "abc", "0g", "é0", &ABC.replace('b', "x")] {
        let failure = digest_from_hex(text).unwrap_err();
        assert!(matches!(failure, Failure::DigestHex(ref t) if t == text), "{:?}", text);
        assert_eq!(failure.kind(), FailureKind::Parse);
    }
}

#[test]
fn a_digest_of_the_wrong_length_is_an_integrity_failure() {
    for text in ["", "00", &ABC[2..], &format!("{}00", ABC)] {
        let failure = digest_from_hex(text).unwrap_err();
        assert!(matches!(failure, Failure::DigestLength(ref t) if t == text), "{:?}", text);
        assert_eq!(failure.kind(), FailureKind::Integrity);
    }
}

#[test]
fn the_side_file_is_read_into_a_map() {
    let json = format!("{{\n  \"src/b.rs\": \"{}\",\n  \"src/a.rs\": \"{}\"\n}}", ABC, EMPTY);
    let map = read_path_digest_map(&json).unwrap();
    assert_eq!(map.len(), 2);
    assert_eq!(map.key(0), "src/a.rs");
    assert_eq!(map.get("src/a.rs"), Some(&hash_contents(&vec![])));
    assert_eq!(map.get("src/b.rs"), Some(&hash_contents(&b"abc".to_vec())));
    assert!(read_path_digest_map("{}").unwrap().is_empty());
}

#[test]
fn a_malformed_side_file_is_a_failure() {
    for json in ["", "[]", "{\"a\": 1}", "{\"a\": \"00\"", "nonsense"] {
        let failure = read_path_digest_map(json).unwrap_err();
        assert!(matches!(failure, Failure::DigestFile), "{:?}", json);
    }
    assert!(matches!(read_path_digest_map("{\"a\": \"xy\"}"), Err(Failure::DigestHex(_))));
    assert!(matches!(read_path_digest_map("{\"a\": \"00\"}"), Err(Failure::DigestLength(_))));
}

#[test]
fn entries_give_the_digest_map() {
    let entries = vec![("b".to_owned(), ABC.to_owned()), ("a".to_owned(), EMPTY.to_owned())];
    let map = path_digest_map_from_entries(&entries).unwrap();
    assert_eq!(map.key(0), "a");
    assert_eq!(map.key(1), "b");
    let entries = vec![("a".to_owned(), EMPTY.to_owned()), ("b".to_owned(), "0".to_owned())];
    assert!(matches!(path_digest_map_from_entries(&entries), Err(Failure::DigestHex(_))));
}

#[test]
fn files_are_hashed_into_entries() {
    let files = vec![("x".to_owned(), b"abc".to_vec()), ("y".to_owned(), vec![])];
    assert_eq!(
        hash_files(&files),
        vec![("x".to_owned(), ABC.to_owned()), ("y".to_owned(), EMPTY.to_owned())]
    );
}

#[test]
fn the_side_file_is_built_and_reads_back() {
    let files = vec![("src/b.rs".to_owned(), b"abc".to_vec()), ("src/a.rs".to_owned(), vec![])];
    let json = build_digests(&files).unwrap();
    assert_eq!(
        json,
        format!("{{\n  \"src/a.rs\": \"{}\",\n  \"src/b.rs\": \"{}\"\n}}", EMPTY, ABC)
    );
    let map = read_path_digest_map(&json).unwrap();
    assert_eq!(map.len(), 2);
    assert_eq!(map.get("src/b.rs"), Some(&hash_contents(&b"abc".to_vec())));
    assert_eq!(build_digests(&vec![]).unwrap(), "{}");
}
