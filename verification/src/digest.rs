//! Digests of file contents, and the side file that holds them.
//!
//! A digest is the SHA-256 of a file's bytes. The side file is a JSON object
//! from each path to its digest in lower-case hexadecimal.

use crate::failure::Failure;
use crate::model::PathDigestMap;
use crate::str_map::StrMap;
use vstd::prelude::*;

verus! {

/// `hex::FromHexError`, which is handed on unread.
#[verifier::external_type_specification]
#[verifier::external_body]
pub struct ExFromHexError(hex::FromHexError);

/// `serde_json::Error`, which is handed on unread.
#[verifier::external_type_specification]
#[verifier::external_body]
pub struct ExJsonError(serde_json::Error);

/// The SHA-256 digest of `bytes`.
pub uninterp spec fn sha256(bytes: Seq<u8>) -> Seq<u8>;

/// The object that the JSON text `text` denotes, where it denotes an object
/// whose values are all strings: its keys with their values, in ascending
/// order of the keys.
pub uninterp spec fn json_string_map(text: Seq<char>) -> Option<Seq<(Seq<char>, Seq<char>)>>;

/// The JSON text, indented, of the object with the given keys and values.
pub uninterp spec fn json_pretty(entries: Seq<(Seq<char>, Seq<char>)>) -> Seq<char>;

/// The lower-case hexadecimal digit of a value below sixteen.
pub open spec fn hex_digit(v: int) -> char {
    if v == 0 {
        '0'
    } else if v == 1 {
        '1'
    } else if v == 2 {
        '2'
    } else if v == 3 {
        '3'
    } else if v == 4 {
        '4'
    } else if v == 5 {
        '5'
    } else if v == 6 {
        '6'
    } else if v == 7 {
        '7'
    } else if v == 8 {
        '8'
    } else if v == 9 {
        '9'
    } else if v == 10 {
        'a'
    } else if v == 11 {
        'b'
    } else if v == 12 {
        'c'
    } else if v == 13 {
        'd'
    } else if v == 14 {
        'e'
    } else {
        'f'
    }
}

/// The value of the hexadecimal digit `c`, in either case, or -1 where `c` is
/// none.
pub open spec fn hex_value(c: char) -> int {
    if c == '0' {
        0
    } else if c == '1' {
        1
    } else if c == '2' {
        2
    } else if c == '3' {
        3
    } else if c == '4' {
        4
    } else if c == '5' {
        5
    } else if c == '6' {
        6
    } else if c == '7' {
        7
    } else if c == '8' {
        8
    } else if c == '9' {
        9
    } else if c == 'a' || c == 'A' {
        10
    } else if c == 'b' || c == 'B' {
        11
    } else if c == 'c' || c == 'C' {
        12
    } else if c == 'd' || c == 'D' {
        13
    } else if c == 'e' || c == 'E' {
        14
    } else if c == 'f' || c == 'F' {
        15
    } else {
        -1
    }
}

/// `bytes` in hexadecimal: two lower-case digits for each byte, the high half
/// first.
pub open spec fn hex_text(bytes: Seq<u8>) -> Seq<char> {
    Seq::new(
        2 * bytes.len(),
        |i: int|
            if i % 2 == 0 {
                hex_digit(bytes[i / 2] as int / 16)
            } else {
                hex_digit(bytes[i / 2] as int % 16)
            },
    )
}

/// `text` is hexadecimal: an even number of hexadecimal digits.
pub open spec fn is_hex(text: Seq<char>) -> bool {
    &&& text.len() % 2 == 0
    &&& forall|i: int| 0 <= i < text.len() ==> hex_value(#[trigger] text[i]) >= 0
}

/// The bytes that the hexadecimal `text` writes.
pub open spec fn hex_bytes(text: Seq<char>) -> Seq<u8> {
    Seq::new(
        (text.len() / 2) as nat,
        |i: int| (hex_value(text[2 * i]) * 16 + hex_value(text[2 * i + 1])) as u8,
    )
}

/// What is written in hexadecimal reads back as the same bytes.
pub proof fn lemma_hex_round_trip(bytes: Seq<u8>)
    ensures
        is_hex(hex_text(bytes)),
        hex_bytes(hex_text(bytes)) == bytes,
{
    let text = hex_text(bytes);
    assert forall|i: int| 0 <= i < text.len() implies hex_value(#[trigger] text[i]) >= 0 by {
        let b = bytes[i / 2] as int;
        assert(0 <= b / 16 < 16 && 0 <= b % 16 < 16);
    }
    assert forall|i: int| 0 <= i < bytes.len() implies #[trigger] hex_bytes(text)[i] == bytes[i] by {
        let b = bytes[i] as int;
        assert((2 * i) % 2 == 0 && (2 * i) / 2 == i);
        assert((2 * i + 1) % 2 == 1 && (2 * i + 1) / 2 == i);
        assert(0 <= b / 16 < 16 && 0 <= b % 16 < 16);
        assert(hex_value(hex_digit(b / 16)) == b / 16);
        assert(hex_value(hex_digit(b % 16)) == b % 16);
        assert(b == (b / 16) * 16 + b % 16);
    }
    assert(hex_bytes(text) =~= bytes);
}

/// The SHA-256 digest of `bytes`, computed by `sha2`: a new `Sha256`, one
/// `update` with all the bytes, and `finalize`.
#[verifier::external_body]
fn sha256_of(bytes: &[u8]) -> (r: [u8; 32])
    ensures
        r@ == sha256(bytes@),
{
    let mut hasher = <sha2::Sha256 as sha2::Digest>::new();
    sha2::Digest::update(&mut hasher, bytes);
    sha2::Digest::finalize(hasher).into()
}

/// `hex::encode`: each byte as two lower-case hexadecimal digits.
#[verifier::external_body]
fn hex_encode(bytes: &[u8]) -> (r: String)
    ensures
        r@ == hex_text(bytes@),
{
    hex::encode(bytes)
}

/// `hex::decode`: the bytes of a text of an even number of hexadecimal digits,
/// of either case; any other text is refused.
#[verifier::external_body]
fn hex_decode(text: &str) -> (r: Result<Vec<u8>, hex::FromHexError>)
    ensures
        r is Ok <==> is_hex(text@),
        r matches Ok(bytes) ==> bytes@ == hex_bytes(text@),
{
    hex::decode(text)
}

/// `serde_json::from_str` for a map from strings to strings. The entries come
/// out of the map in ascending order of their keys.
#[verifier::external_body]
fn json_read(text: &str) -> (r: Result<Vec<(String, String)>, serde_json::Error>)
    ensures
        r is Ok <==> json_string_map(text@) is Some,
        r matches Ok(found) ==> Some(entry_views(found@)) == json_string_map(text@),
{
    serde_json::from_str::<std::collections::BTreeMap<String, String>>(text).map(
        |map| map.into_iter().collect(),
    )
}

/// `serde_json::to_string_pretty` for a map from strings to strings, which is
/// made of the given entries. It succeeds: it fails only where a value refuses
/// to be written or a map has keys that are no strings, and a map from strings
/// to strings has neither.
#[verifier::external_body]
fn json_write(entries: &Vec<(String, String)>) -> (r: Result<String, serde_json::Error>)
    ensures
        r is Ok,
        r matches Ok(text) ==> text@ == json_pretty(entry_views(entries@)),
{
    let map: std::collections::BTreeMap<String, String> = entries.iter().cloned().collect();
    serde_json::to_string_pretty(&map)
}

/// The texts of a list of pairs of strings.
pub open spec fn entry_views(entries: Seq<(String, String)>) -> Seq<(Seq<char>, Seq<char>)> {
    Seq::new(entries.len(), |i: int| (entries[i].0@, entries[i].1@))
}

/// The digest of a file's contents.
pub fn hash_contents(bytes: &Vec<u8>) -> (r: [u8; 32])
    ensures
        r@ == sha256(bytes@),
{
    sha256_of(bytes.as_slice())
}

/// The digest in hexadecimal, as the side file holds it.
pub fn digest_to_hex(digest: &[u8; 32]) -> (r: String)
    ensures
        r@ == hex_text(digest@),
{
    hex_encode(digest.as_slice())
}

/// The digest that `text` writes in hexadecimal. A text that is not
/// hexadecimal is refused, and so is one that does not write 32 bytes.
pub fn digest_from_hex(text: &str) -> (r: Result<[u8; 32], Failure>)
    ensures
        is_hex(text@) && text@.len() == 64 ==> (r matches Ok(digest) && digest@ == hex_bytes(text@)),
        !is_hex(text@) ==> (r matches Err(Failure::DigestHex(t)) && t@ == text@),
        is_hex(text@) && text@.len() != 64 ==> (r matches Err(Failure::DigestLength(t)) && t@
            == text@),
{
    let bytes = match hex_decode(text) {
        Ok(bytes) => bytes,
        Err(_) => {
            return Err(Failure::DigestHex(text.to_owned()));
        },
    };
    if bytes.len() != 32 {
        return Err(Failure::DigestLength(text.to_owned()));
    }
    let mut digest = [0u8;32];
    let mut i: usize = 0;
    while i < 32
        invariant
            0 <= i <= 32,
            bytes@.len() == 32,
            forall|j: int| 0 <= j < i ==> digest@[j] == bytes@[j],
        decreases 32 - i,
    {
        digest[i] = bytes[i];
        i += 1;
    }
    assert(digest@ =~= bytes@);
    Ok(digest)
}

/// The digests of a map, by path.
pub open spec fn digest_map_of(map: PathDigestMap) -> Map<Seq<char>, Seq<u8>> {
    Map::new(|k: Seq<char>| map.has_key(k), |k: Seq<char>| map.value_of(k)@)
}

/// `text` writes a digest: 32 bytes in hexadecimal.
pub open spec fn is_digest_text(text: Seq<char>) -> bool {
    is_hex(text) && text.len() == 64
}

/// The digests that the first `n` entries of a side file give, by path, if the
/// text of each writes a digest. Of two entries for one path the later counts.
pub open spec fn digests_of(entries: Seq<(Seq<char>, Seq<char>)>, n: int) -> Option<
    Map<Seq<char>, Seq<u8>>,
>
    decreases n,
{
    if n <= 0 {
        Some(Map::empty())
    } else {
        match digests_of(entries, n - 1) {
            None => None,
            Some(digests) => if is_digest_text(entries[n - 1].1) {
                Some(digests.insert(entries[n - 1].0, hex_bytes(entries[n - 1].1)))
            } else {
                None
            },
        }
    }
}

/// `failure` is what the text of a digest that is none calls for.
pub open spec fn refuses(failure: Failure, text: Seq<char>) -> bool {
    if !is_hex(text) {
        failure matches Failure::DigestHex(t) && t@ == text
    } else {
        text.len() != 64 && (failure matches Failure::DigestLength(t) && t@ == text)
    }
}

/// Once an entry writes no digest, no longer run of entries gives digests.
proof fn lemma_digests_of_fail(entries: Seq<(Seq<char>, Seq<char>)>, bad: int, n: int)
    requires
        0 <= bad <= n,
        digests_of(entries, bad) is None,
    ensures
        digests_of(entries, n) is None,
    decreases n,
{
    if bad < n {
        lemma_digests_of_fail(entries, bad, n - 1);
    }
}

/// The digest map that the entries of a side file give. The first entry whose
/// text writes no digest makes the call fail: as not hexadecimal, or as of the
/// wrong length.
pub fn path_digest_map_from_entries(entries: &Vec<(String, String)>) -> (r: Result<
    PathDigestMap,
    Failure,
>)
    ensures
        digests_of(entry_views(entries@), entries@.len() as int) matches Some(digests) ==> (r matches Ok(
            map,
        ) && map.wf() && digest_map_of(map) == digests),
        digests_of(entry_views(entries@), entries@.len() as int) is None ==> (r matches Err(e)
            && exists|i: int|
            0 <= i < entries@.len() && digests_of(entry_views(entries@), i) is Some && refuses(
                e,
                #[trigger] entry_views(entries@)[i].1,
            )),
{
    let mut map: PathDigestMap = StrMap::new();
    let ghost texts = entry_views(entries@);
    let mut i: usize = 0;
    assert(digest_map_of(map) =~= Map::<Seq<char>, Seq<u8>>::empty());
    while i < entries.len()
        invariant
            texts == entry_views(entries@),
            0 <= i <= entries@.len(),
            map.wf(),
            digests_of(texts, i as int) == Some(digest_map_of(map)),
        decreases entries@.len() - i,
    {
        let path = entries[i].0.clone();
        let text = entries[i].1.as_str();
        assert(texts[i as int] == (path@, text@));
        match digest_from_hex(text) {
            Err(e) => {
                proof {
                    assert(digests_of(texts, i + 1) is None);
                    lemma_digests_of_fail(texts, i + 1, entries@.len() as int);
                    assert(refuses(e, texts[i as int].1));
                }
                return Err(e);
            },
            Ok(digest) => {
                let ghost before = digest_map_of(map);
                map.insert(path, digest);
                assert(digest_map_of(map) =~= before.insert(path@, digest@));
            },
        }
        i += 1;
    }
    Ok(map)
}

/// Reads the side file. It has to be a JSON object whose values are strings,
/// each of which writes a digest.
pub fn read_path_digest_map(json: &str) -> (r: Result<PathDigestMap, Failure>)
    ensures
        json_string_map(json@) is None ==> r matches Err(Failure::DigestFile),
        json_string_map(json@) matches Some(entries) ==> match digests_of(
            entries,
            entries.len() as int,
        ) {
            Some(digests) => r matches Ok(map) && map.wf() && digest_map_of(map) == digests,
            None => r matches Err(e) && (e is DigestHex || e is DigestLength),
        },
{
    match json_read(json) {
        Err(_) => Err(Failure::DigestFile),
        Ok(entries) => path_digest_map_from_entries(&entries),
    }
}

/// The entries of the side file for the given files: each path with the digest
/// of the file's contents in hexadecimal.
pub open spec fn digest_entries(files: Seq<(String, Vec<u8>)>) -> Seq<(Seq<char>, Seq<char>)> {
    Seq::new(files.len(), |i: int| (files[i].0@, hex_text(sha256(files[i].1@))))
}

/// The digest of the contents of each of the first `n` files, by path. Of two
/// files of one path the later counts.
pub open spec fn file_digests(files: Seq<(String, Vec<u8>)>, n: int) -> Map<Seq<char>, Seq<u8>>
    decreases n,
{
    if n <= 0 {
        Map::empty()
    } else {
        file_digests(files, n - 1).insert(files[n - 1].0@, sha256(files[n - 1].1@))
    }
}

/// What the first `n` entries give depends on these entries alone.
proof fn lemma_digests_of_prefix(
    a: Seq<(Seq<char>, Seq<char>)>,
    b: Seq<(Seq<char>, Seq<char>)>,
    n: int,
)
    requires
        0 <= n <= a.len(),
        n <= b.len(),
        forall|k: int| 0 <= k < n ==> a[k] == b[k],
    ensures
        digests_of(a, n) == digests_of(b, n),
    decreases n,
{
    if n > 0 {
        lemma_digests_of_prefix(a, b, n - 1);
    }
}

/// The entries of the side file for the given files, as `digest_entries` says.
/// Read back as entries, they give the digest of each file's contents.
pub fn hash_files(files: &Vec<(String, Vec<u8>)>) -> (r: Vec<(String, String)>)
    ensures
        entry_views(r@) == digest_entries(files@),
        digests_of(entry_views(r@), r@.len() as int) == Some(
            file_digests(files@, files@.len() as int),
        ),
{
    let mut out: Vec<(String, String)> = Vec::new();
    let mut i: usize = 0;
    while i < files.len()
        invariant
            0 <= i <= files@.len(),
            out@.len() == i,
            forall|j: int|
                0 <= j < i ==> (#[trigger] out@[j]).0@ == files@[j].0@ && out@[j].1@ == hex_text(
                    sha256(files@[j].1@),
                ),
            digests_of(entry_views(out@), i as int) == Some(file_digests(files@, i as int)),
        decreases files@.len() - i,
    {
        let digest = hash_contents(&files[i].1);
        let ghost before = entry_views(out@);
        out.push((files[i].0.clone(), digest_to_hex(&digest)));
        proof {
            lemma_hex_round_trip(digest@);
            lemma_digests_of_prefix(before, entry_views(out@), i as int);
            assert(entry_views(out@)[i as int] == (files@[i as int].0@, hex_text(digest@)));
        }
        i += 1;
    }
    assert(entry_views(out@) =~= digest_entries(files@));
    out
}

/// The text of the side file for the given files, each given by its path and
/// its contents: that of the object from each path to the digest of its
/// contents. The text replaces the side file as a whole, so that no path of an
/// earlier build stays and none of this one is wanting.
pub fn build_digests(files: &Vec<(String, Vec<u8>)>) -> (r: Result<String, Failure>)
    ensures
        r matches Ok(text) && text@ == json_pretty(digest_entries(files@)),
        digests_of(digest_entries(files@), files@.len() as int) == Some(
            file_digests(files@, files@.len() as int),
        ),
{
    let entries = hash_files(files);
    assert(entry_views(entries@).len() == digest_entries(files@).len());
    match json_write(&entries) {
        Ok(text) => Ok(text),
        Err(_) => Err(Failure::DigestFile),
    }
}

/// The digests of a list of paths with their digests, by path. Of two entries
/// for one path the later counts.
pub open spec fn digests_by_path(digests: Seq<(Seq<char>, [u8; 32])>, n: int) -> Map<Seq<char>, Seq<u8>>
    decreases n,
{
    if n <= 0 {
        Map::empty()
    } else {
        digests_by_path(digests, n - 1).insert(digests[n - 1].0, digests[n - 1].1@)
    }
}

/// Digests that are written into a side file read back as they were: the
/// entries that hold each digest in hexadecimal give the map from each path to
/// its digest.
pub proof fn lemma_digests_round_trip(digests: Seq<(Seq<char>, [u8; 32])>, n: int)
    requires
        0 <= n <= digests.len(),
    ensures
        digests_of(Seq::new(digests.len(), |i: int| (digests[i].0, hex_text(digests[i].1@))), n)
            == Some(digests_by_path(digests, n)),
    decreases n,
{
    if n > 0 {
        lemma_digests_round_trip(digests, n - 1);
        lemma_hex_round_trip(digests[n - 1].1@);
    }
}

} // verus!
