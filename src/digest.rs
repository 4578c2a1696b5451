//! Integrity of downloaded corpus files (a SHA-256 digest against the hex
//! string of a manifest) and the JSON lists stored in the lookup tables.
use vstd::prelude::*;
use sha2::{Digest, Sha256};
use crate::text::{chars_of, string_rows};

verus! {

/// The SHA-256 digest of `b`.
pub uninterp spec fn sha256_of(b: Seq<u8>) -> Seq<u8>;

/// Relies on `sha2::Sha256::digest`: the 32-byte digest of the bytes.
#[verifier::external_body]
fn sha256_digest(b: &Vec<u8>) -> (r: Vec<u8>)
    ensures
        r@ == sha256_of(b@),
        r@.len() == 32,
{
    Sha256::digest(b.as_slice()).to_vec()
}

/// The lowercase hexadecimal digit of `n` (below 16).
pub open spec fn hex_digit(n: int) -> char {
    if n < 10 {
        (('0' as int) + n) as char
    } else {
        (('a' as int) + n - 10) as char
    }
}

/// Two lowercase hexadecimal digits per byte, high nibble first.
pub open spec fn hex_of(b: Seq<u8>) -> Seq<char>
    decreases b.len(),
{
    if b.len() == 0 {
        seq![]
    } else {
        hex_of(b.drop_last()).push(hex_digit(b.last() as int / 16)).push(hex_digit(b.last() as int % 16))
    }
}

/// Relies on `hex::encode`: two lowercase digits per byte, high nibble first.
#[verifier::external_body]
fn to_hex(b: &Vec<u8>) -> (r: String)
    ensures
        r@ == hex_of(b@),
{
    hex::encode(b)
}

/// A manifest hash without its optional `sha256:` tag.
pub open spec fn hash_text(e: Seq<char>) -> Seq<char> {
    if e.len() >= 7 && e.take(7) == "sha256:"@ {
        e.skip(7)
    } else {
        e
    }
}

/// Whether the digest, written in hex, is the expected hash.
pub fn digest_matches(digest: &Vec<u8>, expected_hash: &str) -> (r: bool)
    ensures
        r == (hex_of(digest@) == hash_text(expected_hash@)),
{
    let actual = to_hex(digest);
    let a = chars_of(actual.as_str());
    let e = chars_of(expected_hash);
    let tag = chars_of("sha256:");
    proof {
        reveal_strlit("sha256:");
    }
    let mut from: usize = 0;
    if e.len() >= 7 {
        let mut same = true;
        let mut i: usize = 0;
        while i < 7
            invariant
                e@.len() >= 7,
                tag@ == "sha256:"@,
                tag@.len() == 7,
                i <= 7,
                same == (forall|k: int| 0 <= k < i ==> e@[k] == tag@[k]),
            decreases 7 - i,
        {
            if e[i] != tag[i] {
                same = false;
            }
            i = i + 1;
        }
        if same {
            assert(e@.take(7) =~= tag@);
            from = 7;
        } else {
            assert(e@.take(7) != tag@) by {
                let k = choose|k: int| 0 <= k < 7 && e@[k] != tag@[k];
                assert(e@.take(7)[k] != tag@[k]);
            }
        }
    }
    let ghost want = hash_text(expected_hash@);
    assert(want =~= e@.subrange(from as int, e@.len() as int));
    let elen = e.len();
    if a.len() != elen - from {
        return false;
    }
    let mut i: usize = 0;
    while i < a.len()
        invariant
            elen == e@.len(),
            from + a@.len() == elen,
            want == hash_text(expected_hash@),
            i <= a@.len(),
            a@ == hex_of(digest@),
            from <= e@.len(),
            want == e@.subrange(from as int, e@.len() as int),
            a@.len() == want.len(),
            forall|k: int| 0 <= k < i ==> a@[k] == want[k],
        decreases a@.len() - i,
    {
        if a[i] != e[from + i] {
            assert(a@[i as int] != want[i as int]);
            return false;
        }
        i = i + 1;
    }
    assert(a@ =~= want);
    true
}

/// Whether `contents` has the expected SHA-256 hash (hex, optionally tagged
/// `sha256:`).
pub fn file_hash_matches(contents: &Vec<u8>, expected_hash: &str) -> (r: bool)
    ensures
        r == (hex_of(sha256_of(contents@)) == hash_text(expected_hash@)),
{
    let digest = sha256_digest(contents);
    digest_matches(&digest, expected_hash)
}

/// The list of strings a JSON array text holds, or `None` when the text is
/// not such an array.
pub uninterp spec fn json_string_list(s: Seq<char>) -> Option<Seq<Seq<char>>>;

/// Relies on `serde_json::from_str` for `Vec<String>`: the strings of a JSON
/// array of strings, or an error.
#[verifier::external_body]
fn parse_string_list(json: &str) -> (r: Option<Vec<String>>)
    ensures
        r matches Some(v) ==> json_string_list(json@) == Some(string_rows(v@)),
        r is None ==> json_string_list(json@) is None,
{
    match serde_json::from_str::<Vec<String>>(json) {
        Ok(v) => Some(v),
        Err(_) => None,
    }
}

/// The features a feature-set row stores as JSON; a row that does not parse
/// has none.
pub fn feature_list(json: &str) -> (r: Vec<String>)
    ensures
        string_rows(r@) == match json_string_list(json@) {
            Some(v) => v,
            None => seq![],
        },
{
    match parse_string_list(json) {
        Some(v) => v,
        None => {
            let v: Vec<String> = Vec::new();
            assert(string_rows(v@) =~= Seq::<Seq<char>>::empty());
            v
        },
    }
}

} // verus!
