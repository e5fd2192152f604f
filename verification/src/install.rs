//! Fetching and checking package archives: where an archive is cached and whether
//! its bytes match the expected SHA-256 digest.

use vstd::prelude::*;

use sha2::{Digest, Sha256};

use crate::num::{hex_lower, hex_lower_of};
use crate::text::{
    all_ascii, ascii_lowered, chars_eq, chars_of, first_index, join_path, lowercase, path_join, split, split_chars,
    string_from, to_lowercase, views,
};

verus! {

broadcast use vstd::string::group_string_axioms;

/// The SHA-256 digest of `data`, as the `sha2` crate computes it.
pub uninterp spec fn sha256_of(data: Seq<u8>) -> Seq<u8>;

/// Calls `sha2::Sha256::digest` (through `Digest`) and copies the digest into a
/// `Vec`. Claims only that the bytes are `sha256_of(data)`, a name for the SHA-256
/// function that nothing here defines, and that there are 32 of them, as the
/// output type `GenericArray<u8, U32>` fixes.
#[verifier::external_body]
fn sha256_digest(data: &[u8]) -> (res: Vec<u8>)
    ensures
        res@ == sha256_of(data@),
        res@.len() == 32,
{
    Sha256::digest(data).to_vec()
}

/// The lowercase hexadecimal SHA-256 digest of `data`.
pub fn sha256_hex(data: &[u8]) -> (res: String)
    ensures
        res@ == hex_lower(sha256_of(data@)),
{
    let d = sha256_digest(data);
    let h = hex_lower_of(d.as_slice());
    string_from(h.as_slice())
}

/// Whether the SHA-256 digest of `data`, in lowercase hexadecimal, equals
/// `expected` lowercased: the check applied to a downloaded archive's bytes.
pub fn verify_sha256(data: &[u8], expected: &str) -> (res: bool)
    ensures
        res == (hex_lower(sha256_of(data@)) == lowercase(expected@)),
        all_ascii(expected@) ==> res == (hex_lower(sha256_of(data@)) == ascii_lowered(
            expected@,
        )),
{
    let h = sha256_hex(data);
    let e = to_lowercase(expected);
    let hc = chars_of(h.as_str());
    let ec = chars_of(e.as_str());
    chars_eq(hc.as_slice(), ec.as_slice())
}

/// The directory where downloaded archives are cached.
pub fn cache_dir() -> (res: String)
    ensures
        res@ == "/var/cache/sbpm"@,
{
    "/var/cache/sbpm".to_string()
}

/// The last `/`-separated piece of `url`: the name an archive is cached under.
pub open spec fn url_file_name(url: Seq<char>) -> Seq<char> {
    split(url, '/').last()
}

/// The name an archive downloaded from `url` is cached under.
pub fn download_file_name(url: &str) -> (res: String)
    ensures
        res@ == url_file_name(url@),
{
    let u = chars_of(url);
    let pieces = split_chars(u.as_slice(), '/');
    proof {
        lemma_split_nonempty(u@, '/');
    }
    let last = pieces.len() - 1;
    assert(views(pieces@)[last as int] == pieces@[last as int]@);
    string_from(pieces[last].as_slice())
}

proof fn lemma_split_nonempty(s: Seq<char>, c: char)
    ensures
        split(s, c).len() > 0,
    decreases s.len(),
{
    let k = first_index(s, c);
    if k < s.len() {
        lemma_split_nonempty(s.skip(k + 1int), c);
    }
}

/// Where an archive downloaded from `url` is cached.
pub fn cached_archive_path(url: &str) -> (res: String)
    ensures
        res@ == path_join("/var/cache/sbpm"@, url_file_name(url@)),
{
    let dir = cache_dir();
    let name = download_file_name(url);
    join_path(dir.as_str(), name.as_str())
}

/// The directory an archive of package `name` is unpacked into.
pub fn extract_dir(name: &str) -> (res: String)
    ensures
        res@ == path_join("/tmp/sbpm-extract"@, name@),
{
    let base = "/tmp/sbpm-extract".to_string();
    join_path(base.as_str(), name)
}

/// The extension of a file name as `Path::extension` sees it: the text after the
/// last `.`, when that `.` is not the first character.
pub open spec fn extension(file_name: Seq<char>) -> Option<Seq<char>> {
    let pieces = split(file_name, '.');
    if pieces.len() > 1 && file_name != ".."@ && pieces.last().len() < file_name.len() - 1 {
        Some(pieces.last())
    } else {
        None
    }
}


/// Whether `file_name` has the extension `swell`.
pub fn is_swell_archive(file_name: &str) -> (res: bool)
    ensures
        res == (extension(file_name@) == Some("swell"@)),
{
    let f = chars_of(file_name);
    let pieces = split_chars(f.as_slice(), '.');
    let dots = chars_of("..");
    let swell = chars_of("swell");
    if pieces.len() <= 1 || chars_eq(f.as_slice(), dots.as_slice()) {
        return false;
    }
    let last = &pieces[pieces.len() - 1];
    assert(views(pieces@).last() == last@);
    if f.len() == 0 || last.len() >= f.len() - 1 {
        return false;
    }
    chars_eq(last.as_slice(), swell.as_slice())
}

} // verus!
