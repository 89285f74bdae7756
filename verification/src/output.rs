//! Names of the files that rendering writes: the image, and the cache of a prepared model.

use std::io::Read;
use std::io::Write;

use sha3::Digest;
use vstd::prelude::*;
use vstd::string::StringSliceAdditionalSpecFns;

use crate::text::{chars_of, push_str, string_from_chars};

verus! {

broadcast use vstd::string::group_string_axioms;

/// The final component of a path, as `Path::file_name` gives it, if there is one and it is
/// valid Unicode.
pub uninterp spec fn path_file_name(path: Seq<char>) -> Option<Seq<char>>;

/// The debug writing of a path, quoted and escaped.
pub uninterp spec fn path_debug_text(path: Seq<char>) -> Seq<char>;

/// Calls `Path::file_name` and `OsStr::to_str`; the contract names the result.
#[verifier::external_body]
fn file_name_of(path: &str) -> (res: Option<String>)
    ensures
        match path_file_name(path@) {
            Some(f) => res matches Some(r) && r@ == f,
            None => res is None,
        },
{
    std::path::Path::new(path).file_name().and_then(|s| s.to_str()).map(|s| s.to_string())
}

/// The index of the last `.` in a text, if it has one.
pub open spec fn last_dot(s: Seq<char>, end: int) -> Option<int>
    decreases end,
{
    if end <= 0 {
        None
    } else if s[end - 1] == '.' {
        Some(end - 1)
    } else {
        last_dot(s, end - 1)
    }
}

/// The extension of a file name as the documentation of `Path::extension` gives it: none when
/// there is no `.` or the only one starts the name (or the name is `..`), and otherwise what
/// follows the last `.`.
pub open spec fn file_extension(name: Seq<char>) -> Option<Seq<char>> {
    if name == ".."@ {
        None
    } else {
        match last_dot(name, name.len() as int) {
            None => None,
            Some(k) => if k == 0 {
                None
            } else {
                Some(name.skip(k + 1))
            },
        }
    }
}

/// Calls `Path::extension` and `OsStr::to_str`. The contract states the documented extension of
/// the file name; the text of a `&str` path cuts into valid Unicode at `/` and `.`.
#[verifier::external_body]
fn extension_of(path: &str) -> (res: Option<String>)
    ensures
        match path_file_name(path@) {
            Some(f) => match file_extension(f) {
                Some(e) => res matches Some(r) && r@ == e,
                None => res is None,
            },
            None => res is None,
        },
{
    std::path::Path::new(path).extension().and_then(|s| s.to_str()).map(|s| s.to_string())
}

/// Writes a path with `Debug`; the contract names the text.
#[verifier::external_body]
fn debug_text_of(path: &str) -> (res: String)
    ensures
        res@ == path_debug_text(path@),
{
    format!("{:?}", std::path::Path::new(path))
}

/// `name` without `suffix` at its end, or `name` itself when it does not end so.
pub open spec fn without_suffix(name: Seq<char>, suffix: Seq<char>) -> Seq<char> {
    if suffix.len() <= name.len() && name.skip(name.len() - suffix.len()) == suffix {
        name.take(name.len() - suffix.len())
    } else {
        name
    }
}

/// The name of the image rendered from a scene file: in the current directory, with the
/// extension of the scene replaced by `png`; or the message that says why there is none.
pub open spec fn image_path(path: Seq<char>) -> Result<Seq<char>, Seq<char>> {
    match path_file_name(path) {
        None => Err("Can't get the file name of "@ + path_debug_text(path)),
        Some(name) => match file_extension(name) {
            None => Err("Can't get the extension of "@ + path_debug_text(path)),
            Some(ext) => Ok("./"@ + without_suffix(name, ext) + "png"@),
        },
    }
}

fn strip_suffix_chars(name: &Vec<char>, suffix: &Vec<char>) -> (res: Vec<char>)
    ensures
        res@ == without_suffix(name@, suffix@),
{
    if suffix.len() > name.len() {
        return name.clone();
    }
    let start = name.len() - suffix.len();
    let mut k: usize = 0;
    while k < suffix.len()
        invariant
            k <= suffix.len(),
            start + suffix.len() == name.len(),
            forall|m: int| 0 <= m < k ==> name@[start + m] == suffix@[m],
        decreases suffix.len() - k,
    {
        if name[start + k] != suffix[k] {
            assert(name@.skip(start as int)[k as int] != suffix@[k as int]);
            return name.clone();
        }
        k = k + 1;
    }
    assert(name@.skip(start as int) =~= suffix@);
    let mut out: Vec<char> = Vec::new();
    let mut i: usize = 0;
    while i < start
        invariant
            i <= start <= name.len(),
            out@ == name@.take(i as int),
        decreases start - i,
    {
        out.push(name[i]);
        i = i + 1;
        assert(out@ =~= name@.take(i as int));
    }
    out
}

fn error_with_path(message: &str, path: &str) -> (res: String)
    ensures
        res@ == message@ + path_debug_text(path@),
{
    let mut out: Vec<char> = Vec::new();
    push_str(&mut out, message);
    let shown = debug_text_of(path);
    push_str(&mut out, shown.as_str());
    string_from_chars(&out)
}

/// The name of the image rendered from a scene file.
pub fn output_path(path: &str) -> (res: Result<String, String>)
    ensures
        match image_path(path@) {
            Ok(p) => res matches Ok(r) && r@ == p,
            Err(m) => res matches Err(r) && r@ == m,
        },
{
    let name = match file_name_of(path) {
        Some(n) => n,
        None => {
            return Err(error_with_path("Can't get the file name of ", path));
        },
    };
    let ext = match extension_of(path) {
        Some(e) => e,
        None => {
            return Err(error_with_path("Can't get the extension of ", path));
        },
    };
    let stem = strip_suffix_chars(&chars_of(name.as_str()), &chars_of(ext.as_str()));
    let mut out: Vec<char> = Vec::new();
    push_str(&mut out, "./");
    let mut i: usize = 0;
    while i < stem.len()
        invariant
            i <= stem.len(),
            out@ == "./"@ + stem@.take(i as int),
        decreases stem.len() - i,
    {
        out.push(stem[i]);
        i = i + 1;
        assert(out@ =~= "./"@ + stem@.take(i as int));
    }
    assert(stem@.take(i as int) =~= stem@);
    push_str(&mut out, "png");
    Ok(string_from_chars(&out))
}

/// The SHA3-256 digest of some bytes.
pub uninterp spec fn sha3_256(data: Seq<u8>) -> Seq<u8>;

/// Calls `Sha3_256::digest`; the contract names the digest.
#[verifier::external_body]
fn sha3_256_of(data: &[u8]) -> (res: Vec<u8>)
    ensures
        res@ == sha3_256(data@),
{
    sha3::Sha3_256::digest(data).to_vec()
}

/// The eight bytes of a number, least significant first.
pub open spec fn le_bytes(n: nat, count: nat) -> Seq<u8>
    decreases count,
{
    if count == 0 {
        seq![]
    } else {
        seq![(n % 256) as u8] + le_bytes(n / 256, (count - 1) as nat)
    }
}

/// The bytes of a number, least significant first: byte `i` is the number divided by 256 to
/// the power `i`, modulo 256.
pub proof fn lemma_le_bytes_order(n: nat, count: nat)
    ensures
        le_bytes(n, count).len() == count,
        forall|i: int|
            0 <= i < count ==> #[trigger] le_bytes(n, count)[i] == ((n as int / vstd::arithmetic::power::pow(
                256,
                i as nat,
            )) % 256) as u8,
    decreases count,
{
    if count > 0 {
        lemma_le_bytes_order(n / 256, (count - 1) as nat);
        assert forall|i: int| 0 <= i < count implies #[trigger] le_bytes(n, count)[i] == ((n as int
            / vstd::arithmetic::power::pow(256, i as nat)) % 256) as u8 by {
            reveal(vstd::arithmetic::power::pow);
            if i == 0 {
                assert(vstd::arithmetic::power::pow(256, 0) == 1);
            } else {
                let e = (i - 1) as nat;
                assert(le_bytes(n, count)[i] == le_bytes(n / 256, (count - 1) as nat)[i - 1]);
                assert(vstd::arithmetic::power::pow(256, i as nat) == 256 * vstd::arithmetic::power::pow(
                    256,
                    e,
                ));
                vstd::arithmetic::power::lemma_pow_positive(256, e);
                vstd::arithmetic::div_mod::lemma_div_denominator(
                    n as int,
                    256,
                    vstd::arithmetic::power::pow(256, e),
                );
            }
        }
    }
}

/// The number of bytes of a `usize`.
pub open spec fn usize_bytes() -> nat {
    (usize::BITS / 8) as nat
}

/// Appends the bytes of a number as `usize::to_le_bytes` gives them.
fn push_le_bytes(out: &mut Vec<u8>, n: usize)
    ensures
        final(out)@ == old(out)@ + le_bytes(n as nat, usize_bytes()),
{
    let count: usize = (usize::BITS / 8) as usize;
    let mut v = n;
    let mut i: usize = 0;
    while i < count
        invariant
            i <= count,
            count == usize_bytes(),
            old(out)@ + le_bytes(n as nat, usize_bytes()) == out@ + le_bytes(v as nat, (count - i) as nat),
        decreases count - i,
    {
        let ghost before = out@;
        out.push((v % 256) as u8);
        assert(before + le_bytes(v as nat, (count - i) as nat) =~= out@ + le_bytes(
            (v / 256) as nat,
            (count - i - 1) as nat,
        ));
        v = v / 256;
        i = i + 1;
    }
    assert(out@ + le_bytes(v as nat, 0) =~= out@);
}

/// The lowercase hexadecimal digit for a value below sixteen.
pub open spec fn hex_digit(d: nat) -> char {
    if d < 10 {
        ((d + 48) as u8) as char
    } else {
        ((d + 87) as u8) as char
    }
}

/// Bytes in lowercase hexadecimal, two digits each, as `{:x}` writes a digest.
pub open spec fn hex_lower(bytes: Seq<u8>) -> Seq<char>
    decreases bytes.len(),
{
    if bytes.len() == 0 {
        seq![]
    } else {
        hex_lower(bytes.drop_last()) + seq![
            hex_digit((bytes.last() / 16) as nat),
            hex_digit((bytes.last() % 16) as nat),
        ]
    }
}

/// The hexadecimal text of bytes has two digits for each byte, in order, the high half of the
/// byte first.
pub proof fn lemma_hex_lower_digits(bytes: Seq<u8>)
    ensures
        hex_lower(bytes).len() == 2 * bytes.len(),
        forall|i: int|
            0 <= i < bytes.len() ==> hex_lower(bytes)[2 * i] == hex_digit((#[trigger] bytes[i] / 16) as nat)
                && hex_lower(bytes)[2 * i + 1] == hex_digit((bytes[i] % 16) as nat),
    decreases bytes.len(),
{
    if bytes.len() > 0 {
        let p = bytes.drop_last();
        lemma_hex_lower_digits(p);
        assert forall|i: int| 0 <= i < bytes.len() implies hex_lower(bytes)[2 * i] == hex_digit(
            (#[trigger] bytes[i] / 16) as nat,
        ) && hex_lower(bytes)[2 * i + 1] == hex_digit((bytes[i] % 16) as nat) by {
            if i < p.len() {
                assert(p[i] == bytes[i]);
                assert(hex_lower(bytes)[2 * i] == hex_lower(p)[2 * i]);
                assert(hex_lower(bytes)[2 * i + 1] == hex_lower(p)[2 * i + 1]);
            }
        }
    }
}

/// The digits of hexadecimal text: `0` to `9`, then `a` to `f`.
pub proof fn lemma_hex_digit_values(d: nat)
    requires
        d < 16,
    ensures
        d < 10 ==> hex_digit(d) as u32 == '0' as u32 + d,
        10 <= d ==> hex_digit(d) as u32 == 'a' as u32 + (d - 10),
{
    assert('0' as u32 == 48 && 'a' as u32 == 97);
}

fn hex_char(d: u8) -> (c: char)
    requires
        d < 16,
    ensures
        c == hex_digit(d as nat),
{
    if d < 10 {
        (d + 48) as char
    } else {
        (d + 87) as char
    }
}

/// The name of the file that caches the model read from `path` once rotated and divided: the
/// digest of the path, of the three rotation angles (as their little-endian bytes, handed in)
/// and of the division threshold (as the little-endian bytes of a `usize`), in hexadecimal.
pub open spec fn cache_name(path: Seq<u8>, rotations: Seq<u8>, bvh_threshold: usize) -> Seq<char> {
    ".rtc_"@ + hex_lower(sha3_256(path + rotations + le_bytes(bvh_threshold as nat, usize_bytes()))) + ".gz"@
}

/// The name of the file that caches a prepared model.
pub fn cache_path(path: &str, rotations: &[u8], bvh_threshold: usize) -> (res: String)
    ensures
        res@ == cache_name(path.spec_bytes(), rotations@, bvh_threshold),
{
    let mut data: Vec<u8> = Vec::new();
    let bytes = path.as_bytes();
    let mut i: usize = 0;
    while i < bytes.len()
        invariant
            i <= bytes.len(),
            data@ == bytes@.take(i as int),
        decreases bytes.len() - i,
    {
        data.push(bytes[i]);
        i = i + 1;
        assert(data@ =~= bytes@.take(i as int));
    }
    assert(bytes@.take(i as int) =~= bytes@);
    let mut j: usize = 0;
    while j < rotations.len()
        invariant
            j <= rotations.len(),
            data@ == bytes@ + rotations@.take(j as int),
        decreases rotations.len() - j,
    {
        data.push(rotations[j]);
        j = j + 1;
        assert(data@ =~= bytes@ + rotations@.take(j as int));
    }
    assert(rotations@.take(j as int) =~= rotations@);
    push_le_bytes(&mut data, bvh_threshold);
    let digest = sha3_256_of(data.as_slice());
    let mut out: Vec<char> = Vec::new();
    push_str(&mut out, ".rtc_");
    let ghost prefix = out@;
    let mut k: usize = 0;
    while k < digest.len()
        invariant
            k <= digest.len(),
            out@ == prefix + hex_lower(digest@.take(k as int)),
        decreases digest.len() - k,
    {
        let b = digest[k];
        out.push(hex_char(b / 16));
        out.push(hex_char(b % 16));
        assert(digest@.take(k + 1).drop_last() =~= digest@.take(k as int));
        assert(out@ =~= prefix + hex_lower(digest@.take(k + 1)));
        k = k + 1;
    }
    assert(digest@.take(k as int) =~= digest@);
    push_str(&mut out, ".gz");
    assert(out@ =~= cache_name(path.spec_bytes(), rotations@, bvh_threshold));
    string_from_chars(&out)
}

/// What `GzDecoder` reads from some bytes, if they are a valid gzip stream.
pub uninterp spec fn gzip_decoded(data: Seq<u8>) -> Option<Seq<u8>>;

/// What `GzEncoder` writes for some bytes at the default level: a gzip stream whose header
/// fields are fixed, so that the same bytes always give the same stream.
pub uninterp spec fn gzip_encoded(data: Seq<u8>) -> Seq<u8>;

/// Compresses bytes with `GzEncoder` at the default level into a `Vec`. The contract names the
/// compressed bytes and claims that the call succeeds and that decoding gives the input back:
/// writing into a `Vec` does not fail, and the encoder reports other errors only from its
/// compressor, which one write followed by `finish` does not misuse.
#[verifier::external_body]
fn gzip_encode(data: &[u8]) -> (res: Result<Vec<u8>, String>)
    ensures
        res is Ok,
        res matches Ok(c) ==> c@ == gzip_encoded(data@),
        res matches Ok(c) ==> gzip_decoded(c@) == Some(data@),
{
    let mut gz = flate2::write::GzEncoder::new(Vec::new(), flate2::Compression::default());
    gz.write_all(data).map_err(|e| e.to_string())?;
    gz.finish().map_err(|e| e.to_string())
}

/// Decompresses bytes with `GzDecoder`; the contract names the result, and an error carries the
/// message of the failure.
#[verifier::external_body]
fn gzip_decode(data: &[u8]) -> (res: Result<Vec<u8>, String>)
    ensures
        match gzip_decoded(data@) {
            Some(d) => res matches Ok(r) && r@ == d,
            None => res is Err,
        },
{
    let mut gz = flate2::read::GzDecoder::new(data);
    let mut out = Vec::new();
    gz.read_to_end(&mut out).map_err(|e| e.to_string())?;
    Ok(out)
}

/// Compresses a serialized model for the cache: the gzip stream of the bytes, which reads back
/// as them.
pub fn compress_cache(serialized: &[u8]) -> (res: Result<Vec<u8>, String>)
    ensures
        res is Ok,
        res matches Ok(c) ==> c@ == gzip_encoded(serialized@),
        res matches Ok(c) ==> gzip_decoded(c@) == Some(serialized@),
{
    gzip_encode(serialized)
}

/// Reads a serialized model back from the cache.
pub fn decompress_cache(compressed: &[u8]) -> (res: Result<Vec<u8>, String>)
    ensures
        match gzip_decoded(compressed@) {
            Some(d) => res matches Ok(r) && r@ == d,
            None => res is Err,
        },
{
    gzip_decode(compressed)
}

} // verus!
