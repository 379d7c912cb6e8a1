//! Small helpers: hex text, configuration digests, the file-restore path
//! syntax, the host fingerprint, and splitting a file into chunks.

use vstd::prelude::*;
use vstd::string::*;
use vstd::utf8::{decode_utf8, encode_utf8, valid_utf8};

verus! {

/// Errors of the helpers.
#[derive(Clone, Copy, Debug, PartialEq, Eq, Structural)]
pub enum ToolError {
    /// The configuration changed since it was read.
    ModifiedConfiguration,
    /// The path is not valid base64.
    InvalidBase64,
    /// The archive name is not valid UTF-8.
    InvalidUtf8,
    /// Only `.pxar.didx` archives can be browsed.
    UnsupportedArchive,
    /// The chunk size is zero or larger than the read buffer.
    BadChunkSize,
}

pub open spec fn hex_char(n: int) -> char {
    if n < 10 {
        ((n + 48) as u8) as char
    } else {
        ((n + 87) as u8) as char
    }
}

/// Lower-case hex text of `bytes`, two digits per byte.
pub open spec fn hex_of(bytes: Seq<u8>) -> Seq<char>
    decreases bytes.len(),
{
    if bytes.len() == 0 {
        Seq::empty()
    } else {
        hex_of(bytes.drop_last()) + seq![
            hex_char(bytes.last() as int / 16),
            hex_char(bytes.last() as int % 16),
        ]
    }
}

fn push_hex_digit(s: &mut String, n: u8)
    requires
        n < 16,
    ensures
        final(s)@ == old(s)@.push(hex_char(n as int)),
{
    let lit = match n {
        0 => { proof { reveal_strlit("0"); } "0" },
        1 => { proof { reveal_strlit("1"); } "1" },
        2 => { proof { reveal_strlit("2"); } "2" },
        3 => { proof { reveal_strlit("3"); } "3" },
        4 => { proof { reveal_strlit("4"); } "4" },
        5 => { proof { reveal_strlit("5"); } "5" },
        6 => { proof { reveal_strlit("6"); } "6" },
        7 => { proof { reveal_strlit("7"); } "7" },
        8 => { proof { reveal_strlit("8"); } "8" },
        9 => { proof { reveal_strlit("9"); } "9" },
        10 => { proof { reveal_strlit("a"); } "a" },
        11 => { proof { reveal_strlit("b"); } "b" },
        12 => { proof { reveal_strlit("c"); } "c" },
        13 => { proof { reveal_strlit("d"); } "d" },
        14 => { proof { reveal_strlit("e"); } "e" },
        _ => { proof { reveal_strlit("f"); } "f" },
    };
    s.append(lit);
    assert(final(s)@ =~= old(s)@.push(hex_char(n as int)));
}

/// Lower-case hex text of `bytes`.
pub fn to_hex(bytes: &[u8]) -> (r: String)
    ensures
        r@ == hex_of(bytes@),
{
    let mut r = String::new();
    let mut i: usize = 0;
    while i < bytes.len()
        invariant
            i <= bytes@.len(),
            r@ == hex_of(bytes@.subrange(0, i as int)),
        decreases bytes@.len() - i,
    {
        let b = bytes[i];
        push_hex_digit(&mut r, b / 16);
        push_hex_digit(&mut r, b % 16);
        i = i + 1;
        proof {
            let p = bytes@.subrange(0, i as int);
            assert(p.drop_last() =~= bytes@.subrange(0, i - 1));
            assert(p.last() == b);
        }
    }
    assert(bytes@.subrange(0, i as int) =~= bytes@);
    r
}

/// Fails if the digest of the configuration changed since it was read.
pub fn assert_if_modified(digest1: &str, digest2: &str) -> (r: Result<(), ToolError>)
    ensures
        r is Ok <==> digest1@ == digest2@,
        r is Err ==> r == Err::<(), ToolError>(ToolError::ModifiedConfiguration),
{
    let a = String::from_str(digest1);
    let b = String::from_str(digest2);
    if a != b {
        return Err(ToolError::ModifiedConfiguration);
    }
    Ok(())
}

/// What the base64 decoder of the `base64` crate gives for a text.
pub uninterp spec fn base64_decoded(s: Seq<char>) -> Option<Seq<u8>>;

/// Relies on `base64::decode` (standard alphabet): the bytes the text
/// encodes, or an error for text that is not base64.
#[verifier::external_body]
fn decode_base64(s: &str) -> (r: Option<Vec<u8>>)
    ensures
        r is Some <==> base64_decoded(s@) is Some,
        r is Some ==> r->Some_0@ == base64_decoded(s@)->Some_0,
{
    base64::decode(s).ok()
}

/// Relies on `String::from_utf8`: the text of valid UTF-8, an error otherwise.
#[verifier::external_body]
fn string_from_utf8(b: Vec<u8>) -> (r: Option<String>)
    ensures
        r is Some <==> valid_utf8(b@),
        r is Some ==> r->Some_0@ == decode_utf8(b@),
{
    String::from_utf8(b).ok()
}

/// A path inside a snapshot, as given to the file-restore tool.
#[derive(Debug, PartialEq, Eq)]
pub enum ExtractPath {
    /// `/`: list the archives of the snapshot.
    ListArchives,
    /// A `.pxar.didx` archive, and the path inside it.
    Pxar(String, Vec<u8>),
}

pub open spec fn strip_leading_slashes(b: Seq<u8>) -> Seq<u8>
    decreases b.len(),
{
    if b.len() > 0 && b[0] == 47u8 {
        strip_leading_slashes(b.drop_first())
    } else {
        b
    }
}

/// Index of the first `/` in `b`, or its length.
pub open spec fn first_slash(b: Seq<u8>) -> int
    decreases b.len(),
{
    if b.len() == 0 {
        0
    } else if b[0] == 47u8 {
        0
    } else {
        1 + first_slash(b.drop_first())
    }
}

pub open spec fn pxar_didx_suffix() -> Seq<u8> {
    seq![46u8, 112u8, 120u8, 97u8, 114u8, 46u8, 100u8, 105u8, 100u8, 120u8]
}

pub open spec fn ends_with(b: Seq<u8>, suffix: Seq<u8>) -> bool {
    b.len() >= suffix.len() && b.subrange(b.len() - suffix.len(), b.len() as int) == suffix
}

/// How a path in bytes is read: `/` lists the archives; otherwise, after
/// leading slashes, the first component names an archive and the rest is
/// the path inside it.
pub open spec fn parse_path_bytes(b: Seq<u8>) -> Result<(Seq<char>, Seq<u8>), ToolError> {
    let s = strip_leading_slashes(b);
    let pos = first_slash(s);
    let file = s.subrange(0, pos);
    if !valid_utf8(file) {
        Err(ToolError::InvalidUtf8)
    } else if ends_with(file, pxar_didx_suffix()) {
        Ok((decode_utf8(file), s.subrange(pos, s.len() as int)))
    } else {
        Err(ToolError::UnsupportedArchive)
    }
}

pub open spec fn is_root(b: Seq<u8>) -> bool {
    b == seq![47u8]
}

#[verifier::rlimit(60)]
fn split_path(bytes: Vec<u8>) -> (r: Result<ExtractPath, ToolError>)
    ensures
        is_root(bytes@) ==> r == Ok::<ExtractPath, ToolError>(ExtractPath::ListArchives),
        !is_root(bytes@) ==> match parse_path_bytes(bytes@) {
            Err(e) => r == Err::<ExtractPath, ToolError>(e),
            Ok((name, rest)) => r matches Ok(ExtractPath::Pxar(f, p)) && f@ == name && p@ == rest,
        },
{
    if bytes.len() == 1 && bytes[0] == 47u8 {
        assert(bytes@ =~= seq![47u8]);
        return Ok(ExtractPath::ListArchives);
    }
    let mut start: usize = 0;
    assert(bytes@.subrange(0, bytes@.len() as int) =~= bytes@);
    while start < bytes.len() && bytes[start] == 47u8
        invariant
            start <= bytes@.len(),
            strip_leading_slashes(bytes@) == strip_leading_slashes(
                bytes@.subrange(start as int, bytes@.len() as int),
            ),
        decreases bytes@.len() - start,
    {
        proof {
            let t = bytes@.subrange(start as int, bytes@.len() as int);
            assert(t.drop_first() =~= bytes@.subrange(start + 1, bytes@.len() as int));
        }
        start = start + 1;
    }
    let ghost s = bytes@.subrange(start as int, bytes@.len() as int);
    assert(strip_leading_slashes(s) == s);
    let mut pos: usize = start;
    while pos < bytes.len() && bytes[pos] != 47u8
        invariant
            start <= pos <= bytes@.len(),
            s == bytes@.subrange(start as int, bytes@.len() as int),
            first_slash(s) == (pos - start) + first_slash(bytes@.subrange(pos as int, bytes@.len() as int)),
        decreases bytes@.len() - pos,
    {
        proof {
            let t = bytes@.subrange(pos as int, bytes@.len() as int);
            assert(t.drop_first() =~= bytes@.subrange(pos + 1, bytes@.len() as int));
        }
        pos = pos + 1;
    }
    let mut file: Vec<u8> = Vec::new();
    let mut i: usize = start;
    while i < pos
        invariant
            start <= i <= pos <= bytes@.len(),
            file@ == bytes@.subrange(start as int, i as int),
        decreases pos - i,
    {
        file.push(bytes[i]);
        i = i + 1;
        assert(file@ =~= bytes@.subrange(start as int, i as int));
    }
    let mut rest: Vec<u8> = Vec::new();
    let mut j: usize = pos;
    while j < bytes.len()
        invariant
            pos <= j <= bytes@.len(),
            rest@ == bytes@.subrange(pos as int, j as int),
        decreases bytes@.len() - j,
    {
        rest.push(bytes[j]);
        j = j + 1;
        assert(rest@ =~= bytes@.subrange(pos as int, j as int));
    }
    assert(file@ =~= s.subrange(0, first_slash(s)));
    assert(rest@ =~= s.subrange(first_slash(s), s.len() as int));
    let n = file.len();
    let suffix_ok = n >= 10 && file[n - 10] == 46u8 && file[n - 9] == 112u8 && file[n - 8] == 120u8
        && file[n - 7] == 97u8 && file[n - 6] == 114u8 && file[n - 5] == 46u8 && file[n - 4] == 100u8
        && file[n - 3] == 105u8 && file[n - 2] == 100u8 && file[n - 1] == 120u8;
    proof {
        let f = file@;
        if suffix_ok {
            assert(f.subrange(f.len() - 10, f.len() as int) =~= pxar_didx_suffix());
        } else if f.len() >= 10 {
            let sub = f.subrange(f.len() - 10, f.len() as int);
            assert(sub[0] == f[n - 10]);
            assert(sub[1] == f[n - 9]);
            assert(sub[2] == f[n - 8]);
            assert(sub[3] == f[n - 7]);
            assert(sub[4] == f[n - 6]);
            assert(sub[5] == f[n - 5]);
            assert(sub[6] == f[n - 4]);
            assert(sub[7] == f[n - 3]);
            assert(sub[8] == f[n - 2]);
            assert(sub[9] == f[n - 1]);
        }
    }
    let name = match string_from_utf8(file) {
        Some(name) => name,
        None => {
            return Err(ToolError::InvalidUtf8);
        },
    };
    if suffix_ok {
        Ok(ExtractPath::Pxar(name, rest))
    } else {
        Err(ToolError::UnsupportedArchive)
    }
}

/// Reads a path of the file-restore tool, given as text or, if `base64`
/// is set, as base64 of its bytes.
pub fn parse_path(path: String, base64: bool) -> (r: Result<ExtractPath, ToolError>)
    ensures
        base64 && base64_decoded(path@) is None ==> r == Err::<ExtractPath, ToolError>(
            ToolError::InvalidBase64,
        ),
        ({
            let bytes = if base64 {
                base64_decoded(path@)->Some_0
            } else {
                encode_utf8(path@)
            };
            (!base64 || base64_decoded(path@) is Some) ==> {
                &&& is_root(bytes) ==> r == Ok::<ExtractPath, ToolError>(ExtractPath::ListArchives)
                &&& !is_root(bytes) ==> match parse_path_bytes(bytes) {
                    Err(e) => r == Err::<ExtractPath, ToolError>(e),
                    Ok((name, rest)) => r matches Ok(ExtractPath::Pxar(f, p)) && f@ == name && p@
                        == rest,
                }
            }
        }),
{
    let bytes = if base64 {
        match decode_base64(path.as_str()) {
            Some(b) => b,
            None => {
                return Err(ToolError::InvalidBase64);
            },
        }
    } else {
        path.as_str().as_bytes_vec()
    };
    split_path(bytes)
}

/// The MD5 digest of a byte string, as computed by the `md5` crate.
pub uninterp spec fn md5_digest(b: Seq<u8>) -> Seq<u8>;

/// Relies on `md5::compute`: the 16-byte MD5 digest of the input.
#[verifier::external_body]
fn md5_of(b: &[u8]) -> (r: [u8; 16])
    ensures
        r@ == md5_digest(b@),
{
    md5::compute(b).0
}

/// The host fingerprint: lower-case hex of the MD5 digest of the host's
/// public SSH key file.
pub fn hardware_address_of(key_file: &[u8]) -> (r: String)
    ensures
        r@ == hex_of(md5_digest(key_file@)),
{
    let digest = md5_of(key_file);
    to_hex(&digest)
}

/// Size of the buffer a file is read into for chunking.
pub const READ_BUFFER_SIZE: usize = 4194304;

/// Whether a chunk size can be used for chunking a file.
pub fn check_chunk_size(chunk_size: usize) -> (r: Result<(), ToolError>)
    ensures
        r is Err <==> chunk_size == 0 || chunk_size > READ_BUFFER_SIZE,
        r is Err ==> r == Err::<(), ToolError>(ToolError::BadChunkSize),
{
    if chunk_size == 0 || chunk_size > READ_BUFFER_SIZE {
        return Err(ToolError::BadChunkSize);
    }
    Ok(())
}

/// Offsets and lengths of the chunks of a file of `len` bytes: equal chunks
/// of `chunk_size` bytes, the last one possibly shorter.
pub fn chunk_ranges(len: usize, chunk_size: usize) -> (r: Result<Vec<(usize, usize)>, ToolError>)
    ensures
        r is Err <==> chunk_size == 0 || chunk_size > READ_BUFFER_SIZE,
        r is Err ==> r == Err::<Vec<(usize, usize)>, ToolError>(ToolError::BadChunkSize),
        r is Ok ==> {
            let v = r->Ok_0@;
            &&& forall|i: int|
                0 <= i < v.len() ==> (#[trigger] v[i]).0 == i * chunk_size && v[i].1 == if len - v[i].0
                    < chunk_size {
                    len - v[i].0
                } else {
                    chunk_size as int
                }
            &&& forall|i: int| 0 <= i < v.len() ==> (#[trigger] v[i]).0 < len
            &&& v.len() * chunk_size >= len
        },
{
    if chunk_size == 0 || chunk_size > READ_BUFFER_SIZE {
        return Err(ToolError::BadChunkSize);
    }
    let mut v: Vec<(usize, usize)> = Vec::new();
    let mut pos: usize = 0;
    while pos < len
        invariant
            0 < chunk_size <= READ_BUFFER_SIZE,
            pos <= len,
            pos == len || pos == v@.len() * chunk_size,
            v@.len() * chunk_size >= pos,
            forall|i: int|
                0 <= i < v@.len() ==> (#[trigger] v@[i]).0 == i * chunk_size && v@[i].1 == if len
                    - v@[i].0 < chunk_size {
                    len - v@[i].0
                } else {
                    chunk_size as int
                },
            forall|i: int| 0 <= i < v@.len() ==> (#[trigger] v@[i]).0 < len,
        decreases len - pos,
    {
        let size = if len - pos < chunk_size {
            len - pos
        } else {
            chunk_size
        };
        v.push((pos, size));
        proof {
            assert(v@.len() * chunk_size == (v@.len() - 1) * chunk_size + chunk_size) by (nonlinear_arith);
        }
        if len - pos <= chunk_size {
            pos = len;
        } else {
            pos = pos + chunk_size;
        }
    }
    Ok(v)
}

pub open spec fn is_hex_digit(c: char) -> bool {
    ('0' <= c && c <= '9') || ('a' <= c && c <= 'f') || ('A' <= c && c <= 'F')
}

pub open spec fn hex_value(c: char) -> int {
    if '0' <= c && c <= '9' {
        (c as u32) as int - 48
    } else if 'a' <= c && c <= 'f' {
        (c as u32) as int - 87
    } else {
        (c as u32) as int - 55
    }
}

fn hex_digit_value(c: char) -> (r: Option<u8>)
    ensures
        r is Some <==> is_hex_digit(c),
        r is Some ==> r->Some_0 as int == hex_value(c) && r->Some_0 < 16,
{
    if '0' <= c && c <= '9' {
        Some((c as u32 - 48) as u8)
    } else if 'a' <= c && c <= 'f' {
        Some((c as u32 - 87) as u8)
    } else if 'A' <= c && c <= 'F' {
        Some((c as u32 - 55) as u8)
    } else {
        None
    }
}

/// Reads a 32-byte digest written as 64 hex digits (either case).
pub fn hex_to_digest(s: &str) -> (r: Option<[u8; 32]>)
    ensures
        r is Some <==> s@.len() == 64 && forall|i: int| 0 <= i < 64 ==> is_hex_digit(#[trigger] s@[i]),
        r is Some ==> forall|k: int|
            0 <= k < 32 ==> (#[trigger] r->Some_0@[k]) as int == hex_value(s@[2 * k]) * 16
                + hex_value(s@[2 * k + 1]),
{
    if s.unicode_len() != 64 {
        return None;
    }
    let mut digest = [0u8; 32];
    let mut k: usize = 0;
    while k < 32
        invariant
            k <= 32,
            s@.len() == 64,
            digest@.len() == 32,
            forall|i: int| 0 <= i < 2 * k ==> is_hex_digit(#[trigger] s@[i]),
            forall|j: int|
                0 <= j < k ==> (#[trigger] digest@[j]) as int == hex_value(s@[2 * j]) * 16
                    + hex_value(s@[2 * j + 1]),
        decreases 32 - k,
    {
        let hi = match hex_digit_value(s.get_char(2 * k)) {
            Some(v) => v,
            None => {
                return None;
            },
        };
        let lo = match hex_digit_value(s.get_char(2 * k + 1)) {
            Some(v) => v,
            None => {
                return None;
            },
        };
        digest.set(k, hi * 16 + lo);
        k = k + 1;
    }
    Some(digest)
}

} // verus!
