//! What the user interface sees of the store: file records with the
//! content hash in hex, error texts, and the file type a text write gets.
use vstd::prelude::*;

use super::error::Error;
use super::format::{FILE_TYPE_MARKDOWN, FILE_TYPE_TEXT};
use super::store::Meta;
use crate::text::{digit_char, push_char};
use vstd::string::StringSliceAdditionalSpecFns;

verus! {

/// A file record as the user interface receives it.
#[derive(Debug, Clone)]
pub struct FileInfo {
    pub name: String,
    pub size: u64,
    pub ctime_ms: u64,
    pub mtime_ms: u64,
    pub atime_ms: u64,
    pub file_type: u16,
    /// The content hash as 64 lower-case hex digits.
    pub content_hash: String,
}

/// Two lower-case hex digits per byte, high nibble first.
pub open spec fn hex_of(bytes: Seq<u8>) -> Seq<char> {
    Seq::new(
        2 * bytes.len(),
        |i: int|
            if i % 2 == 0 {
                digit_char((bytes[i / 2] / 16) as nat)
            } else {
                digit_char((bytes[i / 2] % 16) as nat)
            },
    )
}

/// The bytes in lower-case hex.
pub fn hex_encode(bytes: &[u8]) -> (s: String)
    ensures
        s@ == hex_of(bytes@),
{
    let mut out = String::new();
    let mut i: usize = 0;
    while i < bytes.len()
        invariant
            i <= bytes@.len(),
            out@ == hex_of(bytes@.take(i as int)),
        decreases bytes@.len() - i,
    {
        let b = bytes[i];
        let hi = b >> 4;
        let lo = b & 0xf;
        proof {
            assert(hi == b / 16 && lo == b % 16) by (bit_vector)
                requires
                    hi == b >> 4,
                    lo == b & 0xf,
            ;
        }
        push_char(&mut out, hex_digit(hi));
        push_char(&mut out, hex_digit(lo));
        proof {
            assert(out@ =~= hex_of(bytes@.take(i + 1)));
        }
        i = i + 1;
    }
    proof {
        assert(bytes@.take(bytes@.len() as int) =~= bytes@);
    }
    out
}

fn hex_digit(d: u8) -> (c: char)
    requires
        d < 16,
    ensures
        c == digit_char(d as nat),
{
    if d < 10 {
        (48 + d) as char
    } else {
        (87 + d) as char
    }
}

impl FileInfo {
    /// The record of a file whose metadata is `m`.
    pub fn from_meta(m: Meta) -> (f: FileInfo)
        ensures
            f.name@ == m.name@,
            f.size == m.size,
            f.ctime_ms == m.ctime_ms,
            f.mtime_ms == m.mtime_ms,
            f.atime_ms == m.atime_ms,
            f.file_type == m.file_type,
            f.content_hash@ == hex_of(m.content_hash@),
    {
        let content_hash = hex_encode(m.content_hash.as_slice());
        FileInfo {
            name: m.name,
            size: m.size,
            ctime_ms: m.ctime_ms,
            mtime_ms: m.mtime_ms,
            atime_ms: m.atime_ms,
            file_type: m.file_type,
            content_hash,
        }
    }
}

/// The text an error reaches the user interface with.
pub fn map_err(err: Error) -> (s: String)
    ensures
        err is NotFound ==> s@ == "not found"@,
        err is AlreadyExists ==> s@ == "already exists"@,
        err is FileTooLarge ==> s@ == "file too large"@,
        err is StoreFull ==> s@ == "store full"@,
        err matches Error::InvalidName(m) ==> s@ == "invalid name: "@ + m@,
        err matches Error::Corrupt(m) ==> s@ == "corrupt: "@ + m@,
        err is Locked ==> "store locked: "@.is_prefix_of(s@),
        err is Io ==> "io: "@.is_prefix_of(s@),
{
    err.message()
}

/// `.md` as bytes.
pub open spec fn md_suffix() -> Seq<u8> {
    seq![0x2eu8, 0x6du8, 0x64u8]
}

/// The file type a text written under `name` is stored with: markdown for
/// a name ending in `.md`, plain text otherwise.
pub fn text_file_type(name: &str) -> (t: u16)
    ensures
        t == if name.spec_bytes().len() >= 3 && name.spec_bytes().subrange(
            name.spec_bytes().len() - 3,
            name.spec_bytes().len() as int,
        ) == md_suffix() {
            FILE_TYPE_MARKDOWN
        } else {
            FILE_TYPE_TEXT
        },
{
    let b = name.as_bytes();
    let n = b.len();
    if n >= 3 && b[n - 3] == 0x2e && b[n - 2] == 0x6d && b[n - 1] == 0x64 {
        assert(b@.subrange(n - 3, n as int) =~= md_suffix());
        FILE_TYPE_MARKDOWN
    } else {
        proof {
            if n >= 3 {
                let t = b@.subrange(n - 3, n as int);
                if t == md_suffix() {
                    assert(t[0] == b@[n - 3]);
                    assert(t[1] == b@[n - 2]);
                    assert(t[2] == b@[n - 1]);
                }
            }
        }
        FILE_TYPE_TEXT
    }
}

} // verus!
