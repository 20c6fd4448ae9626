//! On-disk layout of `header.bin` and `data.bin`: constants, records and
//! their little-endian encodings with CRC32C checksums.
use vstd::prelude::*;
use vstd::bytes::*;
use vstd::slice::slice_subrange;
use vstd::utf8::{valid_utf8, encode_utf8};
use vstd::array::spec_array_fill_for_copy_type;

use super::error::{Error, Result};
use crate::text::{hex_alt, decimal, push_hex_alt, text_then_decimal};

verus! {

pub const FORMAT_VERSION: u16 = 1;
pub const SUPERBLOCK_SIZE: u64 = 4096;
pub const ENTRY_SIZE: u32 = 512;
pub const CHUNK_SIZE: u32 = 4096;
pub const COMMIT_SIZE: u64 = 4096;
pub const DEFAULT_ENTRY_COUNT: u32 = 65_536;
pub const MAX_NAME_LEN: usize = 255;
pub const MAX_FILE_SIZE: u64 = 256 * 1024 * 1024;
pub const MAX_CHUNK_COUNT: u32 = 8_388_608;

/// `YFS1` read as a little-endian `u32`.
pub const MAGIC_YFS1: u32 = 0x3153_4659;
/// `ENT1` read as a little-endian `u32`.
pub const MAGIC_ENT1: u32 = 0x3154_4E45;
/// `FREE` read as a little-endian `u32`.
pub const MAGIC_FREE: u32 = 0x4545_5246;
/// `FEXT` read as a little-endian `u32`.
pub const MAGIC_FEXT: u32 = 0x5458_4546;
/// `CMT1` read as a little-endian `u32`.
pub const MAGIC_CMT1: u32 = 0x3154_4D43;

pub const FLAG_NEEDS_REPAIR: u16 = 1;
pub const ENTRY_FLAG_TOMBSTONE: u16 = 1;
pub const ENTRY_FLAG_DIR_HINT: u16 = 2;

pub const FILE_TYPE_BLOB: u16 = 0;
pub const FILE_TYPE_TEXT: u16 = 1;
pub const FILE_TYPE_MARKDOWN: u16 = 2;

pub const NIL: u32 = 0xFFFF_FFFF;

// ---------------------------------------------------------------------------
// Checksums and content hashes (outside crates).

/// The CRC-32C of `data`, continued from the running value `crc`: what
/// `crc32c::crc32c_append(crc, data)` returns.
pub uninterp spec fn spec_crc32c_append(crc: u32, data: Seq<u8>) -> u32;

/// The CRC-32C of `data` from scratch.
pub open spec fn spec_crc32c(data: Seq<u8>) -> u32 {
    spec_crc32c_append(0, data)
}

/// Calls `crc32c::crc32c`. The crate documents (and its source shows) that
/// this equals `crc32c_append(0, data)`; nothing more is claimed.
#[verifier::external_body]
pub(crate) fn crc32c(data: &[u8]) -> (r: u32)
    ensures
        r == spec_crc32c_append(0, data@),
{
    crc32c::crc32c(data)
}

/// Calls `crc32c::crc32c_append`; its result is named, not described.
#[verifier::external_body]
pub(crate) fn crc32c_append(crc: u32, data: &[u8]) -> (r: u32)
    ensures
        r == spec_crc32c_append(crc, data@),
{
    crc32c::crc32c_append(crc, data)
}

/// The BLAKE3 digest of `data`: what `blake3::hash(data).as_bytes()` holds.
pub uninterp spec fn spec_blake3_hash(data: Seq<u8>) -> Seq<u8>;

/// Calls `blake3::hash` and copies out its 32 bytes; the digest is named,
/// not described.
#[verifier::external_body]
fn blake3_hash(data: &[u8]) -> (r: [u8; 32])
    ensures
        r@ == spec_blake3_hash(data@),
{
    *blake3::hash(data).as_bytes()
}

/// `n` zero bytes.
pub open spec fn zeros(n: nat) -> Seq<u8> {
    Seq::new(n, |_i: int| 0u8)
}

/// The stored content hash of a file body: all zeros for an empty body,
/// else its BLAKE3 digest.
pub open spec fn spec_content_hash(data: Seq<u8>) -> Seq<u8> {
    if data.len() == 0 {
        zeros(32)
    } else {
        spec_blake3_hash(data)
    }
}

pub fn content_hash(data: &[u8]) -> (r: [u8; 32])
    ensures
        r@ == spec_content_hash(data@),
{
    if data.len() == 0 {
        let z = [0u8; 32];
        assert(z@ =~= zeros(32));
        z
    } else {
        blake3_hash(data)
    }
}

/// What a std `SystemTime` gives: milliseconds since the Unix epoch, or
/// `None` when the clock is before the epoch.
#[verifier::external_body]
fn millis_since_epoch() -> Option<u128> {
    std::time::SystemTime::now()
        .duration_since(std::time::UNIX_EPOCH)
        .ok()
        .map(|d| d.as_millis())
}

/// The wall clock in Unix milliseconds (0 before the epoch).
pub fn now_ms() -> u64 {
    match millis_since_epoch() {
        Some(ms) => {
            #[verifier::truncate]
            (ms as u64)
        },
        None => 0,
    }
}

// ---------------------------------------------------------------------------
// Little-endian helpers.

pub open spec fn le16(x: u16) -> Seq<u8> {
    spec_u16_to_le_bytes(x)
}

pub open spec fn le32(x: u32) -> Seq<u8> {
    spec_u32_to_le_bytes(x)
}

pub open spec fn le64(x: u64) -> Seq<u8> {
    spec_u64_to_le_bytes(x)
}

pub open spec fn le16_at(s: Seq<u8>, off: int) -> u16 {
    spec_u16_from_le_bytes(s.subrange(off, off + 2))
}

pub open spec fn le32_at(s: Seq<u8>, off: int) -> u32 {
    spec_u32_from_le_bytes(s.subrange(off, off + 4))
}

pub open spec fn le64_at(s: Seq<u8>, off: int) -> u64 {
    spec_u64_from_le_bytes(s.subrange(off, off + 8))
}

pub proof fn lemma_le_lengths()
    ensures
        forall|x: u16| #[trigger] le16(x).len() == 2 && spec_u16_from_le_bytes(le16(x)) == x,
        forall|x: u32| #[trigger] le32(x).len() == 4 && spec_u32_from_le_bytes(le32(x)) == x,
        forall|x: u64| #[trigger] le64(x).len() == 8 && spec_u64_from_le_bytes(le64(x)) == x,
{
    lemma_auto_spec_u16_to_from_le_bytes();
    lemma_auto_spec_u32_to_from_le_bytes();
    lemma_auto_spec_u64_to_from_le_bytes();
    assert forall|x: u16| #[trigger] le16(x).len() == 2 && spec_u16_from_le_bytes(le16(x)) == x by {
        assert(spec_u16_to_le_bytes(x).len() == 2);
    }
    assert forall|x: u32| #[trigger] le32(x).len() == 4 && spec_u32_from_le_bytes(le32(x)) == x by {
        assert(spec_u32_to_le_bytes(x).len() == 4);
    }
    assert forall|x: u64| #[trigger] le64(x).len() == 8 && spec_u64_from_le_bytes(le64(x)) == x by {
        assert(spec_u64_to_le_bytes(x).len() == 8);
    }
}

fn push_u16(buf: &mut Vec<u8>, x: u16)
    ensures
        final(buf)@ == old(buf)@ + le16(x),
{
    let mut b = u16_to_le_bytes(x);
    buf.append(&mut b);
}

fn push_u32(buf: &mut Vec<u8>, x: u32)
    ensures
        final(buf)@ == old(buf)@ + le32(x),
{
    let mut b = u32_to_le_bytes(x);
    buf.append(&mut b);
}

fn push_u64(buf: &mut Vec<u8>, x: u64)
    ensures
        final(buf)@ == old(buf)@ + le64(x),
{
    let mut b = u64_to_le_bytes(x);
    buf.append(&mut b);
}

pub(crate) fn push_bytes(buf: &mut Vec<u8>, bytes: &[u8])
    ensures
        final(buf)@ == old(buf)@ + bytes@,
{
    let ghost start = buf@;
    let mut i: usize = 0;
    while i < bytes.len()
        invariant
            i <= bytes@.len(),
            buf@ == start + bytes@.subrange(0, i as int),
        decreases bytes@.len() - i,
    {
        buf.push(bytes[i]);
        i = i + 1;
        assert(buf@ =~= start + bytes@.subrange(0, i as int));
    }
    assert(bytes@.subrange(0, i as int) =~= bytes@);
}

fn push_zeros(buf: &mut Vec<u8>, n: usize)
    ensures
        final(buf)@ == old(buf)@ + zeros(n as nat),
{
    let ghost start = buf@;
    let mut i: usize = 0;
    while i < n
        invariant
            i <= n,
            buf@ == start + zeros(i as nat),
        decreases n - i,
    {
        buf.push(0u8);
        i = i + 1;
        assert(buf@ =~= start + zeros(i as nat));
    }
}

fn read_u16(buf: &[u8], off: usize) -> (x: u16)
    requires
        off + 2 <= buf@.len(),
    ensures
        x == le16_at(buf@, off as int),
{
    let _len = buf.len();
    u16_from_le_bytes(slice_subrange(buf, off, off + 2))
}

fn read_u32(buf: &[u8], off: usize) -> (x: u32)
    requires
        off + 4 <= buf@.len(),
    ensures
        x == le32_at(buf@, off as int),
{
    let _len = buf.len();
    u32_from_le_bytes(slice_subrange(buf, off, off + 4))
}

fn read_u64(buf: &[u8], off: usize) -> (x: u64)
    requires
        off + 8 <= buf@.len(),
    ensures
        x == le64_at(buf@, off as int),
{
    let _len = buf.len();
    u64_from_le_bytes(slice_subrange(buf, off, off + 8))
}

fn to_array_4096(v: &Vec<u8>) -> (a: [u8; 4096])
    requires
        v@.len() == 4096,
    ensures
        a@ == v@,
{
    let mut a = [0u8; 4096];
    let mut i: usize = 0;
    while i < 4096
        invariant
            i <= 4096,
            v@.len() == 4096,
            a@.len() == 4096,
            forall|k: int| 0 <= k < i ==> a@[k] == v@[k],
        decreases 4096 - i,
    {
        a[i] = v[i];
        i = i + 1;
    }
    assert(a@ =~= v@);
    a
}

fn to_array_512(v: &Vec<u8>) -> (a: [u8; 512])
    requires
        v@.len() == 512,
    ensures
        a@ == v@,
{
    let mut a = [0u8; 512];
    let mut i: usize = 0;
    while i < 512
        invariant
            i <= 512,
            v@.len() == 512,
            a@.len() == 512,
            forall|k: int| 0 <= k < i ==> a@[k] == v@[k],
        decreases 512 - i,
    {
        a[i] = v[i];
        i = i + 1;
    }
    assert(a@ =~= v@);
    a
}

fn to_array_16(v: &Vec<u8>) -> (a: [u8; 16])
    requires
        v@.len() == 16,
    ensures
        a@ == v@,
{
    let mut a = [0u8; 16];
    let mut i: usize = 0;
    while i < 16
        invariant
            i <= 16,
            v@.len() == 16,
            a@.len() == 16,
            forall|k: int| 0 <= k < i ==> a@[k] == v@[k],
        decreases 16 - i,
    {
        a[i] = v[i];
        i = i + 1;
    }
    assert(a@ =~= v@);
    a
}

/// A `Corrupt` error holding `msg`.
pub open spec fn is_corrupt_with<T>(r: Result<T>, msg: Seq<char>) -> bool {
    r matches Err(Error::Corrupt(s)) && s@ == msg
}

fn corrupt(msg: &str) -> (e: Error)
    ensures
        e matches Error::Corrupt(s) && s@ == msg@,
{
    Error::Corrupt(String::from_str(msg))
}

// ---------------------------------------------------------------------------
// Superblock.

#[derive(Debug, Clone, Copy)]
pub struct Superblock {
    pub magic: u32,
    pub format_version: u16,
    pub flags: u16,
    pub entry_size: u32,
    pub entry_count: u32,
    pub chunk_size: u32,
    pub chunk_count: u32,
    pub store_epoch: u64,
    pub free_entry_head: u32,
    pub free_chunk_head: u32,
    pub active_side: u32,
}

/// The 44 checksummed bytes of a superblock.
pub open spec fn superblock_body(sb: Superblock) -> Seq<u8> {
    le32(sb.magic) + le16(sb.format_version) + le16(sb.flags) + le32(sb.entry_size) + le32(
        sb.entry_count,
    ) + le32(sb.chunk_size) + le32(sb.chunk_count) + le64(sb.store_epoch) + le32(
        sb.free_entry_head,
    ) + le32(sb.free_chunk_head) + le32(sb.active_side)
}

/// The 4096 bytes that `Superblock::encode` writes.
pub open spec fn superblock_image(sb: Superblock) -> Seq<u8> {
    superblock_body(sb) + le32(spec_crc32c(superblock_body(sb))) + zeros(4048)
}

/// The superblock that the fields of `buf` spell, checksum aside.
pub open spec fn superblock_fields(buf: Seq<u8>) -> Superblock {
    Superblock {
        magic: le32_at(buf, 0),
        format_version: le16_at(buf, 4),
        flags: le16_at(buf, 6),
        entry_size: le32_at(buf, 8),
        entry_count: le32_at(buf, 12),
        chunk_size: le32_at(buf, 16),
        chunk_count: le32_at(buf, 20),
        store_epoch: le64_at(buf, 24),
        free_entry_head: le32_at(buf, 32),
        free_chunk_head: le32_at(buf, 36),
        active_side: le32_at(buf, 40),
    }
}

/// Why `Superblock::decode` refuses `buf`, in the order it checks; `None`
/// when it accepts it.
pub open spec fn superblock_problem(buf: Seq<u8>) -> Option<Seq<char>> {
    if buf.len() < 48 {
        Some("superblock too short"@)
    } else if le32_at(buf, 44) != spec_crc32c(buf.subrange(0, 44)) {
        Some("superblock checksum mismatch"@)
    } else if le32_at(buf, 0) != MAGIC_YFS1 {
        Some("bad magic "@ + hex_alt(le32_at(buf, 0) as nat))
    } else if le16_at(buf, 4) != FORMAT_VERSION {
        Some("unsupported format_version "@ + decimal(le16_at(buf, 4) as nat))
    } else if le32_at(buf, 8) != ENTRY_SIZE {
        Some("bad entry_size "@ + decimal(le32_at(buf, 8) as nat))
    } else if le32_at(buf, 16) != CHUNK_SIZE {
        Some("bad chunk_size "@ + decimal(le32_at(buf, 16) as nat))
    } else {
        None
    }
}

impl Superblock {
    /// The superblock of a newly created store.
    pub open spec fn new_spec(entry_count: u32) -> Superblock {
        Superblock {
            magic: MAGIC_YFS1,
            format_version: FORMAT_VERSION,
            flags: 0,
            entry_size: ENTRY_SIZE,
            entry_count,
            chunk_size: CHUNK_SIZE,
            chunk_count: 0,
            store_epoch: 0,
            free_entry_head: 0,
            free_chunk_head: NIL,
            active_side: 0,
        }
    }

    pub fn new(entry_count: u32) -> (sb: Self)
        ensures
            sb == Self::new_spec(entry_count),
            sb == (Superblock {
                magic: MAGIC_YFS1,
                format_version: FORMAT_VERSION,
                flags: 0,
                entry_size: ENTRY_SIZE,
                entry_count,
                chunk_size: CHUNK_SIZE,
                chunk_count: 0,
                store_epoch: 0,
                free_entry_head: 0,
                free_chunk_head: NIL,
                active_side: 0,
            }),
    {
        Self {
            magic: MAGIC_YFS1,
            format_version: FORMAT_VERSION,
            flags: 0,
            entry_size: ENTRY_SIZE,
            entry_count,
            chunk_size: CHUNK_SIZE,
            chunk_count: 0,
            store_epoch: 0,
            free_entry_head: 0,
            free_chunk_head: NIL,
            active_side: 0,
        }
    }

    pub fn encode(&self) -> (buf: [u8; 4096])
        ensures
            buf@ == superblock_image(*self),
    {
        proof {
            lemma_le_lengths();
        }
        let mut v: Vec<u8> = Vec::new();
        push_u32(&mut v, self.magic);
        push_u16(&mut v, self.format_version);
        push_u16(&mut v, self.flags);
        push_u32(&mut v, self.entry_size);
        push_u32(&mut v, self.entry_count);
        push_u32(&mut v, self.chunk_size);
        push_u32(&mut v, self.chunk_count);
        push_u64(&mut v, self.store_epoch);
        push_u32(&mut v, self.free_entry_head);
        push_u32(&mut v, self.free_chunk_head);
        push_u32(&mut v, self.active_side);
        assert(v@ =~= superblock_body(*self));
        let checksum = crc32c(v.as_slice());
        push_u32(&mut v, checksum);
        push_zeros(&mut v, 4048);
        assert(v@ =~= superblock_image(*self));
        to_array_4096(&v)
    }

    pub fn decode(buf: &[u8]) -> (r: Result<Self>)
        ensures
            match superblock_problem(buf@) {
                None => r == Ok::<Superblock, Error>(superblock_fields(buf@)),
                Some(msg) => is_corrupt_with(r, msg),
            },
    {
        if buf.len() < 48 {
            return Err(corrupt("superblock too short"));
        }
        let checksum = read_u32(buf, 44);
        let expect = crc32c(slice_subrange(buf, 0, 44));
        if checksum != expect {
            return Err(corrupt("superblock checksum mismatch"));
        }
        let magic = read_u32(buf, 0);
        if magic != MAGIC_YFS1 {
            let mut s = String::from_str("bad magic ");
            push_hex_alt(&mut s, magic as u64);
            return Err(Error::Corrupt(s));
        }
        let format_version = read_u16(buf, 4);
        if format_version != FORMAT_VERSION {
            return Err(
                Error::Corrupt(
                    text_then_decimal("unsupported format_version ", format_version as u64),
                ),
            );
        }
        let entry_size = read_u32(buf, 8);
        if entry_size != ENTRY_SIZE {
            return Err(Error::Corrupt(text_then_decimal("bad entry_size ", entry_size as u64)));
        }
        let chunk_size = read_u32(buf, 16);
        if chunk_size != CHUNK_SIZE {
            return Err(Error::Corrupt(text_then_decimal("bad chunk_size ", chunk_size as u64)));
        }
        Ok(
            Self {
                magic,
                format_version,
                flags: read_u16(buf, 6),
                entry_size,
                entry_count: read_u32(buf, 12),
                chunk_size,
                chunk_count: read_u32(buf, 20),
                store_epoch: read_u64(buf, 24),
                free_entry_head: read_u32(buf, 32),
                free_chunk_head: read_u32(buf, 36),
                active_side: read_u32(buf, 40),
            },
        )
    }
}

/// Reading back an encoded superblock gives the same superblock, for every
/// superblock with the fixed magic, version and sizes that decoding demands.
pub proof fn lemma_superblock_roundtrip(sb: Superblock)
    requires
        sb.magic == MAGIC_YFS1,
        sb.format_version == FORMAT_VERSION,
        sb.entry_size == ENTRY_SIZE,
        sb.chunk_size == CHUNK_SIZE,
    ensures
        superblock_problem(superblock_image(sb)) is None,
        superblock_fields(superblock_image(sb)) == sb,
{
    lemma_le_lengths();
    let img = superblock_image(sb);
    let body = superblock_body(sb);
    assert(body.len() == 44);
    assert(img.subrange(0, 44) =~= body);
    assert(img.subrange(44, 48) =~= le32(spec_crc32c(body)));
    assert(img.subrange(0, 4) =~= le32(sb.magic));
    assert(img.subrange(4, 6) =~= le16(sb.format_version));
    assert(img.subrange(6, 8) =~= le16(sb.flags));
    assert(img.subrange(8, 12) =~= le32(sb.entry_size));
    assert(img.subrange(12, 16) =~= le32(sb.entry_count));
    assert(img.subrange(16, 20) =~= le32(sb.chunk_size));
    assert(img.subrange(20, 24) =~= le32(sb.chunk_count));
    assert(img.subrange(24, 32) =~= le64(sb.store_epoch));
    assert(img.subrange(32, 36) =~= le32(sb.free_entry_head));
    assert(img.subrange(36, 40) =~= le32(sb.free_chunk_head));
    assert(img.subrange(40, 44) =~= le32(sb.active_side));
}


// ---------------------------------------------------------------------------
// Entry.

#[derive(Debug, Clone, Copy)]
pub struct Entry {
    pub magic: u32,
    pub flags: u16,
    pub file_type: u16,
    pub size: u64,
    pub ctime_ms: u64,
    pub mtime_ms: u64,
    pub atime_ms: u64,
    pub content_hash: [u8; 32],
    pub start_chunk: u32,
    pub n_chunks: u32,
    pub next_free: u32,
    pub name_len: u32,
    pub name: [u8; 256],
}

/// An entry that holds a file: `ENT1` and no tombstone flag.
pub open spec fn entry_live(e: Entry) -> bool {
    e.magic == MAGIC_ENT1 && e.flags & ENTRY_FLAG_TOMBSTONE == 0
}

/// The number of name bytes that count: `name_len`, at most 256.
pub open spec fn name_count(e: Entry) -> int {
    if e.name_len < 256 {
        e.name_len as int
    } else {
        256
    }
}

/// The name of an entry as bytes.
pub open spec fn entry_name(e: Entry) -> Seq<u8> {
    e.name@.subrange(0, name_count(e))
}

/// The free-slot entry that links to `next_free`.
pub open spec fn free_entry(next_free: u32) -> Entry {
    Entry {
        magic: MAGIC_FREE,
        flags: 0,
        file_type: 0,
        size: 0,
        ctime_ms: 0,
        mtime_ms: 0,
        atime_ms: 0,
        content_hash: spec_array_fill_for_copy_type::<u8, 32>(0u8),
        start_chunk: 0,
        n_chunks: 0,
        next_free,
        name_len: 0,
        name: spec_array_fill_for_copy_type::<u8, 256>(0u8),
    }
}

/// The 344 checksummed bytes of an entry.
pub open spec fn entry_body(e: Entry) -> Seq<u8> {
    le32(e.magic) + le16(e.flags) + le16(e.file_type) + le64(e.size) + le64(e.ctime_ms) + le64(
        e.mtime_ms,
    ) + le64(e.atime_ms) + e.content_hash@ + le32(e.start_chunk) + le32(e.n_chunks) + le32(
        e.next_free,
    ) + le32(e.name_len) + e.name@
}

/// The 512 bytes that `Entry::encode` writes.
pub open spec fn entry_image(e: Entry) -> Seq<u8> {
    entry_body(e) + le32(spec_crc32c(entry_body(e))) + zeros(164)
}

/// `Entry::decode` accepts `buf`: long enough, checksum matches.
pub open spec fn entry_bytes_ok(buf: Seq<u8>) -> bool {
    buf.len() >= 512 && le32_at(buf, 344) == spec_crc32c(buf.subrange(0, 344))
}

/// `e` holds the fields that `buf` spells.
pub open spec fn entry_matches(buf: Seq<u8>, e: Entry) -> bool {
    &&& e.magic == le32_at(buf, 0)
    &&& e.flags == le16_at(buf, 4)
    &&& e.file_type == le16_at(buf, 6)
    &&& e.size == le64_at(buf, 8)
    &&& e.ctime_ms == le64_at(buf, 16)
    &&& e.mtime_ms == le64_at(buf, 24)
    &&& e.atime_ms == le64_at(buf, 32)
    &&& e.content_hash@ == buf.subrange(40, 72)
    &&& e.start_chunk == le32_at(buf, 72)
    &&& e.n_chunks == le32_at(buf, 76)
    &&& e.next_free == le32_at(buf, 80)
    &&& e.name_len == le32_at(buf, 84)
    &&& e.name@ == buf.subrange(88, 344)
}

fn copy_to_32(buf: &[u8], off: usize) -> (a: [u8; 32])
    requires
        off + 32 <= buf@.len(),
    ensures
        a@ == buf@.subrange(off as int, off + 32),
{
    let blen = buf.len();
    let mut a = [0u8; 32];
    let mut i: usize = 0;
    while i < 32
        invariant
            i <= 32,
            blen == buf@.len(),
            off + 32 <= buf@.len(),
            a@.len() == 32,
            forall|k: int| 0 <= k < i ==> a@[k] == buf@[off + k],
        decreases 32 - i,
    {
        a[i] = buf[off + i];
        i = i + 1;
    }
    assert(a@ =~= buf@.subrange(off as int, off + 32));
    a
}

fn copy_to_256(buf: &[u8], off: usize) -> (a: [u8; 256])
    requires
        off + 256 <= buf@.len(),
    ensures
        a@ == buf@.subrange(off as int, off + 256),
{
    let blen = buf.len();
    let mut a = [0u8; 256];
    let mut i: usize = 0;
    while i < 256
        invariant
            i <= 256,
            blen == buf@.len(),
            off + 256 <= buf@.len(),
            a@.len() == 256,
            forall|k: int| 0 <= k < i ==> a@[k] == buf@[off + k],
        decreases 256 - i,
    {
        a[i] = buf[off + i];
        i = i + 1;
    }
    assert(a@ =~= buf@.subrange(off as int, off + 256));
    a
}

/// Copies a byte string into a fresh 256-byte zero-padded array.
fn padded_name(name: &[u8]) -> (a: [u8; 256])
    requires
        name@.len() <= 256,
    ensures
        a@ == name@ + zeros((256 - name@.len()) as nat),
{
    let mut a = [0u8; 256];
    let mut i: usize = 0;
    while i < name.len()
        invariant
            i <= name@.len() <= 256,
            a@.len() == 256,
            forall|k: int| 0 <= k < i ==> a@[k] == name@[k],
            forall|k: int| i <= k < 256 ==> a@[k] == 0u8,
        decreases name@.len() - i,
    {
        a[i] = name[i];
        i = i + 1;
    }
    assert(a@ =~= name@ + zeros((256 - name@.len()) as nat));
    a
}

/// The error that `set_name` and `validate_name` give for a bad length.
pub open spec fn bad_length_error<T>(r: Result<T>) -> bool {
    r matches Err(Error::InvalidName(s)) && s@ == "bad length"@
}

impl Entry {
    pub fn free(next_free: u32) -> (e: Self)
        ensures
            e == free_entry(next_free),
    {
        Self {
            magic: MAGIC_FREE,
            flags: 0,
            file_type: 0,
            size: 0,
            ctime_ms: 0,
            mtime_ms: 0,
            atime_ms: 0,
            content_hash: [0; 32],
            start_chunk: 0,
            n_chunks: 0,
            next_free,
            name_len: 0,
            name: [0; 256],
        }
    }

    pub fn is_live(&self) -> (b: bool)
        ensures
            b == entry_live(*self),
    {
        self.magic == MAGIC_ENT1 && self.flags & ENTRY_FLAG_TOMBSTONE == 0
    }

    pub fn is_free(&self) -> (b: bool)
        ensures
            b == (self.magic == MAGIC_FREE),
    {
        self.magic == MAGIC_FREE
    }

    pub fn name_bytes(&self) -> (r: &[u8])
        ensures
            r@ == entry_name(*self),
    {
        let len: usize = if self.name_len < 256 {
            self.name_len as usize
        } else {
            256
        };
        slice_subrange(self.name.as_slice(), 0, len)
    }

    pub fn name_string(&self) -> (r: Result<String>)
        ensures
            match r {
                Ok(s) => valid_utf8(entry_name(*self)) && encode_utf8(s@) == entry_name(*self),
                Err(e) => !valid_utf8(entry_name(*self)) && (e matches Error::Corrupt(m)
                    && m@ == "entry name is not utf-8"@),
            },
    {
        let bytes = self.name_bytes();
        match string_from_utf8(vstd::slice::slice_to_vec(bytes)) {
            Some(s) => Ok(s),
            None => Err(corrupt("entry name is not utf-8")),
        }
    }

    pub fn set_name(&mut self, name: &[u8]) -> (r: Result<()>)
        ensures
            (name@.len() == 0 || name@.len() > MAX_NAME_LEN) ==> (bad_length_error(r)
                && *final(self) == *old(self)),
            (0 < name@.len() <= MAX_NAME_LEN) ==> (r is Ok && *final(self) == (Entry {
                name: final(self).name,
                name_len: name@.len() as u32,
                ..*old(self)
            }) && final(self).name@ == name@ + zeros((256 - name@.len()) as nat)),
    {
        if name.len() == 0 || name.len() > MAX_NAME_LEN {
            return Err(Error::InvalidName(String::from_str("bad length")));
        }
        self.name = padded_name(name);
        self.name_len = name.len() as u32;
        Ok(())
    }

    pub fn encode(&self) -> (buf: [u8; 512])
        ensures
            buf@ == entry_image(*self),
    {
        proof {
            lemma_le_lengths();
        }
        let mut v: Vec<u8> = Vec::new();
        push_u32(&mut v, self.magic);
        push_u16(&mut v, self.flags);
        push_u16(&mut v, self.file_type);
        push_u64(&mut v, self.size);
        push_u64(&mut v, self.ctime_ms);
        push_u64(&mut v, self.mtime_ms);
        push_u64(&mut v, self.atime_ms);
        push_bytes(&mut v, self.content_hash.as_slice());
        push_u32(&mut v, self.start_chunk);
        push_u32(&mut v, self.n_chunks);
        push_u32(&mut v, self.next_free);
        push_u32(&mut v, self.name_len);
        push_bytes(&mut v, self.name.as_slice());
        assert(v@ =~= entry_body(*self));
        let crc = crc32c(v.as_slice());
        push_u32(&mut v, crc);
        push_zeros(&mut v, 164);
        assert(v@ =~= entry_image(*self));
        to_array_512(&v)
    }

    pub fn decode(buf: &[u8]) -> (r: Result<Self>)
        ensures
            entry_bytes_ok(buf@) ==> (r matches Ok(e) && entry_matches(buf@, e)),
            !entry_bytes_ok(buf@) ==> is_corrupt_with(
                r,
                if buf@.len() < 512 {
                    "entry too short"@
                } else {
                    "entry checksum mismatch"@
                },
            ),
    {
        if buf.len() < 512 {
            return Err(corrupt("entry too short"));
        }
        let crc = read_u32(buf, 344);
        let expect = crc32c(slice_subrange(buf, 0, 344));
        if crc != expect {
            return Err(corrupt("entry checksum mismatch"));
        }
        let name = copy_to_256(buf, 88);
        let content_hash = copy_to_32(buf, 40);
        Ok(
            Self {
                magic: read_u32(buf, 0),
                flags: read_u16(buf, 4),
                file_type: read_u16(buf, 6),
                size: read_u64(buf, 8),
                ctime_ms: read_u64(buf, 16),
                mtime_ms: read_u64(buf, 24),
                atime_ms: read_u64(buf, 32),
                content_hash,
                start_chunk: read_u32(buf, 72),
                n_chunks: read_u32(buf, 76),
                next_free: read_u32(buf, 80),
                name_len: read_u32(buf, 84),
                name,
            },
        )
    }
}

/// Calls std's `String::from_utf8`: `Some` exactly when the bytes are valid
/// UTF-8, and then the string's UTF-8 encoding is those bytes.
#[verifier::external_body]
pub(crate) fn string_from_utf8(v: Vec<u8>) -> (r: Option<String>)
    ensures
        r is Some <==> valid_utf8(v@),
        r matches Some(s) ==> encode_utf8(s@) == v@,
{
    String::from_utf8(v).ok()
}

/// Two entries that match the same bytes are the same entry.
pub proof fn lemma_entry_matches_unique(buf: Seq<u8>, e1: Entry, e2: Entry)
    requires
        entry_matches(buf, e1),
        entry_matches(buf, e2),
    ensures
        e1 == e2,
{
    assert(e1.content_hash@ =~= e2.content_hash@);
    assert(e1.name@ =~= e2.name@);
    vstd::array::axiom_array_ext_equal(e1.content_hash, e2.content_hash);
    vstd::array::axiom_array_ext_equal(e1.name, e2.name);
}

/// Reading back an encoded entry gives the same entry, for every entry.
pub proof fn lemma_entry_roundtrip(e: Entry)
    ensures
        entry_bytes_ok(entry_image(e)),
        entry_matches(entry_image(e), e),
{
    lemma_le_lengths();
    let img = entry_image(e);
    let body = entry_body(e);
    assert(e.content_hash@.len() == 32);
    assert(e.name@.len() == 256);
    assert(body.len() == 344);
    assert(img.subrange(0, 344) =~= body);
    assert(img.subrange(344, 348) =~= le32(spec_crc32c(body)));
    assert(img.subrange(0, 4) =~= le32(e.magic));
    assert(img.subrange(4, 6) =~= le16(e.flags));
    assert(img.subrange(6, 8) =~= le16(e.file_type));
    assert(img.subrange(8, 16) =~= le64(e.size));
    assert(img.subrange(16, 24) =~= le64(e.ctime_ms));
    assert(img.subrange(24, 32) =~= le64(e.mtime_ms));
    assert(img.subrange(32, 40) =~= le64(e.atime_ms));
    assert(img.subrange(40, 72) =~= e.content_hash@);
    assert(img.subrange(72, 76) =~= le32(e.start_chunk));
    assert(img.subrange(76, 80) =~= le32(e.n_chunks));
    assert(img.subrange(80, 84) =~= le32(e.next_free));
    assert(img.subrange(84, 88) =~= le32(e.name_len));
    assert(img.subrange(88, 344) =~= e.name@);
}

// ---------------------------------------------------------------------------
// Free extents.

#[derive(Debug, Clone, Copy)]
pub struct FreeExtent {
    pub start: u32,
    pub n_chunks: u32,
}

/// The 16 bytes at the head of a free extent that links to `next`.
pub open spec fn extent_body(n_chunks: u32, next: u32) -> Seq<u8> {
    le32(MAGIC_FEXT) + le32(n_chunks) + le32(next)
}

pub open spec fn extent_image(n_chunks: u32, next: u32) -> Seq<u8> {
    extent_body(n_chunks, next) + le32(spec_crc32c(extent_body(n_chunks, next)))
}

/// Why `FreeExtent::decode` refuses `buf` (read at chunk `start`); `None`
/// when it accepts it.
pub open spec fn extent_problem(buf: Seq<u8>, start: u32) -> Option<Seq<char>> {
    if buf.len() < 16 {
        Some("free extent too short"@)
    } else if le32_at(buf, 0) != MAGIC_FEXT {
        Some("bad free extent magic at chunk "@ + decimal(start as nat))
    } else if le32_at(buf, 12) != spec_crc32c(buf.subrange(0, 12)) {
        Some("free extent crc mismatch at chunk "@ + decimal(start as nat))
    } else {
        None
    }
}

impl FreeExtent {
    pub fn encode(&self, next: u32) -> (buf: [u8; 16])
        ensures
            buf@ == extent_image(self.n_chunks, next),
    {
        proof {
            lemma_le_lengths();
        }
        let mut v: Vec<u8> = Vec::new();
        push_u32(&mut v, MAGIC_FEXT);
        push_u32(&mut v, self.n_chunks);
        push_u32(&mut v, next);
        assert(v@ =~= extent_body(self.n_chunks, next));
        let crc = crc32c(v.as_slice());
        push_u32(&mut v, crc);
        to_array_16(&v)
    }

    pub fn decode(buf: &[u8], start: u32) -> (r: Result<(Self, u32)>)
        ensures
            match extent_problem(buf@, start) {
                None => (r matches Ok((ext, next)) && ext.start == start && ext.n_chunks == le32_at(
                    buf@,
                    4,
                ) && next == le32_at(buf@, 8)),
                Some(msg) => is_corrupt_with(r, msg),
            },
    {
        if buf.len() < 16 {
            return Err(corrupt("free extent too short"));
        }
        let magic = read_u32(buf, 0);
        if magic != MAGIC_FEXT {
            return Err(
                Error::Corrupt(text_then_decimal("bad free extent magic at chunk ", start as u64)),
            );
        }
        let crc = read_u32(buf, 12);
        let expect = crc32c(slice_subrange(buf, 0, 12));
        if crc != expect {
            return Err(
                Error::Corrupt(
                    text_then_decimal("free extent crc mismatch at chunk ", start as u64),
                ),
            );
        }
        Ok((Self { start, n_chunks: read_u32(buf, 4) }, read_u32(buf, 8)))
    }
}

/// Reading back an encoded free-extent header gives its length and link.
pub proof fn lemma_extent_roundtrip(n_chunks: u32, next: u32, start: u32)
    ensures
        extent_problem(extent_image(n_chunks, next), start) is None,
        le32_at(extent_image(n_chunks, next), 4) == n_chunks,
        le32_at(extent_image(n_chunks, next), 8) == next,
{
    lemma_le_lengths();
    let img = extent_image(n_chunks, next);
    let body = extent_body(n_chunks, next);
    assert(img.subrange(0, 12) =~= body);
    assert(img.subrange(0, 4) =~= le32(MAGIC_FEXT));
    assert(img.subrange(4, 8) =~= le32(n_chunks));
    assert(img.subrange(8, 12) =~= le32(next));
    assert(img.subrange(12, 16) =~= le32(spec_crc32c(body)));
}

// ---------------------------------------------------------------------------
// Commit records.

#[derive(Debug, Clone, Copy)]
pub struct CommitRecord {
    pub store_epoch: u64,
    pub active_side: u32,
    pub entry_table_crc: u32,
    pub free_entry_head: u32,
    pub free_chunk_head: u32,
    pub chunk_count: u32,
    pub flags: u16,
}

pub open spec fn commit_body(c: CommitRecord) -> Seq<u8> {
    le32(MAGIC_CMT1) + le64(c.store_epoch) + le32(c.active_side) + le32(c.entry_table_crc) + le32(
        c.free_entry_head,
    ) + le32(c.free_chunk_head) + le32(c.chunk_count) + le16(c.flags)
}

/// The 4096 bytes that `CommitRecord::encode` writes.
pub open spec fn commit_image(c: CommitRecord) -> Seq<u8> {
    commit_body(c) + le32(spec_crc32c(commit_body(c))) + zeros(4058)
}

pub open spec fn commit_fields(buf: Seq<u8>) -> CommitRecord {
    CommitRecord {
        store_epoch: le64_at(buf, 4),
        active_side: le32_at(buf, 12),
        entry_table_crc: le32_at(buf, 16),
        free_entry_head: le32_at(buf, 20),
        free_chunk_head: le32_at(buf, 24),
        chunk_count: le32_at(buf, 28),
        flags: le16_at(buf, 32),
    }
}

/// Why `CommitRecord::decode` refuses `buf`; `None` when it accepts it.
pub open spec fn commit_problem(buf: Seq<u8>) -> Option<Seq<char>> {
    if buf.len() < 38 {
        Some("commit too short"@)
    } else if le32_at(buf, 0) != MAGIC_CMT1 {
        Some("bad commit magic"@)
    } else if le32_at(buf, 34) != spec_crc32c(buf.subrange(0, 34)) {
        Some("commit checksum mismatch"@)
    } else {
        None
    }
}

impl CommitRecord {
    pub fn encode(&self) -> (buf: [u8; 4096])
        ensures
            buf@ == commit_image(*self),
    {
        proof {
            lemma_le_lengths();
        }
        let mut v: Vec<u8> = Vec::new();
        push_u32(&mut v, MAGIC_CMT1);
        push_u64(&mut v, self.store_epoch);
        push_u32(&mut v, self.active_side);
        push_u32(&mut v, self.entry_table_crc);
        push_u32(&mut v, self.free_entry_head);
        push_u32(&mut v, self.free_chunk_head);
        push_u32(&mut v, self.chunk_count);
        push_u16(&mut v, self.flags);
        assert(v@ =~= commit_body(*self));
        let checksum = crc32c(v.as_slice());
        push_u32(&mut v, checksum);
        push_zeros(&mut v, 4058);
        assert(v@ =~= commit_image(*self));
        to_array_4096(&v)
    }

    pub fn decode(buf: &[u8]) -> (r: Result<Self>)
        ensures
            match commit_problem(buf@) {
                None => r == Ok::<CommitRecord, Error>(commit_fields(buf@)),
                Some(msg) => is_corrupt_with(r, msg),
            },
    {
        if buf.len() < 38 {
            return Err(corrupt("commit too short"));
        }
        let magic = read_u32(buf, 0);
        if magic != MAGIC_CMT1 {
            return Err(corrupt("bad commit magic"));
        }
        let checksum = read_u32(buf, 34);
        let expect = crc32c(slice_subrange(buf, 0, 34));
        if checksum != expect {
            return Err(corrupt("commit checksum mismatch"));
        }
        Ok(
            Self {
                store_epoch: read_u64(buf, 4),
                active_side: read_u32(buf, 12),
                entry_table_crc: read_u32(buf, 16),
                free_entry_head: read_u32(buf, 20),
                free_chunk_head: read_u32(buf, 24),
                chunk_count: read_u32(buf, 28),
                flags: read_u16(buf, 32),
            },
        )
    }
}

/// Reading back an encoded commit record gives the same record, for every
/// record.
pub proof fn lemma_commit_roundtrip(c: CommitRecord)
    ensures
        commit_problem(commit_image(c)) is None,
        commit_fields(commit_image(c)) == c,
{
    lemma_le_lengths();
    let img = commit_image(c);
    let body = commit_body(c);
    assert(body.len() == 34);
    assert(img.subrange(0, 34) =~= body);
    assert(img.subrange(34, 38) =~= le32(spec_crc32c(body)));
    assert(img.subrange(0, 4) =~= le32(MAGIC_CMT1));
    assert(img.subrange(4, 12) =~= le64(c.store_epoch));
    assert(img.subrange(12, 16) =~= le32(c.active_side));
    assert(img.subrange(16, 20) =~= le32(c.entry_table_crc));
    assert(img.subrange(20, 24) =~= le32(c.free_entry_head));
    assert(img.subrange(24, 28) =~= le32(c.free_chunk_head));
    assert(img.subrange(28, 32) =~= le32(c.chunk_count));
    assert(img.subrange(32, 34) =~= le16(c.flags));
}

// ---------------------------------------------------------------------------
// Layout of `header.bin` and `data.bin`.

pub open spec fn spec_header_body_size(entry_count: u32) -> int {
    SUPERBLOCK_SIZE + entry_count * ENTRY_SIZE
}

pub fn header_body_size(entry_count: u32) -> (r: u64)
    ensures
        r == spec_header_body_size(entry_count),
{
    let ec = entry_count as u64;
    assert(ec * 512 <= 0xFFFF_FFFFu64 * 512) by (nonlinear_arith)
        requires
            ec <= 0xFFFF_FFFFu64,
    ;
    SUPERBLOCK_SIZE + ec * (ENTRY_SIZE as u64)
}

pub fn header_file_size(entry_count: u32) -> (r: u64)
    ensures
        r == spec_header_body_size(entry_count) + 2 * COMMIT_SIZE,
{
    header_body_size(entry_count) + COMMIT_SIZE * 2
}

pub fn entry_offset(slot: u32) -> (r: u64)
    ensures
        r == SUPERBLOCK_SIZE + slot * ENTRY_SIZE,
{
    let sl = slot as u64;
    assert(sl * 512 <= 0xFFFF_FFFFu64 * 512) by (nonlinear_arith)
        requires
            sl <= 0xFFFF_FFFFu64,
    ;
    SUPERBLOCK_SIZE + sl * (ENTRY_SIZE as u64)
}

pub fn commit_offset(entry_count: u32, side: u32) -> (r: u64)
    ensures
        r == spec_header_body_size(entry_count) + side * COMMIT_SIZE,
{
    let sd = side as u64;
    assert(sd * 4096 <= 0xFFFF_FFFFu64 * 4096) by (nonlinear_arith)
        requires
            sd <= 0xFFFF_FFFFu64,
    ;
    header_body_size(entry_count) + sd * COMMIT_SIZE
}

/// Chunks needed for `size` bytes: `size / 4096` rounded up.
pub open spec fn spec_chunks_for_size(size: int) -> int {
    if size == 0 {
        0
    } else {
        (size + CHUNK_SIZE - 1) / (CHUNK_SIZE as int)
    }
}

pub fn chunks_for_size(size: u64) -> (r: u32)
    requires
        size + CHUNK_SIZE - 1 <= u64::MAX,
    ensures
        spec_chunks_for_size(size as int) <= u32::MAX ==> r == spec_chunks_for_size(size as int),
        r == spec_chunks_for_size(size as int) as u32,
{
    if size == 0 {
        0
    } else {
        #[verifier::truncate]
        (((size + (CHUNK_SIZE as u64 - 1)) / CHUNK_SIZE as u64) as u32)
    }
}

} // verus!
