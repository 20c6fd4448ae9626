//! The in-memory state of an open store and the decisions of every store
//! operation. The files themselves are read and written by the caller, in
//! the order that each function documents; the ghost `data` image stands
//! for the bytes of `data.bin`.
use vstd::prelude::*;
use vstd::utf8::{valid_utf8, encode_utf8};
use vstd::slice::slice_subrange;

use super::error::{Error, Result};
use super::extents::{
    canonical, covers, ext_end, exts_disjoint, in_ext, within, alloc_first_fit, free_extent,
    normalize_free_extents, lemma_covers_push, lemma_no_common_chunk, lemma_canonical_separate,
    free_window, first_fit_at, lemma_first_fit_found, lemma_first_fit_none,
};
use super::format::{
    Entry, FreeExtent, Superblock, CommitRecord, entry_live, entry_name, is_corrupt_with, NIL,
    MAGIC_ENT1, MAX_NAME_LEN, MAX_FILE_SIZE, MAX_CHUNK_COUNT, CHUNK_SIZE, FLAG_NEEDS_REPAIR,
    spec_chunks_for_size, chunks_for_size, spec_content_hash, content_hash, free_entry,
    entry_image, spec_crc32c_append, crc32c_append, entry_offset, commit_offset, zeros,
    extent_image, superblock_image, commit_image, spec_header_body_size, commit_problem,
    commit_fields, entry_bytes_ok, entry_matches, lemma_entry_roundtrip, lemma_entry_matches_unique,
    lemma_commit_roundtrip,
};
use crate::text::text_then_decimal;
use crate::lex::{lex_lt, bytes_lt, bytes_starts_with};

verus! {

/// Metadata of one stored file.
#[derive(Debug, Clone)]
pub struct Meta {
    pub name: String,
    pub size: u64,
    pub ctime_ms: u64,
    pub mtime_ms: u64,
    pub atime_ms: u64,
    pub file_type: u16,
    pub content_hash: [u8; 32],
}

/// `m` describes entry `e`.
pub open spec fn meta_of(m: Meta, e: Entry) -> bool {
    &&& encode_utf8(m.name@) == entry_name(e)
    &&& m.size == e.size
    &&& m.ctime_ms == e.ctime_ms
    &&& m.mtime_ms == e.mtime_ms
    &&& m.atime_ms == e.atime_ms
    &&& m.file_type == e.file_type
    &&& m.content_hash == e.content_hash
}

pub fn meta_from_entry(entry: &Entry) -> (r: Result<Meta>)
    ensures
        valid_utf8(entry_name(*entry)) ==> (r matches Ok(m) && meta_of(m, *entry)),
        !valid_utf8(entry_name(*entry)) ==> is_corrupt_with(r, "entry name is not utf-8"@),
{
    let name = entry.name_string()?;
    Ok(
        Meta {
            name,
            size: entry.size,
            ctime_ms: entry.ctime_ms,
            mtime_ms: entry.mtime_ms,
            atime_ms: entry.atime_ms,
            file_type: entry.file_type,
            content_hash: entry.content_hash,
        },
    )
}

/// The chunks an entry's body occupies.
pub open spec fn entry_extent(e: Entry) -> FreeExtent {
    FreeExtent { start: e.start_chunk, n_chunks: e.n_chunks }
}

/// `s` with `bytes` written at byte offset `off` (its length unchanged).
pub open spec fn write_at(s: Seq<u8>, off: int, bytes: Seq<u8>) -> Seq<u8> {
    Seq::new(s.len(), |i: int| if off <= i < off + bytes.len() { bytes[i - off] } else { s[i] })
}

/// The state of an open store, files aside.
pub struct Inner {
    pub sb: Superblock,
    pub entries: Vec<Entry>,
    pub free_extents: Vec<FreeExtent>,
    /// Slots whose entry changed since the last commit.
    pub dirty_slots: Vec<bool>,
    /// The free entry slots in list order, from `sb.free_entry_head`.
    pub free_chain: Ghost<Seq<u32>>,
    /// The bytes of `data.bin` as this state has written them: a store
    /// made by `init_new` starts empty; one being opened starts with
    /// `chunk_count` chunks of zeros, for the bytes already on disk are not
    /// read. Reads are tied to the disk by their position, which
    /// `plan_read` states (`start_chunk * 4096 + off`).
    pub data: Ghost<Seq<u8>>,
}

impl Inner {
    pub open spec fn live(self, i: int) -> bool {
        0 <= i < self.entries@.len() && entry_live(self.entries@[i])
    }

    pub open spec fn names_unique(self) -> bool {
        forall|i: int, j: int|
            #![trigger self.entries@[i], self.entries@[j]]
            self.live(i) && self.live(j) && entry_name(self.entries@[i]) == entry_name(
                self.entries@[j],
            ) ==> i == j
    }

    /// The lengths and bounds that every operation needs.
    pub open spec fn shape(self) -> bool {
        &&& self.entries@.len() == self.sb.entry_count
        &&& self.dirty_slots@.len() == self.entries@.len()
        &&& within(self.free_extents@, self.sb.chunk_count as int)
        &&& self.sb.active_side <= 1
    }

    /// The invariant of an open store.
    pub open spec fn inv(self) -> bool {
        self.shape() && self.names_unique()
    }

    pub open spec fn has_name(self, n: Seq<u8>) -> bool {
        exists|i: int| #![trigger self.entries@[i]] self.live(i) && entry_name(self.entries@[i]) == n
    }

    pub open spec fn slot_of(self, n: Seq<u8>) -> int {
        choose|i: int| #![trigger self.entries@[i]] self.live(i) && entry_name(self.entries@[i]) == n
    }

    /// The stored files: name to entry.
    pub open spec fn files(self) -> Map<Seq<u8>, Entry> {
        Map::new(|n: Seq<u8>| self.has_name(n), |n: Seq<u8>| self.entries@[self.slot_of(n)])
    }

    /// The body of a file as `data.bin` holds it.
    pub open spec fn file_bytes(self, e: Entry) -> Seq<u8> {
        self.data@.subrange(e.start_chunk * 4096, e.start_chunk * 4096 + e.size)
    }

    /// The stored files: name to body.
    pub open spec fn contents(self) -> Map<Seq<u8>, Seq<u8>> {
        Map::new(
            |n: Seq<u8>| self.has_name(n),
            |n: Seq<u8>| self.file_bytes(self.entries@[self.slot_of(n)]),
        )
    }

    /// The free entry slots form a list from the head through `next_free`.
    #[verifier::opaque]
    pub open spec fn chain_ok(self) -> bool {
        let ch = self.free_chain@;
        &&& ch.no_duplicates()
        &&& forall|k: int|
            #![trigger ch[k]]
            0 <= k < ch.len() ==> ch[k] < self.entries@.len() && !entry_live(
                self.entries@[ch[k] as int],
            ) && self.entries@[ch[k] as int].next_free == (if k + 1 < ch.len() {
                ch[k + 1]
            } else {
                NIL
            })
        &&& self.sb.free_entry_head == (if ch.len() > 0 {
            ch[0]
        } else {
            NIL
        })
    }

    /// Live bodies lie inside `data.bin`, share no chunk with each other or
    /// with the free list, and fit their extents.
    #[verifier::opaque]
    pub open spec fn extents_ok(self) -> bool {
        &&& canonical(self.free_extents@)
        &&& forall|i: int|
            #![trigger self.entries@[i]]
            self.live(i) ==> {
                let e = self.entries@[i];
                &&& ext_end(entry_extent(e)) <= self.sb.chunk_count
                &&& e.size <= e.n_chunks * 4096
                &&& forall|c: int|
                    in_ext(entry_extent(e), c) ==> !covers(self.free_extents@, c)
            }
        &&& forall|i: int, j: int, c: int|
            #![trigger self.entries@[i], self.entries@[j], in_ext(entry_extent(self.entries@[i]), c)]
            self.live(i) && self.live(j) && i != j && in_ext(entry_extent(self.entries@[i]), c)
                ==> !in_ext(entry_extent(self.entries@[j]), c)
    }

    /// The full consistency of a store: the invariant, the free slot list,
    /// the extents, and a data image of `chunk_count` chunks.
    pub open spec fn wf(self) -> bool {
        &&& self.inv()
        &&& self.chain_ok()
        &&& self.extents_ok()
        &&& self.data@.len() == self.sb.chunk_count * 4096
    }

    /// Every live entry takes exactly the chunks its size needs.
    pub open spec fn sized(self) -> bool {
        forall|i: int|
            #![trigger self.entries@[i]]
            self.live(i) ==> self.entries@[i].n_chunks == spec_chunks_for_size(self.entries@[i].size as int)
    }

    pub proof fn lemma_slot_of(self, i: int)
        requires
            self.inv(),
            self.live(i),
        ensures
            self.has_name(entry_name(self.entries@[i])),
            self.slot_of(entry_name(self.entries@[i])) == i,
            self.files().dom().contains(entry_name(self.entries@[i])),
            self.files()[entry_name(self.entries@[i])] == self.entries@[i],
            self.contents()[entry_name(self.entries@[i])] == self.file_bytes(self.entries@[i]),
    {
        let n = entry_name(self.entries@[i]);
        assert(self.live(i) && entry_name(self.entries@[i]) == n);
        let j = self.slot_of(n);
        assert(self.live(j) && entry_name(self.entries@[j]) == n);
    }

    /// The slot of the live entry named `name`.
    pub fn find_slot(&self, name: &[u8]) -> (r: Option<u32>)
        requires
            self.inv(),
        ensures
            r is Some <==> self.has_name(name@),
            r matches Some(s) ==> s == self.slot_of(name@) && self.live(s as int),
    {
        let mut i: usize = 0;
        while i < self.entries.len()
            invariant
                self.inv(),
                i <= self.entries@.len(),
                forall|k: int|
                    #![trigger self.entries@[k]]
                    0 <= k < i && self.live(k) ==> entry_name(self.entries@[k]) != name@,
            decreases self.entries@.len() - i,
        {
            let e = &self.entries[i];
            if e.is_live() && bytes_eq(e.name_bytes(), name) {
                proof {
                    self.lemma_slot_of(i as int);
                }
                return Some(i as u32);
            }
            i = i + 1;
        }
        None
    }
}

/// The files after slot `s` of `old` changed into `new_s`.
pub open spec fn files_after(old: Inner, s: int, new_s: Entry) -> Map<Seq<u8>, Entry> {
    let base = if old.live(s) {
        old.files().remove(entry_name(old.entries@[s]))
    } else {
        old.files()
    };
    if entry_live(new_s) {
        base.insert(entry_name(new_s), new_s)
    } else {
        base
    }
}

/// The file bodies after slot `s` of `old` changed into an entry whose body
/// is now `body`.
pub open spec fn contents_after(old: Inner, s: int, new_live: bool, new_name: Seq<u8>, body: Seq<u8>) -> Map<Seq<u8>, Seq<u8>> {
    let base = if old.live(s) {
        old.contents().remove(entry_name(old.entries@[s]))
    } else {
        old.contents()
    };
    if new_live {
        base.insert(new_name, body)
    } else {
        base
    }
}

/// Changing one slot changes the files at that slot's names only.
pub proof fn lemma_update_slot(old: Inner, new: Inner, s: int)
    requires
        old.inv(),
        new.shape(),
        0 <= s < old.entries@.len(),
        new.entries@ == old.entries@.update(s, new.entries@[s]),
        new.live(s) ==> forall|j: int|
            #![trigger old.entries@[j]]
            j != s && old.live(j) ==> entry_name(old.entries@[j]) != entry_name(new.entries@[s]),
    ensures
        new.inv(),
        new.files() == files_after(old, s, new.entries@[s]),
        (forall|j: int|
            #![trigger old.entries@[j]]
            j != s && old.live(j) ==> new.file_bytes(old.entries@[j]) == old.file_bytes(
                old.entries@[j],
            )) ==> new.contents() == contents_after(
            old,
            s,
            new.live(s),
            entry_name(new.entries@[s]),
            new.file_bytes(new.entries@[s]),
        ),
{
    let ns = new.entries@[s];
    assert forall|i: int, j: int|
        #![trigger new.entries@[i], new.entries@[j]]
        new.live(i) && new.live(j) && entry_name(new.entries@[i]) == entry_name(new.entries@[j])
            implies i == j by {
        if i != s && j != s {
            assert(new.entries@[i] == old.entries@[i]);
            assert(new.entries@[j] == old.entries@[j]);
            assert(old.live(i) && old.live(j));
        } else if i == s && j != s {
            assert(new.entries@[j] == old.entries@[j]);
            assert(old.live(j));
        } else if j == s && i != s {
            assert(new.entries@[i] == old.entries@[i]);
            assert(old.live(i));
        }
    }
    assert(new.inv());
    let f = files_after(old, s, ns);
    assert forall|n: Seq<u8>| #[trigger] new.files().dom().contains(n) == f.dom().contains(n) by {
        if new.has_name(n) {
            let i = choose|i: int| #![trigger new.entries@[i]] new.live(i) && entry_name(new.entries@[i]) == n;
            if i != s {
                assert(new.entries@[i] == old.entries@[i]);
                assert(old.live(i));
                assert(old.has_name(n));
                old.lemma_slot_of(i);
            }
        }
        if f.dom().contains(n) {
            if entry_live(ns) && n == entry_name(ns) {
                assert(new.live(s));
                assert(new.has_name(n));
            } else {
                assert(old.has_name(n));
                let i = choose|i: int| #![trigger old.entries@[i]] old.live(i) && entry_name(old.entries@[i]) == n;
                old.lemma_slot_of(i);
                assert(i != s);
                assert(new.entries@[i] == old.entries@[i]);
                assert(new.live(i));
                assert(new.has_name(n));
            }
        }
    }
    assert forall|n: Seq<u8>| #[trigger] new.files().dom().contains(n) implies new.files()[n] == f[n] by {
        let i = choose|i: int| #![trigger new.entries@[i]] new.live(i) && entry_name(new.entries@[i]) == n;
        new.lemma_slot_of(i);
        if i != s {
            assert(new.entries@[i] == old.entries@[i]);
            assert(old.live(i));
            old.lemma_slot_of(i);
        }
    }
    assert(new.files() =~= f);
    if forall|j: int|
        #![trigger old.entries@[j]]
        j != s && old.live(j) ==> new.file_bytes(old.entries@[j]) == old.file_bytes(old.entries@[j]) {
        let g = contents_after(old, s, new.live(s), entry_name(ns), new.file_bytes(ns));
        assert forall|n: Seq<u8>| #[trigger] new.contents().dom().contains(n) == g.dom().contains(n) by {
            assert(new.contents().dom().contains(n) == new.files().dom().contains(n));
            assert(old.contents().dom().contains(n) == old.files().dom().contains(n));
        }
        assert forall|n: Seq<u8>| #[trigger] new.contents().dom().contains(n) implies new.contents()[n] == g[n] by {
            let i = choose|i: int| #![trigger new.entries@[i]] new.live(i) && entry_name(new.entries@[i]) == n;
            new.lemma_slot_of(i);
            if i != s {
                assert(new.entries@[i] == old.entries@[i]);
                assert(old.live(i));
                old.lemma_slot_of(i);
            }
        }
        assert(new.contents() =~= g);
    }
}

impl Inner {
    /// Looks a file up and stamps its access time in memory, marking the slot
    /// dirty so that the next commit writes it (access times are not written
    /// on their own), then reports its metadata.
    pub fn stat(&mut self, name: &[u8], now: u64) -> (r: Result<Meta>)
        requires
            old(self).inv(),
        ensures
            old(self).sized() ==> final(self).sized(),
            final(self).inv(),
            old(self).wf() ==> final(self).wf(),
            !old(self).has_name(name@) ==> (r matches Err(Error::NotFound) && *final(self) == *old(self)),
            old(self).has_name(name@) ==> {
                let e = Entry { atime_ms: now, ..old(self).files()[name@] };
                &&& final(self).files() == old(self).files().insert(name@, e)
                &&& final(self).contents() == old(self).contents()
                &&& final(self).sb == old(self).sb
                &&& final(self).entries@ == old(self).entries@.update(old(self).slot_of(name@), e)
                &&& final(self).dirty_slots@ == old(self).dirty_slots@.update(old(self).slot_of(name@), true)
                &&& final(self).free_extents@ == old(self).free_extents@
                &&& final(self).free_chain == old(self).free_chain
                &&& final(self).data == old(self).data
                &&& valid_utf8(name@) ==> (r matches Ok(m) && meta_of(m, e))
                &&& !valid_utf8(name@) ==> is_corrupt_with(r, "entry name is not utf-8"@)
            },
    {
        let slot = match self.find_slot(name) {
            Some(s) => s,
            None => return Err(Error::NotFound),
        };
        let ghost pre = *self;
        let mut e = self.entries[slot as usize];
        e.atime_ms = now;
        self.entries.set(slot as usize, e);
        self.dirty_slots.set(slot as usize, true);
        proof {
            pre.lemma_slot_of(slot as int);
            if pre.sized() {
                lemma_sized_update(pre, *self, slot as int, e);
            }
            lemma_update_slot(pre, *self, slot as int);
            assert(files_after(pre, slot as int, e) =~= pre.files().insert(name@, e));
            assert(contents_after(pre, slot as int, true, name@, self.file_bytes(e)) =~= pre.contents());
            if pre.wf() {
                reveal(Inner::chain_ok);
                reveal(Inner::extents_ok);
                assert(self.chain_ok());
                assert(self.extents_ok());
            }
        }
        meta_from_entry(&e)
    }

    /// Where `read_at` finds its bytes: `None` for nothing to read, else the
    /// offset in `data.bin` and the byte count. Stamps the access time like
    /// `stat`.
    pub fn plan_read(&mut self, name: &[u8], off: u64, len: u64, now: u64) -> (r: Result<
        Option<(u64, u64)>,
    >)
        requires
            old(self).inv(),
        ensures
            old(self).sized() ==> final(self).sized(),
            final(self).inv(),
            old(self).wf() ==> final(self).wf(),
            !old(self).has_name(name@) ==> (r matches Err(Error::NotFound) && *final(self) == *old(self)),
            old(self).has_name(name@) ==> {
                let e = old(self).files()[name@];
                &&& final(self).files() == old(self).files().insert(name@, Entry { atime_ms: now, ..e })
                &&& final(self).contents() == old(self).contents()
                &&& final(self).sb == old(self).sb
                &&& final(self).entries@ == old(self).entries@.update(old(self).slot_of(name@), Entry { atime_ms: now, ..e })
                &&& final(self).dirty_slots@ == old(self).dirty_slots@.update(old(self).slot_of(name@), true)
                &&& final(self).free_extents@ == old(self).free_extents@
                &&& final(self).free_chain == old(self).free_chain
                &&& final(self).data == old(self).data
                &&& (off >= e.size || len == 0) ==> r == Ok::<Option<(u64, u64)>, Error>(None)
                &&& (old(self).wf() && off < e.size && len > 0) ==> (r matches Ok(Some((pos, n))) && {
                    let end = if off + len < e.size { off + len } else { e.size as int };
                    &&& n == end - off
                    &&& pos == e.start_chunk * 4096 + off
                    &&& final(self).data@.subrange(pos as int, pos + n) == old(self).contents()[name@].subrange(off as int, end)
                })
            },
    {
        let slot = match self.find_slot(name) {
            Some(s) => s,
            None => return Err(Error::NotFound),
        };
        let ghost pre = *self;
        let mut e = self.entries[slot as usize];
        e.atime_ms = now;
        self.entries.set(slot as usize, e);
        self.dirty_slots.set(slot as usize, true);
        proof {
            pre.lemma_slot_of(slot as int);
            if pre.sized() {
                lemma_sized_update(pre, *self, slot as int, e);
            }
            lemma_update_slot(pre, *self, slot as int);
            assert(files_after(pre, slot as int, e) =~= pre.files().insert(name@, e));
            assert(contents_after(pre, slot as int, true, name@, self.file_bytes(e)) =~= pre.contents());
            if pre.wf() {
                reveal(Inner::chain_ok);
                reveal(Inner::extents_ok);
                assert(self.chain_ok());
                assert(self.extents_ok());
            }
        }
        let size = e.size;
        if off >= size || len == 0 {
            return Ok(None);
        }
        let end = if off <= u64::MAX - len && off + len < size { off + len } else { size };
        let base = (e.start_chunk as u64) * (CHUNK_SIZE as u64);
        if base > u64::MAX - off {
            return Err(Error::Corrupt(String::from_str("read offset overflow")));
        }
        proof {
            if pre.wf() {
                assert(pre.live(slot as int));
                assert(ext_end(entry_extent(pre.entries@[slot as int])) <= pre.sb.chunk_count);
                assert(e.size <= e.n_chunks * 4096);
                let fb = pre.file_bytes(pre.entries@[slot as int]);
                assert(self.data@.subrange(base + off, base + end) =~= fb.subrange(off as int, end as int));
            }
        }
        Ok(Some((base + off, end - off)))
    }
}

/// A whole number of chunks holds `len` bytes, with less than one chunk
/// to spare.
pub proof fn lemma_chunks_cover(len: int)
    requires
        0 < len,
    ensures
        len <= spec_chunks_for_size(len) * 4096 < len + 4096,
        spec_chunks_for_size(len) > 0,
{
    vstd::arithmetic::div_mod::lemma_fundamental_div_mod(len + 4095, 4096);
    vstd::arithmetic::div_mod::lemma_mod_bound(len + 4095, 4096);
}

/// Extents with no common chunk occupy disjoint byte ranges.
pub proof fn lemma_byte_ranges_disjoint(a: FreeExtent, b: FreeExtent)
    requires
        forall|c: int| in_ext(a, c) ==> !in_ext(b, c),
    ensures
        a.n_chunks == 0 || b.n_chunks == 0 || ext_end(a) * 4096 <= b.start * 4096 || ext_end(b)
            * 4096 <= a.start * 4096,
{
    if a.n_chunks > 0 && b.n_chunks > 0 {
        lemma_no_common_chunk(a, b);
    }
}

/// Bytes outside a write keep their value.
pub proof fn lemma_write_at_outside(d: Seq<u8>, off: int, p: Seq<u8>, x: int, y: int)
    requires
        0 <= x <= y <= d.len(),
        y <= off || off + p.len() <= x,
    ensures
        write_at(d, off, p).subrange(x, y) == d.subrange(x, y),
{
    assert(write_at(d, off, p).subrange(x, y) =~= d.subrange(x, y));
}

/// Bytes inside a write read back what was written.
pub proof fn lemma_write_at_inside(d: Seq<u8>, off: int, p: Seq<u8>, n: int)
    requires
        0 <= off,
        0 <= n <= p.len(),
        off + p.len() <= d.len(),
    ensures
        write_at(d, off, p).subrange(off, off + n) == p.subrange(0, n),
{
    assert(write_at(d, off, p).subrange(off, off + n) =~= p.subrange(0, n));
}

impl Inner {
    /// Extent `e` is unused: inside `data.bin`, not free, not part of a file.
    pub open spec fn fresh(self, e: FreeExtent) -> bool {
        &&& ext_end(e) <= self.sb.chunk_count
        &&& forall|c: int| in_ext(e, c) ==> !covers(self.free_extents@, c)
        &&& forall|i: int, c: int|
            #![trigger self.entries@[i], in_ext(e, c)]
            self.live(i) && in_ext(e, c) ==> !in_ext(entry_extent(self.entries@[i]), c)
    }

    /// The parts of the state that the allocator does not touch.
    pub open spec fn same_entries(self, other: Inner) -> bool {
        &&& self.entries@ == other.entries@
        &&& self.dirty_slots@ == other.dirty_slots@
        &&& self.free_chain@ == other.free_chain@
        &&& self.sb.free_entry_head == other.sb.free_entry_head
        &&& self.sb.entry_count == other.sb.entry_count
        &&& self.sb.active_side == other.sb.active_side
        &&& self.sb.store_epoch == other.sb.store_epoch
        &&& self.sb.flags == other.sb.flags
    }

    /// Takes `need` chunks for a new body: first fit from the coalesced free
    /// list, else by growing `data.bin` at its end (the second value is then
    /// the new length of `data.bin`, which the caller sets; the new chunks
    /// read as zeros).
    pub fn alloc_extent(&mut self, need: u32) -> (r: Result<(FreeExtent, Option<u64>)>)
        requires
            old(self).inv(),
        ensures
            final(self).inv(),
            final(self).same_entries(*old(self)),
            old(self).wf() ==> final(self).wf(),
            old(self).wf() ==> final(self).contents() == old(self).contents(),
            final(self).files() == old(self).files(),
            need == 0 ==> (is_corrupt_with(r, "alloc zero chunks"@) && *final(self) == *old(self)),
            need > 0 ==> forall|c: int| covers(final(self).free_extents@, c) ==> covers(old(self).free_extents@, c),
            r matches Err(e) ==> need == 0 || (e is StoreFull && old(self).sb.chunk_count + need > MAX_CHUNK_COUNT
                && final(self).sb.chunk_count == old(self).sb.chunk_count
                && final(self).data@ == old(self).data@
                && forall|c: int| covers(final(self).free_extents@, c) == covers(old(self).free_extents@, c)),
            (old(self).wf() && need > 0 && exists|s: int| #[trigger] free_window(old(self).free_extents@, s, need as int))
                ==> (r matches Ok((e, grown)) && grown is None && first_fit_at(old(self).free_extents@, e.start as int, need as int)
                && forall|c: int| #[trigger] covers(final(self).free_extents@, c) == (covers(old(self).free_extents@, c) && !in_ext(e, c))),
            (old(self).wf() && need > 0 && !exists|s: int| #[trigger] free_window(old(self).free_extents@, s, need as int))
                ==> if old(self).sb.chunk_count + need <= MAX_CHUNK_COUNT {
                r matches Ok((_e, grown)) && grown is Some
            } else {
                r matches Err(Error::StoreFull)
            },
            r matches Ok((e, grown)) ==> {
                &&& e.n_chunks == need
                &&& need > 0
                &&& ext_end(e) <= final(self).sb.chunk_count
                &&& old(self).wf() ==> final(self).fresh(e)
                &&& grown is None ==> final(self).sb.chunk_count == old(self).sb.chunk_count
                    && final(self).data@ == old(self).data@
                    && forall|c: int| in_ext(e, c) ==> covers(old(self).free_extents@, c)
                &&& grown matches Some(len) ==> e.start == old(self).sb.chunk_count
                    && final(self).sb.chunk_count == old(self).sb.chunk_count + need
                    && len == final(self).sb.chunk_count * 4096
                    && final(self).data@ == old(self).data@ + zeros((need * 4096) as nat)
                    && forall|c: int| covers(final(self).free_extents@, c) == covers(old(self).free_extents@, c)
            },
    {
        if need == 0 {
            return Err(Error::Corrupt(String::from_str("alloc zero chunks")));
        }
        let ghost pre = *self;
        let limit = self.sb.chunk_count;
        normalize_free_extents(&mut self.free_extents, limit);
        let ghost mid = *self;
        proof {
            reveal(Inner::chain_ok);
            reveal(Inner::extents_ok);
            if pre.wf() {
                lemma_canonical_separate(pre.free_extents@);
            }
        }
        match alloc_first_fit(&mut self.free_extents, need, limit) {
            Some(e) => {
                proof {
                    reveal(Inner::extents_ok);
                    if pre.wf() {
                        let mf = mid.free_extents@;
                        let i = choose|i: int|
                            0 <= i < mf.len() && #[trigger] mf[i].start == e.start && mf[i].n_chunks >= need
                                && forall|j: int| 0 <= j < i ==> #[trigger] mf[j].n_chunks < need;
                        lemma_first_fit_found(pre.free_extents@, mf, i, need as int);
                    }
                    lemma_same_entries_views(pre, *self);
                    if pre.wf() {
                        lemma_free_shrinks(pre, *self);
                        assert forall|i: int, c: int|
                            #![trigger self.entries@[i], in_ext(e, c)]
                            self.live(i) && in_ext(e, c) implies !in_ext(entry_extent(self.entries@[i]), c) by {
                            assert(covers(pre.free_extents@, c));
                            assert(pre.live(i));
                        }
                    }
                }
                Ok((e, None))
            },
            None => {
                proof {
                    if pre.wf() {
                        lemma_first_fit_none(pre.free_extents@, mid.free_extents@, need as int);
                    }
                }
                let start = self.sb.chunk_count;
                let new_count = match self.sb.chunk_count.checked_add(need) {
                    Some(n) => n,
                    None => return Err(Error::StoreFull),
                };
                if new_count > MAX_CHUNK_COUNT {
                    return Err(Error::StoreFull);
                }
                self.sb.chunk_count = new_count;
                self.data = Ghost(self.data@ + zeros((need * 4096) as nat));
                let e = FreeExtent { start, n_chunks: need };
                proof {
                    reveal(Inner::extents_ok);
                    lemma_within_grow(mid.free_extents@, limit as int, new_count as int);
                    lemma_same_entries_views(pre, *self);
                    if pre.wf() {
                        lemma_free_shrinks(pre, *self);
                        lemma_wf_bodies_inside(pre);
                        lemma_contents_grow(pre, *self);
                        assert forall|c: int| in_ext(e, c) implies !covers(self.free_extents@, c) by {
                            if covers(self.free_extents@, c) {
                                let k = choose|k: int| 0 <= k < self.free_extents@.len() && #[trigger] in_ext(self.free_extents@[k], c);
                                assert(ext_end(self.free_extents@[k]) <= limit);
                            }
                        }
                        assert forall|i: int, c: int|
                            #![trigger self.entries@[i], in_ext(e, c)]
                            self.live(i) && in_ext(e, c) implies !in_ext(entry_extent(self.entries@[i]), c) by {
                            assert(pre.live(i));
                        }
                    }
                }
                Ok((e, Some((new_count as u64) * (CHUNK_SIZE as u64))))
            },
        }
    }

    /// The first step of a write: refuses bodies over the size limit, then
    /// takes the chunks the body needs (none for an empty body).
    pub fn begin_write(&mut self, len: u64) -> (r: Result<Option<(FreeExtent, Option<u64>)>>)
        requires
            old(self).inv(),
        ensures
            old(self).sized() ==> final(self).sized(),
            final(self).inv(),
            final(self).same_entries(*old(self)),
            final(self).files() == old(self).files(),
            old(self).wf() ==> final(self).wf(),
            old(self).wf() ==> final(self).contents() == old(self).contents(),
            len > MAX_FILE_SIZE ==> (r matches Err(Error::FileTooLarge) && *final(self) == *old(self)),
            len == 0 ==> (r == Ok::<Option<(FreeExtent, Option<u64>)>, Error>(None) && *final(self) == *old(self)),
            0 < len <= MAX_FILE_SIZE ==> (r is Ok || (r matches Err(Error::StoreFull))),
            (old(self).wf() && 0 < len <= MAX_FILE_SIZE && exists|s: int|
                #[trigger] free_window(old(self).free_extents@, s, spec_chunks_for_size(len as int)))
                ==> (r matches Ok(Some((e, grown))) && grown is None
                && first_fit_at(old(self).free_extents@, e.start as int, spec_chunks_for_size(len as int))
                && forall|c: int| #[trigger] covers(final(self).free_extents@, c) == (covers(old(self).free_extents@, c) && !in_ext(e, c))),
            (old(self).wf() && 0 < len <= MAX_FILE_SIZE && !exists|s: int|
                #[trigger] free_window(old(self).free_extents@, s, spec_chunks_for_size(len as int)))
                ==> if old(self).sb.chunk_count + spec_chunks_for_size(len as int) <= MAX_CHUNK_COUNT {
                r matches Ok(Some((_e, grown))) && grown is Some
            } else {
                r matches Err(Error::StoreFull)
            },
            r matches Ok(Some((e, grown))) ==> {
                &&& e.n_chunks == spec_chunks_for_size(len as int)
                &&& ext_end(e) <= final(self).sb.chunk_count
                &&& old(self).wf() ==> final(self).fresh(e)
                &&& grown matches Some(n) ==> n == final(self).sb.chunk_count * 4096
                    && e.start == old(self).sb.chunk_count
                    && final(self).sb.chunk_count == old(self).sb.chunk_count + spec_chunks_for_size(len as int)
                    && forall|c: int| #[trigger] covers(final(self).free_extents@, c) == covers(old(self).free_extents@, c)
                &&& grown is None ==> final(self).sb.chunk_count == old(self).sb.chunk_count
            },
            r is Err ==> final(self).sb.chunk_count == old(self).sb.chunk_count,
            (r matches Ok(x) && x is None) ==> *final(self) == *old(self),
    {
        if len > MAX_FILE_SIZE {
            return Err(Error::FileTooLarge);
        }
        let need = chunks_for_size(len);
        if need == 0 {
            return Ok(None);
        }
        proof {
            lemma_chunks_cover(len as int);
        }
        let (e, grown) = self.alloc_extent(need)?;
        Ok(Some((e, grown)))
    }
}

pub proof fn lemma_within_grow(s: Seq<FreeExtent>, a: int, b: int)
    requires
        within(s, a),
        a <= b,
    ensures
        within(s, b),
{
}

/// The views depend on the entries and the data image only.
pub proof fn lemma_same_entries_views(pre: Inner, post: Inner)
    requires
        post.entries@ == pre.entries@,
        pre.names_unique(),
    ensures
        post.files() == pre.files(),
        post.names_unique(),
        post.data@ == pre.data@ ==> post.contents() == pre.contents(),
{
    assert forall|i: int| post.live(i) == pre.live(i) by {}
    assert forall|n: Seq<u8>| #[trigger] post.has_name(n) == pre.has_name(n) by {
        if pre.has_name(n) {
            let i = choose|i: int| #![trigger pre.entries@[i]] pre.live(i) && entry_name(pre.entries@[i]) == n;
            assert(post.live(i) && entry_name(post.entries@[i]) == n);
        }
        if post.has_name(n) {
            let i = choose|i: int| #![trigger post.entries@[i]] post.live(i) && entry_name(post.entries@[i]) == n;
            assert(pre.live(i) && entry_name(pre.entries@[i]) == n);
        }
    }
    assert forall|n: Seq<u8>| #[trigger] pre.has_name(n) implies post.slot_of(n) == pre.slot_of(n) by {
        let i = pre.slot_of(n);
        let j = post.slot_of(n);
        assert(pre.live(i) && entry_name(pre.entries@[i]) == n);
        assert(post.live(j) && entry_name(post.entries@[j]) == n);
        assert(pre.live(j));
    }
    assert(post.files() =~= pre.files());
    if post.data@ == pre.data@ {
        assert forall|n: Seq<u8>| #[trigger] post.contents().dom().contains(n) == pre.contents().dom().contains(n) by {
            assert(post.has_name(n) == pre.has_name(n));
        }
        assert forall|n: Seq<u8>| #[trigger] pre.contents().dom().contains(n) implies post.contents()[n] == pre.contents()[n] by {
            assert(post.slot_of(n) == pre.slot_of(n));
        }
        assert(post.contents() =~= pre.contents());
    }
}

/// Every live body lies inside the data image.
pub open spec fn bodies_inside(st: Inner) -> bool {
    forall|i: int|
        #![trigger st.entries@[i]]
        st.live(i) ==> st.entries@[i].start_chunk * 4096 + st.entries@[i].size <= st.data@.len()
}

pub proof fn lemma_wf_bodies_inside(st: Inner)
    requires
        st.wf(),
    ensures
        bodies_inside(st),
{
    reveal(Inner::chain_ok);
    reveal(Inner::extents_ok);
    assert forall|i: int| #![trigger st.entries@[i]] st.live(i) implies st.entries@[i].start_chunk
        * 4096 + st.entries@[i].size <= st.data@.len() by {
        let e = st.entries@[i];
        assert(ext_end(entry_extent(e)) <= st.sb.chunk_count);
        assert(e.size <= e.n_chunks * 4096);
    }
}

/// Extending the data image at its end leaves the file bodies alone.
pub proof fn lemma_contents_grow(pre: Inner, post: Inner)
    requires
        pre.names_unique(),
        bodies_inside(pre),
        post.entries@ == pre.entries@,
        pre.data@.is_prefix_of(post.data@),
    ensures
        post.contents() == pre.contents(),
{
    lemma_same_entries_views(pre, post);
    assert forall|n: Seq<u8>| #[trigger] pre.contents().dom().contains(n) implies post.contents()[n] == pre.contents()[n] by {
        let i = choose|i: int| #![trigger pre.entries@[i]] pre.live(i) && entry_name(pre.entries@[i]) == n;
        let en = pre.entries@[i];
        assert(pre.slot_of(n) == post.slot_of(n));
        let k = pre.slot_of(n);
        assert(pre.live(k) && entry_name(pre.entries@[k]) == n);
        assert(k == i);
        assert(post.file_bytes(en) =~= pre.file_bytes(en));
    }
    assert forall|n: Seq<u8>| #[trigger] post.contents().dom().contains(n) == pre.contents().dom().contains(n) by {
        assert(post.has_name(n) == pre.has_name(n));
    }
    assert(post.contents() =~= pre.contents());
}

/// Taking chunks off the free list (and possibly growing the data file)
/// keeps a consistent store consistent.
pub proof fn lemma_free_shrinks(pre: Inner, post: Inner)
    requires
        pre.wf(),
        post.shape(),
        post.entries@ == pre.entries@,
        post.free_chain@ == pre.free_chain@,
        post.sb.free_entry_head == pre.sb.free_entry_head,
        post.sb.chunk_count >= pre.sb.chunk_count,
        post.data@.len() == post.sb.chunk_count * 4096,
        canonical(post.free_extents@),
        forall|c: int| covers(post.free_extents@, c) ==> covers(pre.free_extents@, c),
    ensures
        post.wf(),
{
    reveal(Inner::chain_ok);
    reveal(Inner::extents_ok);
    lemma_same_entries_views(pre, post);
    assert forall|i: int| #![trigger post.entries@[i]] post.live(i) implies {
        let en = post.entries@[i];
        &&& ext_end(entry_extent(en)) <= post.sb.chunk_count
        &&& en.size <= en.n_chunks * 4096
        &&& forall|c: int| in_ext(entry_extent(en), c) ==> !covers(post.free_extents@, c)
    } by {
        assert(pre.live(i));
    }
    assert(post.extents_ok());
}

/// The data image after a body is written into its new extent, padded with
/// zeros to whole chunks.
pub open spec fn written_image(d: Seq<u8>, ext: Option<FreeExtent>, bytes: Seq<u8>) -> Seq<u8> {
    match ext {
        Some(e) => write_at(d, e.start * 4096, bytes + zeros((e.n_chunks * 4096 - bytes.len()) as nat)),
        None => d,
    }
}

/// The extent a written body occupies (empty when there is none).
pub open spec fn body_extent(ext: Option<FreeExtent>) -> FreeExtent {
    match ext {
        Some(e) => e,
        None => FreeExtent { start: 0, n_chunks: 0 },
    }
}

/// `e2` is the entry a write of `bytes` under `name` leaves, given the state
/// `old` before it.
pub open spec fn written_entry(old: Inner, e2: Entry, name: Seq<u8>, bytes: Seq<u8>, file_type: u16, ext: Option<FreeExtent>, now: u64) -> bool {
    &&& entry_live(e2)
    &&& entry_name(e2) == name
    &&& e2.size == bytes.len()
    &&& e2.mtime_ms == now
    &&& e2.atime_ms == now
    &&& e2.file_type == file_type
    &&& e2.content_hash@ == spec_content_hash(bytes)
    &&& e2.start_chunk == body_extent(ext).start
    &&& e2.n_chunks == body_extent(ext).n_chunks
    &&& old.has_name(name) ==> {
        let e1 = old.files()[name];
        &&& e2.ctime_ms == e1.ctime_ms
        &&& e2.flags == e1.flags
        &&& e2.magic == e1.magic
        &&& e2.next_free == e1.next_free
        &&& e2.name_len == e1.name_len
        &&& e2.name == e1.name
    }
    &&& !old.has_name(name) ==> {
        &&& e2.ctime_ms == now
        &&& e2.flags == 0
        &&& e2.magic == MAGIC_ENT1
        &&& e2.next_free == NIL
    }
}

/// A body written into a fresh extent leaves every other body alone and
/// reads back as written.
pub proof fn lemma_write_bodies(pre: Inner, post: Inner, s: int, ext: Option<FreeExtent>, bytes: Seq<u8>)
    requires
        pre.wf(),
        0 <= s < pre.entries@.len(),
        post.data@ == written_image(pre.data@, ext, bytes),
        post.entries@[s].start_chunk == body_extent(ext).start,
        post.entries@[s].size == bytes.len(),
        match ext {
            None => bytes.len() == 0,
            Some(e) => 0 < bytes.len() <= e.n_chunks * 4096 && pre.fresh(e),
        },
    ensures
        forall|j: int|
            #![trigger pre.entries@[j]]
            j != s && pre.live(j) ==> post.file_bytes(pre.entries@[j]) == pre.file_bytes(pre.entries@[j]),
        post.file_bytes(post.entries@[s]) == bytes,
{
    reveal(Inner::chain_ok);
    reveal(Inner::extents_ok);
    lemma_wf_bodies_inside(pre);
    match ext {
        None => {
            assert(post.file_bytes(post.entries@[s]) =~= bytes);
        },
        Some(e) => {
            let off = e.start * 4096;
            let p = bytes + zeros((e.n_chunks * 4096 - bytes.len()) as nat);
            assert(p.len() == e.n_chunks * 4096);
            assert(ext_end(e) <= pre.sb.chunk_count);
            assert forall|j: int|
                #![trigger pre.entries@[j]]
                j != s && pre.live(j) implies post.file_bytes(pre.entries@[j]) == pre.file_bytes(pre.entries@[j]) by {
                let ej = pre.entries@[j];
                let xj = entry_extent(ej);
                assert(ej.size <= ej.n_chunks * 4096);
                assert forall|c: int| in_ext(e, c) implies !in_ext(xj, c) by {
                    assert(pre.live(j));
                }
                lemma_byte_ranges_disjoint(e, xj);
                if ej.size > 0 {
                    lemma_write_at_outside(pre.data@, off, p, ej.start_chunk * 4096, ej.start_chunk * 4096 + ej.size);
                } else {
                    assert(post.file_bytes(ej) =~= pre.file_bytes(ej));
                }
            }
            lemma_write_at_inside(pre.data@, off, p, bytes.len() as int);
            assert(p.subrange(0, bytes.len() as int) =~= bytes);
        },
    }
}

/// A body written into a fresh extent, with no entry taking it, leaves a
/// consistent store consistent and every file as it was.
pub proof fn lemma_failed_write_keeps(pre: Inner, post: Inner, ext: Option<FreeExtent>, bytes: Seq<u8>)
    requires
        pre.wf(),
        post == (Inner { data: Ghost(written_image(pre.data@, ext, bytes)), ..pre }),
        match ext {
            None => bytes.len() == 0,
            Some(e) => 0 < bytes.len() <= e.n_chunks * 4096 && pre.fresh(e),
        },
    ensures
        post.wf(),
        post.contents() == pre.contents(),
{
    reveal(Inner::chain_ok);
    reveal(Inner::extents_ok);
    lemma_wf_bodies_inside(pre);
    assert(post.data@.len() == pre.data@.len());
    assert forall|j: int|
        #![trigger pre.entries@[j]]
        pre.live(j) implies post.file_bytes(pre.entries@[j]) == pre.file_bytes(pre.entries@[j]) by {
        match ext {
            None => {},
            Some(e) => {
                let off = e.start * 4096;
                let p = bytes + zeros((e.n_chunks * 4096 - bytes.len()) as nat);
                let ej = pre.entries@[j];
                let xj = entry_extent(ej);
                assert(ej.size <= ej.n_chunks * 4096);
                assert forall|c: int| in_ext(e, c) implies !in_ext(xj, c) by {
                    assert(pre.live(j));
                }
                lemma_byte_ranges_disjoint(e, xj);
                if ej.size > 0 {
                    lemma_write_at_outside(pre.data@, off, p, ej.start_chunk * 4096, ej.start_chunk * 4096 + ej.size);
                } else {
                    assert(post.file_bytes(ej) =~= pre.file_bytes(ej));
                }
            },
        }
    }
    assert forall|n: Seq<u8>| #[trigger] pre.contents().dom().contains(n) implies post.contents()[n]
        == pre.contents()[n] by {
        let j = pre.slot_of(n);
        assert(pre.live(j));
    }
    assert(post.contents() =~= pre.contents());
}

/// Overwriting a live slot with a body in a fresh extent, and freeing the
/// old extent, keeps a consistent store consistent.
#[verifier::rlimit(40)]
pub proof fn lemma_overwrite_wf(pre: Inner, post: Inner, s: int, e: FreeExtent)
    requires
        pre.wf(),
        post.inv(),
        pre.live(s),
        post.entries@ == pre.entries@.update(s, post.entries@[s]),
        entry_live(post.entries@[s]),
        entry_extent(post.entries@[s]) == e,
        post.entries@[s].size <= e.n_chunks * 4096,
        ext_end(e) <= pre.sb.chunk_count,
        e.n_chunks == 0 || pre.fresh(e),
        post.free_chain@ == pre.free_chain@,
        post.sb.free_entry_head == pre.sb.free_entry_head,
        post.sb.chunk_count == pre.sb.chunk_count,
        post.data@.len() == pre.data@.len(),
        canonical(post.free_extents@),
        forall|c: int|
            covers(post.free_extents@, c) == (covers(pre.free_extents@, c) || in_ext(
                entry_extent(pre.entries@[s]),
                c,
            )),
    ensures
        post.wf(),
{
    reveal(Inner::chain_ok);
    reveal(Inner::extents_ok);
    let ch = pre.free_chain@;
    assert forall|k: int| #![trigger ch[k]] 0 <= k < ch.len() implies post.entries@[ch[k] as int]
        == pre.entries@[ch[k] as int] by {
        assert(!entry_live(pre.entries@[ch[k] as int]));
    }
    assert(post.chain_ok());
    let xs = entry_extent(pre.entries@[s]);
    assert forall|i: int| #![trigger post.entries@[i]] post.live(i) implies {
        let en = post.entries@[i];
        &&& ext_end(entry_extent(en)) <= post.sb.chunk_count
        &&& en.size <= en.n_chunks * 4096
        &&& forall|c: int| in_ext(entry_extent(en), c) ==> !covers(post.free_extents@, c)
    } by {
        if i != s {
            assert(pre.live(i));
            assert forall|c: int| in_ext(entry_extent(post.entries@[i]), c) implies !covers(post.free_extents@, c) by {
                assert(!in_ext(xs, c));
            }
        } else {
            assert forall|c: int| in_ext(e, c) implies !covers(post.free_extents@, c) by {
                assert(pre.live(s));
                assert(!in_ext(xs, c));
            }
        }
    }
    assert forall|i: int, j: int, c: int|
        #![trigger post.entries@[i], post.entries@[j], in_ext(entry_extent(post.entries@[i]), c)]
        post.live(i) && post.live(j) && i != j && in_ext(entry_extent(post.entries@[i]), c)
            implies !in_ext(entry_extent(post.entries@[j]), c) by {
        if i == s {
            assert(pre.live(j));
            assert(pre.entries@[j] == post.entries@[j]);
        } else if j == s {
            assert(pre.live(i));
            assert(pre.entries@[i] == post.entries@[i]);
            if in_ext(e, c) {
                assert(!in_ext(entry_extent(pre.entries@[i]), c));
            }
        } else {
            assert(pre.live(i) && pre.live(j));
        }
    }
    assert(post.extents_ok());
}

/// The closing step of an overwrite: the free list took back the old
/// extent; the views and consistency follow.
pub proof fn lemma_overwrite_finish(pre: Inner, mid: Inner, post: Inner, slot: int, name: Seq<u8>, bytes: Seq<u8>, ext: Option<FreeExtent>)
    requires
        pre.inv(),
        pre.live(slot),
        entry_name(pre.entries@[slot]) == name,
        mid.inv(),
        mid.entries@ == pre.entries@.update(slot, mid.entries@[slot]),
        entry_live(mid.entries@[slot]),
        entry_name(mid.entries@[slot]) == name,
        entry_extent(mid.entries@[slot]) == body_extent(ext),
        mid.entries@[slot].size == bytes.len(),
        bytes.len() <= body_extent(ext).n_chunks * 4096,
        ext_end(body_extent(ext)) <= pre.sb.chunk_count,
        mid.data@ == written_image(pre.data@, ext, bytes),
        post.shape(),
        post.entries@ == mid.entries@,
        post.data@ == mid.data@,
        post.free_chain@ == pre.free_chain@,
        post.sb == pre.sb,
        pre.wf() ==> canonical(post.free_extents@),
        pre.wf() ==> forall|c: int| covers(post.free_extents@, c) == (covers(pre.free_extents@, c)
            || in_ext(entry_extent(pre.entries@[slot]), c)),
        match ext {
            None => bytes.len() == 0,
            Some(e) => bytes.len() > 0,
        },
    ensures
        post.inv(),
        post.files() == mid.files(),
        post.slot_of(name) == slot,
        (pre.wf() && (ext matches Some(x) ==> pre.fresh(x))) ==> post.wf() && post.contents()
            == pre.contents().insert(name, bytes),
{
    lemma_same_entries_views(mid, post);
    mid.lemma_slot_of(slot);
    post.lemma_slot_of(slot);
    if pre.wf() && (ext matches Some(x) ==> pre.fresh(x)) {
        lemma_overwrite_wf(pre, post, slot, body_extent(ext));
        lemma_write_bodies(pre, post, slot, ext, bytes);
        lemma_update_slot(pre, post, slot);
        pre.lemma_slot_of(slot);
        assert(contents_after(pre, slot, true, name, bytes) =~= pre.contents().insert(name, bytes));
    }
}

/// Filling the first free slot with a new entry whose body lies in a fresh
/// extent keeps a consistent store consistent.
#[verifier::rlimit(40)]
pub proof fn lemma_create_wf(pre: Inner, post: Inner, s: int, e: FreeExtent)
    requires
        pre.wf(),
        post.inv(),
        pre.free_chain@.len() > 0,
        s == pre.free_chain@[0],
        post.entries@ == pre.entries@.update(s, post.entries@[s]),
        entry_live(post.entries@[s]),
        entry_extent(post.entries@[s]) == e,
        post.entries@[s].size <= e.n_chunks * 4096,
        ext_end(e) <= pre.sb.chunk_count,
        e.n_chunks == 0 || pre.fresh(e),
        post.free_chain@ == pre.free_chain@.drop_first(),
        post.sb.free_entry_head == pre.entries@[s].next_free,
        post.sb.chunk_count == pre.sb.chunk_count,
        post.data@.len() == pre.data@.len(),
        post.free_extents@ == pre.free_extents@,
    ensures
        post.wf(),
{
    reveal(Inner::chain_ok);
    reveal(Inner::extents_ok);
    let ch = pre.free_chain@;
    let ch2 = post.free_chain@;
    assert(ch[0] == s);
    assert forall|k: int| #![trigger ch2[k]] 0 <= k < ch2.len() implies ch2[k] < post.entries@.len()
        && !entry_live(post.entries@[ch2[k] as int]) && post.entries@[ch2[k] as int].next_free == (
    if k + 1 < ch2.len() {
        ch2[k + 1]
    } else {
        NIL
    }) by {
        assert(ch2[k] == ch[k + 1]);
        assert(ch[k + 1] != ch[0]);
        assert(post.entries@[ch2[k] as int] == pre.entries@[ch[k + 1] as int]);
    }
    assert(ch2.no_duplicates()) by {
        assert forall|a: int, b: int| 0 <= a < ch2.len() && 0 <= b < ch2.len() && a != b implies ch2[a]
            != ch2[b] by {
            assert(ch2[a] == ch[a + 1] && ch2[b] == ch[b + 1]);
        }
    }
    assert(post.chain_ok()) by {
        if ch.len() > 1 {
            assert(ch2[0] == ch[1]);
        }
    }
    assert forall|i: int| #![trigger post.entries@[i]] post.live(i) implies {
        let en = post.entries@[i];
        &&& ext_end(entry_extent(en)) <= post.sb.chunk_count
        &&& en.size <= en.n_chunks * 4096
        &&& forall|c: int| in_ext(entry_extent(en), c) ==> !covers(post.free_extents@, c)
    } by {
        if i != s {
            assert(pre.live(i));
        }
    }
    assert(!pre.live(s));
    assert forall|i: int, j: int, c: int|
        #![trigger post.entries@[i], post.entries@[j], in_ext(entry_extent(post.entries@[i]), c)]
        post.live(i) && post.live(j) && i != j && in_ext(entry_extent(post.entries@[i]), c)
            implies !in_ext(entry_extent(post.entries@[j]), c) by {
        if i == s {
            assert(pre.live(j));
            assert(pre.entries@[j] == post.entries@[j]);
        } else if j == s {
            assert(pre.live(i));
            assert(pre.entries@[i] == post.entries@[i]);
            if in_ext(e, c) {
                assert(!in_ext(entry_extent(pre.entries@[i]), c));
            }
        } else {
            assert(pre.live(i) && pre.live(j));
        }
    }
    assert(post.extents_ok());
}

impl Inner {
    #[verifier::rlimit(100)]
    #[verifier::spinoff_prover]
    fn overwrite_entry(
        &mut self,
        slot: u32,
        name: &[u8],
        bytes: &[u8],
        hash: [u8; 32],
        file_type: u16,
        ext: Option<FreeExtent>,
        now: u64,
    ) -> (r: Result<()>)
        requires
            old(self).inv(),
            0 < name@.len() <= MAX_NAME_LEN,
            bytes@.len() <= MAX_FILE_SIZE,
            hash@ == spec_content_hash(bytes@),
            match ext {
                None => bytes@.len() == 0,
                Some(e) => bytes@.len() > 0 && e.n_chunks == spec_chunks_for_size(bytes@.len() as int)
                    && ext_end(e) <= old(self).sb.chunk_count,
            },
            old(self).has_name(name@),
            slot == old(self).slot_of(name@),
        ensures
            final(self).sb == old(self).sb,
            final(self).free_chain == old(self).free_chain,
            final(self).entries@ == old(self).entries@.update(old(self).slot_of(name@), final(self).files()[name@]),
            final(self).inv(),
            final(self).data@ == written_image(old(self).data@, ext, bytes@),
            r is Err ==> {
                &&& final(self).entries@ == old(self).entries@
                &&& final(self).free_extents@ == old(self).free_extents@
                &&& final(self).sb == old(self).sb
                &&& final(self).dirty_slots@ == old(self).dirty_slots@
            },
            r is Ok ==> {
                &&& final(self).files().dom().contains(name@)
                &&& written_entry(*old(self), final(self).files()[name@], name@, bytes@, file_type, ext, now)
                &&& (old(self).has_name(name@) || old(self).chain_ok()) ==> final(self).files()
                    == old(self).files().insert(name@, final(self).files()[name@])
                &&& final(self).dirty_slots@[final(self).slot_of(name@)]
                &&& forall|k: int| 0 <= k < final(self).dirty_slots@.len() && k != final(self).slot_of(name@)
                    ==> final(self).dirty_slots@[k] == old(self).dirty_slots@[k]
            },
            (r is Ok && old(self).wf() && (ext matches Some(e) ==> old(self).fresh(e))) ==> {
                &&& final(self).wf()
                &&& final(self).contents() == old(self).contents().insert(name@, bytes@)
            },
            old(self).wf() ==> forall|c: int|
                #[trigger] covers(final(self).free_extents@, c) == (covers(old(self).free_extents@, c)
                    || in_ext(entry_extent(old(self).files()[name@]), c)),
            r is Ok,
    {
        let ghost pre = *self;
        self.data = Ghost(written_image(self.data@, ext, bytes@));
        let (start, n) = match ext {
            Some(e) => (e.start, e.n_chunks),
            None => (0u32, 0u32),
        };
        proof {
            if bytes@.len() > 0 {
                lemma_chunks_cover(bytes@.len() as int);
            }
            let i = choose|i: int| #![trigger pre.entries@[i]] pre.live(i) && entry_name(pre.entries@[i]) == name@;
            pre.lemma_slot_of(i);
        }
        let len = bytes.len() as u64;
                let mut e = self.entries[slot as usize];
                let old_ext = FreeExtent { start: e.start_chunk, n_chunks: e.n_chunks };
                e.size = len;
                e.mtime_ms = now;
                e.atime_ms = now;
                e.file_type = file_type;
                e.content_hash = hash;
                e.start_chunk = start;
                e.n_chunks = n;
                self.entries.set(slot as usize, e);
                self.dirty_slots.set(slot as usize, true);
                let ghost mid = *self;
                proof {
                    pre.lemma_slot_of(slot as int);
                    lemma_update_slot(pre, mid, slot as int);
                    assert(files_after(pre, slot as int, e) =~= pre.files().insert(name@, e));
                    mid.lemma_slot_of(slot as int);
                }
                let cc = self.sb.chunk_count;
                if old_ext.n_chunks > 0 && old_ext.start <= cc && old_ext.n_chunks <= cc - old_ext.start {
                    free_extent(&mut self.free_extents, old_ext, cc);
                    proof {
                        assert(mid.free_extents@ == pre.free_extents@);
                        assert(forall|c: int| covers(self.free_extents@, c) == (covers(pre.free_extents@, c)
                            || in_ext(old_ext, c)));
                    }
                }
                proof {
                    if pre.wf() {
                        reveal(Inner::extents_ok);
                        assert(pre.live(slot as int));
                        assert(old_ext == entry_extent(pre.entries@[slot as int]));
                        assert(ext_end(old_ext) <= cc);
                        assert(canonical(self.free_extents@));
                        assert forall|c: int| covers(self.free_extents@, c) == (covers(pre.free_extents@, c)
                            || in_ext(entry_extent(pre.entries@[slot as int]), c)) by {
                            if old_ext.n_chunks == 0 {
                                assert(self.free_extents@ == pre.free_extents@);
                                assert(!in_ext(old_ext, c));
                            }
                        }
                    }
                    lemma_overwrite_finish(pre, mid, *self, slot as int, name@, bytes@, ext);
                }
                Ok(())
                }

    #[verifier::rlimit(80)]
    fn create_entry(
        &mut self,
        name: &[u8],
        bytes: &[u8],
        hash: [u8; 32],
        file_type: u16,
        ext: Option<FreeExtent>,
        now: u64,
    ) -> (r: Result<()>)
        requires
            old(self).inv(),
            0 < name@.len() <= MAX_NAME_LEN,
            bytes@.len() <= MAX_FILE_SIZE,
            hash@ == spec_content_hash(bytes@),
            match ext {
                None => bytes@.len() == 0,
                Some(e) => bytes@.len() > 0 && e.n_chunks == spec_chunks_for_size(bytes@.len() as int)
                    && ext_end(e) <= old(self).sb.chunk_count,
            },
            !old(self).has_name(name@),
        ensures
            r is Ok ==> {
                let slot = old(self).sb.free_entry_head as int;
                &&& final(self).slot_of(name@) == slot
                &&& final(self).entries@ == old(self).entries@.update(slot, final(self).files()[name@])
                &&& final(self).sb == (Superblock { free_entry_head: old(self).entries@[slot].next_free, ..old(self).sb })
                &&& final(self).free_chain@ == old(self).free_chain@.drop_first()
            },
            (r is Err && old(self).wf() && (ext matches Some(e) ==> old(self).fresh(e))) ==> (final(self).wf()
                && final(self).contents() == old(self).contents()),
            final(self).free_extents@ == old(self).free_extents@,
            final(self).inv(),
            final(self).data@ == written_image(old(self).data@, ext, bytes@),
            r is Err ==> {
                &&& final(self).entries@ == old(self).entries@
                &&& final(self).free_extents@ == old(self).free_extents@
                &&& final(self).sb == old(self).sb
                &&& final(self).dirty_slots@ == old(self).dirty_slots@
            },
            r is Ok ==> {
                &&& final(self).files().dom().contains(name@)
                &&& written_entry(*old(self), final(self).files()[name@], name@, bytes@, file_type, ext, now)
                &&& (old(self).has_name(name@) || old(self).chain_ok()) ==> final(self).files()
                    == old(self).files().insert(name@, final(self).files()[name@])
                &&& final(self).dirty_slots@[final(self).slot_of(name@)]
                &&& forall|k: int| 0 <= k < final(self).dirty_slots@.len() && k != final(self).slot_of(name@)
                    ==> final(self).dirty_slots@[k] == old(self).dirty_slots@[k]
            },
            (r is Ok && old(self).wf() && (ext matches Some(e) ==> old(self).fresh(e))) ==> {
                &&& final(self).wf()
                &&& final(self).contents() == old(self).contents().insert(name@, bytes@)
            },
            old(self).sb.free_entry_head == NIL ==> r matches Err(Error::StoreFull),
            old(self).sb.free_entry_head < old(self).entries@.len() ==> r is Ok,
    {
        let ghost pre = *self;
        self.data = Ghost(written_image(self.data@, ext, bytes@));
        let (start, n) = match ext {
            Some(e) => (e.start, e.n_chunks),
            None => (0u32, 0u32),
        };
        proof {
            if bytes@.len() > 0 {
                lemma_chunks_cover(bytes@.len() as int);
            }
        }
        proof {
            if pre.wf() && (ext matches Some(e) ==> pre.fresh(e)) {
                lemma_failed_write_keeps(pre, *self, ext, bytes@);
            }
        }
        let len = bytes.len() as u64;
                let slot = self.sb.free_entry_head;
                if slot == NIL {
                    return Err(Error::StoreFull);
                }
                if slot as usize >= self.entries.len() {
                    return Err(Error::Corrupt(String::from_str("free entry head out of range")));
                }
                let next = self.entries[slot as usize].next_free;
                self.sb.free_entry_head = next;
                let mut e = Entry {
                    magic: MAGIC_ENT1,
                    flags: 0,
                    file_type,
                    size: len,
                    ctime_ms: now,
                    mtime_ms: now,
                    atime_ms: now,
                    content_hash: hash,
                    start_chunk: start,
                    n_chunks: n,
                    next_free: NIL,
                    name_len: 0,
                    name: [0; 256],
                };
                let _ = e.set_name(name);
                proof {
                    assert(0u16 & 1u16 == 0u16) by (bit_vector);
                    assert(entry_name(e) =~= name@);
                }
                self.entries.set(slot as usize, e);
                self.dirty_slots.set(slot as usize, true);
                self.free_chain = Ghost(self.free_chain@.drop_first());
                proof {
                    assert forall|j: int| #![trigger pre.entries@[j]] j != slot && pre.live(j) implies entry_name(pre.entries@[j]) != entry_name(e) by {
                        if entry_name(pre.entries@[j]) == name@ {
                            assert(pre.has_name(name@));
                        }
                    }
                    lemma_update_slot(pre, *self, slot as int);
                    self.lemma_slot_of(slot as int);
                    reveal(Inner::chain_ok);
                    if pre.chain_ok() {
                        assert(!pre.live(slot as int)) by {
                            assert(pre.free_chain@[0] == slot);
                        }
                        assert(files_after(pre, slot as int, e) =~= pre.files().insert(name@, e));
                    }
                    if pre.wf() && (ext matches Some(x) ==> pre.fresh(x)) {
                        assert(pre.free_chain@[0] == slot);
                        lemma_create_wf(pre, *self, slot as int, body_extent(ext));
                        lemma_write_bodies(pre, *self, slot as int, ext, bytes@);
                        assert(contents_after(pre, slot as int, true, name@, bytes@) =~= pre.contents().insert(name@, bytes@));
                    }
                }
                Ok(())
                }

    /// The metadata step of a write, after the caller has written `bytes`
    /// (zero-padded to whole chunks) into the extent that `begin_write`
    /// returned and synced `data.bin`: updates the entry of `name` in place,
    /// or fills the first free slot for a new name, marks the slot dirty and
    /// frees the old extent. The caller then commits.
    pub fn apply_write(
        &mut self,
        name: &[u8],
        bytes: &[u8],
        file_type: u16,
        ext: Option<FreeExtent>,
        now: u64,
    ) -> (r: Result<()>)
        requires
            old(self).inv(),
            0 < name@.len() <= MAX_NAME_LEN,
            bytes@.len() <= MAX_FILE_SIZE,
            match ext {
                None => bytes@.len() == 0,
                Some(e) => bytes@.len() > 0 && e.n_chunks == spec_chunks_for_size(bytes@.len() as int)
                    && ext_end(e) <= old(self).sb.chunk_count,
            },
        ensures
            final(self).inv(),
            final(self).data@ == written_image(old(self).data@, ext, bytes@),
            r is Err ==> {
                &&& final(self).entries@ == old(self).entries@
                &&& final(self).free_extents@ == old(self).free_extents@
                &&& final(self).sb == old(self).sb
                &&& final(self).dirty_slots@ == old(self).dirty_slots@
            },
            r is Ok ==> {
                &&& final(self).files().dom().contains(name@)
                &&& written_entry(*old(self), final(self).files()[name@], name@, bytes@, file_type, ext, now)
                &&& (old(self).has_name(name@) || old(self).chain_ok()) ==> final(self).files()
                    == old(self).files().insert(name@, final(self).files()[name@])
                &&& final(self).dirty_slots@[final(self).slot_of(name@)]
                &&& forall|k: int| 0 <= k < final(self).dirty_slots@.len() && k != final(self).slot_of(name@)
                    ==> final(self).dirty_slots@[k] == old(self).dirty_slots@[k]
            },
            (r is Ok && old(self).wf() && (ext matches Some(e) ==> old(self).fresh(e))) ==> {
                &&& final(self).wf()
                &&& final(self).contents() == old(self).contents().insert(name@, bytes@)
            },
            (old(self).wf() && old(self).has_name(name@)) ==> forall|c: int|
                #[trigger] covers(final(self).free_extents@, c) == (covers(old(self).free_extents@, c)
                    || in_ext(entry_extent(old(self).files()[name@]), c)),
            !old(self).has_name(name@) ==> final(self).free_extents@ == old(self).free_extents@,
            (r is Err && old(self).wf() && (ext matches Some(e) ==> old(self).fresh(e))) ==> (final(self).wf()
                && final(self).contents() == old(self).contents()),
            old(self).has_name(name@) ==> {
                &&& final(self).sb == old(self).sb
                &&& final(self).free_chain == old(self).free_chain
                &&& final(self).entries@ == old(self).entries@.update(old(self).slot_of(name@), final(self).files()[name@])
            },
            (!old(self).has_name(name@) && r is Ok) ==> {
                let slot = old(self).sb.free_entry_head as int;
                &&& final(self).slot_of(name@) == slot
                &&& final(self).entries@ == old(self).entries@.update(slot, final(self).files()[name@])
                &&& final(self).sb == (Superblock { free_entry_head: old(self).entries@[slot].next_free, ..old(self).sb })
                &&& final(self).free_chain@ == old(self).free_chain@.drop_first()
            },
            old(self).sized() ==> final(self).sized(),
            old(self).has_name(name@) ==> r is Ok,
            (!old(self).has_name(name@) && old(self).sb.free_entry_head == NIL) ==> r matches Err(Error::StoreFull),
            (!old(self).has_name(name@) && old(self).sb.free_entry_head < old(self).entries@.len()) ==> r is Ok,
    {
        let ghost pre = *self;
        let hash = content_hash(bytes);
        let r = match self.find_slot(name) {
            Some(slot) => self.overwrite_entry(slot, name, bytes, hash, file_type, ext, now),
            None => self.create_entry(name, bytes, hash, file_type, ext, now),
        };
        proof {
            if pre.sized() && r is Ok {
                let e = self.files()[name@];
                let s = if pre.has_name(name@) {
                    pre.slot_of(name@)
                } else {
                    pre.sb.free_entry_head as int
                };
                if bytes@.len() == 0 {
                    assert(spec_chunks_for_size(0) == 0);
                }
                lemma_sized_update(pre, *self, s, e);
            }
        }
        r
    }
}

/// Replacing one slot by an entry that is sized, or not live, keeps every
/// live entry sized.
pub proof fn lemma_sized_update(pre: Inner, post: Inner, s: int, e: Entry)
    requires
        pre.sized(),
        0 <= s < pre.entries@.len(),
        post.entries@ == pre.entries@.update(s, e),
        entry_live(e) ==> e.n_chunks == spec_chunks_for_size(e.size as int),
    ensures
        post.sized(),
{
    assert forall|i: int| #![trigger post.entries@[i]] post.live(i) implies post.entries@[i].n_chunks
        == spec_chunks_for_size(post.entries@[i].size as int) by {
        if i != s {
            assert(post.entries@[i] == pre.entries@[i]);
            assert(pre.live(i));
        }
    }
}

/// What a read gives back of a write: once a write of `bytes` under `name`
/// has taken effect on a consistent store (the contents that `apply_write`
/// promises), `name` is stored with size `bytes.len()` and body `bytes`, so
/// the range that `plan_read` plans for `off` and `len` reads
/// `bytes[off .. min(off + len, bytes.len())]`; every other name keeps its
/// body, and no name appears or goes.
pub proof fn lemma_read_after_write(pre: Inner, post: Inner, name: Seq<u8>, bytes: Seq<u8>)
    requires
        post.wf(),
        post.contents() == pre.contents().insert(name, bytes),
    ensures
        post.has_name(name),
        post.files()[name].size == bytes.len(),
        post.contents()[name] == bytes,
        forall|n: Seq<u8>|
            n != name ==> (#[trigger] post.has_name(n) <==> pre.contents().dom().contains(n)),
        forall|n: Seq<u8>| n != name && post.has_name(n) ==> #[trigger] post.contents()[n] == pre.contents()[n],
{
    assert(post.contents().dom().contains(name));
    assert(post.has_name(name));
    lemma_wf_bodies_inside(post);
    let i = post.slot_of(name);
    assert(post.live(i) && entry_name(post.entries@[i]) == name);
    let e = post.entries@[i];
    assert(e.start_chunk * 4096 + e.size <= post.data@.len());
    assert(post.file_bytes(e).len() == e.size);
    assert(post.files()[name] == e);
    assert(post.contents()[name] == post.file_bytes(e));
    assert(pre.contents().insert(name, bytes)[name] == bytes);
    assert forall|n: Seq<u8>| n != name implies (#[trigger] post.has_name(n) <==> pre.contents().dom().contains(n)) by {
        assert(post.contents().dom().contains(n) == post.has_name(n));
    }
    assert forall|n: Seq<u8>| n != name && post.has_name(n) implies #[trigger] post.contents()[n] == pre.contents()[n] by {
        assert(post.contents().dom().contains(n));
    }
}

/// Turning a live slot into the head of the free slot list, and freeing its
/// extent, keeps a consistent store consistent.
#[verifier::rlimit(40)]
pub proof fn lemma_delete_wf(pre: Inner, post: Inner, s: int)
    requires
        pre.wf(),
        post.inv(),
        pre.live(s),
        post.entries@ == pre.entries@.update(s, free_entry(pre.sb.free_entry_head)),
        post.free_chain@ == seq![s as u32] + pre.free_chain@,
        post.sb.free_entry_head == s,
        post.sb.chunk_count == pre.sb.chunk_count,
        post.data@ == pre.data@,
        canonical(post.free_extents@),
        forall|c: int|
            covers(post.free_extents@, c) == (covers(pre.free_extents@, c) || in_ext(
                entry_extent(pre.entries@[s]),
                c,
            )),
    ensures
        post.wf(),
{
    reveal(Inner::chain_ok);
    reveal(Inner::extents_ok);
    let ch = pre.free_chain@;
    let ch2 = post.free_chain@;
    assert(!entry_live(free_entry(pre.sb.free_entry_head)));
    assert forall|k: int| 0 <= k < ch.len() implies #[trigger] ch[k] != s by {
        assert(!entry_live(pre.entries@[ch[k] as int]));
    }
    assert forall|k: int| #![trigger ch2[k]] 0 <= k < ch2.len() implies ch2[k] < post.entries@.len()
        && !entry_live(post.entries@[ch2[k] as int]) && post.entries@[ch2[k] as int].next_free == (
    if k + 1 < ch2.len() {
        ch2[k + 1]
    } else {
        NIL
    }) by {
        if k > 0 {
            assert(ch2[k] == ch[k - 1]);
            assert(post.entries@[ch2[k] as int] == pre.entries@[ch[k - 1] as int]);
            if k < ch.len() {
                assert(ch2[k + 1] == ch[k]);
            }
        } else {
            if ch.len() > 0 {
                assert(ch2[1] == ch[0]);
            }
        }
    }
    assert(ch2.no_duplicates()) by {
        assert forall|a: int, b: int| 0 <= a < ch2.len() && 0 <= b < ch2.len() && a != b implies ch2[a]
            != ch2[b] by {
            if a > 0 && b > 0 {
                assert(ch2[a] == ch[a - 1] && ch2[b] == ch[b - 1]);
            } else if a == 0 {
                assert(ch2[b] == ch[b - 1]);
            } else {
                assert(ch2[a] == ch[a - 1]);
            }
        }
    }
    assert(post.chain_ok());
    let xs = entry_extent(pre.entries@[s]);
    assert forall|i: int| #![trigger post.entries@[i]] post.live(i) implies {
        let en = post.entries@[i];
        &&& ext_end(entry_extent(en)) <= post.sb.chunk_count
        &&& en.size <= en.n_chunks * 4096
        &&& forall|c: int| in_ext(entry_extent(en), c) ==> !covers(post.free_extents@, c)
    } by {
        assert(i != s);
        assert(pre.live(i));
        assert forall|c: int| in_ext(entry_extent(post.entries@[i]), c) implies !covers(post.free_extents@, c) by {
            assert(!in_ext(xs, c));
        }
    }
    assert forall|i: int, j: int, c: int|
        #![trigger post.entries@[i], post.entries@[j], in_ext(entry_extent(post.entries@[i]), c)]
        post.live(i) && post.live(j) && i != j && in_ext(entry_extent(post.entries@[i]), c)
            implies !in_ext(entry_extent(post.entries@[j]), c) by {
        assert(pre.live(i) && pre.live(j));
    }
    assert(post.extents_ok());
}

impl Inner {
    /// Deletes a file: frees its extent, turns its slot into the head of the
    /// free slot list and marks it dirty. The caller then commits.
    pub fn delete(&mut self, name: &[u8]) -> (r: Result<()>)
        requires
            old(self).inv(),
        ensures
            old(self).sized() ==> final(self).sized(),
            final(self).inv(),
            final(self).data@ == old(self).data@,
            !old(self).has_name(name@) ==> (r matches Err(Error::NotFound) && *final(self) == *old(self)),
            old(self).has_name(name@) ==> {
                &&& r is Ok
                &&& final(self).files() == old(self).files().remove(name@)
                &&& final(self).sb.free_entry_head == old(self).slot_of(name@)
                &&& final(self).entries@[old(self).slot_of(name@)] == free_entry(old(self).sb.free_entry_head)
                &&& final(self).dirty_slots@ == old(self).dirty_slots@.update(old(self).slot_of(name@), true)
            },
            (old(self).wf() && old(self).has_name(name@)) ==> {
                &&& final(self).wf()
                &&& final(self).contents() == old(self).contents().remove(name@)
                &&& forall|c: int|
                    #[trigger] covers(final(self).free_extents@, c) == (covers(old(self).free_extents@, c)
                        || in_ext(entry_extent(old(self).files()[name@]), c))
            },
    {
        let slot = match self.find_slot(name) {
            Some(s) => s,
            None => return Err(Error::NotFound),
        };
        let ghost pre = *self;
        let e = self.entries[slot as usize];
        let ext = FreeExtent { start: e.start_chunk, n_chunks: e.n_chunks };
        let cc = self.sb.chunk_count;
        if ext.n_chunks > 0 && ext.start <= cc && ext.n_chunks <= cc - ext.start {
            free_extent(&mut self.free_extents, ext, cc);
            proof {
                assert(forall|c: int| covers(self.free_extents@, c) == (covers(pre.free_extents@, c)
                    || in_ext(ext, c)));
            }
        }
        let next = self.sb.free_entry_head;
        self.entries.set(slot as usize, Entry::free(next));
        self.sb.free_entry_head = slot;
        self.dirty_slots.set(slot as usize, true);
        self.free_chain = Ghost(seq![slot] + self.free_chain@);
        proof {
            pre.lemma_slot_of(slot as int);
            if pre.sized() {
                lemma_sized_update(pre, *self, slot as int, free_entry(next));
            }
            lemma_update_slot(pre, *self, slot as int);
            assert(files_after(pre, slot as int, free_entry(next)) =~= pre.files().remove(name@));
            if pre.wf() {
                reveal(Inner::extents_ok);
                assert(pre.live(slot as int));
                assert(ext == entry_extent(pre.entries@[slot as int]));
                assert(canonical(self.free_extents@));
                assert forall|c: int| covers(self.free_extents@, c) == (covers(pre.free_extents@, c)
                    || in_ext(entry_extent(pre.entries@[slot as int]), c)) by {
                    if ext.n_chunks == 0 {
                        assert(!in_ext(ext, c));
                    }
                }
                lemma_delete_wf(pre, *self, slot as int);
                assert(contents_after(pre, slot as int, false, entry_name(free_entry(next)), self.file_bytes(free_entry(next))) =~= pre.contents().remove(name@));
            }
        }
        Ok(())
    }

    /// Renames a file in place: the slot keeps its body and takes the new
    /// name and modification time. The caller then commits.
    pub fn rename(&mut self, old_name: &[u8], new_name: &[u8], now: u64) -> (r: Result<()>)
        requires
            old(self).inv(),
            0 < new_name@.len() <= MAX_NAME_LEN,
        ensures
            old(self).sized() ==> final(self).sized(),
            final(self).inv(),
            final(self).data@ == old(self).data@,
            final(self).free_extents@ == old(self).free_extents@,
            final(self).sb == old(self).sb,
            old(self).has_name(new_name@) ==> (r matches Err(Error::AlreadyExists) && *final(self) == *old(self)),
            (!old(self).has_name(new_name@) && !old(self).has_name(old_name@))
                ==> (r matches Err(Error::NotFound) && *final(self) == *old(self)),
            (!old(self).has_name(new_name@) && old(self).has_name(old_name@)) ==> {
                let e1 = old(self).files()[old_name@];
                let e2 = final(self).files()[new_name@];
                &&& r is Ok
                &&& final(self).files() == old(self).files().remove(old_name@).insert(new_name@, e2)
                &&& e2 == Entry { mtime_ms: now, name_len: new_name@.len() as u32, name: e2.name, ..e1 }
                &&& entry_name(e2) == new_name@
                &&& final(self).dirty_slots@ == old(self).dirty_slots@.update(old(self).slot_of(old_name@), true)
                &&& old(self).wf() ==> final(self).wf()
                &&& old(self).wf() ==> final(self).contents() == old(self).contents().remove(old_name@).insert(
                    new_name@,
                    old(self).contents()[old_name@],
                )
            },
    {
        if self.find_slot(new_name).is_some() {
            return Err(Error::AlreadyExists);
        }
        let slot = match self.find_slot(old_name) {
            Some(s) => s,
            None => return Err(Error::NotFound),
        };
        let ghost pre = *self;
        let mut e = self.entries[slot as usize];
        let _ = e.set_name(new_name);
        e.mtime_ms = now;
        proof {
            assert(entry_name(e) =~= new_name@);
        }
        self.entries.set(slot as usize, e);
        self.dirty_slots.set(slot as usize, true);
        proof {
            pre.lemma_slot_of(slot as int);
            if pre.sized() {
                lemma_sized_update(pre, *self, slot as int, e);
            }
            assert forall|j: int| #![trigger pre.entries@[j]] j != slot && pre.live(j) implies entry_name(pre.entries@[j]) != entry_name(e) by {
                if entry_name(pre.entries@[j]) == new_name@ {
                    assert(pre.has_name(new_name@));
                }
            }
            lemma_update_slot(pre, *self, slot as int);
            self.lemma_slot_of(slot as int);
            assert(files_after(pre, slot as int, e) =~= pre.files().remove(old_name@).insert(new_name@, e));
            if pre.wf() {
                reveal(Inner::chain_ok);
                reveal(Inner::extents_ok);
                let ch = pre.free_chain@;
                assert forall|k: int| #![trigger ch[k]] 0 <= k < ch.len() implies self.entries@[ch[k] as int]
                    == pre.entries@[ch[k] as int] by {
                    assert(!entry_live(pre.entries@[ch[k] as int]));
                }
                assert(self.chain_ok());
                assert forall|i: int| #![trigger self.entries@[i]] self.live(i) implies {
                    let en = self.entries@[i];
                    &&& ext_end(entry_extent(en)) <= self.sb.chunk_count
                    &&& en.size <= en.n_chunks * 4096
                    &&& forall|c: int| in_ext(entry_extent(en), c) ==> !covers(self.free_extents@, c)
                } by {
                    assert(pre.live(i));
                }
                assert forall|i: int, j: int, c: int|
                    #![trigger self.entries@[i], self.entries@[j], in_ext(entry_extent(self.entries@[i]), c)]
                    self.live(i) && self.live(j) && i != j && in_ext(entry_extent(self.entries@[i]), c)
                        implies !in_ext(entry_extent(self.entries@[j]), c) by {
                    assert(pre.live(i) && pre.live(j));
                }
                assert(self.extents_ok());
                assert(contents_after(pre, slot as int, true, new_name@, self.file_bytes(e)) =~= pre.contents().remove(old_name@).insert(new_name@, pre.contents()[old_name@]));
            }
        }
        Ok(())
    }
}

/// The running CRC-32C over the encodings of `es`, in order, from 0.
pub open spec fn table_crc(es: Seq<Entry>) -> u32
    decreases es.len(),
{
    if es.len() == 0 {
        0
    } else {
        spec_crc32c_append(table_crc(es.drop_last()), entry_image(es.last()))
    }
}

/// The link that the free-extent header at position `i` of `exts` holds:
/// the start of the next extent, or `NIL` for the last.
pub open spec fn next_link(exts: Seq<FreeExtent>, i: int) -> u32 {
    if i + 1 < exts.len() {
        exts[i + 1].start
    } else {
        NIL
    }
}

/// The data image after the first `k` free-extent headers are written.
pub open spec fn headers_written(d: Seq<u8>, exts: Seq<FreeExtent>, k: int) -> Seq<u8>
    decreases k,
{
    if k <= 0 {
        d
    } else {
        write_at(
            headers_written(d, exts, k - 1),
            exts[k - 1].start * 4096,
            extent_image(exts[k - 1].n_chunks, next_link(exts, k - 1)),
        )
    }
}

impl Inner {
    /// The first step of a commit: coalesces the free list and links it
    /// through headers in the first chunk of each free extent. Returns the
    /// header writes (offset in `data.bin`, bytes), which the caller makes
    /// and then syncs `data.bin` (when there are any).
    pub fn prepare_free_extents(&mut self) -> (writes: Vec<(u64, [u8; 16])>)
        requires
            old(self).inv(),
        ensures
            final(self).inv(),
            final(self).entries@ == old(self).entries@,
            final(self).dirty_slots@ == old(self).dirty_slots@,
            final(self).free_chain@ == old(self).free_chain@,
            final(self).sb == (Superblock {
                free_chunk_head: if final(self).free_extents@.len() > 0 {
                    final(self).free_extents@[0].start
                } else {
                    NIL
                },
                ..old(self).sb
            }),
            forall|c: int| #[trigger] covers(final(self).free_extents@, c) == covers(old(self).free_extents@, c),
            writes@.len() == final(self).free_extents@.len(),
            forall|k: int|
                #![trigger writes@[k]]
                0 <= k < writes@.len() ==> writes@[k].0 == final(self).free_extents@[k].start * 4096
                    && writes@[k].1@ == extent_image(
                    final(self).free_extents@[k].n_chunks,
                    next_link(final(self).free_extents@, k),
                ),
            final(self).data@ == headers_written(old(self).data@, final(self).free_extents@, writes@.len() as int),
            final(self).files() == old(self).files(),
            old(self).wf() ==> final(self).wf() && final(self).contents() == old(self).contents(),
    {
        let ghost pre = *self;
        let cc = self.sb.chunk_count;
        normalize_free_extents(&mut self.free_extents, cc);
        let ghost mid = *self;
        proof {
            reveal(Inner::chain_ok);
            reveal(Inner::extents_ok);
            lemma_same_entries_views(pre, mid);
            if pre.wf() {
                lemma_canonical_separate(pre.free_extents@);
                lemma_free_shrinks(pre, mid);
            }
        }
        let mut writes: Vec<(u64, [u8; 16])> = Vec::new();
        if self.free_extents.len() == 0 {
            self.sb.free_chunk_head = NIL;
            proof {
                lemma_same_entries_views(pre, *self);
                if pre.wf() {
                    lemma_free_shrinks(pre, *self);
                }
            }
            return writes;
        }
        self.sb.free_chunk_head = self.free_extents[0].start;
        let n = self.free_extents.len();
        let mut i: usize = 0;
        while i < n
            invariant
                n == self.free_extents@.len(),
                i <= n,
                self.free_extents@ == mid.free_extents@,
                self.entries@ == mid.entries@,
                writes@.len() == i,
                within(self.free_extents@, cc as int),
                forall|k: int|
                    #![trigger writes@[k]]
                    0 <= k < i ==> writes@[k].0 == self.free_extents@[k].start * 4096 && writes@[k].1@
                        == extent_image(self.free_extents@[k].n_chunks, next_link(self.free_extents@, k)),
                self.data@ == headers_written(pre.data@, self.free_extents@, i as int),
                pre.wf() ==> canonical(self.free_extents@),
                pre.wf() ==> forall|j: int|
                    #![trigger self.entries@[j]]
                    mid.live(j) ==> self.file_bytes(self.entries@[j]) == pre.file_bytes(self.entries@[j]),
                self.data@.len() == pre.data@.len(),
                self.sb == (Superblock { free_chunk_head: mid.free_extents@[0].start, ..pre.sb }),
                self.dirty_slots@ == pre.dirty_slots@,
                self.free_chain@ == pre.free_chain@,
                self.sb.chunk_count == cc,
                0 < n,
                pre.wf() ==> mid.extents_ok(),
                pre.wf() ==> pre.data@.len() == cc * 4096,
                mid.data@ == pre.data@,
                mid.sb.chunk_count == cc,
            decreases n - i,
        {
            let ext = self.free_extents[i];
            let next = if i + 1 < n {
                self.free_extents[i + 1].start
            } else {
                NIL
            };
            let buf = ext.encode(next);
            proof {
                assert(ext_end(ext) <= cc);
            }
            let off = (ext.start as u64) * (CHUNK_SIZE as u64);
            writes.push((off, buf));
            let ghost before = self.data@;
            let ghost before_self = *self;
            self.data = Ghost(write_at(self.data@, ext.start * 4096, buf@));
            proof {
                assert(self.data@ == headers_written(pre.data@, self.free_extents@, i + 1));
                if pre.wf() {
                    reveal(Inner::extents_ok);
                    assert(ext.n_chunks > 0);
                    assert forall|j: int|
                        #![trigger self.entries@[j]]
                        mid.live(j) implies self.file_bytes(self.entries@[j]) == pre.file_bytes(self.entries@[j]) by {
                        let ej = self.entries@[j];
                        let xj = entry_extent(ej);
                        assert(ej.size <= ej.n_chunks * 4096);
                        assert(ext_end(xj) <= cc);
                        assert forall|c: int| in_ext(ext, c) implies !in_ext(xj, c) by {
                            if in_ext(xj, c) {
                                assert(!covers(mid.free_extents@, c));
                                assert(in_ext(mid.free_extents@[i as int], c));
                            }
                        }
                        lemma_byte_ranges_disjoint(ext, xj);
                        assert(buf@.len() == 16) by {
                            crate::yfs::format::lemma_le_lengths();
                        }
                        if ej.size > 0 {
                            lemma_write_at_outside(before, ext.start * 4096, buf@, ej.start_chunk * 4096, ej.start_chunk * 4096 + ej.size);
                        }
                        assert(before_self.file_bytes(ej) == pre.file_bytes(ej));
                        assert(self.data@.subrange(ej.start_chunk * 4096, ej.start_chunk * 4096 + ej.size)
                            =~= before.subrange(ej.start_chunk * 4096, ej.start_chunk * 4096 + ej.size));
                    }
                }
            }
            i = i + 1;
        }
        proof {
            lemma_same_entries_views(pre, *self);
            if pre.wf() {
                lemma_free_shrinks(pre, *self);
                assert forall|nm: Seq<u8>| #[trigger] pre.contents().dom().contains(nm) implies self.contents()[nm] == pre.contents()[nm] by {
                    let j = choose|j: int| #![trigger pre.entries@[j]] pre.live(j) && entry_name(pre.entries@[j]) == nm;
                    pre.lemma_slot_of(j);
                    self.lemma_slot_of(j);
                    assert(mid.live(j));
                }
                assert(self.contents() =~= pre.contents());
            }
        }
        writes
    }
}

/// After the first `m` headers are written, each of them holds its image.
proof fn lemma_headers_prefix(d: Seq<u8>, exts: Seq<FreeExtent>, m: int)
    requires
        canonical(exts),
        0 <= m <= exts.len(),
        forall|k: int| 0 <= k < exts.len() ==> #[trigger] ext_end(exts[k]) * 4096 <= d.len(),
    ensures
        headers_written(d, exts, m).len() == d.len(),
        forall|k: int|
            0 <= k < m ==> #[trigger] headers_written(d, exts, m).subrange(
                exts[k].start * 4096,
                exts[k].start * 4096 + 16,
            ) == extent_image(exts[k].n_chunks, next_link(exts, k)),
    decreases m,
{
    if m > 0 {
        lemma_headers_prefix(d, exts, m - 1);
        crate::yfs::format::lemma_le_lengths();
        let a = headers_written(d, exts, m - 1);
        let x = exts[m - 1];
        let img = extent_image(x.n_chunks, next_link(exts, m - 1));
        assert(img.len() == 16);
        assert(ext_end(x) * 4096 <= d.len());
        assert(x.start * 4096 + 16 <= ext_end(x) * 4096) by (nonlinear_arith)
            requires
                x.n_chunks > 0,
        ;
        assert forall|k: int| 0 <= k < m implies #[trigger] headers_written(d, exts, m).subrange(
            exts[k].start * 4096,
            exts[k].start * 4096 + 16,
        ) == extent_image(exts[k].n_chunks, next_link(exts, k)) by {
            if k == m - 1 {
                lemma_write_at_inside(a, x.start * 4096, img, 16);
                assert(img.subrange(0, 16) =~= img);
            } else {
                let y = exts[k];
                assert(ext_end(y) < x.start);
                assert(y.start * 4096 + 16 <= x.start * 4096) by (nonlinear_arith)
                    requires
                        y.start + 1 <= x.start,
                ;
                lemma_write_at_outside(a, x.start * 4096, img, y.start * 4096, y.start * 4096 + 16);
            }
        }
    }
}

/// The free list that a commit links through its extents is the one that
/// opening walks: after the headers that `prepare_free_extents` writes, the
/// header of each extent decodes, with the extent's length and a link to
/// the next extent's start (`NIL` after the last).
pub proof fn lemma_free_headers_read_back(d: Seq<u8>, exts: Seq<FreeExtent>)
    requires
        canonical(exts),
        forall|k: int| 0 <= k < exts.len() ==> #[trigger] ext_end(exts[k]) * 4096 <= d.len(),
    ensures
        forall|k: int|
            0 <= k < exts.len() ==> {
                let h = #[trigger] headers_written(d, exts, exts.len() as int).subrange(
                    exts[k].start * 4096,
                    exts[k].start * 4096 + 16,
                );
                &&& crate::yfs::format::extent_problem(h, exts[k].start) is None
                &&& crate::yfs::format::le32_at(h, 4) == exts[k].n_chunks
                &&& crate::yfs::format::le32_at(h, 8) == next_link(exts, k)
            },
{
    lemma_headers_prefix(d, exts, exts.len() as int);
    assert forall|k: int| 0 <= k < exts.len() implies {
        let h = #[trigger] headers_written(d, exts, exts.len() as int).subrange(
            exts[k].start * 4096,
            exts[k].start * 4096 + 16,
        );
        &&& crate::yfs::format::extent_problem(h, exts[k].start) is None
        &&& crate::yfs::format::le32_at(h, 4) == exts[k].n_chunks
        &&& crate::yfs::format::le32_at(h, 8) == next_link(exts, k)
    } by {
        crate::yfs::format::lemma_extent_roundtrip(exts[k].n_chunks, next_link(exts, k), exts[k].start);
    }
}

/// The indices of the set flags of `d`, in increasing order.
pub open spec fn dirty_list(d: Seq<bool>) -> Seq<int>
    decreases d.len(),
{
    if d.len() == 0 {
        Seq::empty()
    } else if d.last() {
        dirty_list(d.drop_last()).push(d.len() - 1)
    } else {
        dirty_list(d.drop_last())
    }
}

pub proof fn lemma_dirty_list_bounds(d: Seq<bool>)
    ensures
        forall|k: int| 0 <= k < dirty_list(d).len() ==> 0 <= #[trigger] dirty_list(d)[k] < d.len() && d[dirty_list(d)[k]],
    decreases d.len(),
{
    if d.len() > 0 {
        let d0 = d.drop_last();
        lemma_dirty_list_bounds(d0);
        assert forall|k: int| 0 <= k < dirty_list(d).len() implies 0 <= #[trigger] dirty_list(d)[k] < d.len()
            && d[dirty_list(d)[k]] by {
            if k < dirty_list(d0).len() {
                assert(dirty_list(d)[k] == dirty_list(d0)[k]);
                assert(d0[dirty_list(d0)[k]] == d[dirty_list(d0)[k]]);
            }
        }
    }
}

impl Inner {
    /// The second step of a commit (after the superblock is written): the
    /// encodings of the dirty entries, in slot order, each with its offset
    /// in `header.bin`. Clears the dirty marks.
    pub fn take_dirty_entries(&mut self) -> (writes: Vec<(u64, [u8; 512])>)
        requires
            old(self).inv(),
        ensures
            final(self).inv(),
            *final(self) == (Inner { dirty_slots: final(self).dirty_slots, ..*old(self) }),
            final(self).dirty_slots@ == Seq::new(old(self).dirty_slots@.len(), |_i: int| false),
            dirty_writes(old(self).entries@, old(self).dirty_slots@, writes@),
            old(self).wf() ==> final(self).wf(),
            final(self).files() == old(self).files(),
            final(self).contents() == old(self).contents(),
    {
        let ghost pre = *self;
        let n = self.entries.len();
        let mut writes: Vec<(u64, [u8; 512])> = Vec::new();
        let mut i: usize = 0;
        while i < n
            invariant
                n == pre.entries@.len(),
                pre.inv(),
                i <= n,
                self.entries@ == pre.entries@,
                self.dirty_slots@ == pre.dirty_slots@,
                pre.dirty_slots@.len() == n,
                writes@.len() == dirty_list(pre.dirty_slots@.take(i as int)).len(),
                forall|k: int|
                    #![trigger writes@[k]]
                    0 <= k < writes@.len() ==> {
                        let slot = dirty_list(pre.dirty_slots@.take(i as int))[k];
                        &&& writes@[k].0 == 4096 + slot * 512
                        &&& writes@[k].1@ == entry_image(pre.entries@[slot])
                    },
            decreases n - i,
        {
            proof {
                assert(pre.dirty_slots@.take(i + 1).drop_last() =~= pre.dirty_slots@.take(i as int));
                assert(pre.dirty_slots@.take(i + 1).last() == pre.dirty_slots@[i as int]);
                assert(pre.dirty_slots@.take(i + 1).len() == i + 1);
            }
            if self.dirty_slots[i] {
                let buf = self.entries[i].encode();
                let off = entry_offset(i as u32);
                writes.push((off, buf));
            }
            i = i + 1;
        }
        proof {
            assert(pre.dirty_slots@.take(n as int) =~= pre.dirty_slots@);
        }
        let mut j: usize = 0;
        while j < n
            invariant
                n == pre.entries@.len(),
                n == pre.dirty_slots@.len(),
                j <= n,
                *self == (Inner { dirty_slots: self.dirty_slots, ..pre }),
                self.dirty_slots@.len() == n,
                forall|k: int| 0 <= k < j ==> !self.dirty_slots@[k],
            decreases n - j,
        {
            self.dirty_slots.set(j, false);
            j = j + 1;
        }
        proof {
            assert(self.dirty_slots@ =~= Seq::new(pre.dirty_slots@.len(), |_i: int| false));
            lemma_same_entries_views(pre, *self);
            if pre.wf() {
                reveal(Inner::chain_ok);
                reveal(Inner::extents_ok);
            }
        }
        writes
    }

    /// The running CRC-32C over the encodings of all entries.
    pub fn entry_table_crc(&self) -> (crc: u32)
        ensures
            crc == table_crc(self.entries@),
    {
        let mut crc: u32 = 0;
        let mut i: usize = 0;
        while i < self.entries.len()
            invariant
                i <= self.entries@.len(),
                crc == table_crc(self.entries@.take(i as int)),
            decreases self.entries@.len() - i,
        {
            let buf = self.entries[i].encode();
            crc = crc32c_append(crc, buf.as_slice());
            proof {
                assert(self.entries@.take(i + 1).drop_last() =~= self.entries@.take(i as int));
            }
            i = i + 1;
        }
        proof {
            assert(self.entries@.take(self.entries@.len() as int) =~= self.entries@);
        }
        crc
    }

    /// The third step of a commit (after the dirty entries are written and
    /// `header.bin` synced): advances the epoch and builds the commit record
    /// for the other side. Returns where it goes in `header.bin` and the
    /// record, which the caller encodes, writes and syncs.
    pub fn finish_commit(&mut self) -> (r: (u64, CommitRecord))
        requires
            old(self).inv(),
        ensures
            final(self).inv(),
            *final(self) == (Inner {
                sb: Superblock { store_epoch: r.1.store_epoch, ..old(self).sb },
                ..*old(self)
            }),
            r.1.store_epoch == (if old(self).sb.store_epoch < u64::MAX {
                old(self).sb.store_epoch + 1
            } else {
                old(self).sb.store_epoch as int
            }),
            r.1.active_side == 1 - old(self).sb.active_side,
            r.1.entry_table_crc == table_crc(old(self).entries@),
            r.1.free_entry_head == old(self).sb.free_entry_head,
            r.1.free_chunk_head == old(self).sb.free_chunk_head,
            r.1.chunk_count == old(self).sb.chunk_count,
            r.1.flags == old(self).sb.flags & !FLAG_NEEDS_REPAIR,
            r.0 == spec_header_body_size(old(self).sb.entry_count) + r.1.active_side * 4096,
            old(self).wf() ==> final(self).wf(),
            final(self).files() == old(self).files(),
            final(self).contents() == old(self).contents(),
    {
        let ghost pre = *self;
        self.sb.store_epoch = self.sb.store_epoch.saturating_add(1);
        let next_side = 1 - self.sb.active_side;
        let rec = CommitRecord {
            store_epoch: self.sb.store_epoch,
            active_side: next_side,
            entry_table_crc: self.entry_table_crc(),
            free_entry_head: self.sb.free_entry_head,
            free_chunk_head: self.sb.free_chunk_head,
            chunk_count: self.sb.chunk_count,
            flags: self.sb.flags & !FLAG_NEEDS_REPAIR,
        };
        let off = commit_offset(self.sb.entry_count, next_side);
        proof {
            lemma_same_entries_views(pre, *self);
            if pre.wf() {
                reveal(Inner::chain_ok);
                reveal(Inner::extents_ok);
            }
        }
        (off, rec)
    }

    /// The last step of a commit (after the record is synced): the record's
    /// side becomes the active one and its flags the superblock's. The
    /// caller then writes and syncs `self.sb.encode()` at offset 0.
    pub fn seal_commit(&mut self, rec: &CommitRecord)
        requires
            old(self).inv(),
            rec.active_side <= 1,
        ensures
            final(self).inv(),
            *final(self) == (Inner {
                sb: Superblock { active_side: rec.active_side, flags: rec.flags, ..old(self).sb },
                ..*old(self)
            }),
            old(self).wf() ==> final(self).wf(),
            final(self).files() == old(self).files(),
            final(self).contents() == old(self).contents(),
    {
        let ghost pre = *self;
        self.sb.active_side = rec.active_side;
        self.sb.flags = rec.flags;
        proof {
            lemma_same_entries_views(pre, *self);
            if pre.wf() {
                reveal(Inner::chain_ok);
                reveal(Inner::extents_ok);
            }
        }
    }
}

/// Refuses a slot count of zero, before anything is created.
pub fn validate_entry_count(entry_count: u32) -> (r: Result<()>)
    ensures
        entry_count == 0 ==> is_corrupt_with(r, "entry_count must be > 0"@),
        entry_count > 0 ==> r is Ok,
{
    if entry_count == 0 {
        return Err(Error::Corrupt(String::from_str("entry_count must be > 0")));
    }
    Ok(())
}

impl Inner {
    /// The state of a newly created store: `entry_count` free slots linked
    /// in order, no chunks, every slot dirty. The caller sizes `header.bin`
    /// to `header_file_size(entry_count)`, truncates `data.bin` and commits.
    pub fn init_new(entry_count: u32) -> (st: Inner)
        requires
            entry_count > 0,
        ensures
            st.sized(),
            st.wf(),
            st.files() == Map::<Seq<u8>, Entry>::empty(),
            st.sb == Superblock::new_spec(entry_count),
            st.entries@ == Seq::new(entry_count as nat, |i: int| free_entry(if i + 1 < entry_count { (i + 1) as u32 } else { NIL })),
            st.free_extents@.len() == 0,
            st.dirty_slots@ == Seq::new(entry_count as nat, |_i: int| true),
            st.data@.len() == 0,
    {
        let mut entries: Vec<Entry> = Vec::new();
        let mut dirty: Vec<bool> = Vec::new();
        let mut i: u32 = 0;
        while i < entry_count
            invariant
                i <= entry_count,
                entries@.len() == i,
                dirty@.len() == i,
                forall|k: int| 0 <= k < i ==> #[trigger] entries@[k] == free_entry(if k + 1 < entry_count { (k + 1) as u32 } else { NIL }),
                forall|k: int| 0 <= k < i ==> #[trigger] dirty@[k],
            decreases entry_count - i,
        {
            let next = if i + 1 < entry_count {
                i + 1
            } else {
                NIL
            };
            entries.push(Entry::free(next));
            dirty.push(true);
            i = i + 1;
        }
        let st = Inner {
            sb: Superblock::new(entry_count),
            entries,
            free_extents: Vec::new(),
            dirty_slots: dirty,
            free_chain: Ghost(Seq::new(entry_count as nat, |k: int| k as u32)),
            data: Ghost(Seq::empty()),
        };
        proof {
            reveal(Inner::chain_ok);
            reveal(Inner::extents_ok);
            assert(st.entries@ =~= Seq::new(entry_count as nat, |i: int| free_entry(if i + 1 < entry_count { (i + 1) as u32 } else { NIL })));
            assert(st.dirty_slots@ =~= Seq::new(entry_count as nat, |_i: int| true));
            assert forall|k: int| 0 <= k < entry_count implies !#[trigger] entry_live(st.entries@[k]) by {}
            assert(st.chain_ok());
            assert(st.extents_ok());
            assert(st.files() =~= Map::<Seq<u8>, Entry>::empty());
        }
        st
    }
}

/// The record that a commit side holds, when it was read and decodes.
pub open spec fn decoded_commit(b: Option<Seq<u8>>) -> Option<CommitRecord> {
    match b {
        Some(s) => if commit_problem(s) is None {
            Some(commit_fields(s))
        } else {
            None
        },
        None => None,
    }
}

/// The commit record a store opens from: the valid side with the larger
/// epoch, side A on a tie.
pub open spec fn spec_select_commit(a: Option<Seq<u8>>, b: Option<Seq<u8>>) -> Option<CommitRecord> {
    match (decoded_commit(a), decoded_commit(b)) {
        (Some(x), Some(y)) => if y.store_epoch > x.store_epoch {
            Some(y)
        } else {
            Some(x)
        },
        (Some(x), None) => Some(x),
        (None, Some(y)) => Some(y),
        (None, None) => None,
    }
}

pub open spec fn opt_view(b: Option<&[u8]>) -> Option<Seq<u8>> {
    match b {
        Some(s) => Some(s@),
        None => None,
    }
}

/// Picks the commit record to open from, given the bytes of side A and
/// side B (`None` where reading that side failed).
pub fn select_commit(side_a: Option<&[u8]>, side_b: Option<&[u8]>) -> (r: Result<CommitRecord>)
    ensures
        match spec_select_commit(opt_view(side_a), opt_view(side_b)) {
            Some(c) => r == Ok::<CommitRecord, Error>(c),
            None => is_corrupt_with(r, "no valid commit record"@),
        },
{
    let mut best: Option<CommitRecord> = None;
    if let Some(buf) = side_a {
        if let Ok(rec) = CommitRecord::decode(buf) {
            best = Some(rec);
        }
    }
    if let Some(buf) = side_b {
        if let Ok(rec) = CommitRecord::decode(buf) {
            let replace = match best {
                Some(b) => rec.store_epoch > b.store_epoch,
                None => true,
            };
            if replace {
                best = Some(rec);
            }
        }
    }
    match best {
        Some(b) => Ok(b),
        None => Err(Error::Corrupt(String::from_str("no valid commit record"))),
    }
}

/// The running CRC-32C over the first `n` 512-byte slots of `t`.
pub open spec fn slots_crc(t: Seq<u8>, n: int) -> u32
    decreases n,
{
    if n <= 0 {
        0
    } else {
        spec_crc32c_append(slots_crc(t, n - 1), t.subrange((n - 1) * 512, n * 512))
    }
}

/// The 512 bytes of slot `i` in the entry table `t`.
pub open spec fn slot_bytes(t: Seq<u8>, i: int) -> Seq<u8> {
    t.subrange(i * 512, i * 512 + 512)
}

/// A table holding the encodings of `es` has the table CRC of `es`.
pub proof fn lemma_slots_crc_of_images(t: Seq<u8>, es: Seq<Entry>, n: int)
    requires
        0 <= n <= es.len(),
        t.len() >= es.len() * 512,
        forall|i: int| 0 <= i < es.len() ==> #[trigger] slot_bytes(t, i) == entry_image(es[i]),
    ensures
        slots_crc(t, n) == table_crc(es.take(n)),
    decreases n,
{
    if n > 0 {
        lemma_slots_crc_of_images(t, es, n - 1);
        assert(es.take(n).drop_last() =~= es.take(n - 1));
        assert(slot_bytes(t, n - 1) == t.subrange((n - 1) * 512, n * 512));
    }
}

/// `es` is what `load_entries` reads from the table `t` of `n` slots: the
/// entry each slot spells, and a free slot where a slot does not decode.
pub open spec fn table_decodes_to(t: Seq<u8>, n: int, es: Seq<Entry>) -> bool {
    &&& es.len() == n
    &&& forall|i: int|
        0 <= i < n ==> {
            let b = #[trigger] slot_bytes(t, i);
            &&& entry_bytes_ok(b) ==> entry_matches(b, es[i])
            &&& !entry_bytes_ok(b) ==> es[i] == free_entry(NIL)
        }
}

/// The table `t` of `n` slots has a slot that does not decode, or a running
/// CRC other than the committed `crc`: the store then needs repair.
pub open spec fn table_damaged(t: Seq<u8>, n: int, crc: u32) -> bool {
    ||| exists|i: int| 0 <= i < n && !entry_bytes_ok(#[trigger] slot_bytes(t, i))
    ||| slots_crc(t, n) != crc
}

/// `w` are the writes that put the encoding of each dirty entry of `es`
/// into its slot of `header.bin`, in slot order.
pub open spec fn dirty_writes(es: Seq<Entry>, dirty: Seq<bool>, w: Seq<(u64, [u8; 512])>) -> bool {
    &&& w.len() == dirty_list(dirty).len()
    &&& forall|k: int|
        #![trigger w[k]]
        0 <= k < w.len() ==> {
            let slot = dirty_list(dirty)[k];
            &&& w[k].0 == 4096 + slot * 512
            &&& w[k].1@ == entry_image(es[slot])
        }
}

/// The file image `h` after the writes of `w`, first to last.
pub open spec fn after_writes(h: Seq<u8>, w: Seq<(u64, [u8; 512])>) -> Seq<u8>
    decreases w.len(),
{
    if w.len() == 0 {
        h
    } else {
        write_at(after_writes(h, w.drop_last()), w.last().0 as int, w.last().1@)
    }
}

/// The entry table of `n` slots in the `header.bin` image `h`.
pub open spec fn table_in(h: Seq<u8>, n: int) -> Seq<u8> {
    h.subrange(4096, 4096 + n * 512)
}

/// Every set flag of `d` is listed in `dirty_list(d)`.
pub proof fn lemma_dirty_list_complete(d: Seq<bool>)
    ensures
        forall|i: int|
            0 <= i < d.len() && d[i] ==> exists|k: int|
                0 <= k < dirty_list(d).len() && #[trigger] dirty_list(d)[k] == i,
    decreases d.len(),
{
    if d.len() > 0 {
        let d0 = d.drop_last();
        lemma_dirty_list_complete(d0);
        assert forall|i: int| 0 <= i < d.len() && d[i] implies exists|k: int|
            0 <= k < dirty_list(d).len() && #[trigger] dirty_list(d)[k] == i by {
            if i == d.len() - 1 {
                assert(dirty_list(d)[dirty_list(d).len() - 1] == i);
            } else {
                assert(d0[i] == d[i]);
                let k = choose|k: int| 0 <= k < dirty_list(d0).len() && #[trigger] dirty_list(d0)[k] == i;
                assert(dirty_list(d)[k] == dirty_list(d0)[k]);
            }
        }
    }
}

/// Every entry encodes to one 512-byte slot.
pub proof fn lemma_entry_image_len(e: Entry)
    ensures
        entry_image(e).len() == 512,
{
    crate::yfs::format::lemma_le_lengths();
    assert(e.content_hash@.len() == 32);
    assert(e.name@.len() == 256);
}

/// Slot `i` of the table in `h` is the 512 bytes at `4096 + i * 512`.
proof fn lemma_slot_in(h: Seq<u8>, n: int, i: int)
    requires
        0 <= i < n,
        h.len() >= 4096 + n * 512,
    ensures
        slot_bytes(table_in(h, n), i) == h.subrange(4096 + i * 512, 4096 + i * 512 + 512),
{
    assert(i * 512 + 512 <= n * 512) by (nonlinear_arith)
        requires
            i < n,
    ;
    assert(slot_bytes(table_in(h, n), i) =~= h.subrange(4096 + i * 512, 4096 + i * 512 + 512));
}

/// After the first `k` dirty writes, a slot holds its entry's encoding where
/// one of them went to it, and what it held before elsewhere.
proof fn lemma_writes_prefix(h: Seq<u8>, es: Seq<Entry>, dirty: Seq<bool>, w: Seq<(u64, [u8; 512])>, k: int)
    requires
        dirty.len() == es.len(),
        h.len() >= 4096 + es.len() * 512,
        dirty_writes(es, dirty, w),
        0 <= k <= w.len(),
    ensures
        after_writes(h, w.take(k)).len() == h.len(),
        forall|i: int|
            0 <= i < es.len() ==> #[trigger] slot_bytes(table_in(after_writes(h, w.take(k)), es.len() as int), i)
                == if exists|j: int| 0 <= j < k && dirty_list(dirty)[j] == i {
                entry_image(es[i])
            } else {
                slot_bytes(table_in(h, es.len() as int), i)
            },
    decreases k,
{
    let n = es.len() as int;
    if k == 0 {
        assert(w.take(0) =~= Seq::<(u64, [u8; 512])>::empty());
    } else {
        lemma_writes_prefix(h, es, dirty, w, k - 1);
        lemma_dirty_list_bounds(dirty);
        let a = after_writes(h, w.take(k - 1));
        assert(w.take(k).drop_last() =~= w.take(k - 1));
        let s = dirty_list(dirty)[k - 1];
        let img = entry_image(es[s]);
        lemma_entry_image_len(es[s]);
        let off = 4096 + s * 512;
        assert(w[k - 1].0 == off && w[k - 1].1@ == img);
        let b = write_at(a, off, img);
        assert(after_writes(h, w.take(k)) == b);
        assert forall|i: int| 0 <= i < n implies #[trigger] slot_bytes(table_in(b, n), i)
            == if exists|j: int| 0 <= j < k && dirty_list(dirty)[j] == i {
            entry_image(es[i])
        } else {
            slot_bytes(table_in(h, n), i)
        } by {
            lemma_slot_in(b, n, i);
            lemma_slot_in(a, n, i);
            lemma_slot_in(a, n, s);
            if i == s {
                lemma_write_at_inside(a, off, img, 512);
                assert(img.subrange(0, 512) =~= img);
            } else {
                if i < s {
                    assert(i * 512 + 512 <= s * 512) by (nonlinear_arith)
                        requires
                            i < s,
                    ;
                } else {
                    assert(s * 512 + 512 <= i * 512) by (nonlinear_arith)
                        requires
                            s < i,
                    ;
                }
                lemma_write_at_outside(a, off, img, 4096 + i * 512, 4096 + i * 512 + 512);
                if exists|j: int| 0 <= j < k && dirty_list(dirty)[j] == i {
                    let j = choose|j: int| 0 <= j < k && dirty_list(dirty)[j] == i;
                    assert(j < k - 1);
                }
            }
        }
    }
}

/// A commit leaves every slot of the entry table holding the encoding of its
/// entry: the clean slots already did, and the writes that
/// `take_dirty_entries` returns fill the dirty ones.
pub proof fn lemma_commit_fills_table(h: Seq<u8>, es: Seq<Entry>, dirty: Seq<bool>, w: Seq<(u64, [u8; 512])>)
    requires
        dirty.len() == es.len(),
        h.len() >= 4096 + es.len() * 512,
        forall|i: int|
            0 <= i < es.len() && !dirty[i] ==> #[trigger] slot_bytes(table_in(h, es.len() as int), i)
                == entry_image(es[i]),
        dirty_writes(es, dirty, w),
    ensures
        after_writes(h, w).len() == h.len(),
        forall|i: int|
            0 <= i < es.len() ==> #[trigger] slot_bytes(table_in(after_writes(h, w), es.len() as int), i)
                == entry_image(es[i]),
{
    lemma_writes_prefix(h, es, dirty, w, w.len() as int);
    assert(w.take(w.len() as int) =~= w);
    lemma_dirty_list_complete(dirty);
    assert forall|i: int| 0 <= i < es.len() implies #[trigger] slot_bytes(
        table_in(after_writes(h, w), es.len() as int),
        i,
    ) == entry_image(es[i]) by {
        if dirty[i] {
            let k = choose|k: int| 0 <= k < dirty_list(dirty).len() && #[trigger] dirty_list(dirty)[k] == i;
            assert(0 <= k < w.len() && dirty_list(dirty)[k] == i);
        }
    }
}

/// Reading back a table that holds the encoding of each entry of `es` gives
/// `es` again, and only `es`; checked against `table_crc(es)`, it needs no
/// repair.
pub proof fn lemma_table_roundtrip(t: Seq<u8>, es: Seq<Entry>)
    requires
        t.len() == es.len() * 512,
        forall|i: int| 0 <= i < es.len() ==> #[trigger] slot_bytes(t, i) == entry_image(es[i]),
    ensures
        table_decodes_to(t, es.len() as int, es),
        forall|l: Seq<Entry>| #[trigger] table_decodes_to(t, es.len() as int, l) ==> l == es,
        !table_damaged(t, es.len() as int, table_crc(es)),
{
    let n = es.len() as int;
    assert forall|i: int| 0 <= i < n implies entry_bytes_ok(#[trigger] slot_bytes(t, i))
        && entry_matches(slot_bytes(t, i), es[i]) by {
        lemma_entry_roundtrip(es[i]);
    }
    assert forall|l: Seq<Entry>| #[trigger] table_decodes_to(t, n, l) implies l == es by {
        assert forall|i: int| 0 <= i < n implies l[i] == es[i] by {
            assert(entry_bytes_ok(slot_bytes(t, i)));
            lemma_entry_matches_unique(slot_bytes(t, i), l[i], es[i]);
        }
        assert(l =~= es);
    }
    lemma_slots_crc_of_images(t, es, n);
    assert(es.take(n) =~= es);
}

/// What a commit writes is what opening reads back: with the clean slots of
/// `header.bin` holding their entries' encodings, after the writes that
/// `take_dirty_entries` returns the entry table decodes to `es`, and only to
/// `es`, and matches the table CRC that `finish_commit` records.
pub proof fn lemma_commit_reloads(h: Seq<u8>, es: Seq<Entry>, dirty: Seq<bool>, w: Seq<(u64, [u8; 512])>)
    requires
        dirty.len() == es.len(),
        h.len() >= 4096 + es.len() * 512,
        forall|i: int|
            0 <= i < es.len() && !dirty[i] ==> #[trigger] slot_bytes(table_in(h, es.len() as int), i)
                == entry_image(es[i]),
        dirty_writes(es, dirty, w),
    ensures
        table_decodes_to(table_in(after_writes(h, w), es.len() as int), es.len() as int, es),
        forall|l: Seq<Entry>|
            #[trigger] table_decodes_to(table_in(after_writes(h, w), es.len() as int), es.len() as int, l)
                ==> l == es,
        !table_damaged(table_in(after_writes(h, w), es.len() as int), es.len() as int, table_crc(es)),
{
    lemma_commit_fills_table(h, es, dirty, w);
    lemma_table_roundtrip(table_in(after_writes(h, w), es.len() as int), es);
}

/// Reopening a committed store gives back its files: with the clean slots
/// of `header.bin` holding their entries' encodings, once the writes that
/// `take_dirty_entries` returns are made, any state that `load_entries`
/// fills from the table holds the same entries, hence the same files with
/// the same metadata, and the table matches the CRC that `finish_commit`
/// records, so opening flags nothing for repair.
pub proof fn lemma_reopen_keeps_files(pre: Inner, loaded: Inner, h: Seq<u8>, w: Seq<(u64, [u8; 512])>)
    requires
        pre.inv(),
        pre.dirty_slots@.len() == pre.entries@.len(),
        h.len() >= 4096 + pre.entries@.len() * 512,
        forall|i: int|
            0 <= i < pre.entries@.len() && !pre.dirty_slots@[i] ==> #[trigger] slot_bytes(
                table_in(h, pre.entries@.len() as int),
                i,
            ) == entry_image(pre.entries@[i]),
        dirty_writes(pre.entries@, pre.dirty_slots@, w),
        table_decodes_to(
            table_in(after_writes(h, w), pre.entries@.len() as int),
            pre.entries@.len() as int,
            loaded.entries@,
        ),
    ensures
        loaded.entries@ == pre.entries@,
        loaded.files() == pre.files(),
        !table_damaged(
            table_in(after_writes(h, w), pre.entries@.len() as int),
            pre.entries@.len() as int,
            table_crc(pre.entries@),
        ),
{
    lemma_commit_reloads(h, pre.entries@, pre.dirty_slots@, w);
    assert(loaded.entries@ == pre.entries@);
    assert forall|n: Seq<u8>| #[trigger] loaded.has_name(n) == pre.has_name(n) by {
        if pre.has_name(n) {
            let i = choose|i: int| #![trigger pre.entries@[i]] pre.live(i) && entry_name(pre.entries@[i]) == n;
            assert(loaded.live(i) && entry_name(loaded.entries@[i]) == n);
        }
        if loaded.has_name(n) {
            let i = choose|i: int| #![trigger loaded.entries@[i]] loaded.live(i) && entry_name(loaded.entries@[i]) == n;
            assert(pre.live(i) && entry_name(pre.entries@[i]) == n);
        }
    }
    assert forall|n: Seq<u8>| #[trigger] pre.has_name(n) implies loaded.files()[n] == pre.files()[n] by {
        let i = pre.slot_of(n);
        let j = loaded.slot_of(n);
        assert(pre.live(i) && entry_name(pre.entries@[i]) == n);
        assert(loaded.live(j) && entry_name(loaded.entries@[j]) == n);
        assert(pre.live(j));
    }
    assert(loaded.files() =~= pre.files());
}

/// After a commit writes record `rec` to the side it names, opening picks
/// `rec`, when the other side holds no valid record or one with a smaller
/// epoch.
pub proof fn lemma_select_fresh_commit(rec: CommitRecord, other: Option<Seq<u8>>)
    requires
        decoded_commit(other) matches Some(o) ==> o.store_epoch < rec.store_epoch,
    ensures
        spec_select_commit(Some(commit_image(rec)), other) == Some(rec),
        spec_select_commit(other, Some(commit_image(rec))) == Some(rec),
{
    lemma_commit_roundtrip(rec);
}

/// A live slot whose name an earlier live slot already has.
pub open spec fn dup_at(es: Seq<Entry>, j: int) -> bool {
    0 <= j < es.len() && entry_live(es[j]) && exists|i: int|
        0 <= i < j && entry_live(es[i]) && #[trigger] entry_name(es[i]) == entry_name(es[j])
}

/// Where a free-list walk stands: the chunk of the next extent header,
/// and how many headers were read.
pub struct FreeScan {
    pub cur: u32,
    pub guard: u64,
}

impl Inner {
    /// The state while a store is being opened: the superblock with the
    /// heads, epoch, side and flags of the chosen commit record, and no
    /// entries yet, and the data model zeroed (see `Inner::data`). A record
    /// whose active side is not 0 or 1 is refused.
    pub fn begin_load(sb: Superblock, commit: &CommitRecord) -> (r: Result<Inner>)
        ensures
            commit.active_side > 1 ==> is_corrupt_with(r, "bad active side"@),
            commit.active_side <= 1 ==> (r matches Ok(st) && st.sb == (Superblock {
                store_epoch: commit.store_epoch,
                active_side: commit.active_side,
                free_entry_head: commit.free_entry_head,
                free_chunk_head: commit.free_chunk_head,
                chunk_count: commit.chunk_count,
                flags: commit.flags,
                ..sb
            }) && st.entries@.len() == 0 && st.free_extents@.len() == 0 && st.dirty_slots@.len() == 0
                && st.data@ == zeros((commit.chunk_count * 4096) as nat)),
    {
        if commit.active_side > 1 {
            return Err(Error::Corrupt(String::from_str("bad active side")));
        }
        let mut sb2 = sb;
        sb2.store_epoch = commit.store_epoch;
        sb2.active_side = commit.active_side;
        sb2.free_entry_head = commit.free_entry_head;
        sb2.free_chunk_head = commit.free_chunk_head;
        sb2.chunk_count = commit.chunk_count;
        sb2.flags = commit.flags;
        Ok(
            Inner {
                sb: sb2,
                entries: Vec::new(),
                free_extents: Vec::new(),
                dirty_slots: Vec::new(),
                free_chain: Ghost(Seq::empty()),
                data: Ghost(zeros((commit.chunk_count * 4096) as nat)),
            },
        )
    }

    /// Decodes the entry table `table` (all slots, as read from
    /// `header.bin`). A slot that does not decode becomes a free slot and
    /// flags the store for repair, as does a table CRC that differs from the
    /// committed `expected_crc`.
    pub fn load_entries(&mut self, table: &[u8], expected_crc: u32)
        requires
            old(self).entries@.len() == 0,
            old(self).dirty_slots@.len() == 0,
            table@.len() == old(self).sb.entry_count * 512,
        ensures
            *final(self) == (Inner {
                sb: Superblock { flags: final(self).sb.flags, ..old(self).sb },
                entries: final(self).entries,
                dirty_slots: final(self).dirty_slots,
                ..*old(self)
            }),
            final(self).entries@.len() == old(self).sb.entry_count,
            final(self).dirty_slots@ == Seq::new(old(self).sb.entry_count as nat, |_i: int| false),
            table_decodes_to(table@, old(self).sb.entry_count as int, final(self).entries@),
            final(self).sb.flags == (if table_damaged(table@, old(self).sb.entry_count as int, expected_crc) {
                old(self).sb.flags | FLAG_NEEDS_REPAIR
            } else {
                old(self).sb.flags
            }),
    {
        let ghost pre = *self;
        let n = self.sb.entry_count;
        let mut crc: u32 = 0;
        let mut bad = false;
        let mut slot: u32 = 0;
        while slot < n
            invariant
                n == pre.sb.entry_count,
                table@.len() == n * 512,
                slot <= n,
                *self == (Inner { entries: self.entries, dirty_slots: self.dirty_slots, ..pre }),
                self.entries@.len() == slot,
                self.dirty_slots@.len() == slot,
                forall|k: int| 0 <= k < slot ==> !#[trigger] self.dirty_slots@[k],
                forall|i: int|
                    0 <= i < slot ==> {
                        let b = #[trigger] slot_bytes(table@, i);
                        &&& entry_bytes_ok(b) ==> entry_matches(b, self.entries@[i])
                        &&& !entry_bytes_ok(b) ==> self.entries@[i] == free_entry(NIL)
                    },
                crc == slots_crc(table@, slot as int),
                bad == exists|i: int| 0 <= i < slot && !entry_bytes_ok(#[trigger] slot_bytes(table@, i)),
            decreases n - slot,
        {
            let tl = table.len();
            proof {
                assert(slot * 512 + 512 <= n * 512) by (nonlinear_arith)
                    requires
                        slot < n,
                ;
            }
            let off = (slot as usize) * 512;
            let buf = slice_subrange(table, off, off + 512);
            crc = crc32c_append(crc, buf);
            let ghost b = slot_bytes(table@, slot as int);
            assert(buf@ == b);
            match Entry::decode(buf) {
                Ok(e) => {
                    self.entries.push(e);
                },
                Err(_) => {
                    self.entries.push(Entry::free(NIL));
                    bad = true;
                },
            }
            self.dirty_slots.push(false);
            proof {
                assert(b.len() == 512);
                assert(entry_bytes_ok(b) == (entry_bytes_ok(buf@)));
            }
            slot = slot + 1;
        }
        if bad || crc != expected_crc {
            self.sb.flags = self.sb.flags | FLAG_NEEDS_REPAIR;
        }
        proof {
            assert(self.dirty_slots@ =~= Seq::new(n as nat, |_i: int| false));
        }
    }

    /// Checks that no two live slots share a name; names the first slot
    /// that repeats an earlier one.
    pub fn check_names(&self) -> (r: Result<()>)
        requires
            self.shape(),
        ensures
            r is Ok <==> self.names_unique(),
            r is Ok ==> self.inv(),
            r is Err ==> exists|j: int| #[trigger] dup_at(self.entries@, j) && (forall|k: int| 0 <= k < j ==> !dup_at(self.entries@, k))
                && is_corrupt_with(r, "duplicate name in slot "@ + crate::text::decimal(j as nat)),
    {
        let n = self.entries.len();
        let mut j: usize = 0;
        while j < n
            invariant
                n == self.entries@.len(),
                self.shape(),
                j <= n,
                forall|k: int| 0 <= k < j ==> !dup_at(self.entries@, k),
            decreases n - j,
        {
            if self.entries[j].is_live() {
                let mut i: usize = 0;
                while i < j
                    invariant
                        n == self.entries@.len(),
                        self.shape(),
                        i <= j < n,
                        entry_live(self.entries@[j as int]),
                        forall|k: int| 0 <= k < j ==> !dup_at(self.entries@, k),
                        forall|k: int| 0 <= k < i ==> !(entry_live(self.entries@[k]) && #[trigger] entry_name(self.entries@[k]) == entry_name(self.entries@[j as int])),
                    decreases j - i,
                {
                    if self.entries[i].is_live() && bytes_eq(self.entries[i].name_bytes(), self.entries[j].name_bytes()) {
                        proof {
                            assert(entry_live(self.entries@[i as int]) && entry_name(self.entries@[i as int]) == entry_name(self.entries@[j as int]));
                            assert(dup_at(self.entries@, j as int));
                        }
                        return Err(Error::Corrupt(text_then_decimal("duplicate name in slot ", j as u64)));
                    }
                    i = i + 1;
                }
            }
            j = j + 1;
        }
        proof {
            assert forall|a: int, b: int|
                #![trigger self.entries@[a], self.entries@[b]]
                self.live(a) && self.live(b) && entry_name(self.entries@[a]) == entry_name(self.entries@[b]) implies a == b by {
                if a < b {
                    assert(dup_at(self.entries@, b));
                } else if b < a {
                    assert(dup_at(self.entries@, a));
                }
            }
        }
        Ok(())
    }

    /// Starts the walk of the free-extent list on disk: clears the list and
    /// starts at the committed head.
    pub fn begin_free_scan(&mut self) -> (scan: FreeScan)
        requires
            old(self).inv(),
        ensures
            final(self).inv(),
            *final(self) == (Inner { free_extents: final(self).free_extents, ..*old(self) }),
            final(self).free_extents@.len() == 0,
            scan.cur == old(self).sb.free_chunk_head,
            scan.guard == 0,
    {
        let ghost pre = *self;
        self.free_extents.clear();
        proof {
            lemma_same_entries_views(pre, *self);
        }
        FreeScan { cur: self.sb.free_chunk_head, guard: 0 }
    }

    /// Where the next free-extent header lies in `data.bin`: `None` at the
    /// end of the list; an error when the walk is longer than the store
    /// has chunks (a loop).
    pub fn free_scan_next(&self, scan: &FreeScan) -> (r: Result<Option<u64>>)
        ensures
            scan.cur == NIL ==> r == Ok::<Option<u64>, Error>(None),
            (scan.cur != NIL && scan.guard > self.sb.chunk_count) ==> is_corrupt_with(r, "free extent list loop"@),
            (scan.cur != NIL && scan.guard <= self.sb.chunk_count) ==> r == Ok::<Option<u64>, Error>(Some((scan.cur * 4096) as u64)),
    {
        if scan.cur == NIL {
            return Ok(None);
        }
        if scan.guard > self.sb.chunk_count as u64 {
            return Err(Error::Corrupt(String::from_str("free extent list loop")));
        }
        Ok(Some((scan.cur as u64) * (CHUNK_SIZE as u64)))
    }

    /// Takes in the 16 header bytes read at the offset `free_scan_next`
    /// gave: the extent joins the list and the walk moves to its link.
    pub fn free_scan_accept(&mut self, scan: &mut FreeScan, buf: &[u8]) -> (r: Result<()>)
        requires
            old(self).inv(),
            old(scan).guard <= old(self).sb.chunk_count,
        ensures
            final(self).inv(),
            *final(self) == (Inner { free_extents: final(self).free_extents, ..*old(self) }),
            final(scan).guard == old(scan).guard + 1,
            match crate::yfs::format::extent_problem(buf@, old(scan).cur) {
                Some(msg) => is_corrupt_with(r, msg) && final(self).free_extents@ == old(self).free_extents@,
                None => {
                    let ext = FreeExtent { start: old(scan).cur, n_chunks: crate::yfs::format::le32_at(buf@, 4) };
                    &&& ext_end(ext) > old(self).sb.chunk_count ==> is_corrupt_with(r, "free extent out of range"@)
                        && final(self).free_extents@ == old(self).free_extents@
                    &&& ext_end(ext) <= old(self).sb.chunk_count ==> r is Ok
                        && final(self).free_extents@ == old(self).free_extents@.push(ext)
                        && final(scan).cur == crate::yfs::format::le32_at(buf@, 8)
                },
            },
    {
        let ghost pre = *self;
        scan.guard = scan.guard + 1;
        let (ext, next) = FreeExtent::decode(buf, scan.cur)?;
        if (ext.start as u64) + (ext.n_chunks as u64) > self.sb.chunk_count as u64 {
            return Err(Error::Corrupt(String::from_str("free extent out of range")));
        }
        self.free_extents.push(ext);
        scan.cur = next;
        proof {
            lemma_same_entries_views(pre, *self);
            assert(within(self.free_extents@, self.sb.chunk_count as int)) by {
                assert forall|i: int| 0 <= i < self.free_extents@.len() implies #[trigger] ext_end(self.free_extents@[i]) <= self.sb.chunk_count by {
                    if i < pre.free_extents@.len() {
                        assert(self.free_extents@[i] == pre.free_extents@[i]);
                    }
                }
            }
        }
        Ok(())
    }

    /// The store is flagged for repair.
    pub fn needs_repair(&self) -> (b: bool)
        ensures
            b == (self.sb.flags & FLAG_NEEDS_REPAIR != 0),
    {
        self.sb.flags & FLAG_NEEDS_REPAIR != 0
    }
}

/// Slot `k` of `es` keeps its file through a repair: it is live and no
/// later slot holds a live file of the same name.
pub open spec fn kept(es: Seq<Entry>, k: int) -> bool {
    0 <= k < es.len() && entry_live(es[k]) && forall|m: int|
        k < m < es.len() && entry_live(es[m]) ==> #[trigger] entry_name(es[m]) != entry_name(es[k])
}

/// What a repair leaves of a kept entry: an extent past the end of
/// `data.bin` is dropped together with the size.
pub open spec fn repaired_entry(e: Entry, chunk_count: u32) -> Entry {
    if e.n_chunks > 0 && e.start_chunk + e.n_chunks > chunk_count {
        Entry { n_chunks: 0, start_chunk: 0, size: 0, ..e }
    } else {
        e
    }
}

/// Among the live slots after `m` with a given name, the last one is kept.
pub proof fn lemma_last_of_name_kept(es: Seq<Entry>, m: int)
    requires
        0 <= m < es.len(),
        entry_live(es[m]),
    ensures
        exists|k: int| m <= k < es.len() && kept(es, k) && #[trigger] entry_name(es[k]) == entry_name(es[m]),
    decreases es.len() - m,
{
    if kept(es, m) {
        assert(entry_name(es[m]) == entry_name(es[m]));
    } else {
        let m2 = choose|m2: int| m < m2 < es.len() && entry_live(es[m2]) && #[trigger] entry_name(es[m2]) == entry_name(es[m]);
        lemma_last_of_name_kept(es, m2);
    }
}

/// The first slot after `k` that a repair frees, or `NIL`.
pub open spec fn next_unkept(es: Seq<Entry>, k: int) -> u32
    decreases es.len() - k,
{
    if k + 1 >= es.len() {
        NIL
    } else if !kept(es, k + 1) {
        (k + 1) as u32
    } else {
        next_unkept(es, k + 1)
    }
}

/// Slot `k` of `es` after a repair: a kept entry, repaired, or a free slot
/// linked to the next freed one.
pub open spec fn repaired_slot(es: Seq<Entry>, chunk_count: u32, k: int) -> Entry {
    if kept(es, k) {
        repaired_entry(es[k], chunk_count)
    } else {
        free_entry(next_unkept(es, k))
    }
}

/// Chunk `c` lies in the body of a live entry among the first `n` of `es`.
pub open spec fn used_below(es: Seq<Entry>, n: int, c: int) -> bool {
    exists|k: int| 0 <= k < n && entry_live(es[k]) && #[trigger] in_ext(entry_extent(es[k]), c)
}

/// Some live slot after `slot` holds a file named `name`.
fn live_name_after(entries: &Vec<Entry>, slot: usize, name: &[u8]) -> (r: bool)
    requires
        slot < entries@.len(),
    ensures
        r == exists|k: int|
            slot < k < entries@.len() && entry_live(entries@[k]) && #[trigger] entry_name(entries@[k]) == name@,
{
    let len = entries.len();
    let mut k: usize = slot + 1;
    while k < len
        invariant
            len == entries@.len(),
            slot < k <= entries@.len(),
            forall|m: int| slot < m < k ==> !(entry_live(entries@[m]) && #[trigger] entry_name(entries@[m]) == name@),
        decreases entries@.len() - k,
    {
        if entries[k].is_live() && bytes_eq(entries[k].name_bytes(), name) {
            return true;
        }
        k = k + 1;
    }
    false
}

impl Inner {
    /// The slot part of a repair: walking down from the last slot, a live
    /// entry whose name a later live slot holds is freed, a kept entry
    /// whose extent reaches past `data.bin` loses its body, and every free
    /// slot is relinked so that the free list runs up the slots.
    fn repair_slots(&mut self)
        requires
            old(self).shape(),
        ensures
            final(self).inv(),
            final(self).chain_ok(),
            final(self).entries@ == Seq::new(
                old(self).entries@.len(),
                |k: int| repaired_slot(old(self).entries@, old(self).sb.chunk_count, k),
            ),
            final(self).sb == (Superblock {
                free_entry_head: next_unkept(old(self).entries@, -1),
                ..old(self).sb
            }),
            final(self).free_extents == old(self).free_extents,
            final(self).data == old(self).data,
            final(self).dirty_slots@.len() == old(self).dirty_slots@.len(),
            forall|k: int|
                0 <= k < old(self).entries@.len() ==> #[trigger] final(self).dirty_slots@[k] == (
                old(self).dirty_slots@[k] || !kept(old(self).entries@, k) || (
                old(self).entries@[k].n_chunks > 0 && old(self).entries@[k].start_chunk
                    + old(self).entries@[k].n_chunks > old(self).sb.chunk_count)),
    {
        let ghost pre = *self;
        let ghost es = pre.entries@;
        let n = self.entries.len();
        let cc = self.sb.chunk_count;
        let mut free_head: u32 = NIL;
        let ghost mut ch: Seq<u32> = Seq::empty();
        let mut i: usize = n;
        while i > 0
            invariant
                n == es.len(),
                es == pre.entries@,
                n == pre.sb.entry_count,
                cc == pre.sb.chunk_count,
                i <= n,
                *self == (Inner { entries: self.entries, dirty_slots: self.dirty_slots, ..pre }),
                self.entries@.len() == n,
                self.dirty_slots@.len() == n,
                forall|k: int| 0 <= k < i ==> #[trigger] self.entries@[k] == es[k],
                forall|k: int| i <= k < n ==> #[trigger] self.entries@[k] == repaired_slot(es, cc, k),
                forall|k: int|
                    0 <= k < n ==> #[trigger] self.dirty_slots@[k] == if k >= i {
                        pre.dirty_slots@[k] || !kept(es, k) || (es[k].n_chunks > 0 && es[k].start_chunk
                            + es[k].n_chunks > cc)
                    } else {
                        pre.dirty_slots@[k]
                    },
                free_head == next_unkept(es, i - 1),
                ch.no_duplicates(),
                forall|p: int|
                    #![trigger ch[p]]
                    0 <= p < ch.len() ==> i <= ch[p] < n && !entry_live(self.entries@[ch[p] as int])
                        && self.entries@[ch[p] as int].next_free == (if p + 1 < ch.len() {
                        ch[p + 1]
                    } else {
                        NIL
                    }),
                free_head == (if ch.len() > 0 {
                    ch[0]
                } else {
                    NIL
                }),
            decreases i,
        {
            let slot = i - 1;
            let e = self.entries[slot];
            let live = e.is_live();
            let mut keep = false;
            if live {
                keep = !live_name_after(&self.entries, slot, e.name_bytes());
            }
            proof {
                assert(e == es[slot as int]);
                if live {
                    if keep {
                        assert forall|m: int| slot < m < n && entry_live(es[m]) implies #[trigger] entry_name(es[m])
                            != entry_name(es[slot as int]) by {
                            if entry_name(es[m]) == entry_name(es[slot as int]) {
                                lemma_last_of_name_kept(es, m);
                                let k = choose|k: int| m <= k < es.len() && kept(es, k) && #[trigger] entry_name(es[k])
                                    == entry_name(es[m]);
                                assert(self.entries@[k] == repaired_slot(es, cc, k));
                                assert(entry_live(self.entries@[k]) && entry_name(self.entries@[k]) == e.name@.subrange(0, crate::yfs::format::name_count(e)));
                            }
                        }
                        assert(kept(es, slot as int));
                    } else {
                        let k = choose|k: int|
                            slot < k < n && entry_live(self.entries@[k]) && #[trigger] entry_name(self.entries@[k]) == entry_name(e);
                        assert(self.entries@[k] == repaired_slot(es, cc, k));
                        assert(kept(es, k));
                        assert(entry_live(es[k]) && entry_name(es[k]) == entry_name(es[slot as int]));
                        assert(!kept(es, slot as int));
                    }
                }
                assert(keep == kept(es, slot as int));
            }
            if keep {
                if e.n_chunks > 0 && (e.start_chunk as u64) + (e.n_chunks as u64) > (cc as u64) {
                    let mut e2 = e;
                    e2.n_chunks = 0;
                    e2.start_chunk = 0;
                    e2.size = 0;
                    self.entries.set(slot, e2);
                    self.dirty_slots.set(slot, true);
                }
                proof {
                    assert(next_unkept(es, slot - 1) == next_unkept(es, slot as int));
                }
            } else {
                proof {
                    assert(free_entry(free_head) == repaired_slot(es, cc, slot as int));
                    ch = seq![slot as u32] + ch;
                }
                self.entries.set(slot, Entry::free(free_head));
                self.dirty_slots.set(slot, true);
                free_head = slot as u32;
            }
            i = slot;
        }
        self.sb.free_entry_head = free_head;
        self.free_chain = Ghost(ch);
        proof {
            reveal(Inner::chain_ok);
            assert(self.entries@ =~= Seq::new(n as nat, |k: int| repaired_slot(es, cc, k)));
            assert forall|a: int, b: int|
                #![trigger self.entries@[a], self.entries@[b]]
                self.live(a) && self.live(b) && entry_name(self.entries@[a]) == entry_name(self.entries@[b])
                    implies a == b by {
                assert(kept(es, a) && kept(es, b));
                if a < b {
                    assert(entry_name(es[b]) != entry_name(es[a]));
                } else if b < a {
                    assert(entry_name(es[a]) != entry_name(es[b]));
                }
            }
        }
    }
}

impl Inner {
    /// Marks, for each of the `chunk_count` chunks, whether a live entry's
    /// body lies on it.
    fn used_chunks(&self) -> (used: Vec<bool>)
        requires
            forall|i: int|
                #![trigger self.entries@[i]]
                self.live(i) && self.entries@[i].n_chunks > 0 ==> ext_end(entry_extent(self.entries@[i]))
                    <= self.sb.chunk_count,
        ensures
            used@.len() == self.sb.chunk_count,
            forall|c: int|
                0 <= c < self.sb.chunk_count ==> #[trigger] used@[c] == used_below(
                    self.entries@,
                    self.entries@.len() as int,
                    c,
                ),
    {
        let cc = self.sb.chunk_count;
        let mut used: Vec<bool> = Vec::new();
        let mut c: u32 = 0;
        while c < cc
            invariant
                c <= cc,
                used@.len() == c,
                forall|k: int| 0 <= k < c ==> !#[trigger] used@[k],
            decreases cc - c,
        {
            used.push(false);
            c = c + 1;
        }
        let ghost es = self.entries@;
        let n = self.entries.len();
        let mut i: usize = 0;
        while i < n
            invariant
                n == es.len(),
                es == self.entries@,
                cc == self.sb.chunk_count,
                i <= n,
                used@.len() == cc,
                forall|k: int|
                    #![trigger self.entries@[k]]
                    self.live(k) && self.entries@[k].n_chunks > 0 ==> ext_end(entry_extent(self.entries@[k])) <= cc,
                forall|x: int| 0 <= x < cc ==> #[trigger] used@[x] == used_below(es, i as int, x),
            decreases n - i,
        {
            let e = self.entries[i];
            if e.is_live() && e.n_chunks > 0 {
                proof {
                    assert(self.live(i as int));
                }
                let start = e.start_chunk;
                let end = e.start_chunk + e.n_chunks;
                let mut b: u32 = start;
                while b < end
                    invariant
                        start <= b <= end,
                        end <= cc,
                        start == e.start_chunk,
                        end == e.start_chunk + e.n_chunks,
                        used@.len() == cc,
                        forall|x: int|
                            0 <= x < cc ==> #[trigger] used@[x] == (used_below(es, i as int, x) || start <= x < b),
                    decreases end - b,
                {
                    used.set(b as usize, true);
                    b = b + 1;
                }
                proof {
                    assert forall|x: int| 0 <= x < cc implies #[trigger] used@[x] == used_below(es, i + 1, x) by {
                        if used_below(es, i + 1, x) && !used_below(es, i as int, x) {
                            let k = choose|k: int| 0 <= k < i + 1 && entry_live(es[k]) && #[trigger] in_ext(entry_extent(es[k]), x);
                            assert(k == i);
                        }
                        if start <= x < end {
                            assert(in_ext(entry_extent(es[i as int]), x));
                        }
                    }
                }
            } else {
                proof {
                    assert forall|x: int| 0 <= x < cc implies #[trigger] used@[x] == used_below(es, i + 1, x) by {
                        if used_below(es, i + 1, x) && !used_below(es, i as int, x) {
                            let k = choose|k: int| 0 <= k < i + 1 && entry_live(es[k]) && #[trigger] in_ext(entry_extent(es[k]), x);
                            assert(k == i);
                        }
                    }
                }
            }
            i = i + 1;
        }
        used
    }
}

/// The maximal runs of the chunks that `used` leaves unmarked, in order.
pub fn unused_runs(used: &Vec<bool>, n: u32) -> (runs: Vec<FreeExtent>)
    requires
        used@.len() == n,
    ensures
        canonical(runs@),
        within(runs@, n as int),
        forall|c: int| #[trigger] covers(runs@, c) == (0 <= c < n && !used@[c]),
{
    let mut runs: Vec<FreeExtent> = Vec::new();
    let mut i: u32 = 0;
    while i < n
        invariant
            used@.len() == n,
            i <= n,
            canonical(runs@),
            within(runs@, i as int),
            forall|c: int| #[trigger] covers(runs@, c) == (0 <= c < i && !used@[c]),
            runs@.len() > 0 ==> ext_end(runs@.last()) < i || i == n || used@[i as int],
        decreases n - i,
    {
        if used[i as usize] {
            i = i + 1;
        } else {
            let start = i;
            while i < n && !used[i as usize]
                invariant
                    used@.len() == n,
                    start <= i <= n,
                    forall|c: int| start <= c < i ==> !#[trigger] used@[c],
                decreases n - i,
            {
                i = i + 1;
            }
            let ext = FreeExtent { start, n_chunks: i - start };
            let ghost old_runs = runs@;
            runs.push(ext);
            proof {
                assert forall|c: int| #[trigger] covers(runs@, c) == (0 <= c < i && !used@[c]) by {
                    crate::yfs::extents::lemma_covers_push(old_runs, ext, c);
                }
                assert forall|a: int, b: int| 0 <= a < b < runs@.len() implies ext_end(#[trigger] runs@[a]) < #[trigger] runs@[b].start by {
                    if b == runs@.len() - 1 && a < b {
                        if a < old_runs.len() - 1 {
                            assert(ext_end(old_runs[a]) < old_runs.last().start);
                        }
                    }
                }
            }
        }
    }
    runs
}

impl Inner {
    /// Rebuilds the free slot list and the free extents after a damaged
    /// load: the slots as `repair_slots` leaves them, every chunk that no
    /// live body occupies free again, and the repair flag cleared. The
    /// caller commits next.
    pub fn repair(&mut self)
        requires
            old(self).shape(),
        ensures
            final(self).inv(),
            final(self).chain_ok(),
            final(self).entries@ == Seq::new(
                old(self).entries@.len(),
                |k: int| repaired_slot(old(self).entries@, old(self).sb.chunk_count, k),
            ),
            final(self).sb == (Superblock {
                free_entry_head: next_unkept(old(self).entries@, -1),
                flags: old(self).sb.flags & !FLAG_NEEDS_REPAIR,
                ..old(self).sb
            }),
            canonical(final(self).free_extents@),
            within(final(self).free_extents@, old(self).sb.chunk_count as int),
            forall|c: int|
                #[trigger] covers(final(self).free_extents@, c) == (0 <= c < old(self).sb.chunk_count
                    && !used_below(final(self).entries@, final(self).entries@.len() as int, c)),
            final(self).data == old(self).data,
            final(self).dirty_slots@.len() == old(self).dirty_slots@.len(),
            forall|k: int|
                0 <= k < old(self).entries@.len() ==> #[trigger] final(self).dirty_slots@[k] == (
                old(self).dirty_slots@[k] || !kept(old(self).entries@, k) || (
                old(self).entries@[k].n_chunks > 0 && old(self).entries@[k].start_chunk
                    + old(self).entries@[k].n_chunks > old(self).sb.chunk_count)),
            ({
                let st = *final(self);
                &&& forall|i: int, j: int, c: int|
                    #![trigger st.entries@[i], st.entries@[j], in_ext(entry_extent(st.entries@[i]), c)]
                    st.live(i) && st.live(j) && i != j && in_ext(entry_extent(st.entries@[i]), c)
                        ==> !in_ext(entry_extent(st.entries@[j]), c)
                &&& forall|i: int|
                    #![trigger st.entries@[i]]
                    st.live(i) ==> st.entries@[i].size <= st.entries@[i].n_chunks * 4096
                        && st.entries@[i].start_chunk <= st.sb.chunk_count
                &&& st.data@.len() == st.sb.chunk_count * 4096
            }) ==> final(self).wf(),
    {
        let ghost pre = *self;
        self.repair_slots();
        let ghost mid = *self;
        let cc = self.sb.chunk_count;
        proof {
            assert forall|i: int|
                #![trigger self.entries@[i]]
                self.live(i) && self.entries@[i].n_chunks > 0 implies ext_end(entry_extent(self.entries@[i])) <= cc by {
                assert(self.entries@[i] == repaired_slot(pre.entries@, cc, i));
            }
        }
        let used = self.used_chunks();
        let runs = unused_runs(&used, cc);
        self.free_extents = runs;
        self.sb.flags = self.sb.flags & !FLAG_NEEDS_REPAIR;
        proof {
            reveal(Inner::chain_ok);
            reveal(Inner::extents_ok);
            lemma_same_entries_views(mid, *self);
            assert(self.chain_ok());
            let st = *self;
            if (forall|i: int, j: int, c: int|
                #![trigger st.entries@[i], st.entries@[j], in_ext(entry_extent(st.entries@[i]), c)]
                st.live(i) && st.live(j) && i != j && in_ext(entry_extent(st.entries@[i]), c)
                    ==> !in_ext(entry_extent(st.entries@[j]), c))
                && (forall|i: int|
                    #![trigger st.entries@[i]]
                    st.live(i) ==> st.entries@[i].size <= st.entries@[i].n_chunks * 4096
                        && st.entries@[i].start_chunk <= st.sb.chunk_count)
                && st.data@.len() == st.sb.chunk_count * 4096 {
                assert forall|i: int|
                    #![trigger st.entries@[i]]
                    st.live(i) implies forall|c: int| in_ext(entry_extent(st.entries@[i]), c) ==> !covers(st.free_extents@, c) by {
                    assert forall|c: int| in_ext(entry_extent(st.entries@[i]), c) implies !covers(st.free_extents@, c) by {
                        assert(used_below(st.entries@, st.entries@.len() as int, c));
                    }
                }
                assert(st.extents_ok());
            }
        }
    }
}

/// Slot `i` of `st` holds a live file whose name begins with `prefix`.
pub open spec fn listed(st: Inner, prefix: Seq<u8>, i: int) -> bool {
    st.live(i) && prefix.is_prefix_of(entry_name(st.entries@[i]))
}

/// The entries of `es` at the slots `s` come in strictly increasing name
/// order.
pub open spec fn sorted_by_name(es: Seq<Entry>, s: Seq<usize>) -> bool {
    forall|a: int, b: int|
        #![trigger s[a], s[b]]
        0 <= a < b < s.len() ==> lex_lt(entry_name(es[s[a] as int]), entry_name(es[s[b] as int]))
}

/// `v` lists the files of `files` whose names begin with `prefix`: one
/// record per file, describing it, in name order.
pub open spec fn is_listing(files: Map<Seq<u8>, Entry>, prefix: Seq<u8>, v: Seq<Meta>) -> bool {
    &&& forall|k: int|
        #![trigger v[k]]
        0 <= k < v.len() ==> {
            let n = encode_utf8(v[k].name@);
            &&& files.dom().contains(n)
            &&& prefix.is_prefix_of(n)
            &&& meta_of(v[k], files[n])
        }
    &&& forall|n: Seq<u8>|
        #[trigger] files.dom().contains(n) && prefix.is_prefix_of(n) ==> exists|k: int|
            0 <= k < v.len() && #[trigger] encode_utf8(v[k].name@) == n
    &&& forall|a: int, b: int|
        #![trigger v[a], v[b]]
        0 <= a < b < v.len() ==> lex_lt(encode_utf8(v[a].name@), encode_utf8(v[b].name@))
}

/// Some file whose name begins with `prefix` has a name that is not UTF-8.
pub open spec fn bad_name_listed(files: Map<Seq<u8>, Entry>, prefix: Seq<u8>) -> bool {
    exists|n: Seq<u8>| #[trigger] files.dom().contains(n) && prefix.is_prefix_of(n) && !valid_utf8(n)
}

impl Inner {
    /// The slots of the live files whose names begin with `prefix`, in
    /// name order.
    fn listed_slots(&self, prefix: &[u8]) -> (order: Vec<usize>)
        requires
            self.inv(),
        ensures
            sorted_by_name(self.entries@, order@),
            forall|k: int| 0 <= k < order@.len() ==> listed(*self, prefix@, #[trigger] order@[k] as int),
            forall|j: int| listed(*self, prefix@, j) ==> exists|k: int| 0 <= k < order@.len() && #[trigger] order@[k] == j,
    {
        let ghost es = self.entries@;
        let n = self.entries.len();
        let mut order: Vec<usize> = Vec::new();
        let mut i: usize = 0;
        while i < n
            invariant
                n == es.len(),
                es == self.entries@,
                self.inv(),
                i <= n,
                sorted_by_name(es, order@),
                forall|k: int| 0 <= k < order@.len() ==> #[trigger] order@[k] < i && listed(*self, prefix@, order@[k] as int),
                forall|j: int| 0 <= j < i && listed(*self, prefix@, j) ==> exists|k: int| 0 <= k < order@.len() && #[trigger] order@[k] == j,
            decreases n - i,
        {
            let e = &self.entries[i];
            if e.is_live() && bytes_starts_with(e.name_bytes(), prefix) {
                let mut pos: usize = 0;
                while pos < order.len() && bytes_lt(self.entries[order[pos]].name_bytes(), e.name_bytes())
                    invariant
                        es == self.entries@,
                        n == es.len(),
                        i < n,
                        e == &es[i as int],
                        pos <= order@.len(),
                        forall|k: int| 0 <= k < order@.len() ==> #[trigger] order@[k] < i && listed(*self, prefix@, order@[k] as int),
                        forall|k: int| 0 <= k < pos ==> lex_lt(entry_name(es[#[trigger] order@[k] as int]), entry_name(es[i as int])),
                    decreases order@.len() - pos,
                {
                    pos = pos + 1;
                }
                let ghost old_order = order@;
                proof {
                    old_order.insert_ensures(pos as int, i);
                    if pos < old_order.len() {
                        let q = old_order[pos as int] as int;
                        assert(q != i);
                        assert(self.live(q) && self.live(i as int));
                        assert(entry_name(es[q]) != entry_name(es[i as int]));
                        crate::lex::lemma_lex_total(entry_name(es[q]), entry_name(es[i as int]));
                    }
                }
                order.insert(pos, i);
                proof {
                    let x = entry_name(es[i as int]);
                    assert forall|a: int, b: int|
                        #![trigger order@[a], order@[b]]
                        0 <= a < b < order@.len() implies lex_lt(entry_name(es[order@[a] as int]), entry_name(es[order@[b] as int])) by {
                        if b == pos {
                            assert(order@[a] == old_order[a]);
                        } else if a == pos {
                            assert(order@[b] == old_order[b - 1]);
                            if b - 1 > pos {
                                assert(lex_lt(entry_name(es[old_order[pos as int] as int]), entry_name(es[old_order[b - 1] as int])));
                                crate::lex::lemma_lex_transitive(x, entry_name(es[old_order[pos as int] as int]), entry_name(es[old_order[b - 1] as int]));
                            }
                        } else {
                            let a0 = if a < pos { a } else { a - 1 };
                            let b0 = if b < pos { b } else { b - 1 };
                            assert(order@[a] == old_order[a0]);
                            assert(order@[b] == old_order[b0]);
                            assert(a0 < b0);
                        }
                    }
                    assert forall|k: int| 0 <= k < order@.len() implies #[trigger] order@[k] < i + 1 && listed(*self, prefix@, order@[k] as int) by {
                        if k < pos {
                            assert(order@[k] == old_order[k]);
                        } else if k > pos {
                            assert(order@[k] == old_order[k - 1]);
                        }
                    }
                    assert forall|j: int| 0 <= j < i + 1 && listed(*self, prefix@, j) implies exists|k: int| 0 <= k < order@.len() && #[trigger] order@[k] == j by {
                        if j == i {
                            assert(order@[pos as int] == j);
                        } else {
                            let k0 = choose|k: int| 0 <= k < old_order.len() && #[trigger] old_order[k] == j;
                            if k0 < pos {
                                assert(order@[k0] == j);
                            } else {
                                assert(order@[k0 + 1] == j);
                            }
                        }
                    }
                }
            }
            i = i + 1;
        }
        order
    }

    /// The metadata of the files whose names begin with `prefix`, sorted by
    /// name. A listed name that is not UTF-8 fails the listing.
    pub fn list(&self, prefix: &[u8]) -> (r: Result<Vec<Meta>>)
        requires
            self.inv(),
        ensures
            bad_name_listed(self.files(), prefix@) ==> is_corrupt_with(r, "entry name is not utf-8"@),
            !bad_name_listed(self.files(), prefix@) ==> (r matches Ok(v) && is_listing(self.files(), prefix@, v@)),
    {
        let order = self.listed_slots(prefix);
        let ghost es = self.entries@;
        let mut out: Vec<Meta> = Vec::new();
        let mut k: usize = 0;
        while k < order.len()
            invariant
                self.inv(),
                es == self.entries@,
                sorted_by_name(es, order@),
                forall|q: int| 0 <= q < order@.len() ==> listed(*self, prefix@, #[trigger] order@[q] as int),
                k <= order@.len(),
                out@.len() == k,
                forall|q: int| 0 <= q < k ==> meta_of(#[trigger] out@[q], es[order@[q] as int]),
            decreases order@.len() - k,
        {
            let slot = order[k];
            proof {
                assert(listed(*self, prefix@, slot as int));
            }
            match meta_from_entry(&self.entries[slot]) {
                Ok(m) => {
                    out.push(m);
                },
                Err(err) => {
                    proof {
                        self.lemma_slot_of(slot as int);
                        assert(self.files().dom().contains(entry_name(es[slot as int])));
                    }
                    return Err(err);
                },
            }
            k = k + 1;
        }
        proof {
            let f = self.files();
            assert forall|q: int| 0 <= q < out@.len() implies {
                let n = encode_utf8(#[trigger] out@[q].name@);
                &&& f.dom().contains(n)
                &&& prefix@.is_prefix_of(n)
                &&& meta_of(out@[q], f[n])
            } by {
                assert(listed(*self, prefix@, order@[q] as int));
                self.lemma_slot_of(order@[q] as int);
                assert(meta_of(out@[q], es[order@[q] as int]));
            }
            assert forall|nm: Seq<u8>| #[trigger] f.dom().contains(nm) && prefix@.is_prefix_of(nm) implies exists|q: int|
                0 <= q < out@.len() && #[trigger] encode_utf8(out@[q].name@) == nm by {
                let j = choose|j: int| #![trigger es[j]] self.live(j) && entry_name(es[j]) == nm;
                assert(listed(*self, prefix@, j));
                let q = choose|q: int| 0 <= q < order@.len() && #[trigger] order@[q] == j;
                assert(meta_of(out@[q], es[order@[q] as int]));
            }
            assert forall|a: int, b: int|
                #![trigger out@[a], out@[b]]
                0 <= a < b < out@.len() implies lex_lt(encode_utf8(out@[a].name@), encode_utf8(out@[b].name@)) by {
                assert(meta_of(out@[a], es[order@[a] as int]));
                assert(meta_of(out@[b], es[order@[b] as int]));
                assert(lex_lt(entry_name(es[order@[a] as int]), entry_name(es[order@[b] as int])));
            }
            if bad_name_listed(f, prefix@) {
                let nm = choose|nm: Seq<u8>| #[trigger] f.dom().contains(nm) && prefix@.is_prefix_of(nm) && !valid_utf8(nm);
                let q = choose|q: int| 0 <= q < out@.len() && #[trigger] encode_utf8(out@[q].name@) == nm;
                vstd::utf8::encode_utf8_valid_utf8(out@[q].name@);
            }
        }
        Ok(out)
    }
}

/// Slot `i` of `es` holds a live file with a body of at least one chunk.
pub open spec fn has_body(es: Seq<Entry>, i: int) -> bool {
    0 <= i < es.len() && entry_live(es[i]) && es[i].n_chunks > 0
}

/// The chunks that the bodies among the first `n` slots of `es` take.
pub open spec fn body_chunks(es: Seq<Entry>, n: int) -> int
    decreases n,
{
    if n <= 0 {
        0
    } else {
        body_chunks(es, n - 1) + if has_body(es, n - 1) {
            es[n - 1].n_chunks as int
        } else {
            0
        }
    }
}

/// Move `a` comes before move `b`: compaction moves bodies in slot order.
pub open spec fn moved_before(a: (u32, u32, u32), b: (u32, u32, u32)) -> bool {
    a.0 < b.0
}

/// The chunks that the first `k` moves of `r` take.
pub open spec fn chunks_before(r: Seq<(u32, u32, u32)>, k: int) -> int
    decreases k,
{
    if k <= 0 {
        0
    } else {
        chunks_before(r, k - 1) + r[k - 1].2
    }
}

/// The bytes of the chunks of move `m` in the data image `d`.
pub open spec fn moved_bytes(d: Seq<u8>, m: (u32, u32, u32)) -> Seq<u8> {
    d.subrange(m.1 * 4096, (m.1 + m.2) * 4096)
}

/// The data image after compaction: the chunks of the first `k` moves of
/// `r`, one after another.
pub open spec fn compacted_image(d: Seq<u8>, r: Seq<(u32, u32, u32)>, k: int) -> Seq<u8>
    decreases k,
{
    if k <= 0 {
        Seq::empty()
    } else {
        compacted_image(d, r, k - 1) + moved_bytes(d, r[k - 1])
    }
}

/// `r` is the order in which compaction moves the bodies of `es`: every
/// body once, as (slot, first chunk, chunk count), in slot order.
pub open spec fn is_move_order(es: Seq<Entry>, r: Seq<(u32, u32, u32)>) -> bool {
    &&& forall|k: int|
        #![trigger r[k]]
        0 <= k < r.len() ==> has_body(es, r[k].0 as int) && r[k].1 == es[r[k].0 as int].start_chunk
            && r[k].2 == es[r[k].0 as int].n_chunks
    &&& forall|i: int| has_body(es, i) ==> exists|k: int| 0 <= k < r.len() && #[trigger] r[k].0 == i
    &&& forall|a: int, b: int| #![trigger r[a], r[b]] 0 <= a < b < r.len() ==> moved_before(r[a], r[b])
}

pub proof fn lemma_chunks_before_mono(r: Seq<(u32, u32, u32)>, a: int, b: int)
    requires
        0 <= a <= b <= r.len(),
    ensures
        chunks_before(r, a) <= chunks_before(r, b),
    decreases b,
{
    if a < b {
        lemma_chunks_before_mono(r, a, b - 1);
    }
}

/// Inserting a move adds its chunks to the sums from its position on.
pub proof fn lemma_chunks_before_insert(s: Seq<(u32, u32, u32)>, pos: int, x: (u32, u32, u32), k: int)
    requires
        0 <= pos <= s.len(),
        0 <= k <= s.len() + 1,
    ensures
        k <= pos ==> chunks_before(s.insert(pos, x), k) == chunks_before(s, k),
        k > pos ==> chunks_before(s.insert(pos, x), k) == chunks_before(s, k - 1) + x.2,
    decreases k,
{
    s.insert_ensures(pos, x);
    if k > 0 {
        lemma_chunks_before_insert(s, pos, x, k - 1);
    }
}

/// The compacted image is as long as the moved chunks.
pub proof fn lemma_compacted_len(d: Seq<u8>, r: Seq<(u32, u32, u32)>, k: int)
    requires
        0 <= k <= r.len(),
        forall|j: int| #![trigger r[j]] 0 <= j < r.len() ==> (r[j].1 + r[j].2) * 4096 <= d.len(),
    ensures
        compacted_image(d, r, k).len() == chunks_before(r, k) * 4096,
    decreases k,
{
    if k > 0 {
        lemma_compacted_len(d, r, k - 1);
        let m = r[k - 1];
        assert((m.1 + m.2) * 4096 <= d.len());
    }
}

/// Move `k` lands at chunk `chunks_before(r, k)` of the compacted image.
pub proof fn lemma_compacted_piece(d: Seq<u8>, r: Seq<(u32, u32, u32)>, k: int, m: int, size: int)
    requires
        0 <= k < m <= r.len(),
        0 <= size <= r[k].2 * 4096,
        forall|j: int| #![trigger r[j]] 0 <= j < r.len() ==> (r[j].1 + r[j].2) * 4096 <= d.len(),
    ensures
        compacted_image(d, r, m).subrange(chunks_before(r, k) * 4096, chunks_before(r, k) * 4096 + size)
            == d.subrange(r[k].1 * 4096, r[k].1 * 4096 + size),
    decreases m,
{
    lemma_compacted_len(d, r, m - 1);
    let img = compacted_image(d, r, m);
    let prev = compacted_image(d, r, m - 1);
    let mk = r[k];
    assert((mk.1 + mk.2) * 4096 <= d.len());
    lemma_chunks_before_mono(r, 0, k);
    if m == k + 1 {
        assert(img.subrange(chunks_before(r, k) * 4096, chunks_before(r, k) * 4096 + size)
            =~= d.subrange(mk.1 * 4096, mk.1 * 4096 + size));
    } else {
        lemma_compacted_piece(d, r, k, m - 1, size);
        lemma_chunks_before_mono(r, k + 1, m - 1);
        assert(chunks_before(r, k + 1) == chunks_before(r, k) + mk.2);
        assert(chunks_before(r, k) * 4096 + size <= chunks_before(r, m - 1) * 4096);
        assert(img.subrange(chunks_before(r, k) * 4096, chunks_before(r, k) * 4096 + size)
            =~= prev.subrange(chunks_before(r, k) * 4096, chunks_before(r, k) * 4096 + size));
    }
}

/// Appending the move of slot `i` to a move order of the slots before `i`
/// gives one that includes `i`.
pub proof fn lemma_move_insert(es: Seq<Entry>, r: Seq<(u32, u32, u32)>, pos: int, x: (u32, u32, u32), i: int)
    requires
        0 <= i < es.len(),
        has_body(es, i),
        x == (i as u32, es[i].start_chunk, es[i].n_chunks),
        i <= u32::MAX,
        pos == r.len(),
        forall|k: int|
            #![trigger r[k]]
            0 <= k < r.len() ==> r[k].0 < i && has_body(es, r[k].0 as int) && r[k].1
                == es[r[k].0 as int].start_chunk && r[k].2 == es[r[k].0 as int].n_chunks,
        forall|j: int| 0 <= j < i && has_body(es, j) ==> exists|k: int| 0 <= k < r.len() && #[trigger] r[k].0 == j,
        forall|a: int, b: int| #![trigger r[a], r[b]] 0 <= a < b < r.len() ==> moved_before(r[a], r[b]),
    ensures
        ({
            let t = r.insert(pos, x);
            &&& forall|k: int|
                #![trigger t[k]]
                0 <= k < t.len() ==> t[k].0 < i + 1 && has_body(es, t[k].0 as int) && t[k].1
                    == es[t[k].0 as int].start_chunk && t[k].2 == es[t[k].0 as int].n_chunks
            &&& forall|j: int| 0 <= j < i + 1 && has_body(es, j) ==> exists|k: int| 0 <= k < t.len() && #[trigger] t[k].0 == j
            &&& forall|a: int, b: int| #![trigger t[a], t[b]] 0 <= a < b < t.len() ==> moved_before(t[a], t[b])
            &&& chunks_before(t, t.len() as int) == chunks_before(r, r.len() as int) + x.2
        }),
{
    let t = r.insert(pos, x);
    r.insert_ensures(pos, x);
    lemma_chunks_before_insert(r, pos, x, (r.len() + 1) as int);
    assert forall|k: int|
        #![trigger t[k]]
        0 <= k < t.len() implies t[k].0 < i + 1 && has_body(es, t[k].0 as int) && t[k].1
            == es[t[k].0 as int].start_chunk && t[k].2 == es[t[k].0 as int].n_chunks by {
        if k < pos {
            assert(t[k] == r[k]);
        } else if k > pos {
            assert(t[k] == r[k - 1]);
        }
    }
    assert forall|j: int| 0 <= j < i + 1 && has_body(es, j) implies exists|k: int|
        0 <= k < t.len() && #[trigger] t[k].0 == j by {
        if j == i {
            assert(t[pos].0 == j);
        } else {
            let k0 = choose|k: int| 0 <= k < r.len() && #[trigger] r[k].0 == j;
            if k0 < pos {
                assert(t[k0].0 == j);
            } else {
                assert(t[k0 + 1].0 == j);
            }
        }
    }
    assert forall|a: int, b: int| #![trigger t[a], t[b]] 0 <= a < b < t.len() implies moved_before(t[a], t[b]) by {
        if b == pos {
            assert(t[a] == r[a]);
        } else if a == pos {
            assert(t[b] == r[b - 1]);
            if b - 1 > pos {
                assert(moved_before(r[pos], r[b - 1]));
            }
        } else {
            let a0 = if a < pos { a } else { a - 1 };
            let b0 = if b < pos { b } else { b - 1 };
            assert(t[a] == r[a0]);
            assert(t[b] == r[b0]);
            assert(a0 < b0);
        }
    }
}

impl Inner {
    /// The chunks that the bodies of the live files take, summed.
    pub fn body_chunk_total(&self) -> (t: u64)
        requires
            self.shape(),
        ensures
            t == body_chunks(self.entries@, self.entries@.len() as int),
    {
        let n = self.entries.len();
        let mut t: u64 = 0;
        let mut i: usize = 0;
        while i < n
            invariant
                n == self.entries@.len(),
                n <= u32::MAX,
                i <= n,
                t == body_chunks(self.entries@, i as int),
                t <= i * 0xFFFF_FFFFu64,
            decreases n - i,
        {
            let e = &self.entries[i];
            if e.is_live() && e.n_chunks > 0 {
                t = t + e.n_chunks as u64;
            }
            i = i + 1;
        }
        t
    }

    /// The bodies to move, in the order compaction lays them out.
    fn move_order(&self) -> (r: Vec<(u32, u32, u32)>)
        requires
            self.shape(),
        ensures
            is_move_order(self.entries@, r@),
            chunks_before(r@, r@.len() as int) == body_chunks(self.entries@, self.entries@.len() as int),
    {
        let ghost es = self.entries@;
        let n = self.entries.len();
        let mut r: Vec<(u32, u32, u32)> = Vec::new();
        let mut i: usize = 0;
        while i < n
            invariant
                n == es.len(),
                es == self.entries@,
                n <= u32::MAX,
                i <= n,
                forall|k: int|
                    #![trigger r@[k]]
                    0 <= k < r@.len() ==> r@[k].0 < i && has_body(es, r@[k].0 as int) && r@[k].1
                        == es[r@[k].0 as int].start_chunk && r@[k].2 == es[r@[k].0 as int].n_chunks,
                forall|j: int| 0 <= j < i && has_body(es, j) ==> exists|k: int| 0 <= k < r@.len() && #[trigger] r@[k].0 == j,
                forall|a: int, b: int| #![trigger r@[a], r@[b]] 0 <= a < b < r@.len() ==> moved_before(r@[a], r@[b]),
                chunks_before(r@, r@.len() as int) == body_chunks(es, i as int),
            decreases n - i,
        {
            let e = self.entries[i];
            if e.is_live() && e.n_chunks > 0 {
                let x = (i as u32, e.start_chunk, e.n_chunks);
                let ghost old_r = r@;
                proof {
                    lemma_move_insert(es, old_r, old_r.len() as int, x, i as int);
                    assert(old_r.insert(old_r.len() as int, x) =~= old_r.push(x));
                }
                r.push(x);
            }
            i = i + 1;
        }
        r
    }
}

/// Slot `i` is among the slots of the first `k` moves of `r`.
pub open spec fn moved_upto(r: Seq<(u32, u32, u32)>, k: int, i: int) -> bool {
    exists|j: int| 0 <= j < k && #[trigger] r[j].0 == i
}

/// What compaction leaves of `pre` in `post`: the moved bodies renumbered
/// from chunk 0 in move order, the rest of every entry as it was, the free
/// list empty, and the data image the moved chunks one after another.
#[verifier::opaque]
pub open spec fn compacted(pre: Inner, post: Inner, r: Seq<(u32, u32, u32)>) -> bool {
    &&& is_move_order(pre.entries@, r)
    &&& chunks_before(r, r.len() as int) == body_chunks(pre.entries@, pre.entries@.len() as int)
    &&& chunks_before(r, r.len() as int) <= u32::MAX
    &&& post.entries@.len() == pre.entries@.len()
    &&& forall|k: int|
        #![trigger r[k]]
        0 <= k < r.len() ==> post.entries@[r[k].0 as int] == (Entry {
            start_chunk: chunks_before(r, k) as u32,
            ..pre.entries@[r[k].0 as int]
        })
    &&& forall|i: int|
        #![trigger post.entries@[i]]
        0 <= i < pre.entries@.len() && !has_body(pre.entries@, i) ==> post.entries@[i] == pre.entries@[i]
    &&& post.sb == (Superblock {
        chunk_count: chunks_before(r, r.len() as int) as u32,
        free_chunk_head: NIL,
        ..pre.sb
    })
    &&& post.free_extents@.len() == 0
    &&& post.free_chain == pre.free_chain
    &&& post.data@ == compacted_image(pre.data@, r, r.len() as int)
}

/// What compaction does to one slot: a moved body keeps its length and
/// starts at the chunks of the moves before it; anything else is unchanged.
pub proof fn lemma_compact_slot(pre: Inner, post: Inner, r: Seq<(u32, u32, u32)>, i: int)
    requires
        compacted(pre, post, r),
        0 <= i < pre.entries@.len(),
    ensures
        entry_live(post.entries@[i]) == entry_live(pre.entries@[i]),
        entry_name(post.entries@[i]) == entry_name(pre.entries@[i]),
        post.entries@[i] == (Entry { start_chunk: post.entries@[i].start_chunk, ..pre.entries@[i] }),
        !has_body(pre.entries@, i) ==> post.entries@[i] == pre.entries@[i],
        has_body(pre.entries@, i) ==> exists|k: int|
            0 <= k < r.len() && #[trigger] r[k].0 == i && post.entries@[i].start_chunk == chunks_before(r, k)
                && ext_end(entry_extent(post.entries@[i])) == chunks_before(r, k + 1) && chunks_before(r, k + 1)
                <= chunks_before(r, r.len() as int) && r[k].1 == pre.entries@[i].start_chunk,
{
    reveal(compacted);
    if has_body(pre.entries@, i) {
        let k = choose|k: int| 0 <= k < r.len() && #[trigger] r[k].0 == i;
        lemma_chunks_before_mono(r, k + 1, r.len() as int);
        lemma_chunks_before_mono(r, 0, k);
        assert(post.entries@[r[k].0 as int] == post.entries@[i]);
    }
}

/// The facts that make `post` the compaction of `pre` by `r`.
pub proof fn lemma_make_compacted(pre: Inner, post: Inner, r: Seq<(u32, u32, u32)>)
    requires
        is_move_order(pre.entries@, r),
        chunks_before(r, r.len() as int) == body_chunks(pre.entries@, pre.entries@.len() as int),
        chunks_before(r, r.len() as int) <= u32::MAX,
        post.entries@.len() == pre.entries@.len(),
        forall|k: int|
            #![trigger r[k]]
            0 <= k < r.len() ==> post.entries@[r[k].0 as int] == (Entry {
                start_chunk: chunks_before(r, k) as u32,
                ..pre.entries@[r[k].0 as int]
            }),
        forall|i: int|
            #![trigger post.entries@[i]]
            0 <= i < pre.entries@.len() && !has_body(pre.entries@, i) ==> post.entries@[i] == pre.entries@[i],
        post.sb == (Superblock {
            chunk_count: chunks_before(r, r.len() as int) as u32,
            free_chunk_head: NIL,
            ..pre.sb
        }),
        post.free_extents@.len() == 0,
        post.free_chain == pre.free_chain,
        post.data@ == compacted_image(pre.data@, r, r.len() as int),
    ensures
        compacted(pre, post, r),
{
    reveal(compacted);
}

/// The parts of `compacted` that concern the whole store.
pub proof fn lemma_compacted_parts(pre: Inner, post: Inner, r: Seq<(u32, u32, u32)>)
    requires
        compacted(pre, post, r),
    ensures
        is_move_order(pre.entries@, r),
        chunks_before(r, r.len() as int) <= u32::MAX,
        post.entries@.len() == pre.entries@.len(),
        post.sb == (Superblock {
            chunk_count: chunks_before(r, r.len() as int) as u32,
            free_chunk_head: NIL,
            ..pre.sb
        }),
        post.free_extents@.len() == 0,
        post.free_chain == pre.free_chain,
        post.data@ == compacted_image(pre.data@, r, r.len() as int),
{
    reveal(compacted);
}

/// Compaction keeps every live entry sized: it moves bodies, not sizes.
pub proof fn lemma_compact_sized(pre: Inner, post: Inner, r: Seq<(u32, u32, u32)>)
    requires
        compacted(pre, post, r),
        pre.sized(),
    ensures
        post.sized(),
{
    reveal(compacted);
    assert forall|i: int| #![trigger post.entries@[i]] post.live(i) implies post.entries@[i].n_chunks
        == spec_chunks_for_size(post.entries@[i].size as int) by {
        if has_body(pre.entries@, i) {
            let k = choose|k: int| 0 <= k < r.len() && #[trigger] r[k].0 == i;
            assert(post.entries@[r[k].0 as int] == (Entry {
                start_chunk: chunks_before(r, k) as u32,
                ..pre.entries@[r[k].0 as int]
            }));
            assert(pre.live(i));
        } else {
            assert(post.entries@[i] == pre.entries@[i]);
            assert(pre.live(i));
        }
    }
}

/// Compaction leaves a consistent store consistent, provided each live file
/// without a body starts within the compacted `data.bin`.
#[verifier::rlimit(80)]
#[verifier::spinoff_prover]
pub proof fn lemma_compact_wf(pre: Inner, post: Inner, r: Seq<(u32, u32, u32)>)
    requires
        pre.wf(),
        compacted(pre, post, r),
        post.dirty_slots@.len() == pre.dirty_slots@.len(),
        forall|i: int|
            #![trigger pre.entries@[i]]
            pre.live(i) && pre.entries@[i].n_chunks == 0 ==> pre.entries@[i].start_chunk <= post.sb.chunk_count,
    ensures
        post.wf(),
{
    reveal(Inner::chain_ok);
    reveal(Inner::extents_ok);
    lemma_compacted_parts(pre, post, r);
    let es = pre.entries@;
    let d = pre.data@;
    let len = r.len() as int;
    assert forall|j: int| #![trigger r[j]] 0 <= j < r.len() implies (r[j].1 + r[j].2) * 4096 <= d.len() by {
        assert(pre.live(r[j].0 as int));
        assert(ext_end(entry_extent(es[r[j].0 as int])) <= pre.sb.chunk_count);
    }
    lemma_compacted_len(d, r, len);
    assert forall|i: int| 0 <= i < es.len() implies #[trigger] post.live(i) == pre.live(i) by {
        lemma_compact_slot(pre, post, r, i);
    }
    assert forall|a: int, b: int|
        #![trigger post.entries@[a], post.entries@[b]]
        post.live(a) && post.live(b) && entry_name(post.entries@[a]) == entry_name(post.entries@[b]) implies a == b by {
        lemma_compact_slot(pre, post, r, a);
        lemma_compact_slot(pre, post, r, b);
        assert(pre.live(a) && pre.live(b));
    }
    assert(post.inv());
    let ch = post.free_chain@;
    assert forall|k: int|
        #![trigger ch[k]]
        0 <= k < ch.len() implies ch[k] < post.entries@.len() && !entry_live(post.entries@[ch[k] as int])
            && post.entries@[ch[k] as int].next_free == (if k + 1 < ch.len() { ch[k + 1] } else { NIL }) by {
        lemma_compact_slot(pre, post, r, ch[k] as int);
    }
    assert(post.chain_ok());
    assert forall|i: int|
        #![trigger post.entries@[i]]
        post.live(i) implies {
            let e = post.entries@[i];
            &&& ext_end(entry_extent(e)) <= post.sb.chunk_count
            &&& e.size <= e.n_chunks * 4096
            &&& forall|c: int| in_ext(entry_extent(e), c) ==> !covers(post.free_extents@, c)
        } by {
        lemma_compact_slot(pre, post, r, i);
        assert(pre.live(i));
    }
    assert forall|i: int, j: int, c: int|
        #![trigger post.entries@[i], post.entries@[j], in_ext(entry_extent(post.entries@[i]), c)]
        post.live(i) && post.live(j) && i != j && in_ext(entry_extent(post.entries@[i]), c) implies !in_ext(
            entry_extent(post.entries@[j]),
            c,
        ) by {
        lemma_compact_slot(pre, post, r, i);
        lemma_compact_slot(pre, post, r, j);
        if in_ext(entry_extent(post.entries@[j]), c) {
            assert(has_body(es, i) && has_body(es, j));
            let a = choose|k: int|
                0 <= k < r.len() && #[trigger] r[k].0 == i && post.entries@[i].start_chunk == chunks_before(r, k)
                    && ext_end(entry_extent(post.entries@[i])) == chunks_before(r, k + 1) && chunks_before(r, k + 1)
                    <= chunks_before(r, r.len() as int) && r[k].1 == es[i].start_chunk;
            let b = choose|k: int|
                0 <= k < r.len() && #[trigger] r[k].0 == j && post.entries@[j].start_chunk == chunks_before(r, k)
                    && ext_end(entry_extent(post.entries@[j])) == chunks_before(r, k + 1) && chunks_before(r, k + 1)
                    <= chunks_before(r, r.len() as int) && r[k].1 == es[j].start_chunk;
            if a < b {
                lemma_chunks_before_mono(r, a + 1, b);
            } else {
                lemma_chunks_before_mono(r, b + 1, a);
            }
        }
    }
    assert(post.extents_ok());
}

/// Compaction keeps the invariant: no file appears or goes, and no name
/// changes.
pub proof fn lemma_compact_inv(pre: Inner, post: Inner, r: Seq<(u32, u32, u32)>)
    requires
        pre.inv(),
        compacted(pre, post, r),
        post.dirty_slots@.len() == pre.dirty_slots@.len(),
    ensures
        post.inv(),
{
    lemma_compacted_parts(pre, post, r);
    let es = pre.entries@;
    assert forall|i: int| 0 <= i < es.len() implies #[trigger] post.live(i) == pre.live(i) by {
        lemma_compact_slot(pre, post, r, i);
    }
    assert forall|a: int, b: int|
        #![trigger post.entries@[a], post.entries@[b]]
        post.live(a) && post.live(b) && entry_name(post.entries@[a]) == entry_name(post.entries@[b]) implies a == b by {
        lemma_compact_slot(pre, post, r, a);
        lemma_compact_slot(pre, post, r, b);
        assert(pre.live(a) && pre.live(b));
    }
}

/// Compaction keeps every file and its bytes.
#[verifier::rlimit(40)]
pub proof fn lemma_compact_contents(pre: Inner, post: Inner, r: Seq<(u32, u32, u32)>)
    requires
        pre.wf(),
        post.wf(),
        compacted(pre, post, r),
    ensures
        post.contents() == pre.contents(),
{
    reveal(Inner::extents_ok);
    lemma_compacted_parts(pre, post, r);
    let es = pre.entries@;
    let d = pre.data@;
    let len = r.len() as int;
    assert forall|j: int| #![trigger r[j]] 0 <= j < r.len() implies (r[j].1 + r[j].2) * 4096 <= d.len() by {
        assert(pre.live(r[j].0 as int));
        assert(ext_end(entry_extent(es[r[j].0 as int])) <= pre.sb.chunk_count);
    }
    assert forall|i: int| #![trigger post.entries@[i]] pre.live(i) implies post.file_bytes(post.entries@[i])
        == pre.file_bytes(es[i]) && post.live(i) && entry_name(post.entries@[i]) == entry_name(es[i]) by {
        lemma_compact_slot(pre, post, r, i);
        let e = es[i];
        if has_body(es, i) {
            let k = choose|k: int|
                0 <= k < r.len() && #[trigger] r[k].0 == i && post.entries@[i].start_chunk == chunks_before(r, k)
                    && ext_end(entry_extent(post.entries@[i])) == chunks_before(r, k + 1) && chunks_before(r, k + 1)
                    <= chunks_before(r, r.len() as int) && r[k].1 == es[i].start_chunk;
            lemma_compacted_piece(d, r, k, len, e.size as int);
        } else {
            assert(post.live(i));
            assert(post.file_bytes(e) =~= pre.file_bytes(e));
        }
    }
    assert forall|n: Seq<u8>| #[trigger] post.has_name(n) == pre.has_name(n) by {
        if pre.has_name(n) {
            let i = choose|i: int| #![trigger es[i]] pre.live(i) && entry_name(es[i]) == n;
            assert(post.live(i) && entry_name(post.entries@[i]) == n);
        }
        if post.has_name(n) {
            let i = choose|i: int| #![trigger post.entries@[i]] post.live(i) && entry_name(post.entries@[i]) == n;
            lemma_compact_slot(pre, post, r, i);
            assert(pre.live(i) && entry_name(es[i]) == n);
        }
    }
    assert forall|n: Seq<u8>| #[trigger] post.contents().dom().contains(n) implies post.contents()[n]
        == pre.contents()[n] by {
        let i = choose|i: int| #![trigger post.entries@[i]] post.live(i) && entry_name(post.entries@[i]) == n;
        lemma_compact_slot(pre, post, r, i);
        post.lemma_slot_of(i);
        assert(pre.live(i));
        pre.lemma_slot_of(i);
    }
    assert(post.contents() =~= pre.contents());
}

/// Renumbers the moved bodies: move `k` starts at the chunks of the moves
/// before it, and its slot is marked dirty.
fn relocate(entries: &mut Vec<Entry>, dirty: &mut Vec<bool>, moves: &Vec<(u32, u32, u32)>)
    requires
        is_move_order(old(entries)@, moves@),
        chunks_before(moves@, moves@.len() as int) <= u32::MAX,
        old(dirty)@.len() == old(entries)@.len(),
    ensures
        final(entries)@.len() == old(entries)@.len(),
        final(dirty)@.len() == old(dirty)@.len(),
        forall|k: int|
            #![trigger moves@[k]]
            0 <= k < moves@.len() ==> final(entries)@[moves@[k].0 as int] == (Entry {
                start_chunk: chunks_before(moves@, k) as u32,
                ..old(entries)@[moves@[k].0 as int]
            }),
        forall|i: int|
            #![trigger final(entries)@[i]]
            0 <= i < old(entries)@.len() && !has_body(old(entries)@, i) ==> final(entries)@[i] == old(entries)@[i],
        forall|i: int|
            0 <= i < old(dirty)@.len() ==> #[trigger] final(dirty)@[i] == (old(dirty)@[i] || has_body(
                old(entries)@,
                i,
            )),
{
    let ghost es = entries@;
    let ghost ds = dirty@;
    let ghost r = moves@;
    let n = entries.len();
    let mut cursor: u64 = 0;
    let mut k: usize = 0;
    while k < moves.len()
        invariant
            n == es.len(),
            r == moves@,
            is_move_order(es, r),
            chunks_before(r, r.len() as int) <= u32::MAX,
            k <= r.len(),
            cursor == chunks_before(r, k as int),
            entries@.len() == n,
            dirty@.len() == n,
            ds.len() == n,
            forall|j: int|
                #![trigger r[j]]
                0 <= j < k ==> entries@[r[j].0 as int] == (Entry {
                    start_chunk: chunks_before(r, j) as u32,
                    ..es[r[j].0 as int]
                }) && dirty@[r[j].0 as int],
            forall|i: int|
                #![trigger entries@[i]]
                0 <= i < n && !moved_upto(r, k as int, i) ==> entries@[i] == es[i],
            forall|i: int|
                #![trigger dirty@[i]]
                0 <= i < n && !moved_upto(r, k as int, i) ==> dirty@[i] == ds[i],
        decreases r.len() - k,
    {
        let m = moves[k];
        proof {
            lemma_chunks_before_mono(r, k + 1, r.len() as int);
            assert forall|j: int| 0 <= j < k implies #[trigger] r[j].0 != m.0 by {
                assert(moved_before(r[j], r[k as int]));
            }
            assert(!moved_upto(r, k as int, m.0 as int));
        }
        let slot = m.0 as usize;
        let mut e = entries[slot];
        e.start_chunk = cursor as u32;
        entries.set(slot, e);
        dirty.set(slot, true);
        cursor = cursor + m.2 as u64;
        proof {
            assert forall|i: int|
                #![trigger entries@[i]]
                0 <= i < n && !moved_upto(r, k + 1, i) implies entries@[i] == es[i] by {
                assert(r[k as int].0 != i);
                assert(!moved_upto(r, k as int, i));
            }
            assert forall|i: int|
                #![trigger dirty@[i]]
                0 <= i < n && !moved_upto(r, k + 1, i) implies dirty@[i] == ds[i] by {
                assert(r[k as int].0 != i);
                assert(!moved_upto(r, k as int, i));
            }
        }
        k = k + 1;
    }
    proof {
        assert forall|i: int|
            #![trigger entries@[i]]
            0 <= i < n && !has_body(es, i) implies entries@[i] == es[i] by {
            if moved_upto(r, r.len() as int, i) {
                let j = choose|j: int| 0 <= j < r.len() && #[trigger] r[j].0 == i;
            }
        }
        assert forall|i: int| 0 <= i < n implies #[trigger] dirty@[i] == (ds[i] || has_body(es, i)) by {
            if has_body(es, i) {
                let j = choose|j: int| 0 <= j < r.len() && #[trigger] r[j].0 == i;
            } else if moved_upto(r, r.len() as int, i) {
                let j = choose|j: int| 0 <= j < r.len() && #[trigger] r[j].0 == i;
            }
        }
    }
}

impl Inner {
    /// Compaction: the bodies of the live files are laid out one after
    /// another from chunk 0, in slot order (`move_order`), and the free list
    /// is emptied. Returns the moves (slot, old first chunk, chunk count);
    /// the caller copies the chunks of each move, in order, into a new
    /// `data.bin`, sizes it to `sb.chunk_count` chunks, and commits.
    pub fn plan_compact(&mut self) -> (moves: Vec<(u32, u32, u32)>)
        requires
            old(self).inv(),
            body_chunks(old(self).entries@, old(self).entries@.len() as int) <= u32::MAX,
        ensures
            old(self).sized() ==> final(self).sized(),
            final(self).inv(),
            compacted(*old(self), *final(self), moves@),
            final(self).dirty_slots@.len() == old(self).dirty_slots@.len(),
            forall|i: int|
                0 <= i < old(self).dirty_slots@.len() ==> #[trigger] final(self).dirty_slots@[i] == (
                old(self).dirty_slots@[i] || has_body(old(self).entries@, i)),
            (old(self).wf() && forall|i: int|
                #![trigger old(self).entries@[i]]
                old(self).live(i) && old(self).entries@[i].n_chunks == 0 ==> old(self).entries@[i].start_chunk
                    <= final(self).sb.chunk_count) ==> final(self).wf() && final(self).contents() == old(
                self).contents(),
    {
        let ghost pre = *self;
        let ghost es = pre.entries@;
        let moves = self.move_order();
        let total = self.body_chunk_total();
        let mut entries: Vec<Entry> = Vec::new();
        let mut dirty: Vec<bool> = Vec::new();
        std::mem::swap(&mut entries, &mut self.entries);
        std::mem::swap(&mut dirty, &mut self.dirty_slots);
        relocate(&mut entries, &mut dirty, &moves);
        self.entries = entries;
        self.dirty_slots = dirty;
        self.sb.chunk_count = total as u32;
        self.sb.free_chunk_head = NIL;
        self.free_extents = Vec::new();
        self.data = Ghost(compacted_image(pre.data@, moves@, moves@.len() as int));
        proof {
            let r = moves@;
            lemma_make_compacted(pre, *self, r);
            lemma_compact_inv(pre, *self, r);
            if pre.sized() {
                lemma_compact_sized(pre, *self, r);
            }
            if pre.wf() && forall|i: int|
                #![trigger es[i]]
                pre.live(i) && es[i].n_chunks == 0 ==> es[i].start_chunk <= self.sb.chunk_count {
                lemma_compact_wf(pre, *self, r);
                lemma_compact_contents(pre, *self, r);
            }
        }
        moves
    }
}

/// Byte strings are equal.
pub fn bytes_eq(a: &[u8], b: &[u8]) -> (r: bool)
    ensures
        r == (a@ == b@),
{
    if a.len() != b.len() {
        return false;
    }
    let mut i: usize = 0;
    while i < a.len()
        invariant
            a@.len() == b@.len(),
            i <= a@.len(),
            forall|k: int| 0 <= k < i ==> a@[k] == b@[k],
        decreases a@.len() - i,
    {
        if a[i] != b[i] {
            return false;
        }
        i = i + 1;
    }
    assert(a@ =~= b@);
    true
}

} // verus!
