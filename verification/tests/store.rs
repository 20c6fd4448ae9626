//! The store driven over in-memory images of `header.bin` and `data.bin`,
//! in the order the application drives it over the real files.
use noteme::yfs::error::Error;
use noteme::yfs::format::{
    commit_offset, header_file_size, Superblock, CHUNK_SIZE, COMMIT_SIZE, ENTRY_SIZE, FILE_TYPE_BLOB,
    FLAG_NEEDS_REPAIR, SUPERBLOCK_SIZE,
};
use noteme::yfs::name::validate_name;
use noteme::yfs::store::{select_commit, validate_entry_count, Inner, Meta};

struct MemStore {
    header: Vec<u8>,
    data: Vec<u8>,
    inner: Inner,
    clock: u64,
}

fn put(buf: &mut Vec<u8>, off: u64, bytes: &[u8]) {
    let off = off as usize;
    if buf.len() < off + bytes.len() {
        buf.resize(off + bytes.len(), 0);
    }
    buf[off..off + bytes.len()].copy_from_slice(bytes);
}

impl MemStore {
    fn tick(&mut self) -> u64 {
        self.clock += 1;
        self.clock
    }

    fn commit(&mut self) {
        for (off, buf) in self.inner.prepare_free_extents() {
            put(&mut self.data, off, &buf);
        }
        let sb = self.inner.sb.encode();
        put(&mut self.header, 0, &sb);
        for (off, buf) in self.inner.take_dirty_entries() {
            put(&mut self.header, off, &buf);
        }
        let (off, rec) = self.inner.finish_commit();
        put(&mut self.header, off, &rec.encode());
        self.inner.seal_commit(&rec);
        let sb = self.inner.sb.encode();
        put(&mut self.header, 0, &sb);
    }

    fn create(entry_count: u32) -> Result<MemStore, Error> {
        validate_entry_count(entry_count)?;
        let inner = Inner::init_new(entry_count);
        let mut s = MemStore {
            header: vec![0u8; header_file_size(entry_count) as usize],
            data: Vec::new(),
            inner,
            clock: 1000,
        };
        s.commit();
        Ok(s)
    }

    fn open(header: Vec<u8>, data: Vec<u8>) -> Result<MemStore, Error> {
        let sb = Superblock::decode(&header[..SUPERBLOCK_SIZE as usize])?;
        let ec = sb.entry_count;
        let a = commit_offset(ec, 0) as usize;
        let b = commit_offset(ec, 1) as usize;
        let side_a = header.get(a..a + COMMIT_SIZE as usize);
        let side_b = header.get(b..b + COMMIT_SIZE as usize);
        let rec = select_commit(side_a, side_b)?;
        let mut inner = Inner::begin_load(sb, &rec)?;
        let start = SUPERBLOCK_SIZE as usize;
        let table = &header[start..start + ec as usize * ENTRY_SIZE as usize];
        inner.load_entries(table, rec.entry_table_crc);
        inner.check_names()?;
        let mut scan = inner.begin_free_scan();
        while let Some(off) = inner.free_scan_next(&scan)? {
            let off = off as usize;
            let buf = data[off..off + 16].to_vec();
            inner.free_scan_accept(&mut scan, &buf)?;
        }
        let mut s = MemStore { header, data, inner, clock: 5000 };
        if s.inner.needs_repair() {
            s.inner.repair();
            s.commit();
        }
        Ok(s)
    }

    fn reopen(self) -> Result<MemStore, Error> {
        MemStore::open(self.header, self.data)
    }

    fn write_with_type(&mut self, name: &str, bytes: &[u8], file_type: u16) -> Result<(), Error> {
        let name = validate_name(name)?;
        let ext = match self.inner.begin_write(bytes.len() as u64)? {
            None => None,
            Some((ext, grown)) => {
                if let Some(len) = grown {
                    self.data.resize(len as usize, 0);
                }
                let off = ext.start as u64 * CHUNK_SIZE as u64;
                put(&mut self.data, off, bytes);
                let padded = ext.n_chunks as u64 * CHUNK_SIZE as u64;
                let pad = vec![0u8; (padded - bytes.len() as u64) as usize];
                put(&mut self.data, off + bytes.len() as u64, &pad);
                Some(ext)
            }
        };
        let now = self.tick();
        self.inner.apply_write(&name, bytes, file_type, ext, now)?;
        self.commit();
        Ok(())
    }

    fn write(&mut self, name: &str, bytes: &[u8]) -> Result<(), Error> {
        self.write_with_type(name, bytes, FILE_TYPE_BLOB)
    }

    fn read(&mut self, name: &str) -> Result<Vec<u8>, Error> {
        let name = validate_name(name)?;
        let now = self.tick();
        match self.inner.plan_read(&name, 0, u64::MAX, now)? {
            None => Ok(Vec::new()),
            Some((pos, n)) => Ok(self.data[pos as usize..(pos + n) as usize].to_vec()),
        }
    }

    fn stat(&mut self, name: &str) -> Result<Meta, Error> {
        let name = validate_name(name)?;
        let now = self.tick();
        self.inner.stat(&name, now)
    }

    fn list(&self, prefix: &str) -> Result<Vec<Meta>, Error> {
        self.inner.list(prefix.as_bytes())
    }

    fn delete(&mut self, name: &str) -> Result<(), Error> {
        let name = validate_name(name)?;
        self.inner.delete(&name)?;
        self.commit();
        Ok(())
    }

    fn rename(&mut self, old: &str, new: &str) -> Result<(), Error> {
        let old = validate_name(old)?;
        let new = validate_name(new)?;
        let now = self.tick();
        self.inner.rename(&old, &new, now)?;
        self.commit();
        Ok(())
    }

    fn compact(&mut self) -> Result<(), Error> {
        assert!(self.inner.body_chunk_total() <= u32::MAX as u64);
        let moves = self.inner.plan_compact();
        let mut fresh = Vec::new();
        for (_slot, start, n) in moves {
            let from = start as usize * CHUNK_SIZE as usize;
            let len = n as usize * CHUNK_SIZE as usize;
            fresh.extend_from_slice(&self.data[from..from + len]);
        }
        fresh.resize(self.inner.sb.chunk_count as usize * CHUNK_SIZE as usize, 0);
        self.data = fresh;
        self.commit();
        Ok(())
    }
}

#[test]
fn write_read_delete_rename() {
    let mut store = MemStore::create(32).unwrap();

    store.write("notes/a.md", b"hello").unwrap();
    assert_eq!(store.read("notes/a.md").unwrap(), b"hello");

    let listed = store.list("notes/").unwrap();
    assert_eq!(listed.len(), 1);
    assert_eq!(listed[0].name, "notes/a.md");

    store.rename("notes/a.md", "notes/b.md").unwrap();
    assert!(matches!(store.read("notes/a.md"), Err(Error::NotFound)));
    assert_eq!(store.read("notes/b.md").unwrap(), b"hello");

    store.write("notes/b.md", b"world!!").unwrap();
    assert_eq!(store.read("notes/b.md").unwrap(), b"world!!");

    store.delete("notes/b.md").unwrap();
    assert!(matches!(store.read("notes/b.md"), Err(Error::NotFound)));

    let store2 = store.reopen().unwrap();
    assert!(store2.list("").unwrap().is_empty());
}

#[test]
fn cow_overwrite_and_empty_file() {
    let mut store = MemStore::create(16).unwrap();
    store.write("x", b"12345").unwrap();
    store.write("x", b"").unwrap();
    assert_eq!(store.read("x").unwrap(), b"");
    let meta = store.stat("x").unwrap();
    assert_eq!(meta.size, 0);
    assert_eq!(meta.content_hash, [0u8; 32]);
}

#[test]
fn compact_repacks() {
    let mut store = MemStore::create(16).unwrap();
    store.write("a", b"aaa").unwrap();
    store.write("b", b"bbbb").unwrap();
    store.delete("a").unwrap();
    store.compact().unwrap();
    assert_eq!(store.read("b").unwrap(), b"bbbb");
    let mut store2 = store.reopen().unwrap();
    assert_eq!(store2.read("b").unwrap(), b"bbbb");
}

#[test]
fn rejects_invalid_names() {
    let mut store = MemStore::create(8).unwrap();
    assert!(matches!(store.write("a/../b", b"x"), Err(Error::InvalidName(_))));
}

#[test]
fn zero_entry_count_is_refused() {
    match MemStore::create(0) {
        Err(Error::Corrupt(m)) => assert_eq!(m, "entry_count must be > 0"),
        _ => panic!("expected a refusal"),
    }
}

#[test]
fn reopen_keeps_files_and_bytes() {
    let mut store = MemStore::create(8).unwrap();
    store.write("a", &vec![7u8; 5000]).unwrap();
    store.write("b", b"bee").unwrap();
    store.write("c", b"sea").unwrap();
    store.delete("b").unwrap();
    let mut again = store.reopen().unwrap();
    assert_eq!(again.read("a").unwrap(), vec![7u8; 5000]);
    assert_eq!(again.read("c").unwrap(), b"sea");
    assert!(matches!(again.read("b"), Err(Error::NotFound)));
    // The freed chunk of `b` is reused by the next write of one chunk.
    let before = again.inner.sb.chunk_count;
    again.write("d", b"dee").unwrap();
    assert_eq!(again.inner.sb.chunk_count, before);
}

#[test]
fn overwrite_reuses_freed_space_and_keeps_others() {
    let mut store = MemStore::create(8).unwrap();
    store.write("a", b"one").unwrap();
    store.write("b", b"two").unwrap();
    store.write("a", b"three").unwrap();
    assert_eq!(store.read("a").unwrap(), b"three");
    assert_eq!(store.read("b").unwrap(), b"two");
    assert_eq!(store.inner.sb.chunk_count, 3);
    store.write("c", b"four").unwrap();
    assert_eq!(store.inner.sb.chunk_count, 3);
}

#[test]
fn store_full_when_slots_run_out() {
    let mut store = MemStore::create(2).unwrap();
    store.write("a", b"1").unwrap();
    store.write("b", b"2").unwrap();
    assert!(matches!(store.write("c", b"3"), Err(Error::StoreFull)));
    // Overwriting an existing file still works.
    store.write("a", b"11").unwrap();
    assert_eq!(store.read("a").unwrap(), b"11");
}

#[test]
fn file_too_large_is_refused() {
    let mut store = MemStore::create(2).unwrap();
    let big = vec![0u8; 256 * 1024 * 1024 + 1];
    assert!(matches!(store.write("big", &big), Err(Error::FileTooLarge)));
}

#[test]
fn rename_refusals() {
    let mut store = MemStore::create(8).unwrap();
    store.write("a", b"1").unwrap();
    store.write("b", b"2").unwrap();
    assert!(matches!(store.rename("a", "b"), Err(Error::AlreadyExists)));
    assert!(matches!(store.rename("zz", "y"), Err(Error::NotFound)));
    // The target of a rename onto itself exists.
    assert!(matches!(store.rename("a", "a"), Err(Error::AlreadyExists)));
    assert!(matches!(store.rename("zz", "zz"), Err(Error::NotFound)));
    assert_eq!(store.read("a").unwrap(), b"1");
}

#[test]
fn list_is_sorted_and_filtered() {
    let mut store = MemStore::create(8).unwrap();
    store.write("notes/z.md", b"z").unwrap();
    store.write("img/p.png", b"p").unwrap();
    store.write("notes/a.md", b"a").unwrap();
    store.write("notes/m.md", b"m").unwrap();
    let names: Vec<String> = store.list("notes/").unwrap().into_iter().map(|m| m.name).collect();
    assert_eq!(names, vec!["notes/a.md", "notes/m.md", "notes/z.md"]);
    let all: Vec<String> = store.list("").unwrap().into_iter().map(|m| m.name).collect();
    assert_eq!(all, vec!["img/p.png", "notes/a.md", "notes/m.md", "notes/z.md"]);
}

#[test]
fn stat_and_read_stamp_access_time() {
    let mut store = MemStore::create(4).unwrap();
    store.write_with_type("n.md", b"# hi", 2).unwrap();
    let m1 = store.stat("n.md").unwrap();
    assert_eq!(m1.file_type, 2);
    assert_eq!(m1.size, 4);
    assert_eq!(m1.ctime_ms, m1.mtime_ms);
    assert!(m1.atime_ms > m1.mtime_ms);
    let m2 = store.stat("n.md").unwrap();
    assert!(m2.atime_ms > m1.atime_ms);
    assert_ne!(m1.content_hash, [0u8; 32]);
}

#[test]
fn damaged_entry_is_repaired_on_open() {
    let mut store = MemStore::create(4).unwrap();
    store.write("a", b"alpha").unwrap();
    store.write("b", b"beta").unwrap();
    // Damage slot 1 (the entry of `b`) in the header image.
    let off = (SUPERBLOCK_SIZE + ENTRY_SIZE as u64) as usize;
    store.header[off] ^= 0xff;
    let mut again = store.reopen().unwrap();
    assert_eq!(again.read("a").unwrap(), b"alpha");
    assert!(matches!(again.read("b"), Err(Error::NotFound)));
    assert_eq!(again.inner.sb.flags & FLAG_NEEDS_REPAIR, 0);
    // The chunk `b` used is free again and is reused.
    let before = again.inner.sb.chunk_count;
    again.write("c", b"gamma").unwrap();
    assert_eq!(again.inner.sb.chunk_count, before);
    let mut third = again.reopen().unwrap();
    assert_eq!(third.read("c").unwrap(), b"gamma");
}

#[test]
fn newer_commit_side_wins() {
    let mut store = MemStore::create(4).unwrap();
    store.write("a", b"1").unwrap();
    let ec = store.inner.sb.entry_count;
    let a = commit_offset(ec, 0) as usize;
    let b = commit_offset(ec, 1) as usize;
    let ra = select_commit(Some(&store.header[a..a + 4096]), None).unwrap();
    let rb = select_commit(None, Some(&store.header[b..b + 4096])).unwrap();
    let both = select_commit(Some(&store.header[a..a + 4096]), Some(&store.header[b..b + 4096])).unwrap();
    let newest = if rb.store_epoch > ra.store_epoch { rb } else { ra };
    assert_eq!(both.store_epoch, newest.store_epoch);
    assert_eq!(both.active_side, newest.active_side);
    assert_eq!(both.entry_table_crc, newest.entry_table_crc);
    match select_commit(None, None) {
        Err(Error::Corrupt(m)) => assert_eq!(m, "no valid commit record"),
        _ => panic!("expected a refusal"),
    }
}

#[test]
fn read_at_ranges() {
    let mut store = MemStore::create(4).unwrap();
    store.write("f", b"0123456789").unwrap();
    let name = validate_name("f").unwrap();
    let plan = store.inner.plan_read(&name, 3, 4, 1).unwrap().unwrap();
    assert_eq!(&store.data[plan.0 as usize..(plan.0 + plan.1) as usize], b"3456");
    let tail = store.inner.plan_read(&name, 8, 100, 2).unwrap().unwrap();
    assert_eq!(&store.data[tail.0 as usize..(tail.0 + tail.1) as usize], b"89");
    assert_eq!(store.inner.plan_read(&name, 10, 1, 3).unwrap(), None);
    assert_eq!(store.inner.plan_read(&name, 0, 0, 4).unwrap(), None);
}

#[test]
fn error_messages() {
    assert_eq!(Error::NotFound.message(), "not found");
    assert_eq!(Error::AlreadyExists.message(), "already exists");
    assert_eq!(Error::FileTooLarge.message(), "file too large");
    assert_eq!(Error::StoreFull.message(), "store full");
    assert_eq!(Error::InvalidName("x".to_string()).message(), "invalid name: x");
    assert_eq!(Error::Corrupt("y".to_string()).message(), "corrupt: y");
    assert!(Error::Locked(std::path::PathBuf::from("/tmp/s")).message().starts_with("store locked: "));
}

#[test]
fn committed_table_reads_back_unchanged() {
    let mut store = MemStore::create(6).unwrap();
    store.write("a", &vec![1u8; 9000]).unwrap();
    store.write("b", b"two").unwrap();
    store.rename("b", "dir/b").unwrap();
    store.delete("a").unwrap();
    store.write("c", b"three").unwrap();
    // Load the committed table by hand and compare it slot by slot.
    let sb = Superblock::decode(&store.header[..SUPERBLOCK_SIZE as usize]).unwrap();
    let ec = sb.entry_count;
    let a = commit_offset(ec, 0) as usize;
    let b = commit_offset(ec, 1) as usize;
    let rec = select_commit(Some(&store.header[a..a + 4096]), Some(&store.header[b..b + 4096])).unwrap();
    assert_eq!(rec.entry_table_crc, store.inner.entry_table_crc());
    let mut loaded = Inner::begin_load(sb, &rec).unwrap();
    let start = SUPERBLOCK_SIZE as usize;
    let table = &store.header[start..start + ec as usize * ENTRY_SIZE as usize];
    loaded.load_entries(table, rec.entry_table_crc);
    assert!(!loaded.needs_repair());
    assert_eq!(loaded.entries.len(), store.inner.entries.len());
    for (x, y) in loaded.entries.iter().zip(store.inner.entries.iter()) {
        assert_eq!(x.encode().to_vec(), y.encode().to_vec());
    }
    // The free list that the commit linked is the one the walk finds.
    let mut scan = loaded.begin_free_scan();
    while let Some(off) = loaded.free_scan_next(&scan).unwrap() {
        let off = off as usize;
        let buf = store.data[off..off + 16].to_vec();
        loaded.free_scan_accept(&mut scan, &buf).unwrap();
    }
    assert_eq!(loaded.free_extents.len(), store.inner.free_extents.len());
    for (x, y) in loaded.free_extents.iter().zip(store.inner.free_extents.iter()) {
        assert_eq!((x.start, x.n_chunks), (y.start, y.n_chunks));
    }
}

#[test]
fn compact_moves_in_slot_order() {
    let mut store = MemStore::create(4).unwrap();
    store.write("a", b"one").unwrap();
    store.write("b", b"two").unwrap();
    store.delete("a").unwrap();
    // `c` takes slot 0 (freed by `a`) but needs two chunks, so it lands
    // after `b`, at the end of the data file.
    store.write("c", &vec![3u8; 5000]).unwrap();
    let sc = store.inner.find_slot(b"c").unwrap() as usize;
    let sb = store.inner.find_slot(b"b").unwrap() as usize;
    assert!(sc < sb);
    assert!(store.inner.entries[sc].start_chunk > store.inner.entries[sb].start_chunk);
    store.compact().unwrap();
    assert_eq!(store.inner.entries[sc].start_chunk, 0);
    assert_eq!(store.inner.entries[sb].start_chunk, 2);
    assert_eq!(store.inner.sb.chunk_count, 3);
    assert_eq!(store.read("c").unwrap(), vec![3u8; 5000]);
    assert_eq!(store.read("b").unwrap(), b"two");
    let mut again = store.reopen().unwrap();
    assert_eq!(again.read("c").unwrap(), vec![3u8; 5000]);
    assert_eq!(again.read("b").unwrap(), b"two");
}

#[test]
fn first_fit_takes_the_lowest_run_that_fits() {
    let mut store = MemStore::create(16).unwrap();
    store.write("a", b"1").unwrap(); // chunk 0
    store.write("b", b"2").unwrap(); // chunk 1
    store.write("x", b"x").unwrap(); // chunk 2
    store.write("c", &vec![3u8; 9000]).unwrap(); // chunks 3..6
    store.write("y", b"y").unwrap(); // chunk 6
    store.write("e", &vec![5u8; 9000]).unwrap(); // chunks 7..10
    store.write("z", b"z").unwrap(); // chunk 10
    // Free runs: chunk 1 (one chunk), chunks 3..6 and 7..10 (three each).
    store.delete("b").unwrap();
    store.delete("c").unwrap();
    store.delete("e").unwrap();
    let before = store.inner.sb.chunk_count;
    store.write("f", &vec![6u8; 5000]).unwrap();
    let sf = store.inner.find_slot(b"f").unwrap() as usize;
    assert_eq!(store.inner.entries[sf].start_chunk, 3);
    assert_eq!(store.inner.sb.chunk_count, before);
    assert_eq!(store.read("f").unwrap(), vec![6u8; 5000]);
}

#[test]
fn access_time_reaches_the_table_at_the_next_commit() {
    let mut store = MemStore::create(4).unwrap();
    store.write("a", b"alpha").unwrap();
    let seen = store.stat("a").unwrap().atime_ms;
    assert!(store.inner.dirty_slots[store.inner.find_slot(b"a").unwrap() as usize]);
    // The next commit (here, of another write) writes the stamped slot too,
    // so the committed table CRC matches the table as stored.
    store.write("b", b"beta").unwrap();
    let sb = Superblock::decode(&store.header[..SUPERBLOCK_SIZE as usize]).unwrap();
    let ec = sb.entry_count;
    let a = commit_offset(ec, 0) as usize;
    let b = commit_offset(ec, 1) as usize;
    let rec = select_commit(Some(&store.header[a..a + 4096]), Some(&store.header[b..b + 4096])).unwrap();
    let mut loaded = Inner::begin_load(sb, &rec).unwrap();
    let start = SUPERBLOCK_SIZE as usize;
    loaded.load_entries(&store.header[start..start + ec as usize * ENTRY_SIZE as usize], rec.entry_table_crc);
    assert!(!loaded.needs_repair());
    let mut again = store.reopen().unwrap();
    assert_eq!(again.inner.sb.flags & FLAG_NEEDS_REPAIR, 0);
    let slot = again.inner.find_slot(b"a").unwrap() as usize;
    assert_eq!(again.inner.entries[slot].atime_ms, seen);
    assert_eq!(again.stat("a").unwrap().size, 5);
}

#[test]
fn one_slot_store_refuses_a_second_name() {
    let mut store = MemStore::create(1).unwrap();
    store.write("a", b"1").unwrap();
    assert!(matches!(store.write_with_type("b", b"2", FILE_TYPE_BLOB), Err(Error::StoreFull)));
    assert_eq!(store.list("").unwrap().len(), 1);
    assert_eq!(store.read("a").unwrap(), b"1");
    assert!(matches!(store.read("b"), Err(Error::NotFound)));
}

#[test]
fn default_slot_count_is_65536() {
    assert_eq!(noteme::yfs::format::DEFAULT_ENTRY_COUNT, 65_536);
    assert!(validate_entry_count(noteme::yfs::format::DEFAULT_ENTRY_COUNT).is_ok());
    let st = Inner::init_new(noteme::yfs::format::DEFAULT_ENTRY_COUNT);
    assert_eq!(st.sb.entry_count, 65_536);
    assert_eq!(st.entries.len(), 65_536);
}
