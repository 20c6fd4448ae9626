use noteme::yfs::commands::{hex_encode, map_err, text_file_type, FileInfo};
use noteme::yfs::error::Error;
use noteme::yfs::format::{
    chunks_for_size, commit_offset, content_hash, entry_offset, header_body_size, header_file_size, now_ms,
    CommitRecord, Entry, FreeExtent, Superblock, MAGIC_ENT1, NIL,
};
use noteme::yfs::store::{meta_from_entry, Meta};

#[test]
fn layout_offsets() {
    assert_eq!(header_body_size(32), 4096 + 32 * 512);
    assert_eq!(header_file_size(32), 4096 + 32 * 512 + 2 * 4096);
    assert_eq!(entry_offset(3), 4096 + 3 * 512);
    assert_eq!(commit_offset(32, 0), 4096 + 32 * 512);
    assert_eq!(commit_offset(32, 1), 4096 + 32 * 512 + 4096);
}

#[test]
fn chunk_counts() {
    assert_eq!(chunks_for_size(0), 0);
    assert_eq!(chunks_for_size(1), 1);
    assert_eq!(chunks_for_size(4096), 1);
    assert_eq!(chunks_for_size(4097), 2);
    assert_eq!(chunks_for_size(256 * 1024 * 1024), 65536);
}

#[test]
fn content_hash_of_empty_and_text() {
    assert_eq!(content_hash(b""), [0u8; 32]);
    assert_eq!(content_hash(b"abc"), *blake3::hash(b"abc").as_bytes());
}

#[test]
fn superblock_roundtrip_and_damage() {
    let mut sb = Superblock::new(64);
    sb.chunk_count = 9;
    sb.store_epoch = 77;
    sb.free_entry_head = 5;
    let buf = sb.encode();
    let back = Superblock::decode(&buf).unwrap();
    assert_eq!(back.entry_count, 64);
    assert_eq!(back.chunk_count, 9);
    assert_eq!(back.store_epoch, 77);
    assert_eq!(back.free_entry_head, 5);
    assert_eq!(back.free_chunk_head, NIL);
    let mut bad = buf;
    bad[20] ^= 1;
    assert!(matches!(Superblock::decode(&bad), Err(Error::Corrupt(_))));
    let mut wrong_magic = buf;
    wrong_magic[0] = b'X';
    assert!(matches!(Superblock::decode(&wrong_magic), Err(Error::Corrupt(_))));
}

#[test]
fn entry_roundtrip() {
    let mut e = Entry::free(NIL);
    assert!(e.is_free());
    assert!(!e.is_live());
    e.magic = MAGIC_ENT1;
    e.size = 12;
    e.file_type = 2;
    e.start_chunk = 3;
    e.n_chunks = 1;
    e.set_name(b"notes/a.md").unwrap();
    assert!(e.is_live());
    assert_eq!(e.name_bytes(), b"notes/a.md");
    assert_eq!(e.name_string().unwrap(), "notes/a.md");
    let buf = e.encode();
    let d = Entry::decode(&buf).unwrap();
    assert_eq!(d.name_bytes(), b"notes/a.md");
    assert_eq!(d.size, 12);
    assert_eq!(d.start_chunk, 3);
    assert!(matches!(e.set_name(b""), Err(Error::InvalidName(_))));
    let mut bad = buf;
    bad[100] ^= 0x55;
    assert!(Entry::decode(&bad).is_err());
}

#[test]
fn free_extent_roundtrip() {
    let ext = FreeExtent { start: 10, n_chunks: 4 };
    let buf = ext.encode(99);
    let (back, next) = FreeExtent::decode(&buf, 10).unwrap();
    assert_eq!(back.start, 10);
    assert_eq!(back.n_chunks, 4);
    assert_eq!(next, 99);
    let mut bad = buf;
    bad[5] ^= 1;
    match FreeExtent::decode(&bad, 10) {
        Err(Error::Corrupt(m)) => assert_eq!(m, "free extent crc mismatch at chunk 10"),
        _ => panic!("expected a refusal"),
    }
    let mut wrong = buf;
    wrong[0] = 0;
    match FreeExtent::decode(&wrong, 7) {
        Err(Error::Corrupt(m)) => assert_eq!(m, "bad free extent magic at chunk 7"),
        _ => panic!("expected a refusal"),
    }
}

#[test]
fn commit_record_roundtrip() {
    let rec = CommitRecord {
        store_epoch: 5,
        active_side: 1,
        entry_table_crc: 0xdead_beef,
        free_entry_head: 2,
        free_chunk_head: NIL,
        chunk_count: 8,
        flags: 0,
    };
    let buf = rec.encode();
    let back = CommitRecord::decode(&buf).unwrap();
    assert_eq!(back.store_epoch, 5);
    assert_eq!(back.active_side, 1);
    assert_eq!(back.entry_table_crc, 0xdead_beef);
    assert_eq!(back.chunk_count, 8);
    let mut bad = buf;
    bad[9] ^= 2;
    assert!(CommitRecord::decode(&bad).is_err());
}

#[test]
fn hex_and_file_info() {
    assert_eq!(hex_encode(&[0x00, 0xab, 0x10, 0xff]), "00ab10ff");
    assert_eq!(hex_encode(&[]), "");
    let meta = Meta {
        name: "n.md".to_string(),
        size: 3,
        ctime_ms: 1,
        mtime_ms: 2,
        atime_ms: 3,
        file_type: 2,
        content_hash: [0x11; 32],
    };
    let info = FileInfo::from_meta(meta);
    assert_eq!(info.name, "n.md");
    assert_eq!(info.content_hash, "11".repeat(32));
    assert_eq!(info.atime_ms, 3);
}

#[test]
fn meta_of_an_entry() {
    let mut e = Entry::free(NIL);
    e.magic = MAGIC_ENT1;
    e.size = 4;
    e.set_name("笔记.md".as_bytes()).unwrap();
    let m = meta_from_entry(&e).unwrap();
    assert_eq!(m.name, "笔记.md");
    assert_eq!(m.size, 4);
    e.set_name(&[0xff, 0xfe]).unwrap();
    match meta_from_entry(&e) {
        Err(Error::Corrupt(msg)) => assert_eq!(msg, "entry name is not utf-8"),
        _ => panic!("expected a refusal"),
    }
}

#[test]
fn text_write_file_types() {
    assert_eq!(text_file_type("a.md"), 2);
    assert_eq!(text_file_type("notes/b.md"), 2);
    assert_eq!(text_file_type("a.MD"), 1);
    assert_eq!(text_file_type("md"), 1);
    assert_eq!(text_file_type("a.txt"), 1);
}

#[test]
fn error_texts_for_the_interface() {
    assert_eq!(map_err(Error::NotFound), "not found");
    assert_eq!(map_err(Error::InvalidName("bad".to_string())), "invalid name: bad");
}

#[test]
fn clock_is_after_2020() {
    assert!(now_ms() > 1_577_836_800_000);
}
