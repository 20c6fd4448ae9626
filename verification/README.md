# noteme

The core of a note-taking desktop application, written in Verus: every
function in `src/` carries a contract and is proved against it.

## Layout

- `src/yfs/` — yfs, a flat file store over two files, `header.bin`
  (superblock, fixed 512-byte entry slots, two commit records) and
  `data.bin` (a pool of 4 KiB chunks, each file one contiguous extent).
  - `format.rs`: the on-disk records, their encodings and checks, with
    round-trip lemmas for each record.
  - `name.rs`: the rules for file names.
  - `extents.rs`: the free-extent list (first-fit allocation, coalescing).
  - `store.rs`: the in-memory state of an open store and every operation on
    it (stat, read, write, delete, rename, list, commit, open, repair,
    compact). Each operation returns the writes to make and leaves the
    file I/O to its caller; the contracts state the files and contents the
    store holds afterwards, and the lemmas state what a commit writes and
    what an open reads back.
- `src/fs_store.rs` — paths under a document root: normalization, the
  containment check, listing order, Markdown link extraction and the
  search for unreferenced assets.
- `src/crypto.rs` — passphrase encryption (PBKDF2-SHA256, AES-256-GCM,
  base64), with decryption proved to give back what encryption sealed.
- `src/settings.rs`, `src/git_sync.rs` — application settings and the
  decisions of the git synchronisation commands.
- `src/chars.rs`, `src/text.rs`, `src/lex.rs` — text helpers shared by the
  modules above.
- `app/` — ordinary Rust around the library: the files, locks, clock,
  directory walks, git2 calls and serde types that drive it.
- `tests/` — tests of the library, among them a store driven over
  in-memory file images in the order `app/` drives the real files.
