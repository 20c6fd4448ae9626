//! noteme: the verified core of a local note-taking store.
//!
//! `yfs` is a two-file virtual file store (`header.bin` + `data.bin`);
//! `crypto` frames passphrase-encrypted text; `fs_store` holds the path
//! and link logic of the document-root browser; `settings` and `git_sync`
//! hold the decisions behind the settings page and git synchronisation.
pub mod chars;
pub mod crypto;
pub mod fs_store;
pub mod git_sync;
pub mod lex;
pub mod settings;
pub mod text;
pub mod yfs;
