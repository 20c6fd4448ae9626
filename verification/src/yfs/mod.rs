//! yfs — local virtual file store (`header.bin` + `data.bin`).
pub mod commands;
pub mod error;
pub mod format;
pub mod name;
pub mod extents;
pub mod store;
