//! Object storage for a content-addressed version-control store.
//!
//! An object is a typed payload. On disk it is the zlib-compressed byte
//! sequence `<type> <size>\0<payload>`, stored under the SHA-1 digest of that
//! sequence. This crate encodes and decodes that envelope, and parses the
//! payloads of commits (a header of key-value lines followed by a message) and
//! of trees (a list of binary directory entries). Every function carries a
//! contract over a mathematical model of the bytes it reads or writes.
//!
//! Nothing here reads or writes a file: a caller hands over the content of a
//! file and gets back what to write, and where.
//!
//! Three crates do work that is not verified here: `sha1` hashes an envelope,
//! `flate2` compresses and decompresses it, and `indexmap` holds the header of
//! a commit. Each call into them, and into the few parts of the standard
//! library that have no model yet, stands in a small function of its own
//! whose contract is trusted and says so; all other code is proved against
//! the contracts it carries.

pub mod commit;
pub mod decimal;
pub mod digest;
pub mod header_map;
pub mod hex;
pub mod object;
pub mod repository;
pub mod scan;
pub mod text;
pub mod tree;
pub mod utilities;
pub mod zlib;
