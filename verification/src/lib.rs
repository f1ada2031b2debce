//! A small content-addressed version store: objects keyed by the digest of
//! their record, directory snapshots, a chain of commits and named references.
//!
//! Everything here works on values in memory. Byte strings are `Vec<u8>`;
//! object ids are the lower-case hexadecimal text of a digest.
pub mod commit;
pub mod digest;
pub mod object;
pub mod table;
pub mod text;
pub mod tree;
