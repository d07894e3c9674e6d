//! `lsarc`: a single-file archive format.
//!
//! A directory tree is packed into one archive: every source file is sliced
//! into chunks which are interleaved round-robin into a flat payload, and a
//! binary header records, per file, its relative path and the byte ranges its
//! chunks occupy.  The same header lets the extractor reassemble each file
//! exactly.

pub mod be_bytes;
pub mod encode;
pub mod errors;
pub mod pack;
pub mod parse;
pub mod roundtrip;
pub mod slice;
pub mod types;
