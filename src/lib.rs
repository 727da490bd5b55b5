//! Torrent metadata: a verified bencode codec, a typed view of the metadata
//! tree, and the summaries (sizes, counts, digests) derived from it.

pub mod bencode;
pub mod keys;
pub mod torrent;
pub mod digest;
