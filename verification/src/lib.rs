//! A verified decoder for the bencode serialization format: the tagged
//! byte-stream encoding of integers, byte strings, lists and dictionaries
//! used by BitTorrent metainfo files and the peer wire protocol.

pub mod bencoding;
pub mod grammar;
