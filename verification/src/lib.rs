//! A strict bencode codec, the torrent metainfo model built on it, and the
//! value-level parts of the peer handshake and tracker announce.

pub mod decimal;
pub mod encoding;
pub mod metainfo;
pub mod network;
pub mod tracker;
