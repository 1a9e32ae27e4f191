//! A decoder for the Bencode serialization format and a projection of a
//! decoded BitTorrent metainfo dictionary onto typed fields.
pub mod value;
pub mod grammar;
pub mod decoder;
pub mod cursor;
pub mod text;
pub mod string_parse;
pub mod torrent;
pub mod encoding;
pub mod laws;
