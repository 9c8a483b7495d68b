//! Bootstraps a BitTorrent announce from a metainfo buffer: a verified
//! codec for the binary encoding, the typed metainfo projection, the info
//! hash, and the tracker announce URL.
pub mod value;
pub mod codec;
pub mod metainfo;
pub mod info_hash;
pub mod torrent;
pub mod announce;
