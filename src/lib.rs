//! Bencode codec and torrent metadata, with their contracts proved by Verus.
pub mod bytes;
pub mod value;
pub mod encode;
pub mod decode;
pub mod roundtrip;
pub mod hash;
pub mod torrent;
