//! A verified codec for the bencode format used by torrent metainfo files.
//!
//! The decoder turns an untrusted byte buffer into a [`bencode::Bencode`]
//! value tree, accepting exactly the canonical form; the encoder turns a
//! value tree back into canonical bytes. A projection layer extracts a typed
//! [`metainfo::MetaInfo`] record from a decoded tree.

pub mod bencode;
pub mod decimal;
pub mod metainfo;
pub mod model;
pub mod tracker;
