//! Data carried between a client and a tracker.
//!
//! These records describe announce requests and responses. Building and
//! sending them over the network is a caller's concern; nothing here
//! performs I/O.

use vstd::prelude::*;

verus! {

pub struct TrackerRequest {
    pub info_hash: String,
    pub peer_id: String,
    pub ip: String,
    pub port: u16,
    pub uploaded: u64,
    pub downloaded: u64,
    pub left: u64,
    pub event: Option<Event>,
}

pub enum TrackerResponse {
    Success { interval: u32, peers: Vec<Peer> },
    Failure { reason: String },
}

pub struct Peer {
    pub id: String,
    pub ip: String,
    pub port: u16,
}

pub enum Event {
    Started,
    Completed,
    Stopped,
}

} // verus!
