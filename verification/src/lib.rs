//! Core logic of a minimal single-file BitTorrent v1 client: the bencode
//! codec, the torrent metadata view and its info hash, piece and block
//! sizing, tracker URL construction and compact peer-list parsing, the
//! peer-wire handshake and message framing, and a debug JSON projection.
//!
//! All I/O (files, HTTP, TCP) lives outside this crate; the functions here
//! work on plain byte vectors and carry contracts for what they compute.
use vstd::prelude::*;

pub mod bdecode;
pub mod bencode;
pub mod hashing;
pub mod json;
pub mod numerals;
pub mod peer;
pub mod pieces;
pub mod roundtrip;
pub mod text;
pub mod torrent;
pub mod tracker;

verus! {

/// The error kinds a client command can fail with.
#[derive(Debug, PartialEq, Eq)]
pub enum ClientError {
    /// The bencode decoder rejected its input.
    MalformedBencode,
    /// A required torrent field is absent or has the wrong kind.
    MissingField,
    /// The tracker response could not be used.
    TrackerError,
    /// The peer handshake was malformed or named the wrong info hash.
    HandshakeError,
    /// The peer choked us mid-transfer.
    PeerChoked,
    /// A peer-wire frame was malformed or unexpected.
    PeerProtocolError,
    /// An assembled piece does not match its expected SHA-1.
    PieceHashMismatch,
}

} // verus!
