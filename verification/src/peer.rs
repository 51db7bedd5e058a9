//! The peer wire: the 68-byte handshake, length-prefixed messages, and
//! the per-session choke/interest state machine.
//!
//! Each message is `<length: 4 bytes big-endian><id: 1 byte><payload>`;
//! a zero length is a keep-alive. The session starts choked and not
//! interested; the first real message prompts `interested`, `unchoke`
//! opens requests, and a `choke` once requests are open is fatal for this
//! minimal client.
use vstd::prelude::*;

use crate::pieces::bytes_eq;
use crate::ClientError;

verus! {

/// The 19 protocol-name bytes `BitTorrent protocol`.
pub open spec fn protocol_name() -> Seq<u8> {
    seq![
        0x42u8,
        0x69u8,
        0x74u8,
        0x54u8,
        0x6fu8,
        0x72u8,
        0x72u8,
        0x65u8,
        0x6eu8,
        0x74u8,
        0x20u8,
        0x70u8,
        0x72u8,
        0x6fu8,
        0x74u8,
        0x6fu8,
        0x63u8,
        0x6fu8,
        0x6cu8,
    ]
}

/// The 68 handshake bytes: the length byte 19, the protocol name, eight
/// reserved zero bytes, the info hash, the peer id.
pub open spec fn spec_handshake(info_hash: Seq<u8>, peer_id: Seq<u8>) -> Seq<u8> {
    seq![19u8] + protocol_name() + seq![0u8, 0u8, 0u8, 0u8, 0u8, 0u8, 0u8, 0u8] + info_hash
        + peer_id
}

/// Builds the 68-byte handshake to send.
pub fn build_handshake(info_hash: &[u8], peer_id: &[u8]) -> (r: Vec<u8>)
    requires
        info_hash@.len() == 20,
        peer_id@.len() == 20,
    ensures
        r@ == spec_handshake(info_hash@, peer_id@),
        r@.len() == 68,
{
    let mut out: Vec<u8> = Vec::new();
    out.push(19);
    let name: [u8; 19] = [
        0x42,
        0x69,
        0x74,
        0x54,
        0x6f,
        0x72,
        0x72,
        0x65,
        0x6e,
        0x74,
        0x20,
        0x70,
        0x72,
        0x6f,
        0x74,
        0x6f,
        0x63,
        0x6f,
        0x6c,
    ];
    out.extend_from_slice(name.as_slice());
    let reserved: [u8; 8] = [0, 0, 0, 0, 0, 0, 0, 0];
    out.extend_from_slice(reserved.as_slice());
    out.extend_from_slice(info_hash);
    out.extend_from_slice(peer_id);
    proof {
        assert(name@ =~= protocol_name());
        assert(out@ =~= spec_handshake(info_hash@, peer_id@));
    }
    out
}

/// Checks a received handshake and returns the remote peer id: exactly 68
/// bytes, the right protocol length byte and name, and our info hash;
/// anything else is a `HandshakeError`. The reserved bytes are ignored.
pub fn parse_handshake(reply: &[u8], expected_info_hash: &[u8]) -> (r: Result<
    Vec<u8>,
    ClientError,
>)
    requires
        expected_info_hash@.len() == 20,
    ensures
        r is Ok <==> reply@.len() == 68 && reply@[0] == 19 && reply@.subrange(1, 20)
            == protocol_name() && reply@.subrange(28, 48) == expected_info_hash@,
        match r {
            Ok(pid) => pid@ == reply@.subrange(48, 68),
            Err(e) => e == ClientError::HandshakeError,
        },
{
    if reply.len() != 68 {
        return Err(ClientError::HandshakeError);
    }
    if reply[0] != 19 {
        return Err(ClientError::HandshakeError);
    }
    let name: [u8; 19] = [
        0x42,
        0x69,
        0x74,
        0x54,
        0x6f,
        0x72,
        0x72,
        0x65,
        0x6e,
        0x74,
        0x20,
        0x70,
        0x72,
        0x6f,
        0x74,
        0x6f,
        0x63,
        0x6f,
        0x6c,
    ];
    proof {
        assert(name@ =~= protocol_name());
    }
    if !bytes_eq(vstd::slice::slice_subrange(reply, 1, 20), name.as_slice()) {
        return Err(ClientError::HandshakeError);
    }
    if !bytes_eq(vstd::slice::slice_subrange(reply, 28, 48), expected_info_hash) {
        return Err(ClientError::HandshakeError);
    }
    Ok(vstd::slice::slice_to_vec(vstd::slice::slice_subrange(reply, 48, 68)))
}

/// A peer-wire message, as this client reads and writes them.
#[derive(Debug, PartialEq, Eq)]
pub enum PeerMessage {
    /// A zero-length frame.
    KeepAlive,
    /// Id 0.
    Choke,
    /// Id 1.
    Unchoke,
    /// Id 2.
    Interested,
    /// Id 5; the payload is ignored, a willing peer is enough.
    Bitfield,
    /// Id 6: one block request.
    Request { index: u32, begin: u32, length: u32 },
    /// Id 7: one block of a piece.
    Piece { index: u32, begin: u32, block: Vec<u8> },
    /// Any other id, accepted and skipped.
    Unknown { id: u8 },
}

/// The mathematical shape of a peer-wire message.
pub enum MsgSpec {
    KeepAlive,
    Choke,
    Unchoke,
    Interested,
    Bitfield,
    Request { index: int, begin: int, length: int },
    Piece { index: int, begin: int, block: Seq<u8> },
    Unknown { id: u8 },
}

impl View for PeerMessage {
    type V = MsgSpec;

    open spec fn view(&self) -> MsgSpec {
        match self {
            PeerMessage::KeepAlive => MsgSpec::KeepAlive,
            PeerMessage::Choke => MsgSpec::Choke,
            PeerMessage::Unchoke => MsgSpec::Unchoke,
            PeerMessage::Interested => MsgSpec::Interested,
            PeerMessage::Bitfield => MsgSpec::Bitfield,
            PeerMessage::Request { index, begin, length } => MsgSpec::Request {
                index: *index as int,
                begin: *begin as int,
                length: *length as int,
            },
            PeerMessage::Piece { index, begin, block } => MsgSpec::Piece {
                index: *index as int,
                begin: *begin as int,
                block: block@,
            },
            PeerMessage::Unknown { id } => MsgSpec::Unknown { id: *id },
        }
    }
}

/// The four big-endian bytes of a 32-bit value.
pub open spec fn u32_be(n: int) -> Seq<u8> {
    seq![
        (n / 0x1000000 % 0x100) as u8,
        (n / 0x10000 % 0x100) as u8,
        (n / 0x100 % 0x100) as u8,
        (n % 0x100) as u8,
    ]
}

/// The value of four big-endian bytes.
pub open spec fn be_val(s: Seq<u8>) -> int {
    s[0] * 0x1000000 + s[1] * 0x10000 + s[2] * 0x100 + s[3]
}

/// The whole wire frame of a message: four length bytes big-endian, then
/// the id and payload. The request frame length is 13 (1 + 4 + 4 + 4).
pub open spec fn spec_frame(m: MsgSpec) -> Seq<u8> {
    match m {
        MsgSpec::KeepAlive => u32_be(0),
        MsgSpec::Choke => u32_be(1) + seq![0u8],
        MsgSpec::Unchoke => u32_be(1) + seq![1u8],
        MsgSpec::Interested => u32_be(1) + seq![2u8],
        MsgSpec::Bitfield => u32_be(1) + seq![5u8],
        MsgSpec::Request { index, begin, length } => u32_be(13) + seq![6u8] + u32_be(index)
            + u32_be(begin) + u32_be(length),
        MsgSpec::Piece { index, begin, block } => u32_be(9 + block.len() as int) + seq![7u8] + u32_be(
            index,
        ) + u32_be(begin) + block,
        MsgSpec::Unknown { id } => u32_be(1) + seq![id],
    }
}

/// What one frame body (the bytes after the length prefix, exactly
/// `length` of them) means: nothing for a malformed `request` or `piece`.
pub open spec fn spec_parse_frame(f: Seq<u8>) -> Option<MsgSpec> {
    if f.len() == 0 {
        Some(MsgSpec::KeepAlive)
    } else if f[0] == 0 {
        Some(MsgSpec::Choke)
    } else if f[0] == 1 {
        Some(MsgSpec::Unchoke)
    } else if f[0] == 2 {
        Some(MsgSpec::Interested)
    } else if f[0] == 5 {
        Some(MsgSpec::Bitfield)
    } else if f[0] == 6 {
        if f.len() == 13 {
            Some(
                MsgSpec::Request {
                    index: be_val(f.subrange(1, 5)),
                    begin: be_val(f.subrange(5, 9)),
                    length: be_val(f.subrange(9, 13)),
                },
            )
        } else {
            None
        }
    } else if f[0] == 7 {
        if f.len() >= 9 {
            Some(
                MsgSpec::Piece {
                    index: be_val(f.subrange(1, 5)),
                    begin: be_val(f.subrange(5, 9)),
                    block: f.skip(9),
                },
            )
        } else {
            None
        }
    } else {
        Some(MsgSpec::Unknown { id: f[0] })
    }
}

/// Appends the four big-endian bytes of `n`.
fn push_u32_be(out: &mut Vec<u8>, n: u32)
    ensures
        final(out)@ == old(out)@ + u32_be(n as int),
{
    out.push((n / 0x1000000 % 0x100) as u8);
    out.push((n / 0x10000 % 0x100) as u8);
    out.push((n / 0x100 % 0x100) as u8);
    out.push((n % 0x100) as u8);
    assert(out@ =~= old(out)@ + u32_be(n as int));
}

/// Reads four big-endian bytes at `pos`.
fn read_u32_be(bytes: &[u8], pos: usize) -> (r: u32)
    requires
        pos + 4 <= bytes@.len(),
    ensures
        r as int == be_val(bytes@.subrange(pos as int, pos as int + 4)),
{
    let b0 = bytes[pos] as u32;
    let b1 = bytes[pos + 1] as u32;
    let b2 = bytes[pos + 2] as u32;
    let b3 = bytes[pos + 3] as u32;
    b0 * 0x1000000 + b1 * 0x10000 + b2 * 0x100 + b3
}

impl PeerMessage {
    /// The full wire frame of this message, length prefix included.
    pub fn encode_message(&self) -> (r: Vec<u8>)
        requires
            self is Piece ==> self->Piece_block@.len() <= 0xffff_ffff - 9,
        ensures
            r@ == spec_frame(self@),
    {
        let mut out: Vec<u8> = Vec::new();
        match self {
            PeerMessage::KeepAlive => {
                push_u32_be(&mut out, 0);
            },
            PeerMessage::Choke => {
                push_u32_be(&mut out, 1);
                out.push(0);
            },
            PeerMessage::Unchoke => {
                push_u32_be(&mut out, 1);
                out.push(1);
            },
            PeerMessage::Interested => {
                push_u32_be(&mut out, 1);
                out.push(2);
            },
            PeerMessage::Bitfield => {
                push_u32_be(&mut out, 1);
                out.push(5);
            },
            PeerMessage::Request { index, begin, length } => {
                push_u32_be(&mut out, 13);
                out.push(6);
                push_u32_be(&mut out, *index);
                push_u32_be(&mut out, *begin);
                push_u32_be(&mut out, *length);
            },
            PeerMessage::Piece { index, begin, block } => {
                push_u32_be(&mut out, 9 + block.len() as u32);
                out.push(7);
                push_u32_be(&mut out, *index);
                push_u32_be(&mut out, *begin);
                out.extend_from_slice(block.as_slice());
            },
            PeerMessage::Unknown { id } => {
                push_u32_be(&mut out, 1);
                out.push(*id);
            },
        }
        proof {
            assert(out@ =~= spec_frame(self@));
        }
        out
    }

    /// Reads one frame body (the bytes after the length prefix): exactly
    /// the specification parse, with `PeerProtocolError` exactly on a
    /// malformed `request` or `piece`.
    pub fn parse_message(frame: &[u8]) -> (r: Result<PeerMessage, ClientError>)
        ensures
            match r {
                Ok(m) => spec_parse_frame(frame@) == Some(m@),
                Err(e) => {
                    &&& spec_parse_frame(frame@) is None
                    &&& e == ClientError::PeerProtocolError
                },
            },
    {
        if frame.len() == 0 {
            return Ok(PeerMessage::KeepAlive);
        }
        let id = frame[0];
        if id == 0 {
            Ok(PeerMessage::Choke)
        } else if id == 1 {
            Ok(PeerMessage::Unchoke)
        } else if id == 2 {
            Ok(PeerMessage::Interested)
        } else if id == 5 {
            Ok(PeerMessage::Bitfield)
        } else if id == 6 {
            if frame.len() != 13 {
                return Err(ClientError::PeerProtocolError);
            }
            Ok(
                PeerMessage::Request {
                    index: read_u32_be(frame, 1),
                    begin: read_u32_be(frame, 5),
                    length: read_u32_be(frame, 9),
                },
            )
        } else if id == 7 {
            if frame.len() < 9 {
                return Err(ClientError::PeerProtocolError);
            }
            let block = vstd::slice::slice_to_vec(
                vstd::slice::slice_subrange(frame, 9, frame.len()),
            );
            proof {
                assert(frame@.subrange(9, frame@.len() as int) =~= frame@.skip(9));
            }
            Ok(
                PeerMessage::Piece {
                    index: read_u32_be(frame, 1),
                    begin: read_u32_be(frame, 5),
                    block,
                },
            )
        } else {
            Ok(PeerMessage::Unknown { id })
        }
    }
}

/// The block requests for one piece, in order: one `request` message per
/// block, `begin` climbing in steps of 16 384, each with its block's
/// length.
pub fn requests_for_piece(piece_index: u32, piece_size: usize) -> (r: Vec<PeerMessage>)
    requires
        1 <= piece_size <= 0xffff_ffff,
    ensures
        r@.len() == crate::pieces::spec_chunk_count(piece_size as int, 16384),
        forall|k: int|
            0 <= k < r@.len() ==> (#[trigger] r@[k])@ == (MsgSpec::Request {
                index: piece_index as int,
                begin: k * 16384,
                length: crate::pieces::spec_chunk_size(piece_size as int, 16384, k),
            }),
{
    let blocks = crate::pieces::block_layout(piece_size);
    let mut out: Vec<PeerMessage> = Vec::new();
    let n = blocks.len();
    let mut k: usize = 0;
    while k < n
        invariant
            n == blocks@.len(),
            n == crate::pieces::spec_chunk_count(piece_size as int, 16384),
            forall|j: int|
                0 <= j < n ==> (#[trigger] blocks@[j]).0 as int == j * 16384 && blocks@[j].1
                    as int == crate::pieces::spec_chunk_size(piece_size as int, 16384, j),
            k <= n,
            out@.len() == k as int,
            forall|j: int|
                0 <= j < k as int ==> (#[trigger] out@[j])@ == (MsgSpec::Request {
                    index: piece_index as int,
                    begin: j * 16384,
                    length: crate::pieces::spec_chunk_size(piece_size as int, 16384, j),
                }),
        decreases n - k,
    {
        let b = blocks[k];
        out.push(PeerMessage::Request { index: piece_index, begin: b.0, length: b.1 });
        k = k + 1;
    }
    out
}

/// Where a session stands on its way to issuing requests.
#[derive(Debug, PartialEq, Eq, Structural, Clone, Copy)]
pub enum SessionPhase {
    /// After the handshake, before any real message (typically the
    /// bitfield) has arrived.
    AwaitingFirstMessage,
    /// `interested` has been sent; waiting for `unchoke`.
    AwaitingUnchoke,
    /// Unchoked: requests may be issued.
    Ready,
}

/// The per-session peer-wire state.
#[derive(Debug, PartialEq, Eq, Structural, Clone, Copy)]
pub struct Session {
    /// Whether the peer is choking us (true right after the handshake).
    pub peer_choking: bool,
    /// Whether we declared interest (false right after the handshake).
    pub am_interested: bool,
    /// Where the session stands.
    pub phase: SessionPhase,
}

/// What the driver must do after a message was handled.
#[derive(Debug, PartialEq, Eq, Structural, Clone, Copy)]
pub enum SessionAction {
    /// Nothing to send; keep reading.
    KeepReading,
    /// Send `interested`, then keep reading.
    SendInterested,
    /// The peer unchoked us: block requests may now be issued.
    BeginRequests,
}

/// The session transition: keep-alives change nothing; the first real
/// message prompts `interested`; `unchoke` while waiting opens requests;
/// `choke` after requests are open is fatal.
pub open spec fn spec_step(s: Session, m: MsgSpec) -> (Session, Result<
    SessionAction,
    ClientError,
>) {
    match m {
        MsgSpec::KeepAlive => (s, Ok(SessionAction::KeepReading)),
        _ => match s.phase {
            SessionPhase::AwaitingFirstMessage => (
                Session {
                    peer_choking: s.peer_choking,
                    am_interested: true,
                    phase: SessionPhase::AwaitingUnchoke,
                },
                Ok(SessionAction::SendInterested),
            ),
            SessionPhase::AwaitingUnchoke => if m is Unchoke {
                (
                    Session {
                        peer_choking: false,
                        am_interested: s.am_interested,
                        phase: SessionPhase::Ready,
                    },
                    Ok(SessionAction::BeginRequests),
                )
            } else {
                (s, Ok(SessionAction::KeepReading))
            },
            SessionPhase::Ready => if m is Choke {
                (
                    Session {
                        peer_choking: true,
                        am_interested: s.am_interested,
                        phase: SessionPhase::Ready,
                    },
                    Err(ClientError::PeerChoked),
                )
            } else {
                (s, Ok(SessionAction::KeepReading))
            },
        },
    }
}

impl Session {
    /// The state right after the handshake: choked, not interested.
    pub fn new() -> (r: Session)
        ensures
            r.peer_choking == true,
            r.am_interested == false,
            r.phase == SessionPhase::AwaitingFirstMessage,
    {
        Session {
            peer_choking: true,
            am_interested: false,
            phase: SessionPhase::AwaitingFirstMessage,
        }
    }

    /// Handles one received message: the new state and what to do next,
    /// exactly the specification transition.
    pub fn step(self, m: &PeerMessage) -> (r: (Session, Result<SessionAction, ClientError>))
        ensures
            r.0 == spec_step(self, m@).0,
            r.1 == spec_step(self, m@).1,
    {
        match m {
            PeerMessage::KeepAlive => (self, Ok(SessionAction::KeepReading)),
            _ => match self.phase {
                SessionPhase::AwaitingFirstMessage => (
                    Session {
                        peer_choking: self.peer_choking,
                        am_interested: true,
                        phase: SessionPhase::AwaitingUnchoke,
                    },
                    Ok(SessionAction::SendInterested),
                ),
                SessionPhase::AwaitingUnchoke => {
                    match m {
                        PeerMessage::Unchoke => (
                            Session {
                                peer_choking: false,
                                am_interested: self.am_interested,
                                phase: SessionPhase::Ready,
                            },
                            Ok(SessionAction::BeginRequests),
                        ),
                        _ => (self, Ok(SessionAction::KeepReading)),
                    }
                },
                SessionPhase::Ready => {
                    match m {
                        PeerMessage::Choke => (
                            Session {
                                peer_choking: true,
                                am_interested: self.am_interested,
                                phase: SessionPhase::Ready,
                            },
                            Err(ClientError::PeerChoked),
                        ),
                        _ => (self, Ok(SessionAction::KeepReading)),
                    }
                },
            },
        }
    }
}

/// Message round trip: the frame of a well-sized message, stripped of its
/// four length bytes, parses back to the same message.
pub proof fn lemma_message_round_trip(m: MsgSpec)
    requires
        m matches MsgSpec::Request { index, begin, length } ==> 0 <= index < 0x1_0000_0000 && 0
            <= begin < 0x1_0000_0000 && 0 <= length < 0x1_0000_0000,
        m matches MsgSpec::Piece { index, begin, block } ==> 0 <= index < 0x1_0000_0000 && 0
            <= begin < 0x1_0000_0000,
        m matches MsgSpec::Unknown { id } ==> !(id == 0 || id == 1 || id == 2 || id == 5 || id
            == 6 || id == 7),
    ensures
        spec_parse_frame(spec_frame(m).skip(4)) == Some(m),
{
    let f = spec_frame(m).skip(4);
    match m {
        MsgSpec::KeepAlive => {
            assert(f =~= Seq::<u8>::empty());
        },
        MsgSpec::Choke => {
            assert(f =~= seq![0u8]);
        },
        MsgSpec::Unchoke => {
            assert(f =~= seq![1u8]);
        },
        MsgSpec::Interested => {
            assert(f =~= seq![2u8]);
        },
        MsgSpec::Bitfield => {
            assert(f =~= seq![5u8]);
        },
        MsgSpec::Request { index, begin, length } => {
            assert(f =~= seq![6u8] + u32_be(index) + u32_be(begin) + u32_be(length));
            assert(f.subrange(1, 5) =~= u32_be(index));
            assert(f.subrange(5, 9) =~= u32_be(begin));
            assert(f.subrange(9, 13) =~= u32_be(length));
            lemma_u32_be_val(index);
            lemma_u32_be_val(begin);
            lemma_u32_be_val(length);
        },
        MsgSpec::Piece { index, begin, block } => {
            assert(f =~= seq![7u8] + u32_be(index) + u32_be(begin) + block);
            assert(f.subrange(1, 5) =~= u32_be(index));
            assert(f.subrange(5, 9) =~= u32_be(begin));
            assert(f.skip(9) =~= block);
            lemma_u32_be_val(index);
            lemma_u32_be_val(begin);
        },
        MsgSpec::Unknown { id } => {
            assert(f =~= seq![id]);
        },
    }
}

/// Reading back the four big-endian bytes of a 32-bit value gives the
/// value.
proof fn lemma_u32_be_val(n: int)
    requires
        0 <= n < 0x1_0000_0000,
    ensures
        be_val(u32_be(n)) == n,
{
    assert((n / 0x1000000 % 0x100) * 0x1000000 + (n / 0x10000 % 0x100) * 0x10000 + (n / 0x100
        % 0x100) * 0x100 + n % 0x100 == n) by (nonlinear_arith)
        requires
            0 <= n < 0x1_0000_0000,
    ;
}

} // verus!
