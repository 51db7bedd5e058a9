use bittorrent::peer::build_handshake;
use bittorrent::peer::parse_handshake;
use bittorrent::peer::PeerMessage;
use bittorrent::peer::Session;
use bittorrent::peer::SessionAction;
use bittorrent::peer::SessionPhase;
use bittorrent::tracker::default_peer_id;
use bittorrent::ClientError;

#[test]
fn handshake_is_sixty_eight_fixed_bytes() {
    let info_hash = [0xabu8; 20];
    let peer_id = default_peer_id();
    let hs = build_handshake(&info_hash, &peer_id);
    assert_eq!(hs.len(), 68);
    assert_eq!(hs[0], 19);
    assert_eq!(&hs[1..20], b"BitTorrent protocol");
    assert_eq!(&hs[20..28], &[0u8; 8]);
    assert_eq!(&hs[28..48], &info_hash);
    assert_eq!(&hs[48..68], b"00112233445566778899");
}

#[test]
fn handshake_reply_round_trip() {
    let info_hash = [7u8; 20];
    let remote_id: Vec<u8> = (100..120u8).collect();
    let reply = build_handshake(&info_hash, &remote_id);
    let pid = parse_handshake(&reply, &info_hash).expect("handshake accepted");
    assert_eq!(pid, remote_id);
}

#[test]
fn handshake_rejects_short_reads_and_mismatches() {
    let info_hash = [7u8; 20];
    let good = build_handshake(&info_hash, &[1u8; 20]);
    assert_eq!(
        parse_handshake(&good[..67], &info_hash),
        Err(ClientError::HandshakeError)
    );
    let mut wrong_len = good.clone();
    wrong_len[0] = 18;
    assert_eq!(
        parse_handshake(&wrong_len, &info_hash),
        Err(ClientError::HandshakeError)
    );
    let mut wrong_name = good.clone();
    wrong_name[1] = b'b';
    assert_eq!(
        parse_handshake(&wrong_name, &info_hash),
        Err(ClientError::HandshakeError)
    );
    let other_hash = [8u8; 20];
    assert_eq!(
        parse_handshake(&good, &other_hash),
        Err(ClientError::HandshakeError)
    );
}

#[test]
fn request_frame_is_thirteen_plus_prefix() {
    let m = PeerMessage::Request { index: 1, begin: 16384, length: 16384 };
    let frame = m.encode_message();
    assert_eq!(frame.len(), 17);
    // The length prefix counts id plus payload: 1 + 4 + 4 + 4 = 13.
    assert_eq!(&frame[0..4], &[0, 0, 0, 13]);
    assert_eq!(frame[4], 6);
    assert_eq!(&frame[5..9], &[0, 0, 0, 1]);
    assert_eq!(&frame[9..13], &[0, 0, 64, 0]);
    assert_eq!(&frame[13..17], &[0, 0, 64, 0]);
}

#[test]
fn control_frames() {
    assert_eq!(PeerMessage::KeepAlive.encode_message(), vec![0, 0, 0, 0]);
    assert_eq!(PeerMessage::Choke.encode_message(), vec![0, 0, 0, 1, 0]);
    assert_eq!(PeerMessage::Unchoke.encode_message(), vec![0, 0, 0, 1, 1]);
    assert_eq!(PeerMessage::Interested.encode_message(), vec![0, 0, 0, 1, 2]);
    assert_eq!(PeerMessage::Bitfield.encode_message(), vec![0, 0, 0, 1, 5]);
}

#[test]
fn piece_frame_carries_its_block() {
    let m = PeerMessage::Piece { index: 2, begin: 32768, block: vec![9, 8, 7] };
    let frame = m.encode_message();
    assert_eq!(&frame[0..4], &[0, 0, 0, 12]);
    assert_eq!(frame[4], 7);
    assert_eq!(&frame[5..9], &[0, 0, 0, 2]);
    assert_eq!(&frame[9..13], &[0, 0, 128, 0]);
    assert_eq!(&frame[13..], &[9, 8, 7]);
}

#[test]
fn parse_message_round_trips() {
    let messages = vec![
        PeerMessage::KeepAlive,
        PeerMessage::Choke,
        PeerMessage::Unchoke,
        PeerMessage::Interested,
        PeerMessage::Bitfield,
        PeerMessage::Request { index: 3, begin: 49152, length: 10000 },
        PeerMessage::Piece { index: 1, begin: 0, block: vec![1, 2, 3, 4] },
        PeerMessage::Unknown { id: 9 },
    ];
    for m in messages {
        let frame = m.encode_message();
        let back = PeerMessage::parse_message(&frame[4..]).expect("frame parses");
        assert_eq!(back, m);
    }
}

#[test]
fn parse_message_rejects_malformed_frames() {
    // A request body must be exactly 13 bytes.
    assert_eq!(
        PeerMessage::parse_message(&[6, 0, 0]),
        Err(ClientError::PeerProtocolError)
    );
    // A piece body must hold at least index and begin.
    assert_eq!(
        PeerMessage::parse_message(&[7, 0, 0, 0, 1]),
        Err(ClientError::PeerProtocolError)
    );
}

#[test]
fn unknown_ids_are_accepted_and_skipped() {
    assert_eq!(
        PeerMessage::parse_message(&[20, 1, 2, 3]),
        Ok(PeerMessage::Unknown { id: 20 })
    );
}

#[test]
fn session_walks_the_expected_transcript() {
    let s0 = Session::new();
    assert!(s0.peer_choking);
    assert!(!s0.am_interested);
    assert_eq!(s0.phase, SessionPhase::AwaitingFirstMessage);

    // Keep-alives change nothing.
    let (s0b, a) = s0.step(&PeerMessage::KeepAlive);
    assert_eq!(s0b, s0);
    assert_eq!(a, Ok(SessionAction::KeepReading));

    // The first real message (here a bitfield) prompts `interested`.
    let (s1, a1) = s0.step(&PeerMessage::Bitfield);
    assert!(s1.am_interested);
    assert_eq!(s1.phase, SessionPhase::AwaitingUnchoke);
    assert_eq!(a1, Ok(SessionAction::SendInterested));

    // Unchoke opens requests.
    let (s2, a2) = s1.step(&PeerMessage::Unchoke);
    assert!(!s2.peer_choking);
    assert_eq!(s2.phase, SessionPhase::Ready);
    assert_eq!(a2, Ok(SessionAction::BeginRequests));

    // A choke mid-download is fatal.
    let (_, a3) = s2.step(&PeerMessage::Choke);
    assert_eq!(a3, Err(ClientError::PeerChoked));

    // Pieces while ready are consumed by the engine; the session just
    // keeps reading.
    let (s4, a4) = s2.step(&PeerMessage::Piece { index: 0, begin: 0, block: vec![1] });
    assert_eq!(s4, s2);
    assert_eq!(a4, Ok(SessionAction::KeepReading));
}

#[test]
fn choke_before_unchoke_is_not_fatal() {
    let s0 = Session::new();
    let (s1, _) = s0.step(&PeerMessage::Bitfield);
    let (s2, a) = s1.step(&PeerMessage::Choke);
    assert_eq!(s2, s1);
    assert_eq!(a, Ok(SessionAction::KeepReading));
}

#[test]
fn requests_cover_the_piece_back_to_back() {
    let requests = bittorrent::peer::requests_for_piece(4, 40000);
    assert_eq!(requests.len(), 3);
    assert_eq!(
        requests[0],
        PeerMessage::Request { index: 4, begin: 0, length: 16384 }
    );
    assert_eq!(
        requests[1],
        PeerMessage::Request { index: 4, begin: 16384, length: 16384 }
    );
    assert_eq!(
        requests[2],
        PeerMessage::Request { index: 4, begin: 32768, length: 7232 }
    );
}
