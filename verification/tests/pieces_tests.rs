use bittorrent::pieces::apply_block;
use bittorrent::pieces::block_layout;
use bittorrent::pieces::check_piece;
use bittorrent::pieces::piece_count;
use bittorrent::pieces::piece_offset;
use bittorrent::pieces::piece_size;
use bittorrent::pieces::receive_block;
use bittorrent::pieces::verify_piece;
use bittorrent::peer::PeerMessage;
use bittorrent::ClientError;
use sha1::Digest;

#[test]
fn single_short_piece() {
    // length 12345, piece length 16384: one piece of 12345 bytes, one
    // block of 12345 bytes.
    assert_eq!(piece_count(12345, 16384), 1);
    assert_eq!(piece_size(12345, 16384, 0), 12345);
    let blocks = block_layout(12345);
    assert_eq!(blocks, vec![(0, 12345)]);
}

#[test]
fn exact_multiple_keeps_full_final_piece() {
    // length 32768, piece length 16384: two full pieces, each one full
    // block; the final piece must not come out empty.
    assert_eq!(piece_count(32768, 16384), 2);
    assert_eq!(piece_size(32768, 16384, 0), 16384);
    assert_eq!(piece_size(32768, 16384, 1), 16384);
    let blocks = block_layout(16384);
    assert_eq!(blocks, vec![(0, 16384)]);
}

#[test]
fn piece_sizes_sum_to_length() {
    let length: usize = 92063;
    let piece_length: usize = 32768;
    let count = piece_count(length, piece_length);
    assert_eq!(count, 3);
    let mut total = 0usize;
    for i in 0..count {
        let s = piece_size(length, piece_length, i);
        if i < count - 1 {
            assert_eq!(s, piece_length);
        } else {
            assert!(0 < s && s <= piece_length);
        }
        total += s;
    }
    assert_eq!(total, length);
}

#[test]
fn block_lengths_sum_to_piece_size() {
    let piece: usize = 40000;
    let blocks = block_layout(piece);
    assert_eq!(blocks.len(), 3);
    let mut total = 0usize;
    for (k, (begin, len)) in blocks.iter().enumerate() {
        assert_eq!(*begin as usize, k * 16384);
        if k < blocks.len() - 1 {
            assert_eq!(*len, 16384);
        } else {
            assert!(0 < *len && *len <= 16384);
        }
        total += *len as usize;
    }
    assert_eq!(total, piece);
}

#[test]
fn blocks_fill_a_piece_buffer() {
    let mut buf = vec![0u8; 10];
    apply_block(&mut buf, 3, &[7, 8, 9]);
    assert_eq!(buf, vec![0, 0, 0, 7, 8, 9, 0, 0, 0, 0]);
    // Out-of-order and duplicate application stays idempotent.
    apply_block(&mut buf, 0, &[1, 2]);
    apply_block(&mut buf, 3, &[7, 8, 9]);
    assert_eq!(buf, vec![1, 2, 0, 7, 8, 9, 0, 0, 0, 0]);
}

#[test]
fn verify_piece_agrees_with_sha1() {
    let data = b"hello world piece";
    let good = sha1::Sha1::digest(data);
    assert!(verify_piece(data, good.as_slice()));
    let mut bad = good.to_vec();
    bad[0] ^= 1;
    assert!(!verify_piece(data, &bad));
}

#[test]
fn sha1_known_vector_through_verify_piece() {
    // SHA-1("abc") = a9993e364706816aba3e25717850c26c9cd0d89d
    let expected = hex::decode("a9993e364706816aba3e25717850c26c9cd0d89d").unwrap();
    assert!(verify_piece(b"abc", &expected));
    assert!(!verify_piece(b"abd", &expected));
}

#[test]
fn check_piece_reports_mismatch() {
    let data = b"block one";
    let mut pieces = sha1::Sha1::digest(data).to_vec();
    pieces.extend_from_slice(&[0u8; 20]);
    assert_eq!(check_piece(data, &pieces, 0), Ok(()));
    assert_eq!(
        check_piece(data, &pieces, 1),
        Err(ClientError::PieceHashMismatch)
    );
}

#[test]
fn piece_offsets_are_multiples_of_the_piece_length() {
    assert_eq!(piece_offset(16384, 0), 0);
    assert_eq!(piece_offset(16384, 3), 49152);
}

#[test]
fn receive_block_fills_and_guards() {
    let mut buf = vec![0u8; 6];
    // A matching block lands at its offset.
    let got = receive_block(
        &mut buf,
        2,
        &PeerMessage::Piece { index: 2, begin: 1, block: vec![5, 6] },
    );
    assert_eq!(got, Ok(true));
    assert_eq!(buf, vec![0, 5, 6, 0, 0, 0]);
    // Keep-alives and stray messages are skipped.
    assert_eq!(receive_block(&mut buf, 2, &PeerMessage::KeepAlive), Ok(false));
    assert_eq!(receive_block(&mut buf, 2, &PeerMessage::Bitfield), Ok(false));
    // A choke is fatal.
    assert_eq!(
        receive_block(&mut buf, 2, &PeerMessage::Choke),
        Err(ClientError::PeerChoked)
    );
    // A block for another piece, or past the end, is a protocol error.
    assert_eq!(
        receive_block(
            &mut buf,
            2,
            &PeerMessage::Piece { index: 3, begin: 0, block: vec![1] }
        ),
        Err(ClientError::PeerProtocolError)
    );
    assert_eq!(
        receive_block(
            &mut buf,
            2,
            &PeerMessage::Piece { index: 2, begin: 5, block: vec![1, 2] }
        ),
        Err(ClientError::PeerProtocolError)
    );
    assert_eq!(buf, vec![0, 5, 6, 0, 0, 0]);
}
