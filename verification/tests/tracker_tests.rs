use bittorrent::tracker::default_peer_id_string;
use bittorrent::tracker::urlencode_bytes;
use bittorrent::tracker::PeerAddr;
use bittorrent::tracker::TrackerRequest;
use bittorrent::tracker::TrackerResponse;
use bittorrent::tracker::DEFAULT_PORT;
use bittorrent::ClientError;

#[test]
fn urlencode_covers_every_byte_with_uppercase_hex() {
    let hash: Vec<u8> = (0..20u8).map(|i| i.wrapping_mul(13)).collect();
    let encoded = urlencode_bytes(&hash);
    assert_eq!(encoded.len(), 60);
    let chars: Vec<char> = encoded.chars().collect();
    for (k, byte) in hash.iter().enumerate() {
        assert_eq!(chars[3 * k], '%');
        let hex_pair: String = chars[3 * k + 1..3 * k + 3].iter().collect();
        assert_eq!(hex_pair, format!("{:02X}", byte));
    }
}

#[test]
fn urlencode_exact_value() {
    assert_eq!(urlencode_bytes(&[0x00, 0x1f, 0xab, 0x41]), "%00%1F%AB%41");
    assert_eq!(urlencode_bytes(&[]), "");
}

#[test]
fn tracker_url_has_the_fixed_shape() {
    let req = TrackerRequest {
        info_hash: urlencode_bytes(&[0xAAu8; 20]),
        peer_id: default_peer_id_string(),
        port: DEFAULT_PORT,
        uploaded: 0,
        downloaded: 0,
        left: 92063,
        compact: 1,
    };
    let url = req.build_tracker_url("http://t/announce".to_string());
    let mut expected = String::from("http://t/announce?info_hash=");
    for _ in 0..20 {
        expected.push_str("%AA");
    }
    expected.push_str("&peer_id=00112233445566778899&port=6881&uploaded=0&downloaded=0&left=92063&compact=1");
    assert_eq!(url, expected);
}

#[test]
fn tracker_url_splices_the_hash_without_double_encoding() {
    let req = TrackerRequest {
        info_hash: "%01%02".to_string(),
        peer_id: "peer".to_string(),
        port: 1,
        uploaded: 2,
        downloaded: 3,
        left: 4,
        compact: 0,
    };
    let url = req.build_tracker_url("x".to_string());
    assert_eq!(
        url,
        "x?info_hash=%01%02&peer_id=peer&port=1&uploaded=2&downloaded=3&left=4&compact=0"
    );
}

#[test]
fn tracker_response_parses_peers() {
    let body = b"d8:intervali1800e5:peers12:\x01\x02\x03\x04\x1a\xe1\x7f\x00\x00\x01\x00\x50e";
    let resp = TrackerResponse::from_bytes(body).expect("response decodes");
    assert_eq!(resp.peers.len(), 12);
    let peers = resp.get_peers().expect("peer list parses");
    assert_eq!(peers.len(), 2);
    assert_eq!(
        peers[0],
        PeerAddr { ip: [1, 2, 3, 4], port: 6881 }
    );
    assert_eq!(
        peers[1],
        PeerAddr { ip: [127, 0, 0, 1], port: 80 }
    );
}

#[test]
fn tracker_response_requires_a_peers_byte_string() {
    assert_eq!(
        TrackerResponse::from_bytes(b"d8:intervali1800ee"),
        Err(ClientError::TrackerError)
    );
    assert_eq!(
        TrackerResponse::from_bytes(b"d5:peersi1ee"),
        Err(ClientError::TrackerError)
    );
    assert_eq!(
        TrackerResponse::from_bytes(b"not bencode"),
        Err(ClientError::TrackerError)
    );
}

#[test]
fn peer_list_length_must_be_a_multiple_of_six() {
    let resp = TrackerResponse { peers: vec![1, 2, 3, 4, 5] };
    assert_eq!(resp.get_peers(), Err(ClientError::TrackerError));
    let empty = TrackerResponse { peers: vec![] };
    assert_eq!(empty.get_peers(), Ok(vec![]));
}
