use bittorrent::torrent::Torrent;
use bittorrent::ClientError;
use sha1::Digest;

/// A sample single-file torrent with the given sizes and piece digests;
/// the `info` view takes the digests as they stand, one 40-hex line per
/// 20-byte run.
fn sample_torrent_bytes(length: u64, piece_length: u64, piece_hashes: &[u8]) -> Vec<u8> {
    let mut v = Vec::new();
    v.extend_from_slice(b"d8:announce17:http://t/announce4:infod6:lengthi");
    v.extend_from_slice(length.to_string().as_bytes());
    v.extend_from_slice(b"e4:name6:sample12:piece lengthi");
    v.extend_from_slice(piece_length.to_string().as_bytes());
    v.extend_from_slice(b"e6:pieces");
    v.extend_from_slice(piece_hashes.len().to_string().as_bytes());
    v.extend_from_slice(b":");
    v.extend_from_slice(piece_hashes);
    v.extend_from_slice(b"ee");
    v
}

#[test]
fn torrent_fields_are_extracted() {
    let hashes: Vec<u8> = (0..40u8).collect();
    let file = sample_torrent_bytes(92063, 32768, &hashes);
    let t = Torrent::from_bytes(&file).expect("sample decodes");
    assert_eq!(t.announce, "http://t/announce");
    assert_eq!(t.info.length, 92063);
    assert_eq!(t.info.name, "sample");
    assert_eq!(t.info.piece_length, 32768);
    assert_eq!(t.info.pieces, hashes);
}

#[test]
fn info_hash_matches_the_original_info_region() {
    let hashes: Vec<u8> = (0..40u8).collect();
    let file = sample_torrent_bytes(92063, 32768, &hashes);
    let t = Torrent::from_bytes(&file).expect("sample decodes");

    // The info region of the file: everything between "4:info" and the
    // final closing 'e' of the top-level dictionary.
    let marker = b"4:info";
    let start = file
        .windows(marker.len())
        .position(|w| w == marker)
        .expect("info key present")
        + marker.len();
    let info_region = &file[start..file.len() - 1];
    let expected = sha1::Sha1::digest(info_region);
    assert_eq!(t.info.get_info_hash(), expected.to_vec());
}

#[test]
fn info_hash_hex_is_forty_lowercase_hex_characters() {
    let hashes: Vec<u8> = (0..40u8).collect();
    let file = sample_torrent_bytes(92063, 32768, &hashes);
    let t = Torrent::from_bytes(&file).expect("sample decodes");
    let hex_digest = t.info.info_hash_hex();
    assert_eq!(hex_digest.len(), 40);
    assert!(hex_digest
        .chars()
        .all(|c| c.is_ascii_digit() || ('a'..='f').contains(&c)));
    assert_eq!(hex_digest, hex::encode(t.info.get_info_hash()));
}

#[test]
fn piece_hash_hex_lines() {
    let hashes: Vec<u8> = (0..40u8).collect();
    let file = sample_torrent_bytes(92063, 32768, &hashes);
    let t = Torrent::from_bytes(&file).expect("sample decodes");
    assert_eq!(t.info.pieces.len() / 20, 2);
    let first = t.info.piece_hash_hex(0);
    let second = t.info.piece_hash_hex(1);
    assert_eq!(first.len(), 40);
    assert_eq!(second.len(), 40);
    assert_eq!(first, hex::encode(&hashes[0..20]));
    assert_eq!(second, hex::encode(&hashes[20..40]));
}

#[test]
fn unknown_info_keys_change_the_hash_but_still_parse() {
    // An extra key inside info (sorted before "name") must be preserved
    // when re-encoding, so it changes the info hash.
    let mut plain = Vec::new();
    plain.extend_from_slice(b"d8:announce8:http://a4:infod6:lengthi5e4:name1:x12:piece lengthi2e6:pieces20:");
    plain.extend_from_slice(&[7u8; 20]);
    plain.extend_from_slice(b"ee");
    let mut extra = Vec::new();
    extra.extend_from_slice(b"d8:announce8:http://a4:infod5:extrai1e6:lengthi5e4:name1:x12:piece lengthi2e6:pieces20:");
    extra.extend_from_slice(&[7u8; 20]);
    extra.extend_from_slice(b"ee");
    let t1 = Torrent::from_bytes(&plain).expect("plain decodes");
    let t2 = Torrent::from_bytes(&extra).expect("extra decodes");
    assert_eq!(t1.info.length, t2.info.length);
    assert_ne!(t1.info.get_info_hash(), t2.info.get_info_hash());
}

#[test]
fn missing_fields_are_reported() {
    // No info dictionary at all.
    assert_eq!(
        Torrent::from_bytes(b"d8:announce8:http://ae"),
        Err(ClientError::MissingField)
    );
    // Top level is not a dictionary.
    assert_eq!(
        Torrent::from_bytes(b"l4:infoe"),
        Err(ClientError::MissingField)
    );
    // Length of the wrong kind.
    assert_eq!(
        Torrent::from_bytes(
            b"d8:announce8:http://a4:infod6:length1:x4:name1:x12:piece lengthi2e6:pieces0:ee"
        ),
        Err(ClientError::MissingField)
    );
    // Zero length is rejected: a torrent advertises a positive length.
    assert_eq!(
        Torrent::from_bytes(
            b"d8:announce8:http://a4:infod6:lengthi0e4:name1:x12:piece lengthi2e6:pieces0:ee"
        ),
        Err(ClientError::MissingField)
    );
    // Pieces not a multiple of 20 bytes.
    assert_eq!(
        Torrent::from_bytes(
            b"d8:announce8:http://a4:infod6:lengthi5e4:name1:x12:piece lengthi2e6:pieces3:abcee"
        ),
        Err(ClientError::MissingField)
    );
}

#[test]
fn malformed_bencode_is_distinguished_from_missing_fields() {
    assert_eq!(
        Torrent::from_bytes(b"d8:announce"),
        Err(ClientError::MalformedBencode)
    );
    assert_eq!(
        Torrent::from_bytes(b"i42e trailing"),
        Err(ClientError::MalformedBencode)
    );
}
