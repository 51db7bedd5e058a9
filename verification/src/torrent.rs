//! The single-file torrent view: `announce` plus the `info` dictionary
//! with its four required fields, and the info hash.
//!
//! The decoded `info` dictionary is kept whole (unknown keys included) in
//! `Info::raw`; the info hash is the SHA-1 of its canonical re-encoding,
//! which by the codec's soundness equals the SHA-1 of the `info` region of
//! the original file.
use vstd::prelude::*;

use crate::bdecode::spec_parse_value;
use crate::bencode::entry_views_of;
use crate::bencode::spec_encode;
use crate::bencode::spec_encode_entries;
use crate::bencode::spec_encode_str;
use crate::bencode::BValue;
use crate::bencode::Bencode;
use crate::hashing::hex_chars_of;
use crate::hashing::sha1_digest;
use crate::hashing::sha1_of;
use crate::hashing::to_hex;
use crate::pieces::piece_hash;
use crate::pieces::bytes_eq;
use crate::roundtrip::lemma_parse_sound;
use crate::text::utf8_to_string;
use crate::ClientError;
use vstd::utf8::decode_utf8;
use vstd::utf8::valid_utf8;

verus! {

/// The first value under `key` in a dictionary's entries.
pub open spec fn dict_get(d: Seq<(Seq<u8>, BValue)>, key: Seq<u8>) -> Option<BValue>
    decreases d.len(),
{
    if d.len() == 0 {
        None
    } else if d[0].0 == key {
        Some(d[0].1)
    } else {
        dict_get(d.skip(1), key)
    }
}

/// Looks a key up in decoded dictionary entries.
pub fn dict_find<'a>(entries: &'a Vec<(Vec<u8>, Bencode)>, key: &[u8]) -> (r: Option<
    &'a Bencode,
>)
    ensures
        match r {
            Some(v) => dict_get(entry_views_of(entries@), key@) == Some(v@),
            None => dict_get(entry_views_of(entries@), key@) is None,
        },
{
    let ghost full = entry_views_of(entries@);
    let n = entries.len();
    proof {
        assert(full.skip(0) =~= full);
    }
    let mut i: usize = 0;
    while i < n
        invariant
            n == entries@.len(),
            i <= n,
            full == entry_views_of(entries@),
            dict_get(full, key@) == dict_get(full.skip(i as int), key@),
        decreases n - i,
    {
        if bytes_eq(entries[i].0.as_slice(), key) {
            proof {
                assert(full.skip(i as int)[0] == full[i as int]);
            }
            return Some(&entries[i].1);
        }
        proof {
            assert(full.skip(i as int)[0] == full[i as int]);
            assert(full.skip(i as int).skip(1) =~= full.skip(i as int + 1));
        }
        i = i + 1;
    }
    proof {
        assert(full.skip(n as int).len() == 0);
    }
    None
}

/// The bytes of the key `announce`.
pub open spec fn key_announce() -> Seq<u8> {
    seq![0x61u8, 0x6eu8, 0x6eu8, 0x6fu8, 0x75u8, 0x6eu8, 0x63u8, 0x65u8]
}

/// The bytes of the key `info`.
pub open spec fn key_info() -> Seq<u8> {
    seq![0x69u8, 0x6eu8, 0x66u8, 0x6fu8]
}

/// The bytes of the key `length`.
pub open spec fn key_length() -> Seq<u8> {
    seq![0x6cu8, 0x65u8, 0x6eu8, 0x67u8, 0x74u8, 0x68u8]
}

/// The bytes of the key `name`.
pub open spec fn key_name() -> Seq<u8> {
    seq![0x6eu8, 0x61u8, 0x6du8, 0x65u8]
}

/// The bytes of the key `piece length`.
pub open spec fn key_piece_length() -> Seq<u8> {
    seq![
        0x70u8,
        0x69u8,
        0x65u8,
        0x63u8,
        0x65u8,
        0x20u8,
        0x6cu8,
        0x65u8,
        0x6eu8,
        0x67u8,
        0x74u8,
        0x68u8,
    ]
}

/// The bytes of the key `pieces`.
pub open spec fn key_pieces() -> Seq<u8> {
    seq![0x70u8, 0x69u8, 0x65u8, 0x63u8, 0x65u8, 0x73u8]
}

/// The `info` dictionary view of a torrent: the typed required fields and
/// the dictionary itself.
#[derive(Debug, PartialEq, Eq)]
pub struct Info {
    /// Total number of bytes of the single file.
    pub length: usize,
    /// Suggested file name (UTF-8).
    pub name: String,
    /// Piece size in bytes.
    pub piece_length: usize,
    /// Concatenated 20-byte SHA-1 digests, one per piece.
    pub pieces: Vec<u8>,
    /// The full `info` dictionary as decoded, unknown keys included; the
    /// info hash is computed over its canonical re-encoding.
    pub raw: Bencode,
}

/// A decoded single-file torrent.
#[derive(Debug, PartialEq, Eq)]
pub struct Torrent {
    /// The tracker URL.
    pub announce: String,
    /// The `info` dictionary view.
    pub info: Info,
}

/// The mathematical content of a decoded torrent.
pub struct TorrentSpec {
    pub announce: Seq<char>,
    pub length: int,
    pub name: Seq<char>,
    pub piece_length: int,
    pub pieces: Seq<u8>,
    pub info: BValue,
}

impl View for Torrent {
    type V = TorrentSpec;

    open spec fn view(&self) -> TorrentSpec {
        TorrentSpec {
            announce: self.announce@,
            length: self.info.length as int,
            name: self.info.name@,
            piece_length: self.info.piece_length as int,
            pieces: self.info.pieces@,
            info: self.info.raw@,
        }
    }
}

/// The torrent view of a decoded bencode value: a dictionary with a UTF-8
/// `announce` string and an `info` dictionary holding a positive `length`,
/// a UTF-8 `name`, a positive `piece length` that fits the machine, and a
/// `pieces` string of whole 20-byte digests.
pub open spec fn spec_torrent_of(v: BValue) -> Option<TorrentSpec> {
    match v {
        BValue::Dict(top) => match (dict_get(top, key_announce()), dict_get(top, key_info())) {
            (Some(BValue::Bytes(ab)), Some(BValue::Dict(idict))) => {
                match (
                    dict_get(idict, key_length()),
                    dict_get(idict, key_name()),
                    dict_get(idict, key_piece_length()),
                    dict_get(idict, key_pieces()),
                ) {
                    (
                        Some(BValue::Int(len)),
                        Some(BValue::Bytes(nb)),
                        Some(BValue::Int(pl)),
                        Some(BValue::Bytes(ps)),
                    ) => {
                        if valid_utf8(ab) && valid_utf8(nb) && 1 <= len <= usize::MAX && 1 <= pl
                            <= usize::MAX && ps.len() % 20 == 0 {
                            Some(
                                TorrentSpec {
                                    announce: decode_utf8(ab),
                                    length: len,
                                    name: decode_utf8(nb),
                                    piece_length: pl,
                                    pieces: ps,
                                    info: BValue::Dict(idict),
                                },
                            )
                        } else {
                            None
                        }
                    },
                    _ => None,
                }
            },
            _ => None,
        },
        _ => None,
    }
}

/// The torrent view of a whole byte sequence: one bencode value covering
/// all of it, then the torrent view of that value.
pub open spec fn spec_torrent_from_bytes(b: Seq<u8>) -> Option<TorrentSpec> {
    match spec_parse_value(b, 0) {
        Some((v, end)) => if end == b.len() {
            spec_torrent_of(v)
        } else {
            None
        },
        None => None,
    }
}

impl Torrent {
    /// Decodes a torrent file: `MalformedBencode` when the bytes are not
    /// one canonical bencode document, `MissingField` when a required
    /// field is absent or of the wrong kind.
    pub fn from_bytes(bytes: &[u8]) -> (r: Result<Torrent, ClientError>)
        ensures
            match r {
                Ok(t) => spec_torrent_from_bytes(bytes@) == Some(t@),
                Err(e) => {
                    &&& spec_torrent_from_bytes(bytes@) is None
                    &&& (e == ClientError::MalformedBencode || e == ClientError::MissingField)
                    &&& (e == ClientError::MalformedBencode <==> (match spec_parse_value(
                        bytes@,
                        0,
                    ) {
                        Some((v, end)) => end != bytes@.len(),
                        None => true,
                    }))
                },
            },
    {
        let doc = match Bencode::decode(bytes) {
            Ok(v) => v,
            Err(e) => {
                return Err(e);
            },
        };
        let top = match doc {
            Bencode::Dict(d) => d,
            _ => {
                return Err(ClientError::MissingField);
            },
        };
        let ka: [u8; 8] = [0x61, 0x6e, 0x6e, 0x6f, 0x75, 0x6e, 0x63, 0x65];
        assert(ka@ =~= key_announce());
        let announce_bytes = match dict_find(&top, ka.as_slice()) {
            Some(b) => match b {
                Bencode::Bytes(ab) => ab.clone(),
                _ => {
                    return Err(ClientError::MissingField);
                },
            },
            None => {
                return Err(ClientError::MissingField);
            },
        };
        let announce = match utf8_to_string(announce_bytes) {
            Some(s) => s,
            None => {
                return Err(ClientError::MissingField);
            },
        };
        let ki: [u8; 4] = [0x69, 0x6e, 0x66, 0x6f];
        assert(ki@ =~= key_info());
        let info_val = match dict_find(&top, ki.as_slice()) {
            Some(v) => v,
            None => {
                return Err(ClientError::MissingField);
            },
        };
        let idict = match info_val {
            Bencode::Dict(d) => d,
            _ => {
                return Err(ClientError::MissingField);
            },
        };
        let kl: [u8; 6] = [0x6c, 0x65, 0x6e, 0x67, 0x74, 0x68];
        assert(kl@ =~= key_length());
        let length = match dict_find(idict, kl.as_slice()) {
            Some(v) => match v {
                Bencode::Int(i) => {
                    if *i < 1 {
                        return Err(ClientError::MissingField);
                    }
                    if (*i as u64) > (usize::MAX as u64) {
                        return Err(ClientError::MissingField);
                    }
                    *i as usize
                },
                _ => {
                    return Err(ClientError::MissingField);
                },
            },
            None => {
                return Err(ClientError::MissingField);
            },
        };
        let kn: [u8; 4] = [0x6e, 0x61, 0x6d, 0x65];
        assert(kn@ =~= key_name());
        let name_bytes = match dict_find(idict, kn.as_slice()) {
            Some(v) => match v {
                Bencode::Bytes(b) => b.clone(),
                _ => {
                    return Err(ClientError::MissingField);
                },
            },
            None => {
                return Err(ClientError::MissingField);
            },
        };
        let name = match utf8_to_string(name_bytes) {
            Some(s) => s,
            None => {
                return Err(ClientError::MissingField);
            },
        };
        let kpl: [u8; 12] = [
            0x70,
            0x69,
            0x65,
            0x63,
            0x65,
            0x20,
            0x6c,
            0x65,
            0x6e,
            0x67,
            0x74,
            0x68,
        ];
        assert(kpl@ =~= key_piece_length());
        let piece_length = match dict_find(idict, kpl.as_slice()) {
            Some(v) => match v {
                Bencode::Int(i) => {
                    if *i < 1 {
                        return Err(ClientError::MissingField);
                    }
                    if (*i as u64) > (usize::MAX as u64) {
                        return Err(ClientError::MissingField);
                    }
                    *i as usize
                },
                _ => {
                    return Err(ClientError::MissingField);
                },
            },
            None => {
                return Err(ClientError::MissingField);
            },
        };
        let kp: [u8; 6] = [0x70, 0x69, 0x65, 0x63, 0x65, 0x73];
        assert(kp@ =~= key_pieces());
        let pieces = match dict_find(idict, kp.as_slice()) {
            Some(v) => match v {
                Bencode::Bytes(b) => b.clone(),
                _ => {
                    return Err(ClientError::MissingField);
                },
            },
            None => {
                return Err(ClientError::MissingField);
            },
        };
        if pieces.len() % 20 != 0 {
            return Err(ClientError::MissingField);
        }
        let raw = info_val.duplicate();
        Ok(
            Torrent {
                announce,
                info: Info { length, name, piece_length, pieces, raw },
            },
        )
    }
}

/// If a key is present in a dictionary, some entry holds it.
proof fn lemma_dict_get_index(d: Seq<(Seq<u8>, BValue)>, key: Seq<u8>)
    requires
        dict_get(d, key) is Some,
    ensures
        exists|i: int|
            0 <= i < d.len() && #[trigger] d[i].0 == key && d[i].1 == dict_get(d, key)->0,
    decreases d.len(),
{
    if d[0].0 == key {
        assert(d[0].0 == key && d[0].1 == dict_get(d, key)->0);
    } else {
        lemma_dict_get_index(d.skip(1), key);
        let i0 = choose|i: int|
            0 <= i < d.skip(1).len() && #[trigger] d.skip(1)[i].0 == key && d.skip(1)[i].1
                == dict_get(d.skip(1), key)->0;
        assert(d[i0 + 1].0 == key && d[i0 + 1].1 == dict_get(d, key)->0);
    }
}

/// The value of entry `i` stands as a contiguous region inside the
/// concatenated entry encodings.
proof fn lemma_entries_region(d: Seq<(Seq<u8>, BValue)>, i: int)
    requires
        0 <= i < d.len(),
    ensures
        exists|a: int|
            0 <= a && a + spec_encode(d[i].1).len() <= spec_encode_entries(d, 0).len()
                && #[trigger] spec_encode_entries(d, 0).subrange(
                a,
                a + spec_encode(d[i].1).len(),
            ) == spec_encode(d[i].1),
    decreases i,
{
    let whole = spec_encode_entries(d, 0);
    let ek = spec_encode_str(d[0].0);
    let ev = spec_encode(d[0].1);
    assert(whole == ek + ev + spec_encode_entries(d, 1));
    if i == 0 {
        let a = ek.len() as int;
        assert(whole.subrange(a, a + ev.len()) =~= ev);
        assert(0 <= a && a + spec_encode(d[i].1).len() <= whole.len() && whole.subrange(
            a,
            a + spec_encode(d[i].1).len(),
        ) == spec_encode(d[i].1));
    } else {
        crate::roundtrip::lemma_encode_entries_shift(d, 1);
        let t = d.skip(1);
        assert(t[i - 1] == d[i]);
        lemma_entries_region(t, i - 1);
        let sub = spec_encode_entries(t, 0);
        let a0 = choose|a: int|
            0 <= a && a + spec_encode(t[i - 1].1).len() <= sub.len() && #[trigger] sub.subrange(
                a,
                a + spec_encode(t[i - 1].1).len(),
            ) == spec_encode(t[i - 1].1);
        let a = ek.len() + ev.len() + a0;
        let l = spec_encode(d[i].1).len() as int;
        assert(whole.subrange(a, a + l) =~= sub.subrange(a0, a0 + l)) by {
            assert(forall|j: int|
                0 <= j < l ==> whole[a + j] == #[trigger] sub[a0 + j]);
        }
        assert(0 <= a && a + spec_encode(d[i].1).len() <= whole.len() && whole.subrange(
            a,
            a + spec_encode(d[i].1).len(),
        ) == spec_encode(d[i].1));
    }
}

/// Info-hash stability: when a whole file decodes to a dictionary, each of
/// its values — in particular the `info` dictionary — re-encodes to a
/// contiguous region of the original file, so the SHA-1 of the re-encoding
/// equals the SHA-1 of the file's own region.
#[verifier::rlimit(80)]
pub proof fn lemma_info_hash_stable(s: Seq<u8>, top: Seq<(Seq<u8>, BValue)>, end: int, key: Seq<u8>)
    requires
        spec_parse_value(s, 0) == Some((BValue::Dict(top), end)),
        dict_get(top, key) is Some,
    ensures
        exists|a: int, b: int|
            0 <= a <= b <= s.len() && #[trigger] s.subrange(a, b) == spec_encode(
                dict_get(top, key)->0,
            ) && sha1_of(spec_encode(dict_get(top, key)->0)) == sha1_of(s.subrange(a, b)),
{
    lemma_parse_sound(s, 0);
    let encd = spec_encode(BValue::Dict(top));
    assert(encd == s.subrange(0, end));
    let ents = spec_encode_entries(top, 0);
    assert(encd == seq![0x64u8] + ents + seq![0x65u8]);
    lemma_dict_get_index(top, key);
    let i = choose|i: int|
        0 <= i < top.len() && #[trigger] top[i].0 == key && top[i].1 == dict_get(top, key)->0;
    lemma_entries_region(top, i);
    let l = spec_encode(top[i].1).len() as int;
    let a0 = choose|a: int|
        0 <= a && a + spec_encode(top[i].1).len() <= ents.len() && #[trigger] ents.subrange(
            a,
            a + spec_encode(top[i].1).len(),
        ) == spec_encode(top[i].1);
    let a = 1 + a0;
    let b = a + l;
    assert(encd.len() == end - 0);
    assert(encd.len() == 2 + ents.len());
    assert forall|j: int|
        0 <= j < l implies s.subrange(a, b)[j] == #[trigger] ents.subrange(a0, a0 + l)[j] by {
        assert(encd[a + j] == ents[a + j - 1]);
        assert(s.subrange(0, end)[a + j] == s[a + j]);
        assert(s.subrange(a, b)[j] == s[a + j]);
        assert(ents.subrange(a0, a0 + l)[j] == ents[a0 + j]);
    }
    assert(s.subrange(a, b) =~= ents.subrange(a0, a0 + l));
    assert(0 <= a <= b <= s.len() && s.subrange(a, b) == spec_encode(dict_get(top, key)->0)
        && sha1_of(spec_encode(dict_get(top, key)->0)) == sha1_of(s.subrange(a, b)));
}

impl Info {
    /// The info hash: the 20-byte SHA-1 of the canonical re-encoding of
    /// the whole `info` dictionary, unknown keys included.
    pub fn get_info_hash(&self) -> (r: Vec<u8>)
        ensures
            r@ == sha1_of(spec_encode(self.raw@)),
            r@.len() == 20,
    {
        let enc = self.raw.encode();
        sha1_digest(enc.as_slice())
    }

    /// The info hash as 40 lowercase hex characters.
    pub fn info_hash_hex(&self) -> (r: String)
        ensures
            r@ == hex_chars_of(sha1_of(spec_encode(self.raw@))),
            r@.len() == 40,
    {
        let h = self.get_info_hash();
        to_hex(h.as_slice())
    }

    /// The expected SHA-1 of piece `index`, as 40 lowercase hex
    /// characters, straight from `pieces`.
    pub fn piece_hash_hex(&self, index: usize) -> (r: String)
        requires
            20 * (index as int + 1) <= self.pieces@.len(),
        ensures
            r@ == hex_chars_of(
                self.pieces@.subrange(20 * index as int, 20 * index as int + 20),
            ),
            r@.len() == 40,
    {
        let h = piece_hash(self.pieces.as_slice(), index);
        to_hex(h.as_slice())
    }
}

} // verus!
