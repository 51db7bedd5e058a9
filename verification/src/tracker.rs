//! Tracker interaction: the announce URL and the compact peer list.
//!
//! The info hash is percent-encoded byte-wise — every one of its 20 bytes
//! becomes `%XX` with uppercase hex digits — and spliced into the URL
//! directly, never through a general form encoder. The response's `peers`
//! byte string packs one peer per 6 bytes: IPv4 then port, big-endian.
use vstd::prelude::*;

use crate::bdecode::spec_parse_value;
use crate::bencode::BValue;
use crate::bencode::Bencode;
use crate::numerals::dec_digits;
use crate::numerals::lemma_dec_digits_shape;
use crate::numerals::push_decimal;
use crate::text::ascii_chars_of;
use crate::text::ascii_to_string;
use crate::torrent::dict_get;
use crate::ClientError;
use vstd::string::StringExecFns;

verus! {

/// The port this client advertises to the tracker; it never listens.
pub const DEFAULT_PORT: u16 = 6881;

/// The fixed 20-byte peer identifier `00112233445566778899`.
pub open spec fn peer_id_bytes() -> Seq<u8> {
    seq![
        0x30u8,
        0x30u8,
        0x31u8,
        0x31u8,
        0x32u8,
        0x32u8,
        0x33u8,
        0x33u8,
        0x34u8,
        0x34u8,
        0x35u8,
        0x35u8,
        0x36u8,
        0x36u8,
        0x37u8,
        0x37u8,
        0x38u8,
        0x38u8,
        0x39u8,
        0x39u8,
    ]
}

/// The fixed peer identifier as bytes.
pub fn default_peer_id() -> (r: Vec<u8>)
    ensures
        r@ == peer_id_bytes(),
        r@.len() == 20,
{
    let a: [u8; 20] = [
        0x30,
        0x30,
        0x31,
        0x31,
        0x32,
        0x32,
        0x33,
        0x33,
        0x34,
        0x34,
        0x35,
        0x35,
        0x36,
        0x36,
        0x37,
        0x37,
        0x38,
        0x38,
        0x39,
        0x39,
    ];
    let r = vstd::slice::slice_to_vec(a.as_slice());
    proof {
        assert(r@ =~= peer_id_bytes());
    }
    r
}

/// The fixed peer identifier as a `String`.
pub fn default_peer_id_string() -> (r: String)
    ensures
        r@ == ascii_chars_of(peer_id_bytes()),
{
    let id = default_peer_id();
    assert(forall|i: int| 0 <= i < id@.len() ==> id@[i] < 0x80);
    ascii_to_string(id)
}

/// The uppercase hex digit byte for a nibble.
pub open spec fn up_hex_digit(n: u8) -> u8 {
    if n < 10 {
        (0x30 + n) as u8
    } else {
        (0x41 + (n - 10)) as u8
    }
}

/// Whether a byte is an uppercase hex digit.
pub open spec fn is_upper_hex(b: u8) -> bool {
    (0x30 <= b <= 0x39) || (0x41 <= b <= 0x46)
}

/// The byte-wise percent encoding: three bytes `%XX` for every input
/// byte, hex digits uppercase, printable or not.
pub open spec fn spec_urlencode(b: Seq<u8>) -> Seq<u8> {
    Seq::new(
        3 * b.len(),
        |i: int|
            if i % 3 == 0 {
                0x25u8
            } else if i % 3 == 1 {
                up_hex_digit(b[i / 3] / 16)
            } else {
                up_hex_digit(b[i / 3] % 16)
            },
    )
}

/// Percent-encoding law: the encoding of an `n`-byte string is exactly
/// `3 n` characters — for every byte a `%` and two uppercase hex digits,
/// whatever the byte. A 20-byte info hash thus encodes to exactly 60
/// characters.
pub proof fn lemma_urlencode_shape(b: Seq<u8>)
    ensures
        spec_urlencode(b).len() == 3 * b.len(),
        forall|k: int|
            0 <= k < b.len() ==> #[trigger] spec_urlencode(b)[3 * k] == 0x25
                && spec_urlencode(b)[3 * k + 1] == up_hex_digit(b[k] / 16)
                && spec_urlencode(b)[3 * k + 2] == up_hex_digit(b[k] % 16)
                && is_upper_hex(spec_urlencode(b)[3 * k + 1])
                && is_upper_hex(spec_urlencode(b)[3 * k + 2]),
{
    assert forall|k: int|
        0 <= k < b.len() implies #[trigger] spec_urlencode(b)[3 * k] == 0x25
        && spec_urlencode(b)[3 * k + 1] == up_hex_digit(b[k] / 16) && spec_urlencode(b)[3 * k
        + 2] == up_hex_digit(b[k] % 16) && is_upper_hex(spec_urlencode(b)[3 * k + 1])
        && is_upper_hex(spec_urlencode(b)[3 * k + 2]) by {
        assert((3 * k) % 3 == 0 && (3 * k) / 3 == k && (3 * k + 1) % 3 == 1 && (3 * k + 1) / 3
            == k && (3 * k + 2) % 3 == 2 && (3 * k + 2) / 3 == k) by (nonlinear_arith);
    }
}

/// Percent-encodes bytes for a URL, byte-wise: `%XX` with uppercase hex
/// for every byte.
pub fn urlencode_bytes(bytes: &[u8]) -> (r: String)
    ensures
        r@ == ascii_chars_of(spec_urlencode(bytes@)),
{
    let ghost enc = spec_urlencode(bytes@);
    let mut out: Vec<u8> = Vec::new();
    let n = bytes.len();
    let mut k: usize = 0;
    while k < n
        invariant
            n == bytes@.len(),
            k <= n,
            enc == spec_urlencode(bytes@),
            out@.len() == 3 * k as int,
            forall|i: int| 0 <= i < out@.len() ==> out@[i] == enc[i],
        decreases n - k,
    {
        let byte = bytes[k];
        let hi = byte / 16;
        let lo = byte % 16;
        out.push(0x25);
        out.push(
            if hi < 10 {
                0x30 + hi
            } else {
                0x41 + (hi - 10)
            },
        );
        out.push(
            if lo < 10 {
                0x30 + lo
            } else {
                0x41 + (lo - 10)
            },
        );
        proof {
            assert((3 * k as int) % 3 == 0 && (3 * k as int) / 3 == k as int && (3 * k as int
                + 1) % 3 == 1 && (3 * k as int + 1) / 3 == k as int && (3 * k as int + 2) % 3
                == 2 && (3 * k as int + 2) / 3 == k as int) by (nonlinear_arith);
        }
        k = k + 1;
    }
    proof {
        assert(out@ =~= enc);
        assert(forall|i: int| 0 <= i < out@.len() ==> out@[i] < 0x80);
    }
    ascii_to_string(out)
}

/// The query parameters of the announce URL, around the pre-encoded info
/// hash.
pub struct TrackerRequest {
    /// The percent-encoded 20-byte info hash (60 ASCII characters).
    pub info_hash: String,
    /// The 20-byte peer identifier.
    pub peer_id: String,
    /// The advertised listening port.
    pub port: u16,
    /// Bytes uploaded so far.
    pub uploaded: usize,
    /// Bytes downloaded so far.
    pub downloaded: usize,
    /// Bytes still missing.
    pub left: usize,
    /// Whether the compact peer format is requested.
    pub compact: u8,
}

/// The characters `?info_hash=`.
pub open spec fn q_info_hash() -> Seq<u8> {
    seq![0x3fu8, 0x69u8, 0x6eu8, 0x66u8, 0x6fu8, 0x5fu8, 0x68u8, 0x61u8, 0x73u8, 0x68u8, 0x3du8]
}

/// The characters `&peer_id=`.
pub open spec fn q_peer_id() -> Seq<u8> {
    seq![0x26u8, 0x70u8, 0x65u8, 0x65u8, 0x72u8, 0x5fu8, 0x69u8, 0x64u8, 0x3du8]
}

/// The characters `&port=`.
pub open spec fn q_port() -> Seq<u8> {
    seq![0x26u8, 0x70u8, 0x6fu8, 0x72u8, 0x74u8, 0x3du8]
}

/// The characters `&uploaded=`.
pub open spec fn q_uploaded() -> Seq<u8> {
    seq![0x26u8, 0x75u8, 0x70u8, 0x6cu8, 0x6fu8, 0x61u8, 0x64u8, 0x65u8, 0x64u8, 0x3du8]
}

/// The characters `&downloaded=`.
pub open spec fn q_downloaded() -> Seq<u8> {
    seq![
        0x26u8,
        0x64u8,
        0x6fu8,
        0x77u8,
        0x6eu8,
        0x6cu8,
        0x6fu8,
        0x61u8,
        0x64u8,
        0x65u8,
        0x64u8,
        0x3du8,
    ]
}

/// The characters `&left=`.
pub open spec fn q_left() -> Seq<u8> {
    seq![0x26u8, 0x6cu8, 0x65u8, 0x66u8, 0x74u8, 0x3du8]
}

/// The characters `&compact=`.
pub open spec fn q_compact() -> Seq<u8> {
    seq![0x26u8, 0x63u8, 0x6fu8, 0x6du8, 0x70u8, 0x61u8, 0x63u8, 0x74u8, 0x3du8]
}

/// The decimal characters of a number.
pub open spec fn dec_chars(n: nat) -> Seq<char> {
    ascii_chars_of(dec_digits(n))
}

impl TrackerRequest {
    /// The announce URL: the endpoint, then the pre-encoded info hash
    /// spliced in directly, then the remaining parameters in the fixed
    /// order with decimal values.
    pub open spec fn spec_url(&self, announce: Seq<char>) -> Seq<char> {
        announce + ascii_chars_of(q_info_hash()) + self.info_hash@ + ascii_chars_of(q_peer_id())
            + self.peer_id@ + ascii_chars_of(q_port()) + dec_chars(self.port as nat)
            + ascii_chars_of(q_uploaded()) + dec_chars(self.uploaded as nat) + ascii_chars_of(
            q_downloaded(),
        ) + dec_chars(self.downloaded as nat) + ascii_chars_of(q_left()) + dec_chars(
            self.left as nat,
        ) + ascii_chars_of(q_compact()) + dec_chars(self.compact as nat)
    }

    /// Builds the announce URL from the endpoint and this request.
    pub fn build_tracker_url(&self, announce_endpoint: String) -> (r: String)
        ensures
            r@ == self.spec_url(announce_endpoint@),
    {
        let ghost a0 = announce_endpoint@;
        let mut url = announce_endpoint;
        let p1: [u8; 11] = [0x3f, 0x69, 0x6e, 0x66, 0x6f, 0x5f, 0x68, 0x61, 0x73, 0x68, 0x3d];
        assert(p1@ =~= q_info_hash());
        url.append(ascii_part(p1.as_slice()).as_str());
        url.append(self.info_hash.as_str());
        let p2: [u8; 9] = [0x26, 0x70, 0x65, 0x65, 0x72, 0x5f, 0x69, 0x64, 0x3d];
        assert(p2@ =~= q_peer_id());
        url.append(ascii_part(p2.as_slice()).as_str());
        url.append(self.peer_id.as_str());
        let p3: [u8; 6] = [0x26, 0x70, 0x6f, 0x72, 0x74, 0x3d];
        assert(p3@ =~= q_port());
        url.append(ascii_part(p3.as_slice()).as_str());
        url.append(decimal_string(self.port as u64).as_str());
        let p4: [u8; 10] = [0x26, 0x75, 0x70, 0x6c, 0x6f, 0x61, 0x64, 0x65, 0x64, 0x3d];
        assert(p4@ =~= q_uploaded());
        url.append(ascii_part(p4.as_slice()).as_str());
        url.append(decimal_string(self.uploaded as u64).as_str());
        let p5: [u8; 12] = [
            0x26,
            0x64,
            0x6f,
            0x77,
            0x6e,
            0x6c,
            0x6f,
            0x61,
            0x64,
            0x65,
            0x64,
            0x3d,
        ];
        assert(p5@ =~= q_downloaded());
        url.append(ascii_part(p5.as_slice()).as_str());
        url.append(decimal_string(self.downloaded as u64).as_str());
        let p6: [u8; 6] = [0x26, 0x6c, 0x65, 0x66, 0x74, 0x3d];
        assert(p6@ =~= q_left());
        url.append(ascii_part(p6.as_slice()).as_str());
        url.append(decimal_string(self.left as u64).as_str());
        let p7: [u8; 9] = [0x26, 0x63, 0x6f, 0x6d, 0x70, 0x61, 0x63, 0x74, 0x3d];
        assert(p7@ =~= q_compact());
        url.append(ascii_part(p7.as_slice()).as_str());
        url.append(decimal_string(self.compact as u64).as_str());
        proof {
            assert(url@ =~= self.spec_url(a0));
        }
        url
    }
}

/// An ASCII literal fragment as a `String`.
fn ascii_part(bytes: &[u8]) -> (r: String)
    requires
        forall|i: int| 0 <= i < bytes@.len() ==> bytes@[i] < 0x80,
    ensures
        r@ == ascii_chars_of(bytes@),
{
    let v = vstd::slice::slice_to_vec(bytes);
    ascii_to_string(v)
}

/// The decimal spelling of a number as a `String`.
fn decimal_string(n: u64) -> (r: String)
    ensures
        r@ == dec_chars(n as nat),
{
    let mut digits: Vec<u8> = Vec::new();
    push_decimal(&mut digits, n);
    proof {
        lemma_dec_digits_shape(n as nat);
        assert(digits@ =~= dec_digits(n as nat));
        assert(forall|i: int| 0 <= i < digits@.len() ==> digits@[i] < 0x80);
    }
    ascii_to_string(digits)
}

/// One peer from the tracker's compact list: an IPv4 address and a port.
#[derive(Debug, PartialEq, Eq, Clone, Copy)]
pub struct PeerAddr {
    /// The four address octets, in network order.
    pub ip: [u8; 4],
    /// The port, decoded from big-endian.
    pub port: u16,
}

/// The bytes of the key `peers`.
pub open spec fn key_peers() -> Seq<u8> {
    seq![0x70u8, 0x65u8, 0x65u8, 0x72u8, 0x73u8]
}

/// The `peers` byte string of a bencoded tracker response, when the body
/// is one bencode dictionary holding one.
pub open spec fn spec_tracker_peers(b: Seq<u8>) -> Option<Seq<u8>> {
    match spec_parse_value(b, 0) {
        Some((v, end)) => if end == b.len() {
            match v {
                BValue::Dict(d) => match dict_get(d, key_peers()) {
                    Some(BValue::Bytes(p)) => Some(p),
                    _ => None,
                },
                _ => None,
            }
        } else {
            None
        },
        None => None,
    }
}

/// A tracker's answer: the compact peer list, 6 bytes per peer.
#[derive(Debug, PartialEq, Eq)]
pub struct TrackerResponse {
    /// The raw compact peer list.
    pub peers: Vec<u8>,
}

impl TrackerResponse {
    /// Parses the bencoded response body; `TrackerError` when it is not a
    /// bencode dictionary with a byte-string `peers`.
    pub fn from_bytes(body: &[u8]) -> (r: Result<TrackerResponse, ClientError>)
        ensures
            match r {
                Ok(t) => spec_tracker_peers(body@) == Some(t.peers@),
                Err(e) => {
                    &&& spec_tracker_peers(body@) is None
                    &&& e == ClientError::TrackerError
                },
            },
    {
        let doc = match Bencode::decode(body) {
            Ok(v) => v,
            Err(_) => {
                return Err(ClientError::TrackerError);
            },
        };
        let top = match doc {
            Bencode::Dict(d) => d,
            _ => {
                return Err(ClientError::TrackerError);
            },
        };
        let kp: [u8; 5] = [0x70, 0x65, 0x65, 0x72, 0x73];
        assert(kp@ =~= key_peers());
        match crate::torrent::dict_find(&top, kp.as_slice()) {
            Some(v) => match v {
                Bencode::Bytes(p) => Ok(TrackerResponse { peers: p.clone() }),
                _ => Err(ClientError::TrackerError),
            },
            None => Err(ClientError::TrackerError),
        }
    }

    /// Decodes the compact peer list: `Ok` exactly when the length is a
    /// multiple of 6, with one peer per 6-byte group in order — the IPv4
    /// octets as they stand, the port big-endian.
    pub fn get_peers(&self) -> (r: Result<Vec<PeerAddr>, ClientError>)
        ensures
            r is Ok <==> self.peers@.len() % 6 == 0,
            match r {
                Ok(list) => {
                    &&& list@.len() == self.peers@.len() / 6
                    &&& forall|k: int|
                        0 <= k < list@.len() ==> (#[trigger] list@[k]).ip@ == self.peers@.subrange(
                            6 * k,
                            6 * k + 4,
                        ) && list@[k].port as int == 256 * self.peers@[6 * k + 4] + self.peers@[6
                            * k + 5]
                },
                Err(e) => e == ClientError::TrackerError,
            },
    {
        let n = self.peers.len();
        if n % 6 != 0 {
            return Err(ClientError::TrackerError);
        }
        let count = n / 6;
        let mut list: Vec<PeerAddr> = Vec::new();
        let mut k: usize = 0;
        while k < count
            invariant
                n == self.peers@.len(),
                n % 6 == 0,
                count == n / 6,
                6 * count as int <= n as int,
                k <= count,
                list@.len() == k as int,
                forall|j: int|
                    0 <= j < k as int ==> (#[trigger] list@[j]).ip@ == self.peers@.subrange(
                        6 * j,
                        6 * j + 4,
                    ) && list@[j].port as int == 256 * self.peers@[6 * j + 4] + self.peers@[6 * j
                        + 5],
            decreases count - k,
        {
            proof {
                assert(6 * (k as int + 1) <= 6 * count as int) by (nonlinear_arith)
                    requires
                        k as int + 1 <= count as int,
                ;
            }
            let base = 6 * k;
            let ip: [u8; 4] = [
                self.peers[base],
                self.peers[base + 1],
                self.peers[base + 2],
                self.peers[base + 3],
            ];
            let port: u16 = (self.peers[base + 4] as u16) * 256 + (self.peers[base + 5] as u16);
            proof {
                assert(ip@ =~= self.peers@.subrange(6 * k as int, 6 * k as int + 4));
            }
            list.push(PeerAddr { ip, port });
            k = k + 1;
        }
        proof {
            assert(6 * (n as int / 6) == n as int) by (nonlinear_arith)
                requires
                    n as int % 6 == 0,
            ;
        }
        Ok(list)
    }
}

} // verus!
