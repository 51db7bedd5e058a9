//! Piece and block sizing, piece assembly, and SHA-1 verification.
//!
//! A file of `length` bytes is cut into pieces of `piece_length` bytes
//! (the last may be shorter but never empty: an exact multiple gives a
//! full-sized final piece). Each piece is cut the same way into blocks of
//! 16 384 bytes, the unit of peer-wire requests.
use vstd::prelude::*;

use crate::hashing::sha1_digest;
use crate::hashing::sha1_of;
use crate::ClientError;

verus! {

/// The fixed peer-wire block size.
pub const BLOCK_SIZE: usize = 16384;

/// How many chunks of size `sz` cover `total` bytes.
pub open spec fn spec_chunk_count(total: int, sz: int) -> int {
    (total + sz - 1) / sz
}

/// The size of chunk `i`: `sz` for all but the last; the last gets what
/// remains, which is `sz` itself when `sz` divides `total`.
pub open spec fn spec_chunk_size(total: int, sz: int, i: int) -> int {
    if i < spec_chunk_count(total, sz) - 1 {
        sz
    } else {
        total - (spec_chunk_count(total, sz) - 1) * sz
    }
}

/// The sum of the chunk sizes from chunk `i` on.
pub open spec fn sum_chunk_sizes(total: int, sz: int, i: int) -> int
    decreases spec_chunk_count(total, sz) - i,
{
    if 0 <= i < spec_chunk_count(total, sz) {
        spec_chunk_size(total, sz, i) + sum_chunk_sizes(total, sz, i + 1)
    } else {
        0
    }
}

/// The count is at least one and the last chunk's size is in `(0, sz]`;
/// every chunk before it has size exactly `sz`.
pub proof fn lemma_chunk_bounds(total: int, sz: int)
    requires
        total >= 1,
        sz >= 1,
    ensures
        spec_chunk_count(total, sz) >= 1,
        (spec_chunk_count(total, sz) - 1) * sz < total,
        total <= spec_chunk_count(total, sz) * sz,
        0 < spec_chunk_size(total, sz, spec_chunk_count(total, sz) - 1) <= sz,
        forall|i: int|
            0 <= i < spec_chunk_count(total, sz) - 1 ==> spec_chunk_size(total, sz, i) == sz,
{
    let p = spec_chunk_count(total, sz);
    assert(p >= 1 && (p - 1) * sz < total && total <= p * sz) by (nonlinear_arith)
        requires
            total >= 1,
            sz >= 1,
            p == (total + sz - 1) / sz,
    ;
    assert(p * sz - (p - 1) * sz == sz) by (nonlinear_arith);
}

/// Chunk sizing law: the chunk sizes sum to the total.
pub proof fn lemma_chunk_sum(total: int, sz: int)
    requires
        total >= 1,
        sz >= 1,
    ensures
        sum_chunk_sizes(total, sz, 0) == total,
{
    lemma_chunk_bounds(total, sz);
    lemma_sum_from(total, sz, 0);
}

/// The chunks from `i` on hold exactly the bytes not covered by the first
/// `i` chunks.
proof fn lemma_sum_from(total: int, sz: int, i: int)
    requires
        total >= 1,
        sz >= 1,
        0 <= i <= spec_chunk_count(total, sz) - 1,
    ensures
        sum_chunk_sizes(total, sz, i) == total - i * sz,
    decreases spec_chunk_count(total, sz) - i,
{
    let p = spec_chunk_count(total, sz);
    lemma_chunk_bounds(total, sz);
    if i == p - 1 {
        assert(sum_chunk_sizes(total, sz, p) == 0);
        assert(sum_chunk_sizes(total, sz, i) == total - (p - 1) * sz);
    } else {
        lemma_sum_from(total, sz, i + 1);
        assert((i + 1) * sz == i * sz + sz) by (nonlinear_arith);
    }
}

/// Piece sizing law: the piece sizes sum to the file length; every piece
/// but the last is exactly `piece_length`; the last is more than zero and
/// at most `piece_length`, and a file whose length is an exact multiple
/// gets a full-sized final piece.
pub proof fn lemma_piece_sizing(length: int, piece_length: int)
    requires
        length >= 1,
        piece_length >= 1,
    ensures
        spec_chunk_count(length, piece_length) >= 1,
        sum_chunk_sizes(length, piece_length, 0) == length,
        forall|i: int|
            0 <= i < spec_chunk_count(length, piece_length) - 1 ==> spec_chunk_size(
                length,
                piece_length,
                i,
            ) == piece_length,
        0 < spec_chunk_size(length, piece_length, spec_chunk_count(length, piece_length) - 1)
            <= piece_length,
        length % piece_length == 0 ==> spec_chunk_size(
            length,
            piece_length,
            spec_chunk_count(length, piece_length) - 1,
        ) == piece_length,
{
    lemma_chunk_bounds(length, piece_length);
    lemma_chunk_sum(length, piece_length);
    if length % piece_length == 0 {
        let p = spec_chunk_count(length, piece_length);
        assert(p * piece_length == length && (p - 1) * piece_length == length - piece_length)
            by (nonlinear_arith)
            requires
                length >= 1,
                piece_length >= 1,
                length % piece_length == 0,
                p == (length + piece_length - 1) / piece_length,
        ;
    }
}

/// Block sizing law: for a piece of `piece_size` bytes the block lengths
/// sum to the piece size, and every block but the last is exactly 16 384
/// bytes, the last being in `(0, 16384]`.
pub proof fn lemma_block_sizing(piece_size: int)
    requires
        piece_size >= 1,
    ensures
        sum_chunk_sizes(piece_size, 16384, 0) == piece_size,
        forall|i: int|
            0 <= i < spec_chunk_count(piece_size, 16384) - 1 ==> spec_chunk_size(
                piece_size,
                16384,
                i,
            ) == 16384,
        0 < spec_chunk_size(piece_size, 16384, spec_chunk_count(piece_size, 16384) - 1) <= 16384,
{
    lemma_piece_sizing(piece_size, 16384);
}

/// How many chunks of size `sz` cover `total` bytes.
fn chunk_count(total: usize, sz: usize) -> (r: usize)
    requires
        sz >= 1,
        total >= 1,
    ensures
        r as int == spec_chunk_count(total as int, sz as int),
        r >= 1,
{
    let d = (total - 1) / sz;
    proof {
        lemma_chunk_bounds(total as int, sz as int);
        assert((total as int - 1) / (sz as int) <= total as int - 1 && (total as int + sz as int
            - 1) / (sz as int) == (total as int - 1) / (sz as int) + 1) by (nonlinear_arith)
            requires
                total >= 1,
                sz >= 1,
        ;
    }
    d + 1
}

/// The size of chunk `i` of `total` bytes cut into chunks of `sz`.
fn chunk_size(total: usize, sz: usize, i: usize) -> (r: usize)
    requires
        sz >= 1,
        total >= 1,
        (i as int) < spec_chunk_count(total as int, sz as int),
    ensures
        r as int == spec_chunk_size(total as int, sz as int, i as int),
        1 <= r <= sz,
{
    proof {
        lemma_chunk_bounds(total as int, sz as int);
    }
    let count = chunk_count(total, sz);
    if i < count - 1 {
        sz
    } else {
        proof {
            assert((count as int - 1) * sz as int >= 0) by (nonlinear_arith)
                requires
                    count >= 1,
                    sz >= 1,
            ;
        }
        total - (count - 1) * sz
    }
}

/// The number of pieces of a file: `ceil(length / piece_length)`.
pub fn piece_count(length: usize, piece_length: usize) -> (r: usize)
    requires
        length >= 1,
        piece_length >= 1,
    ensures
        r as int == spec_chunk_count(length as int, piece_length as int),
        r >= 1,
{
    chunk_count(length, piece_length)
}

/// The size of piece `index`: `piece_length` except possibly for the last
/// piece, which gets the remainder and is never empty.
pub fn piece_size(length: usize, piece_length: usize, index: usize) -> (r: usize)
    requires
        length >= 1,
        piece_length >= 1,
        (index as int) < spec_chunk_count(length as int, piece_length as int),
    ensures
        r as int == spec_chunk_size(length as int, piece_length as int, index as int),
        1 <= r <= piece_length,
{
    chunk_size(length, piece_length, index)
}

/// The block layout of one piece: for each block its offset within the
/// piece and its length, in order. All blocks are 16 384 bytes except
/// possibly the last.
pub fn block_layout(piece_size: usize) -> (r: Vec<(u32, u32)>)
    requires
        1 <= piece_size <= u32::MAX,
    ensures
        r@.len() == spec_chunk_count(piece_size as int, 16384),
        forall|k: int|
            0 <= k < r@.len() ==> (#[trigger] r@[k]).0 as int == k * 16384 && r@[k].1 as int
                == spec_chunk_size(piece_size as int, 16384, k),
{
    let count = chunk_count(piece_size, BLOCK_SIZE);
    proof {
        lemma_chunk_bounds(piece_size as int, 16384);
    }
    let mut out: Vec<(u32, u32)> = Vec::new();
    let mut k: usize = 0;
    while k < count
        invariant
            count as int == spec_chunk_count(piece_size as int, 16384),
            1 <= piece_size <= u32::MAX,
            (count as int - 1) * 16384 < piece_size as int,
            k <= count,
            out@.len() == k as int,
            forall|j: int|
                0 <= j < k as int ==> (#[trigger] out@[j]).0 as int == j * 16384 && out@[j].1
                    as int == spec_chunk_size(piece_size as int, 16384, j),
        decreases count - k,
    {
        proof {
            assert(k as int * 16384 <= (count as int - 1) * 16384) by (nonlinear_arith)
                requires
                    k as int <= count as int - 1,
            ;
        }
        let begin: u32 = (k as u32) * 16384;
        let len = chunk_size(piece_size, BLOCK_SIZE, k);
        out.push((begin, len as u32));
        k = k + 1;
    }
    out
}

/// Copies a received block into the piece buffer at its offset, leaving
/// every other byte unchanged; a duplicate block overwrites idempotently.
pub fn apply_block(buf: &mut Vec<u8>, begin: usize, block: &[u8])
    requires
        begin + block@.len() <= old(buf)@.len(),
    ensures
        final(buf)@.len() == old(buf)@.len(),
        final(buf)@ == old(buf)@.take(begin as int) + block@ + old(buf)@.skip(
            begin as int + block@.len(),
        ),
{
    let buf_len = buf.len();
    let mut i: usize = 0;
    while i < block.len()
        invariant
            begin + block@.len() <= old(buf)@.len(),
            old(buf)@.len() == buf_len,
            i <= block@.len(),
            buf@.len() == old(buf)@.len(),
            forall|j: int| 0 <= j < begin as int ==> buf@[j] == old(buf)@[j],
            forall|j: int| 0 <= j < i as int ==> buf@[begin + j] == block@[j],
            forall|j: int|
                begin + block@.len() <= j < buf@.len() ==> buf@[j] == old(buf)@[j],
        decreases block@.len() - i,
    {
        let b = block[i];
        buf[begin + i] = b;
        i = i + 1;
    }
    assert(buf@ =~= old(buf)@.take(begin as int) + block@ + old(buf)@.skip(
        begin as int + block@.len(),
    ));
}

/// Whether two byte slices hold the same bytes.
pub fn bytes_eq(a: &[u8], b: &[u8]) -> (r: bool)
    ensures
        r == (a@ == b@),
{
    if a.len() != b.len() {
        return false;
    }
    let mut i: usize = 0;
    while i < a.len()
        invariant
            a@.len() == b@.len(),
            i <= a@.len(),
            forall|j: int| 0 <= j < i as int ==> a@[j] == b@[j],
        decreases a@.len() - i,
    {
        if a[i] != b[i] {
            return false;
        }
        i = i + 1;
    }
    proof {
        assert(a@ =~= b@);
    }
    true
}

/// Whether the assembled piece hashes to the expected 20-byte SHA-1.
pub fn verify_piece(data: &[u8], expected: &[u8]) -> (r: bool)
    ensures
        r == (sha1_of(data@) == expected@),
{
    let digest = sha1_digest(data);
    bytes_eq(digest.as_slice(), expected)
}

/// The expected SHA-1 of piece `index`, read from the torrent's `pieces`
/// byte string (20 bytes per piece).
pub fn piece_hash(pieces: &[u8], index: usize) -> (r: Vec<u8>)
    requires
        20 * (index as int + 1) <= pieces@.len(),
    ensures
        r@ == pieces@.subrange(20 * index as int, 20 * index as int + 20),
        r@.len() == 20,
{
    let total = pieces.len();
    let start = 20 * index;
    assert(start + 20 <= total);
    vstd::slice::slice_to_vec(vstd::slice::slice_subrange(pieces, start, start + 20))
}

/// Verification of an assembled piece: `Ok` exactly when the piece bytes
/// hash to the expected SHA-1 from `info.pieces`, and `PieceHashMismatch`
/// otherwise. A caller that writes a piece only after an `Ok` writes only
/// pieces that match their expected hash.
pub fn check_piece(data: &[u8], pieces: &[u8], index: usize) -> (r: Result<(), ClientError>)
    requires
        20 * (index as int + 1) <= pieces@.len(),
    ensures
        r is Ok <==> sha1_of(data@) == pieces@.subrange(
            20 * index as int,
            20 * index as int + 20,
        ),
        r is Err ==> r->Err_0 == ClientError::PieceHashMismatch,
{
    let expected = piece_hash(pieces, index);
    if verify_piece(data, expected.as_slice()) {
        Ok(())
    } else {
        Err(ClientError::PieceHashMismatch)
    }
}

/// Handles one frame that arrives while a piece is being fetched: a
/// matching block is copied into the buffer at its offset (out-of-order
/// and duplicate blocks are fine), a choke is fatal, a block for another
/// piece or past the buffer's end is a protocol error, and anything else
/// is skipped. Returns whether a block was consumed.
pub fn receive_block(buffer: &mut Vec<u8>, piece_index: usize, m: &crate::peer::PeerMessage) -> (r:
    Result<bool, ClientError>)
    ensures
        match r {
            Ok(consumed) => {
                &&& (m matches crate::peer::PeerMessage::Piece { index, begin, block } ==> {
                    &&& consumed
                    &&& index as int == piece_index as int
                    &&& begin as int + block@.len() <= old(buffer)@.len()
                    &&& final(buffer)@ == old(buffer)@.take(begin as int) + block@ + old(
                        buffer,
                    )@.skip(begin as int + block@.len())
                })
                &&& (!(m is Piece) ==> !consumed && final(buffer)@ == old(buffer)@ && !(m
                    is Choke))
            },
            Err(e) => {
                &&& final(buffer)@ == old(buffer)@
                &&& (e == ClientError::PeerChoked <==> m is Choke)
                &&& (e == ClientError::PeerChoked || e == ClientError::PeerProtocolError)
                &&& (m matches crate::peer::PeerMessage::Piece { index, begin, block } ==> (
                index as int != piece_index as int || begin as int + block@.len() > old(
                    buffer,
                )@.len()))
            },
        },
{
    match m {
        crate::peer::PeerMessage::Choke => Err(ClientError::PeerChoked),
        crate::peer::PeerMessage::Piece { index, begin, block } => {
            let buffer_len = buffer.len();
            if (*index as usize) != piece_index {
                return Err(ClientError::PeerProtocolError);
            }
            if (*begin as usize) > buffer_len || block.len() > buffer_len - (*begin as usize) {
                return Err(ClientError::PeerProtocolError);
            }
            apply_block(buffer, *begin as usize, block.as_slice());
            Ok(true)
        },
        _ => Ok(false),
    }
}

/// The absolute file offset of piece `index`.
pub fn piece_offset(piece_length: usize, index: usize) -> (r: usize)
    requires
        index as int * piece_length as int <= usize::MAX,
    ensures
        r as int == index as int * piece_length as int,
{
    index * piece_length
}

} // verus!
