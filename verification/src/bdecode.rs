//! The bencode decoder.
//!
//! `spec_parse_value` is the mathematical definition of the grammar: a
//! single-pass recursive-descent parse that accepts exactly the canonical
//! encodings (no leading zeros, no `-0`, dictionary keys strictly
//! ascending). `Bencode::decode` and `Bencode::decode_prefix` return
//! exactly what the specification parse returns, or `MalformedBencode`
//! exactly when it returns nothing.
use vstd::prelude::*;

use crate::bencode::BValue;
use crate::bencode::Bencode;
use crate::bencode::entry_views_of;
use crate::bencode::lex_lt;
use crate::bencode::sorted_keys;
use crate::bencode::views_of;
use crate::numerals::digits_val;
use crate::numerals::is_digit;
use crate::numerals::lemma_digits_val_mono;
use crate::ClientError;

verus! {

/// The end of the run of ASCII digits that starts at `pos`.
pub open spec fn digit_run_end(s: Seq<u8>, pos: int) -> int
    decreases s.len() - pos,
{
    if 0 <= pos < s.len() && is_digit(s[pos]) {
        digit_run_end(s, pos + 1)
    } else {
        pos
    }
}

/// The digit run is a run of digits ending at the first non-digit.
pub proof fn lemma_digit_run_end(s: Seq<u8>, pos: int)
    requires
        0 <= pos <= s.len(),
    ensures
        pos <= digit_run_end(s, pos) <= s.len(),
        forall|j: int| pos <= j < digit_run_end(s, pos) ==> is_digit(#[trigger] s[j]),
        digit_run_end(s, pos) < s.len() ==> !is_digit(s[digit_run_end(s, pos)]),
    decreases s.len() - pos,
{
    if pos < s.len() && is_digit(s[pos]) {
        lemma_digit_run_end(s, pos + 1);
    }
}

/// A run of `k` digits at `pos` followed by a non-digit (or the end of the
/// input) is exactly the digit run at `pos`.
pub proof fn lemma_digit_run_end_of_run(s: Seq<u8>, pos: int, k: int)
    requires
        0 <= pos,
        k >= 0,
        pos + k <= s.len(),
        forall|j: int| pos <= j < pos + k ==> is_digit(#[trigger] s[j]),
        pos + k < s.len() ==> !is_digit(s[pos + k]),
    ensures
        digit_run_end(s, pos) == pos + k,
    decreases k,
{
    if k == 0 {
    } else {
        lemma_digit_run_end_of_run(s, pos + 1, k - 1);
    }
}

/// The specification parse of a byte string at `pos`: decimal length without
/// leading zeros, a colon, then exactly that many bytes. Returns the bytes
/// and the index just past them.
pub open spec fn spec_parse_str(s: Seq<u8>, pos: int) -> Option<(Seq<u8>, int)> {
    let e = digit_run_end(s, pos);
    if e == pos {
        None
    } else if s[pos] == 0x30 && e > pos + 1 {
        None
    } else {
        let n = digits_val(s.subrange(pos, e));
        if e < s.len() && s[e] == 0x3a && e + 1 + n <= s.len() {
            Some((s.subrange(e + 1, e + 1 + n), e + 1 + n))
        } else {
            None
        }
    }
}

/// The specification parse of an integer body (after the `i`): an optional
/// minus sign, digits without leading zeros and not `-0`, then `e`. Returns
/// the value and the index just past the `e`.
pub open spec fn spec_parse_int_body(s: Seq<u8>, pos: int) -> Option<(int, int)> {
    if pos < s.len() && s[pos] == 0x2d {
        let e = digit_run_end(s, pos + 1);
        if e == pos + 1 {
            None
        } else if s[pos + 1] == 0x30 {
            None
        } else {
            let n = digits_val(s.subrange(pos + 1, e));
            if e < s.len() && s[e] == 0x65 && -n >= i64::MIN {
                Some((-n, e + 1))
            } else {
                None
            }
        }
    } else {
        let e = digit_run_end(s, pos);
        if e == pos {
            None
        } else if s[pos] == 0x30 && e > pos + 1 {
            None
        } else {
            let n = digits_val(s.subrange(pos, e));
            if e < s.len() && s[e] == 0x65 && n <= i64::MAX {
                Some((n, e + 1))
            } else {
                None
            }
        }
    }
}

/// The specification parse of one bencode value at `pos`: the value and the
/// index just past it, or nothing if the input is not a canonical encoding.
pub open spec fn spec_parse_value(s: Seq<u8>, pos: int) -> Option<(BValue, int)>
    decreases s.len() - pos, 0int,
{
    if !(0 <= pos < s.len()) {
        None
    } else if s[pos] == 0x69 {
        match spec_parse_int_body(s, pos + 1) {
            Some((n, end)) => Some((BValue::Int(n), end)),
            None => None,
        }
    } else if is_digit(s[pos]) {
        match spec_parse_str(s, pos) {
            Some((b, end)) => Some((BValue::Bytes(b), end)),
            None => None,
        }
    } else if s[pos] == 0x6c {
        match spec_parse_items(s, pos + 1) {
            Some((l, end)) => Some((BValue::List(l), end)),
            None => None,
        }
    } else if s[pos] == 0x64 {
        match spec_parse_entries(s, pos + 1) {
            Some((d, end)) => if sorted_keys(d) {
                Some((BValue::Dict(d), end))
            } else {
                None
            },
            None => None,
        }
    } else {
        None
    }
}

/// The specification parse of list items up to and including the closing
/// `e`: the items and the index just past the `e`.
pub open spec fn spec_parse_items(s: Seq<u8>, pos: int) -> Option<(Seq<BValue>, int)>
    decreases s.len() - pos, 1int,
{
    if !(0 <= pos < s.len()) {
        None
    } else if s[pos] == 0x65 {
        Some((Seq::empty(), pos + 1))
    } else {
        match spec_parse_value(s, pos) {
            Some((v, end)) => if pos < end <= s.len() {
                match spec_parse_items(s, end) {
                    Some((rest, e2)) => Some((seq![v] + rest, e2)),
                    None => None,
                }
            } else {
                None
            },
            None => None,
        }
    }
}

/// The specification parse of dictionary entries up to and including the
/// closing `e`: the key/value pairs in input order and the index just past
/// the `e`. Key order is checked by `spec_parse_value`.
pub open spec fn spec_parse_entries(s: Seq<u8>, pos: int) -> Option<(Seq<(Seq<u8>, BValue)>, int)>
    decreases s.len() - pos, 1int,
{
    if !(0 <= pos < s.len()) {
        None
    } else if s[pos] == 0x65 {
        Some((Seq::empty(), pos + 1))
    } else if is_digit(s[pos]) {
        match spec_parse_str(s, pos) {
            Some((k, kend)) => if pos < kend <= s.len() {
                match spec_parse_value(s, kend) {
                    Some((v, vend)) => if kend < vend <= s.len() {
                        match spec_parse_entries(s, vend) {
                            Some((rest, e2)) => Some((seq![(k, v)] + rest, e2)),
                            None => None,
                        }
                    } else {
                        None
                    },
                    None => None,
                }
            } else {
                None
            },
            None => None,
        }
    } else {
        None
    }
}

/// Whether `a` comes strictly before `b` in lexicographic byte order.
pub fn lex_less(a: &[u8], b: &[u8]) -> (r: bool)
    ensures
        r == lex_lt(a@, b@),
{
    let mut i: usize = 0;
    proof {
        assert(a@.skip(0) =~= a@);
        assert(b@.skip(0) =~= b@);
    }
    loop
        invariant
            i <= a@.len(),
            i <= b@.len(),
            lex_lt(a@, b@) == lex_lt(a@.skip(i as int), b@.skip(i as int)),
        decreases a@.len() - i,
    {
        if i == b.len() {
            return false;
        }
        if i == a.len() {
            return true;
        }
        if a[i] < b[i] {
            return true;
        }
        if a[i] > b[i] {
            return false;
        }
        proof {
            assert(a@.skip(i as int).skip(1) =~= a@.skip(i as int + 1));
            assert(b@.skip(i as int).skip(1) =~= b@.skip(i as int + 1));
        }
        i = i + 1;
    }
}

/// Reads the run of digits at `pos` as a `u64`. Fails if there is no digit
/// at `pos` or the run's value does not fit in a `u64`.
fn parse_digits(bytes: &[u8], pos: usize) -> (r: Result<(u64, usize), ClientError>)
    requires
        pos <= bytes@.len(),
    ensures
        match r {
            Ok((n, e)) => {
                &&& pos < e <= bytes@.len()
                &&& e as int == digit_run_end(bytes@, pos as int)
                &&& n as int == digits_val(bytes@.subrange(pos as int, e as int))
            },
            Err(err) => {
                &&& err == ClientError::MalformedBencode
                &&& (digit_run_end(bytes@, pos as int) == pos as int || digits_val(
                    bytes@.subrange(pos as int, digit_run_end(bytes@, pos as int)),
                ) > u64::MAX as int)
            },
        },
{
    let len = bytes.len();
    if pos == len || bytes[pos] < 0x30 || bytes[pos] > 0x39 {
        return Err(ClientError::MalformedBencode);
    }
    let ghost re = digit_run_end(bytes@, pos as int);
    proof {
        lemma_digit_run_end(bytes@, pos as int);
    }
    let mut cur = pos;
    let mut acc: u64 = 0;
    while cur < len && 0x30 <= bytes[cur] && bytes[cur] <= 0x39
        invariant
            pos <= cur <= len,
            len == bytes@.len(),
            re == digit_run_end(bytes@, pos as int),
            re == digit_run_end(bytes@, cur as int),
            pos <= re <= len,
            forall|j: int| pos <= j < re ==> is_digit(#[trigger] bytes@[j]),
            acc as int == digits_val(bytes@.subrange(pos as int, cur as int)),
            cur <= re,
        decreases len - cur,
    {
        let d: u8 = bytes[cur] - 0x30;
        proof {
            assert(cur < re) by {
                if cur == re {
                    lemma_digit_run_end(bytes@, pos as int);
                }
            }
            assert(bytes@.subrange(pos as int, cur as int + 1).drop_last() =~= bytes@.subrange(
                pos as int,
                cur as int,
            ));
            assert(digits_val(bytes@.subrange(pos as int, cur as int + 1)) == acc * 10 + d);
        }
        if acc > (u64::MAX - d as u64) / 10 {
            proof {
                assert(acc * 10 + d as u64 > u64::MAX) by (nonlinear_arith)
                    requires
                        acc > (u64::MAX - d as u64) / 10,
                        0 <= d < 10,
                ;
                assert(bytes@.subrange(pos as int, cur as int + 1) =~= bytes@.subrange(
                    pos as int,
                    re,
                ).subrange(0, cur as int + 1 - pos));
                lemma_digits_val_mono(bytes@, pos as int, cur as int + 1, re);
                assert(digits_val(bytes@.subrange(pos as int, re)) > u64::MAX as int);
            }
            return Err(ClientError::MalformedBencode);
        }
        proof {
            assert(acc * 10 + d as u64 <= u64::MAX) by (nonlinear_arith)
                requires
                    acc <= (u64::MAX - d as u64) / 10,
                    0 <= d < 10,
            ;
        }
        acc = acc * 10 + d as u64;
        cur = cur + 1;
    }
    proof {
        assert(digit_run_end(bytes@, cur as int) == cur as int);
    }
    Ok((acc, cur))
}

/// Reads the byte-string encoding at `pos`, returning the bytes and the
/// index just past them; exactly the specification parse.
fn parse_str(bytes: &[u8], pos: usize) -> (r: Result<(Vec<u8>, usize), ClientError>)
    requires
        pos <= bytes@.len(),
    ensures
        match r {
            Ok((b, end)) => {
                &&& pos < end <= bytes@.len()
                &&& spec_parse_str(bytes@, pos as int) == Some((b@, end as int))
            },
            Err(e) => {
                &&& e == ClientError::MalformedBencode
                &&& spec_parse_str(bytes@, pos as int) is None
            },
        },
{
    let len = bytes.len();
    proof {
        lemma_digit_run_end(bytes@, pos as int);
    }
    match parse_digits(bytes, pos) {
        Err(e) => {
            proof {
                let re = digit_run_end(bytes@, pos as int);
                if re != pos as int {
                    lemma_digits_val_mono(bytes@, pos as int, pos as int, re);
                    assert(digits_val(bytes@.subrange(pos as int, re)) > len);
                }
            }
            Err(e)
        },
        Ok((n, e)) => {
            if bytes[pos] == 0x30 && e > pos + 1 {
                return Err(ClientError::MalformedBencode);
            }
            if e == len || bytes[e] != 0x3a {
                return Err(ClientError::MalformedBencode);
            }
            let rem = len - (e + 1);
            if n > rem as u64 {
                return Err(ClientError::MalformedBencode);
            }
            let nu = n as usize;
            let content = vstd::slice::slice_to_vec(vstd::slice::slice_subrange(
                bytes,
                e + 1,
                e + 1 + nu,
            ));
            Ok((content, e + 1 + nu))
        },
    }
}

impl Bencode {
    /// Decodes one bencode value starting at `pos`, returning it with the
    /// index just past it: exactly what the specification parse gives, and
    /// `MalformedBencode` exactly when it gives nothing.
    pub fn decode_prefix(bytes: &[u8], pos: usize) -> (r: Result<(Bencode, usize), ClientError>)
        requires
            pos <= bytes@.len(),
        ensures
            match r {
                Ok((v, end)) => {
                    &&& pos < end <= bytes@.len()
                    &&& spec_parse_value(bytes@, pos as int) == Some((v@, end as int))
                },
                Err(e) => {
                    &&& e == ClientError::MalformedBencode
                    &&& spec_parse_value(bytes@, pos as int) is None
                },
            },
        decreases bytes@.len() - pos,
    {
        let len = bytes.len();
        if pos == len {
            return Err(ClientError::MalformedBencode);
        }
        let b0 = bytes[pos];
        if b0 == 0x69 {
            Self::decode_int_body(bytes, pos)
        } else if 0x30 <= b0 && b0 <= 0x39 {
            match parse_str(bytes, pos) {
                Ok((b, end)) => Ok((Bencode::Bytes(b), end)),
                Err(e) => Err(e),
            }
        } else if b0 == 0x6c {
            let mut items: Vec<Bencode> = Vec::new();
            let mut cur = pos + 1;
            loop
                invariant
                    len == bytes@.len(),
                    pos < cur <= len,
                    spec_parse_value(bytes@, pos as int) == (match spec_parse_items(
                        bytes@,
                        cur as int,
                    ) {
                        Some((rest, e2)) => Some(
                            (BValue::List(views_of(items@) + rest), e2),
                        ),
                        None => None::<(BValue, int)>,
                    }),
                decreases len - cur,
            {
                if cur == len {
                    return Err(ClientError::MalformedBencode);
                }
                if bytes[cur] == 0x65 {
                    proof {
                        assert(views_of(items@) + Seq::<BValue>::empty() =~= views_of(items@));
                    }
                    return Ok((Bencode::List(items), cur + 1));
                }
                match Self::decode_prefix(bytes, cur) {
                    Ok((v, end)) => {
                        proof {
                            let ghost rest2 = spec_parse_items(bytes@, end as int);
                            if rest2 is Some {
                                let pr = rest2->0;
                                assert(views_of(items@.push(v)) + pr.0 =~= views_of(items@)
                                    + (seq![v@] + pr.0));
                            }
                        }
                        items.push(v);
                        cur = end;
                    },
                    Err(e) => {
                        return Err(e);
                    },
                }
            }
        } else if b0 == 0x64 {
            let mut entries: Vec<(Vec<u8>, Bencode)> = Vec::new();
            let mut cur = pos + 1;
            loop
                invariant
                    len == bytes@.len(),
                    pos < cur <= len,
                    sorted_keys(entry_views_of(entries@)),
                    spec_parse_value(bytes@, pos as int) == (match spec_parse_entries(
                        bytes@,
                        cur as int,
                    ) {
                        Some((rest, e2)) => {
                            let full = entry_views_of(entries@) + rest;
                            if sorted_keys(full) {
                                Some((BValue::Dict(full), e2))
                            } else {
                                None::<(BValue, int)>
                            }
                        },
                        None => None::<(BValue, int)>,
                    }),
                decreases len - cur,
            {
                if cur == len {
                    return Err(ClientError::MalformedBencode);
                }
                if bytes[cur] == 0x65 {
                    proof {
                        assert(entry_views_of(entries@) + Seq::<(Seq<u8>, BValue)>::empty()
                            =~= entry_views_of(entries@));
                    }
                    return Ok((Bencode::Dict(entries), cur + 1));
                }
                if bytes[cur] < 0x30 || bytes[cur] > 0x39 {
                    return Err(ClientError::MalformedBencode);
                }
                let (k, kend) = match parse_str(bytes, cur) {
                    Ok(x) => x,
                    Err(e) => {
                        return Err(e);
                    },
                };
                let (v, vend) = match Self::decode_prefix(bytes, kend) {
                    Ok(x) => x,
                    Err(e) => {
                        return Err(e);
                    },
                };
                let m = entries.len();
                if m > 0 {
                    let ordered = lex_less(entries[m - 1].0.as_slice(), k.as_slice());
                    if !ordered {
                        proof {
                            let ghost rest2 = spec_parse_entries(bytes@, vend as int);
                            if rest2 is Some {
                                let pr = rest2->0;
                                let full = entry_views_of(entries@) + (seq![(k@, v@)] + pr.0);
                                assert(full[m - 1].0 == entry_views_of(entries@)[m - 1].0);
                                assert(full[m as int].0 == k@);
                                assert(!sorted_keys(full));
                            }
                        }
                        return Err(ClientError::MalformedBencode);
                    }
                }
                proof {
                    let ghost rest2 = spec_parse_entries(bytes@, vend as int);
                    if rest2 is Some {
                        let pr = rest2->0;
                        assert(entry_views_of(entries@.push((k, v))) + pr.0
                            =~= entry_views_of(entries@) + (seq![(k@, v@)] + pr.0));
                    }
                    let ghost evs = entry_views_of(entries@.push((k, v)));
                    let ghost old_evs = entry_views_of(entries@);
                    assert(evs.len() == m + 1);
                    assert(forall|i: int|
                        0 <= i < m as int ==> #[trigger] evs[i] == old_evs[i]);
                    assert(evs[m as int] == (k@, v@));
                    assert forall|i: int| 0 <= i < evs.len() - 1 implies lex_lt(
                        #[trigger] evs[i].0,
                        evs[i + 1].0,
                    ) by {
                        if i < m as int - 1 {
                            assert(lex_lt(old_evs[i].0, old_evs[i + 1].0));
                        }
                    }
                    assert(sorted_keys(evs));
                }
                entries.push((k, v));
                cur = vend;
            }
        } else {
            Err(ClientError::MalformedBencode)
        }
    }

    /// Decodes the integer form `i...e` whose `i` stands at `pos`.
    fn decode_int_body(bytes: &[u8], pos: usize) -> (r: Result<(Bencode, usize), ClientError>)
        requires
            pos < bytes@.len(),
            bytes@[pos as int] == 0x69,
        ensures
            match r {
                Ok((v, end)) => {
                    &&& pos < end <= bytes@.len()
                    &&& spec_parse_value(bytes@, pos as int) == Some((v@, end as int))
                },
                Err(e) => {
                    &&& e == ClientError::MalformedBencode
                    &&& spec_parse_value(bytes@, pos as int) is None
                },
            },
    {
        let len = bytes.len();
        let body = pos + 1;
        let neg = body < len && bytes[body] == 0x2d;
        let dstart = if neg {
            body + 1
        } else {
            body
        };
        proof {
            lemma_digit_run_end(bytes@, dstart as int);
        }
        match parse_digits(bytes, dstart) {
            Err(e) => {
                proof {
                    let re = digit_run_end(bytes@, dstart as int);
                    if re != dstart as int {
                        lemma_digits_val_mono(bytes@, dstart as int, dstart as int, re);
                        assert(digits_val(bytes@.subrange(dstart as int, re)) > u64::MAX as int);
                    }
                }
                Err(e)
            },
            Ok((n, e)) => {
                if bytes[dstart] == 0x30 && (neg || e > dstart + 1) {
                    return Err(ClientError::MalformedBencode);
                }
                if e == len || bytes[e] != 0x65 {
                    return Err(ClientError::MalformedBencode);
                }
                if neg {
                    if n > 9223372036854775808u64 {
                        return Err(ClientError::MalformedBencode);
                    }
                    let v: i64 = if n == 9223372036854775808u64 {
                        i64::MIN
                    } else {
                        -(n as i64)
                    };
                    assert(v as int == -(n as int));
                    Ok((Bencode::Int(v), e + 1))
                } else {
                    if n > 9223372036854775807u64 {
                        return Err(ClientError::MalformedBencode);
                    }
                    Ok((Bencode::Int(n as i64), e + 1))
                }
            },
        }
    }

    /// Decodes a complete bencode document: one value covering all of
    /// `bytes`, with trailing bytes rejected.
    pub fn decode(bytes: &[u8]) -> (r: Result<Bencode, ClientError>)
        ensures
            match r {
                Ok(v) => spec_parse_value(bytes@, 0) == Some((v@, bytes@.len() as int)),
                Err(e) => {
                    &&& e == ClientError::MalformedBencode
                    &&& (match spec_parse_value(bytes@, 0) {
                        Some((v, end)) => end != bytes@.len(),
                        None => true,
                    })
                },
            },
    {
        match Self::decode_prefix(bytes, 0) {
            Ok((v, end)) => {
                if end == bytes.len() {
                    Ok(v)
                } else {
                    Err(ClientError::MalformedBencode)
                }
            },
            Err(e) => Err(e),
        }
    }
}

} // verus!
