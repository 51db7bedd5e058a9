//! The codec round-trip laws.
//!
//! Soundness: whatever the specification parse accepts is well-formed and
//! re-encodes to exactly the bytes it consumed; hence `encode` after
//! `decode` reproduces a canonical document byte for byte. Completeness:
//! the encoding of any well-formed value parses back to that value; hence
//! `decode` after `encode` is the identity.
use vstd::prelude::*;

use crate::bdecode::digit_run_end;
use crate::bdecode::lemma_digit_run_end;
use crate::bdecode::lemma_digit_run_end_of_run;
use crate::bdecode::spec_parse_entries;
use crate::bdecode::spec_parse_int_body;
use crate::bdecode::spec_parse_items;
use crate::bdecode::spec_parse_str;
use crate::bdecode::spec_parse_value;
use crate::bencode::lemma_encode_first_byte;
use crate::bencode::lemma_encode_len;
use crate::bencode::sorted_keys;
use crate::bencode::spec_encode;
use crate::bencode::spec_encode_entries;
use crate::bencode::spec_encode_int;
use crate::bencode::spec_encode_items;
use crate::bencode::spec_encode_str;
use crate::bencode::wf;
use crate::bencode::BValue;
use crate::numerals::dec_digits;
use crate::numerals::digits_val;
use crate::numerals::is_digit;
use crate::numerals::lemma_dec_digits_shape;
use crate::numerals::lemma_dec_digits_val;
use crate::numerals::lemma_digits_canonical;

verus! {

/// The encodings of the items from `i` on are the item encodings
/// concatenated; dropping the first `i` items drops nothing that is still
/// encoded.
proof fn lemma_encode_items_shift(l: Seq<BValue>, i: int)
    requires
        0 <= i <= l.len(),
    ensures
        spec_encode_items(l, i) == spec_encode_items(l.skip(i), 0),
    decreases l.len() - i, 1int,
{
    if i < l.len() {
        lemma_encode_items_shift_step(l, i);
    } else {
        assert(l.skip(i).len() == 0);
    }
}

proof fn lemma_encode_items_shift_step(l: Seq<BValue>, i: int)
    requires
        0 <= i < l.len(),
    ensures
        spec_encode_items(l, i) == spec_encode_items(l.skip(i), 0),
    decreases l.len() - i, 0int,
{
    let t = l.skip(i);
    assert(t[0] == l[i]);
    lemma_encode_items_shift(l, i + 1);
    assert(t.skip(1) =~= l.skip(i + 1));
    if i + 1 < l.len() {
        lemma_encode_items_shift_step(t, 1);
        assert(spec_encode_items(t, 1) == spec_encode_items(t.skip(1), 0));
    } else {
        assert(spec_encode_items(t, 1).len() == 0);
        assert(spec_encode_items(l, i + 1).len() == 0);
    }
    assert(spec_encode_items(l, i) == spec_encode(l[i]) + spec_encode_items(l, i + 1));
    assert(spec_encode_items(t, 0) == spec_encode(t[0]) + spec_encode_items(t, 1));
}

/// The analogue of `lemma_encode_items_shift` for dictionary entries.
pub(crate) proof fn lemma_encode_entries_shift(d: Seq<(Seq<u8>, BValue)>, i: int)
    requires
        0 <= i <= d.len(),
    ensures
        spec_encode_entries(d, i) == spec_encode_entries(d.skip(i), 0),
    decreases d.len() - i, 1int,
{
    if i < d.len() {
        lemma_encode_entries_shift_step(d, i);
    } else {
        assert(d.skip(i).len() == 0);
    }
}

proof fn lemma_encode_entries_shift_step(d: Seq<(Seq<u8>, BValue)>, i: int)
    requires
        0 <= i < d.len(),
    ensures
        spec_encode_entries(d, i) == spec_encode_entries(d.skip(i), 0),
    decreases d.len() - i, 0int,
{
    let t = d.skip(i);
    assert(t[0] == d[i]);
    lemma_encode_entries_shift(d, i + 1);
    assert(t.skip(1) =~= d.skip(i + 1));
    if i + 1 < d.len() {
        lemma_encode_entries_shift_step(t, 1);
    } else {
        assert(spec_encode_entries(t, 1).len() == 0);
        assert(spec_encode_entries(d, i + 1).len() == 0);
    }
}

/// Bytes of a sub-segment of a matched region, read through the match.
proof fn lemma_segment(s: Seq<u8>, pos: int, enc: Seq<u8>, a: int, b: int)
    requires
        0 <= pos,
        pos + enc.len() <= s.len(),
        s.subrange(pos, pos + enc.len()) == enc,
        pos <= a <= b <= pos + enc.len(),
    ensures
        s.subrange(a, b) == enc.subrange(a - pos, b - pos),
        forall|j: int| a <= j < b ==> s[j] == enc[j - pos],
{
    assert(forall|j: int| a <= j < b ==> s[j] == #[trigger] enc[j - pos]) by {
        assert(forall|k: int|
            0 <= k < enc.len() ==> #[trigger] enc[k] == s.subrange(pos, pos + enc.len())[k]);
    }
    assert(s.subrange(a, b) =~= enc.subrange(a - pos, b - pos));
}

/// A single byte of a matched region.
proof fn lemma_segment_byte(s: Seq<u8>, pos: int, enc: Seq<u8>, a: int)
    requires
        0 <= pos,
        pos + enc.len() <= s.len(),
        s.subrange(pos, pos + enc.len()) == enc,
        pos <= a < pos + enc.len(),
    ensures
        s[a] == enc[a - pos],
{
    assert(s.subrange(pos, pos + enc.len())[a - pos] == s[a]);
}

/// Soundness for byte strings: an accepted string parse consumed exactly
/// the canonical string encoding of its result.
proof fn lemma_parse_str_sound(s: Seq<u8>, pos: int)
    requires
        0 <= pos <= s.len(),
        spec_parse_str(s, pos) is Some,
    ensures
        ({
            let pr = spec_parse_str(s, pos)->0;
            &&& pos < pr.1 <= s.len()
            &&& spec_encode_str(pr.0) == s.subrange(pos, pr.1)
        }),
{
    let pr = spec_parse_str(s, pos)->0;
    let e = digit_run_end(s, pos);
    lemma_digit_run_end(s, pos);
    let run = s.subrange(pos, e);
    let n = digits_val(run);
    assert(forall|j: int| 0 <= j < run.len() ==> is_digit(#[trigger] run[j]));
    assert(run[0] == s[pos]);
    lemma_digits_canonical(run);
    assert(dec_digits(n as nat) == run);
    let b = pr.0;
    assert(b.len() == n);
    assert(spec_encode_str(b) =~= s.subrange(pos, e + 1 + n));
}

/// Soundness: an accepted parse yields a well-formed value whose canonical
/// encoding is exactly the consumed bytes. This is the heart of the law
/// that re-encoding a decoded document reproduces it.
pub proof fn lemma_parse_sound(s: Seq<u8>, pos: int)
    requires
        spec_parse_value(s, pos) is Some,
    ensures
        ({
            let pr = spec_parse_value(s, pos)->0;
            &&& wf(pr.0)
            &&& pos < pr.1 <= s.len()
            &&& spec_encode(pr.0) == s.subrange(pos, pr.1)
        }),
    decreases s.len() - pos, 0int,
{
    let pr = spec_parse_value(s, pos)->0;
    let v = pr.0;
    let end = pr.1;
    if s[pos] == 0x69 {
        let body = pos + 1;
        let ipr = spec_parse_int_body(s, body)->0;
        if body < s.len() && s[body] == 0x2d {
            let e = digit_run_end(s, body + 1);
            lemma_digit_run_end(s, body + 1);
            let run = s.subrange(body + 1, e);
            let n = digits_val(run);
            assert(forall|j: int| 0 <= j < run.len() ==> is_digit(#[trigger] run[j]));
            assert(run[0] == s[body + 1]);
            lemma_digits_canonical(run);
            assert(dec_digits(n as nat) == run);
            assert(n > 0) by {
                if n == 0 {
                    lemma_dec_digits_shape(0);
                    assert(run =~= seq![0x30u8]);
                }
            }
            assert(spec_encode_int(ipr.0) == seq![0x2du8] + run);
            assert(spec_encode(v) =~= s.subrange(pos, e + 1));
        } else {
            let e = digit_run_end(s, body);
            lemma_digit_run_end(s, body);
            let run = s.subrange(body, e);
            let n = digits_val(run);
            assert(forall|j: int| 0 <= j < run.len() ==> is_digit(#[trigger] run[j]));
            assert(run[0] == s[body]);
            lemma_digits_canonical(run);
            assert(dec_digits(n as nat) == run);
            assert(spec_encode_int(ipr.0) == run);
            assert(spec_encode(v) =~= s.subrange(pos, e + 1));
        }
    } else if is_digit(s[pos]) {
        lemma_parse_str_sound(s, pos);
    } else if s[pos] == 0x6c {
        lemma_parse_items_sound(s, pos + 1);
        let lpr = spec_parse_items(s, pos + 1)->0;
        assert(spec_encode(v) =~= s.subrange(pos, lpr.1));
    } else {
        lemma_parse_entries_sound(s, pos + 1);
        let dpr = spec_parse_entries(s, pos + 1)->0;
        assert(spec_encode(v) =~= s.subrange(pos, dpr.1));
    }
}

/// Soundness for list items: the accepted items are each well-formed, and
/// their concatenated encodings are the consumed bytes up to the closing
/// `e`.
proof fn lemma_parse_items_sound(s: Seq<u8>, pos: int)
    requires
        spec_parse_items(s, pos) is Some,
    ensures
        ({
            let pr = spec_parse_items(s, pos)->0;
            &&& pos < pr.1 <= s.len()
            &&& s[pr.1 - 1] == 0x65
            &&& spec_encode_items(pr.0, 0) == s.subrange(pos, pr.1 - 1)
            &&& forall|i: int| 0 <= i < pr.0.len() ==> wf(#[trigger] pr.0[i])
        }),
    decreases s.len() - pos, 1int,
{
    let pr = spec_parse_items(s, pos)->0;
    if s[pos] == 0x65 {
        assert(spec_encode_items(pr.0, 0).len() == 0);
        assert(spec_encode_items(pr.0, 0) =~= s.subrange(pos, pos));
    } else {
        let vpr = spec_parse_value(s, pos)->0;
        lemma_parse_sound(s, pos);
        let rpr = spec_parse_items(s, vpr.1)->0;
        lemma_parse_items_sound(s, vpr.1);
        let l = pr.0;
        assert(l == seq![vpr.0] + rpr.0);
        assert(l[0] == vpr.0);
        assert(l.skip(1) =~= rpr.0);
        lemma_encode_items_shift(l, 1);
        assert(spec_encode_items(l, 0) == spec_encode(l[0]) + spec_encode_items(l, 1));
        assert(spec_encode_items(l, 0) =~= s.subrange(pos, pr.1 - 1));
    }
}

/// Soundness for dictionary entries: each value is well-formed and the
/// concatenated key/value encodings are the consumed bytes up to the
/// closing `e`.
proof fn lemma_parse_entries_sound(s: Seq<u8>, pos: int)
    requires
        spec_parse_entries(s, pos) is Some,
    ensures
        ({
            let pr = spec_parse_entries(s, pos)->0;
            &&& pos < pr.1 <= s.len()
            &&& s[pr.1 - 1] == 0x65
            &&& spec_encode_entries(pr.0, 0) == s.subrange(pos, pr.1 - 1)
            &&& forall|i: int| 0 <= i < pr.0.len() ==> wf(#[trigger] pr.0[i].1)
        }),
    decreases s.len() - pos, 1int,
{
    let pr = spec_parse_entries(s, pos)->0;
    if s[pos] == 0x65 {
        assert(spec_encode_entries(pr.0, 0).len() == 0);
        assert(spec_encode_entries(pr.0, 0) =~= s.subrange(pos, pos));
    } else {
        let kpr = spec_parse_str(s, pos)->0;
        lemma_parse_str_sound(s, pos);
        let vpr = spec_parse_value(s, kpr.1)->0;
        lemma_parse_sound(s, kpr.1);
        let rpr = spec_parse_entries(s, vpr.1)->0;
        lemma_parse_entries_sound(s, vpr.1);
        let d = pr.0;
        assert(d == seq![(kpr.0, vpr.0)] + rpr.0);
        assert(d[0] == (kpr.0, vpr.0));
        assert(d.skip(1) =~= rpr.0);
        lemma_encode_entries_shift(d, 1);
        assert(spec_encode_entries(d, 0) == spec_encode_str(d[0].0) + spec_encode(d[0].1)
            + spec_encode_entries(d, 1));
        assert(spec_encode_entries(d, 0) =~= s.subrange(pos, pr.1 - 1));
    }
}

/// Completeness for byte strings: the canonical string encoding, wherever
/// it stands in a larger input, parses back to exactly its bytes.
proof fn lemma_encode_parse_str_at(b: Seq<u8>, s: Seq<u8>, pos: int)
    requires
        0 <= pos,
        pos + spec_encode_str(b).len() <= s.len(),
        s.subrange(pos, pos + spec_encode_str(b).len()) == spec_encode_str(b),
    ensures
        spec_parse_str(s, pos) == Some((b, pos + spec_encode_str(b).len())),
{
    let enc = spec_encode_str(b);
    let dd = dec_digits(b.len());
    lemma_dec_digits_shape(b.len());
    lemma_dec_digits_val(b.len());
    lemma_segment(s, pos, enc, pos, pos + dd.len());
    assert(forall|j: int| pos <= j < pos + dd.len() ==> is_digit(#[trigger] s[j])) by {
        assert(forall|j: int| pos <= j < pos + dd.len() ==> s[j] == dd[j - pos]);
    }
    lemma_segment_byte(s, pos, enc, pos + dd.len());
    assert(s[pos + dd.len()] == 0x3a);
    lemma_digit_run_end_of_run(s, pos, dd.len() as int);
    let e = digit_run_end(s, pos);
    assert(e == pos + dd.len());
    assert(s.subrange(pos, e) =~= dd) by {
        lemma_segment(s, pos, enc, pos, pos + dd.len());
    }
    assert(digits_val(s.subrange(pos, e)) == b.len());
    assert(s[pos] == dd[0]);
    if s[pos] == 0x30 {
        assert(b.len() == 0 && dd.len() == 1);
    }
    lemma_segment(s, pos, enc, e + 1, e + 1 + b.len());
    assert(s.subrange(e + 1, e + 1 + b.len()) =~= b) by {
        assert(forall|j: int|
            e + 1 <= j < e + 1 + b.len() ==> s[j] == #[trigger] enc[j - pos]);
        assert(forall|k: int|
            0 <= k < b.len() ==> #[trigger] b[k] == enc[dd.len() + 1 + k]);
    }
}

/// Completeness: the canonical encoding of a well-formed value, wherever it
/// stands in a larger input, parses back to exactly that value.
pub proof fn lemma_encode_parse_at(v: BValue, s: Seq<u8>, pos: int)
    requires
        wf(v),
        0 <= pos,
        pos + spec_encode(v).len() <= s.len(),
        s.subrange(pos, pos + spec_encode(v).len()) == spec_encode(v),
    ensures
        spec_parse_value(s, pos) == Some((v, pos + spec_encode(v).len())),
    decreases v, 0int,
{
    let enc = spec_encode(v);
    lemma_encode_first_byte(v);
    lemma_segment_byte(s, pos, enc, pos);
    assert(s[pos] == enc[0]);
    match v {
        BValue::Bytes(b) => {
            lemma_encode_parse_str_at(b, s, pos);
        },
        BValue::Int(i) => {
            let body = pos + 1;
            if i < 0 {
                let dd = dec_digits((-i) as nat);
                lemma_dec_digits_shape((-i) as nat);
                lemma_dec_digits_val((-i) as nat);
                assert(enc =~= seq![0x69u8, 0x2du8] + dd + seq![0x65u8]);
                lemma_segment_byte(s, pos, enc, body);
                assert(s[body] == 0x2d);
                lemma_segment(s, pos, enc, body + 1, body + 1 + dd.len());
                assert(forall|j: int|
                    body + 1 <= j < body + 1 + dd.len() ==> s[j] == #[trigger] enc[j - pos]);
                assert(forall|j: int|
                    body + 1 <= j < body + 1 + dd.len() ==> is_digit(#[trigger] s[j]));
                lemma_segment_byte(s, pos, enc, body + 1 + dd.len());
                assert(s[body + 1 + dd.len()] == 0x65);
                lemma_digit_run_end_of_run(s, body + 1, dd.len() as int);
                let e = digit_run_end(s, body + 1);
                assert(e == body + 1 + dd.len());
                assert(s.subrange(body + 1, e) =~= dd);
                assert(digits_val(s.subrange(body + 1, e)) == (-i) as nat);
                assert(s[body + 1] == dd[0]);
                assert(dd[0] != 0x30);
                assert(spec_parse_int_body(s, body) == Some((i, e + 1)));
            } else {
                let dd = dec_digits(i as nat);
                lemma_dec_digits_shape(i as nat);
                lemma_dec_digits_val(i as nat);
                assert(enc =~= seq![0x69u8] + dd + seq![0x65u8]);
                lemma_segment(s, pos, enc, body, body + dd.len());
                assert(forall|j: int|
                    body <= j < body + dd.len() ==> s[j] == #[trigger] enc[j - pos]);
                assert(forall|j: int|
                    body <= j < body + dd.len() ==> is_digit(#[trigger] s[j]));
                lemma_segment_byte(s, pos, enc, body + dd.len());
                assert(s[body + dd.len()] == 0x65);
                assert(s[body] == dd[0]);
                assert(!(body < s.len() && s[body] == 0x2d));
                lemma_digit_run_end_of_run(s, body, dd.len() as int);
                let e = digit_run_end(s, body);
                assert(e == body + dd.len());
                assert(s.subrange(body, e) =~= dd);
                assert(digits_val(s.subrange(body, e)) == i as nat);
                if s[body] == 0x30 {
                    assert(i == 0 && dd.len() == 1);
                }
                assert(spec_parse_int_body(s, body) == Some((i, e + 1)));
            }
        },
        BValue::List(l) => {
            let items = spec_encode_items(l, 0);
            assert(enc == seq![0x6cu8] + items + seq![0x65u8]);
            lemma_segment(s, pos, enc, pos + 1, pos + 1 + items.len());
            assert(s.subrange(pos + 1, pos + 1 + items.len()) =~= items) by {
                assert(forall|j: int|
                    pos + 1 <= j < pos + 1 + items.len() ==> s[j] == #[trigger] enc[j - pos]);
                assert(forall|k: int|
                    0 <= k < items.len() ==> #[trigger] items[k] == enc[1 + k]);
            }
            lemma_segment_byte(s, pos, enc, pos + 1 + items.len());
            assert(s[pos + 1 + items.len()] == 0x65);
            lemma_encode_parse_items_at(l, 0, s, pos + 1);
            assert(l.skip(0) =~= l);
        },
        BValue::Dict(d) => {
            let ents = spec_encode_entries(d, 0);
            assert(enc == seq![0x64u8] + ents + seq![0x65u8]);
            lemma_segment(s, pos, enc, pos + 1, pos + 1 + ents.len());
            assert(s.subrange(pos + 1, pos + 1 + ents.len()) =~= ents) by {
                assert(forall|j: int|
                    pos + 1 <= j < pos + 1 + ents.len() ==> s[j] == #[trigger] enc[j - pos]);
                assert(forall|k: int|
                    0 <= k < ents.len() ==> #[trigger] ents[k] == enc[1 + k]);
            }
            lemma_segment_byte(s, pos, enc, pos + 1 + ents.len());
            assert(s[pos + 1 + ents.len()] == 0x65);
            lemma_encode_parse_entries_at(d, 0, s, pos + 1);
            assert(d.skip(0) =~= d);
            assert(sorted_keys(d));
        },
    }
}

/// Completeness for list items: the concatenated encodings of `l[j..]`
/// followed by a closing `e` parse back to exactly those items.
proof fn lemma_encode_parse_items_at(l: Seq<BValue>, j: int, s: Seq<u8>, pos: int)
    requires
        forall|i: int| 0 <= i < l.len() ==> wf(#[trigger] l[i]),
        0 <= j <= l.len(),
        0 <= pos,
        pos + spec_encode_items(l, j).len() + 1 <= s.len(),
        s.subrange(pos, pos + spec_encode_items(l, j).len()) == spec_encode_items(l, j),
        s[pos + spec_encode_items(l, j).len()] == 0x65,
    ensures
        spec_parse_items(s, pos) == Some(
            (l.skip(j), pos + spec_encode_items(l, j).len() + 1),
        ),
    decreases l, l.len() - j + 1,
{
    let enc = spec_encode_items(l, j);
    if j == l.len() {
        assert(enc.len() == 0);
        assert(s[pos] == 0x65);
        assert(l.skip(j) =~= Seq::<BValue>::empty());
        assert(spec_parse_items(s, pos) == Some((Seq::<BValue>::empty(), pos + 1)));
    } else {
        let e0 = spec_encode(l[j]);
        let rest = spec_encode_items(l, j + 1);
        assert(enc == e0 + rest);
        lemma_encode_len(l[j]);
        lemma_encode_first_byte(l[j]);
        lemma_segment(s, pos, enc, pos, pos + e0.len());
        assert(s.subrange(pos, pos + e0.len()) =~= e0) by {
            assert(forall|j2: int|
                pos <= j2 < pos + e0.len() ==> s[j2] == #[trigger] enc[j2 - pos]);
        }
        lemma_encode_parse_at(l[j], s, pos);
        assert(s[pos] == e0[0]);
        assert(s[pos] != 0x65);
        let mid = pos + e0.len();
        lemma_segment(s, pos, enc, mid, mid + rest.len());
        assert(s.subrange(mid, mid + rest.len()) =~= rest) by {
            assert(forall|j2: int|
                mid <= j2 < mid + rest.len() ==> s[j2] == #[trigger] enc[j2 - pos]);
            assert(forall|k: int| 0 <= k < rest.len() ==> #[trigger] rest[k] == enc[e0.len() + k]);
        }
        lemma_encode_parse_items_at(l, j + 1, s, mid);
        assert(seq![l[j]] + l.skip(j + 1) =~= l.skip(j));
    }
}

/// Completeness for dictionary entries: the concatenated key/value
/// encodings of `d[j..]` followed by a closing `e` parse back to exactly
/// those entries.
#[verifier::rlimit(80)]
proof fn lemma_encode_parse_entries_at(d: Seq<(Seq<u8>, BValue)>, j: int, s: Seq<u8>, pos: int)
    requires
        forall|i: int| 0 <= i < d.len() ==> wf(#[trigger] d[i].1),
        0 <= j <= d.len(),
        0 <= pos,
        pos + spec_encode_entries(d, j).len() + 1 <= s.len(),
        s.subrange(pos, pos + spec_encode_entries(d, j).len()) == spec_encode_entries(d, j),
        s[pos + spec_encode_entries(d, j).len()] == 0x65,
    ensures
        spec_parse_entries(s, pos) == Some(
            (d.skip(j), pos + spec_encode_entries(d, j).len() + 1),
        ),
    decreases d, d.len() - j + 1,
{
    let enc = spec_encode_entries(d, j);
    if j == d.len() {
        assert(enc.len() == 0);
        assert(s[pos] == 0x65);
        assert(d.skip(j) =~= Seq::<(Seq<u8>, BValue)>::empty());
        assert(spec_parse_entries(s, pos) == Some(
            (Seq::<(Seq<u8>, BValue)>::empty(), pos + 1),
        ));
    } else {
        let ek = spec_encode_str(d[j].0);
        let ev = spec_encode(d[j].1);
        let rest = spec_encode_entries(d, j + 1);
        assert(enc == ek + ev + rest);
        lemma_dec_digits_shape(d[j].0.len());
        assert(ek[0] == dec_digits(d[j].0.len())[0]);
        assert(is_digit(ek[0]));
        lemma_segment(s, pos, enc, pos, pos + ek.len());
        assert(s.subrange(pos, pos + ek.len()) =~= ek) by {
            assert(forall|j2: int|
                pos <= j2 < pos + ek.len() ==> s[j2] == #[trigger] enc[j2 - pos]);
            assert(forall|k: int| 0 <= k < ek.len() ==> #[trigger] ek[k] == enc[k]);
        }
        lemma_encode_parse_str_at(d[j].0, s, pos);
        assert(s[pos] == ek[0]);
        assert(s[pos] != 0x65);
        let mid = pos + ek.len();
        lemma_encode_len(d[j].1);
        lemma_segment(s, pos, enc, mid, mid + ev.len());
        assert(s.subrange(mid, mid + ev.len()) =~= ev) by {
            assert(forall|j2: int|
                mid <= j2 < mid + ev.len() ==> s[j2] == #[trigger] enc[j2 - pos]);
            assert(forall|k: int| 0 <= k < ev.len() ==> #[trigger] ev[k] == enc[ek.len() + k]);
        }
        lemma_encode_parse_at(d[j].1, s, mid);
        let mid2 = mid + ev.len();
        lemma_segment(s, pos, enc, mid2, mid2 + rest.len());
        assert(s.subrange(mid2, mid2 + rest.len()) =~= rest) by {
            assert(forall|j2: int|
                mid2 <= j2 < mid2 + rest.len() ==> s[j2] == #[trigger] enc[j2 - pos]);
            assert(forall|k: int|
                0 <= k < rest.len() ==> #[trigger] rest[k] == enc[ek.len() + ev.len() + k]);
        }
        lemma_encode_parse_entries_at(d, j + 1, s, mid2);
        assert(seq![d[j]] + d.skip(j + 1) =~= d.skip(j));
    }
}

/// Decode after encode is the identity: the canonical encoding of any
/// well-formed value parses back to that value, consuming every byte.
pub proof fn lemma_decode_encode_id(v: BValue)
    requires
        wf(v),
    ensures
        spec_parse_value(spec_encode(v), 0) == Some((v, spec_encode(v).len() as int)),
{
    let enc = spec_encode(v);
    assert(enc.subrange(0, enc.len() as int) =~= enc);
    lemma_encode_parse_at(v, enc, 0);
}

/// Encode after decode is the identity on canonical documents: if a whole
/// byte sequence parses as one value, that value is well-formed and its
/// canonical encoding is the byte sequence itself.
pub proof fn lemma_encode_decode_id(s: Seq<u8>, v: BValue)
    requires
        spec_parse_value(s, 0) == Some((v, s.len() as int)),
    ensures
        wf(v),
        spec_encode(v) == s,
{
    lemma_parse_sound(s, 0);
    assert(s.subrange(0, s.len() as int) =~= s);
}

} // verus!
