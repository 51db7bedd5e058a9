//! The bencode value model and its canonical encoder.
//!
//! A bencode value is a byte string, a signed integer, a list, or a
//! dictionary keyed by byte strings whose keys are serialized in strictly
//! ascending lexicographic byte order. `spec_encode` is the mathematical
//! definition of the canonical encoding; `Bencode::encode` produces exactly
//! those bytes.
use vstd::prelude::*;

use crate::numerals::dec_digits;
use crate::numerals::is_digit;
use crate::numerals::lemma_dec_digits_shape;
use crate::numerals::push_decimal;

verus! {

broadcast use vstd::std_specs::vec::group_vec_axioms;

/// An in-memory bencode value.
#[derive(Debug, PartialEq, Eq)]
pub enum Bencode {
    /// An opaque byte string (not necessarily UTF-8).
    Bytes(Vec<u8>),
    /// A signed integer.
    Int(i64),
    /// An ordered sequence of values.
    List(Vec<Bencode>),
    /// A dictionary: byte-string keys with values, kept in strictly
    /// ascending key order.
    Dict(Vec<(Vec<u8>, Bencode)>),
}

/// The mathematical shape of a bencode value.
pub enum BValue {
    Bytes(Seq<u8>),
    Int(int),
    List(Seq<BValue>),
    Dict(Seq<(Seq<u8>, BValue)>),
}

/// The views of a sequence of values.
pub open spec fn views_of(l: Seq<Bencode>) -> Seq<BValue>
    decreases l,
{
    Seq::new(l.len(), |i: int| if 0 <= i < l.len() { l[i]@ } else { BValue::Int(0) })
}

/// The views of a sequence of dictionary entries.
pub open spec fn entry_views_of(l: Seq<(Vec<u8>, Bencode)>) -> Seq<(Seq<u8>, BValue)>
    decreases l,
{
    Seq::new(
        l.len(),
        |i: int| if 0 <= i < l.len() { (l[i].0@, l[i].1@) } else { (Seq::empty(), BValue::Int(0)) },
    )
}

impl View for Bencode {
    type V = BValue;

    open spec fn view(&self) -> BValue
        decreases self,
    {
        match self {
            Bencode::Bytes(b) => BValue::Bytes(b@),
            Bencode::Int(i) => BValue::Int(*i as int),
            Bencode::List(l) => BValue::List(views_of(l@)),
            Bencode::Dict(d) => BValue::Dict(entry_views_of(d@)),
        }
    }
}

/// Strict lexicographic order on byte strings: a proper prefix comes first,
/// otherwise the first differing byte decides.
pub open spec fn lex_lt(a: Seq<u8>, b: Seq<u8>) -> bool
    decreases a.len(),
{
    if b.len() == 0 {
        false
    } else if a.len() == 0 {
        true
    } else if a[0] < b[0] {
        true
    } else if a[0] > b[0] {
        false
    } else {
        lex_lt(a.skip(1), b.skip(1))
    }
}

/// Dictionary keys in strictly ascending lexicographic order.
pub open spec fn sorted_keys(d: Seq<(Seq<u8>, BValue)>) -> bool {
    forall|i: int| 0 <= i < d.len() - 1 ==> lex_lt(#[trigger] d[i].0, d[i + 1].0)
}

/// A well-formed value: integers fit `i64`, and every dictionary's keys are
/// strictly ascending. Exactly these values are produced by the decoder and
/// round-trip through the codec.
pub open spec fn wf(v: BValue) -> bool
    decreases v,
{
    match v {
        BValue::Bytes(_) => true,
        BValue::Int(i) => i64::MIN <= i <= i64::MAX,
        BValue::List(l) => forall|i: int| 0 <= i < l.len() ==> wf(#[trigger] l[i]),
        BValue::Dict(d) => sorted_keys(d) && forall|i: int|
            0 <= i < d.len() ==> wf(#[trigger] d[i].1),
    }
}

/// The bencoding of an integer between `i` and `e`: a minus sign for
/// negative values, then the canonical decimal digits of the magnitude.
pub open spec fn spec_encode_int(i: int) -> Seq<u8> {
    if i < 0 {
        seq![0x2du8] + dec_digits((-i) as nat)
    } else {
        dec_digits(i as nat)
    }
}

/// The bencoding of a byte string: decimal length, `:`, the bytes.
pub open spec fn spec_encode_str(b: Seq<u8>) -> Seq<u8> {
    dec_digits(b.len()) + seq![0x3au8] + b
}

/// The canonical bencoding of a value.
pub open spec fn spec_encode(v: BValue) -> Seq<u8>
    decreases v, 0int,
{
    match v {
        BValue::Bytes(b) => spec_encode_str(b),
        BValue::Int(i) => seq![0x69u8] + spec_encode_int(i) + seq![0x65u8],
        BValue::List(l) => seq![0x6cu8] + spec_encode_items(l, 0) + seq![0x65u8],
        BValue::Dict(d) => seq![0x64u8] + spec_encode_entries(d, 0) + seq![0x65u8],
    }
}

/// The concatenated encodings of `l[i..]`.
pub open spec fn spec_encode_items(l: Seq<BValue>, i: int) -> Seq<u8>
    decreases l, l.len() - i + 1,
{
    if 0 <= i < l.len() {
        spec_encode(l[i]) + spec_encode_items(l, i + 1)
    } else {
        Seq::empty()
    }
}

/// The concatenated encodings of the entries `d[i..]`: each key as a byte
/// string, then its value.
pub open spec fn spec_encode_entries(d: Seq<(Seq<u8>, BValue)>, i: int) -> Seq<u8>
    decreases d, d.len() - i + 1,
{
    if 0 <= i < d.len() {
        spec_encode_str(d[i].0) + spec_encode(d[i].1) + spec_encode_entries(d, i + 1)
    } else {
        Seq::empty()
    }
}

/// Every encoding is at least two bytes long.
pub proof fn lemma_encode_len(v: BValue)
    ensures
        spec_encode(v).len() >= 2,
{
    match v {
        BValue::Bytes(b) => {
            lemma_dec_digits_shape(b.len());
        },
        BValue::Int(i) => {
            if i < 0 {
                lemma_dec_digits_shape((-i) as nat);
            } else {
                lemma_dec_digits_shape(i as nat);
            }
        },
        BValue::List(_) => {},
        BValue::Dict(_) => {},
    }
}

/// The first byte of an encoding is a digit, `i`, `l` or `d`; in particular
/// it is never `e`.
pub proof fn lemma_encode_first_byte(v: BValue)
    ensures
        spec_encode(v).len() >= 2,
        is_digit(spec_encode(v)[0]) || spec_encode(v)[0] == 0x69 || spec_encode(v)[0] == 0x6c
            || spec_encode(v)[0] == 0x64,
        spec_encode(v)[0] != 0x65,
{
    lemma_encode_len(v);
    match v {
        BValue::Bytes(b) => {
            lemma_dec_digits_shape(b.len());
            assert(spec_encode(v)[0] == dec_digits(b.len())[0]);
        },
        BValue::Int(_) => {},
        BValue::List(_) => {},
        BValue::Dict(_) => {},
    }
}

/// Appends the byte-string encoding of `b` to `out`.
fn push_str_encoding(out: &mut Vec<u8>, b: &Vec<u8>)
    ensures
        final(out)@ == old(out)@ + spec_encode_str(b@),
{
    push_decimal(out, b.len() as u64);
    out.push(0x3a);
    out.extend_from_slice(b.as_slice());
    assert(out@ =~= old(out)@ + spec_encode_str(b@));
}

impl Bencode {
    /// The canonical bencoding of this value as bytes.
    pub fn encode(&self) -> (r: Vec<u8>)
        ensures
            r@ == spec_encode(self@),
    {
        let mut out: Vec<u8> = Vec::new();
        self.encode_into(&mut out);
        let ghost g = out@;
        assert(g =~= spec_encode(self@));
        out
    }

    /// A deep copy with the same view.
    pub fn duplicate(&self) -> (r: Bencode)
        ensures
            r@ == self@,
        decreases self,
    {
        match self {
            Bencode::Bytes(b) => Bencode::Bytes(b.clone()),
            Bencode::Int(i) => Bencode::Int(*i),
            Bencode::List(l) => {
                let mut out: Vec<Bencode> = Vec::new();
                let n = l.len();
                for k in 0..n
                    invariant
                        *self == Bencode::List(*l),
                        n == l@.len(),
                        out@.len() == k as int,
                        forall|j: int| 0 <= j < k as int ==> (#[trigger] out@[j])@ == l@[j]@,
                {
                    let elem = &l[k];
                    proof {
                        assert(decreases_to!(*self => self->List_0));
                        assert(self->List_0 == *l);
                        assert(decreases_to!(*l => l@));
                        assert(decreases_to!(l@ => l@[k as int]));
                    }
                    let copy = elem.duplicate();
                    out.push(copy);
                }
                proof {
                    assert(views_of(out@) =~= views_of(l@));
                }
                Bencode::List(out)
            },
            Bencode::Dict(d) => {
                let mut out: Vec<(Vec<u8>, Bencode)> = Vec::new();
                let n = d.len();
                for k in 0..n
                    invariant
                        *self == Bencode::Dict(*d),
                        n == d@.len(),
                        out@.len() == k as int,
                        forall|j: int|
                            0 <= j < k as int ==> (#[trigger] out@[j]).0@ == d@[j].0@
                                && out@[j].1@ == d@[j].1@,
                {
                    let key = d[k].0.clone();
                    let val = &d[k].1;
                    proof {
                        assert(decreases_to!(*self => self->Dict_0));
                        assert(self->Dict_0 == *d);
                        assert(decreases_to!(*d => d@));
                        assert(decreases_to!(d@ => d@[k as int]));
                        assert(decreases_to!(d@[k as int] => d@[k as int].1));
                    }
                    let copy = val.duplicate();
                    out.push((key, copy));
                }
                proof {
                    assert(entry_views_of(out@) =~= entry_views_of(d@));
                }
                Bencode::Dict(out)
            },
        }
    }

    /// Appends the canonical bencoding of this value to `out`.
    pub fn encode_into(&self, out: &mut Vec<u8>)
        ensures
            final(out)@ == old(out)@ + spec_encode(self@),
        decreases self,
    {
        match self {
            Bencode::Bytes(b) => {
                push_str_encoding(out, b);
            },
            Bencode::Int(i) => {
                out.push(0x69);
                if *i < 0 {
                    out.push(0x2d);
                }
                let mag: u64 = if *i == i64::MIN {
                    9223372036854775808u64
                } else if *i < 0 {
                    (-*i) as u64
                } else {
                    *i as u64
                };
                assert(*i < 0 ==> mag as nat == (-(*i as int)) as nat);
                push_decimal(out, mag);
                out.push(0x65);
                assert(out@ =~= old(out)@ + spec_encode(self@));
            },
            Bencode::List(l) => {
                out.push(0x6c);
                let ghost lv = self@->List_0;
                assert(lv =~= views_of(l@));
                let n = l.len();
                for k in 0..n
                    invariant
                        *self == Bencode::List(*l),
                        n == l@.len(),
                        lv == views_of(l@),
                        out@ + spec_encode_items(lv, k as int) == old(out)@ + seq![0x6cu8]
                            + spec_encode_items(lv, 0),
                {
                    let elem = &l[k];
                    proof {
                        assert(decreases_to!(*self => self->List_0));
                        assert(self->List_0 == *l);
                        assert(decreases_to!(*l => l@));
                        assert(decreases_to!(l@ => l@[k as int]));
                        assert(elem@ == lv[k as int]);
                    }
                    elem.encode_into(out);
                    assert(out@ + spec_encode_items(lv, k + 1) =~= old(out)@ + seq![0x6cu8]
                        + spec_encode_items(lv, 0));
                }
                out.push(0x65);
                assert(spec_encode_items(lv, n as int) =~= Seq::<u8>::empty());
                assert(out@ =~= old(out)@ + spec_encode(self@));
            },
            Bencode::Dict(d) => {
                out.push(0x64);
                let ghost dv = self@->Dict_0;
                assert(dv =~= entry_views_of(d@));
                let n = d.len();
                for k in 0..n
                    invariant
                        *self == Bencode::Dict(*d),
                        n == d@.len(),
                        dv == entry_views_of(d@),
                        out@ + spec_encode_entries(dv, k as int) == old(out)@ + seq![0x64u8]
                            + spec_encode_entries(dv, 0),
                {
                    let key = &d[k].0;
                    let val = &d[k].1;
                    proof {
                        assert(decreases_to!(*self => self->Dict_0));
                        assert(self->Dict_0 == *d);
                        assert(decreases_to!(*d => d@));
                        assert(decreases_to!(d@ => d@[k as int]));
                        assert(decreases_to!(d@[k as int] => d@[k as int].1));
                        assert(key@ == dv[k as int].0 && val@ == dv[k as int].1);
                    }
                    push_str_encoding(out, key);
                    val.encode_into(out);
                    assert(out@ + spec_encode_entries(dv, k + 1) =~= old(out)@ + seq![0x64u8]
                        + spec_encode_entries(dv, 0));
                }
                out.push(0x65);
                assert(spec_encode_entries(dv, n as int) =~= Seq::<u8>::empty());
                assert(out@ =~= old(out)@ + spec_encode(self@));
            },
        }
    }
}

} // verus!
