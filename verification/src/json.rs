//! The debug JSON projection of a bencode value.
//!
//! Byte strings and dictionary keys are decoded lossily (invalid UTF-8
//! becomes replacement characters), integers become numbers, lists arrays
//! and dictionaries objects. The projection is for humans: it is lossy by
//! design.
use vstd::prelude::*;

use crate::bencode::BValue;
use crate::bencode::Bencode;
use crate::text::lossy_utf8;
use crate::text::lossy_utf8_of;

verus! {

broadcast use vstd::std_specs::vec::group_vec_axioms;

/// An in-memory JSON value, as far as the projection needs one.
#[derive(Debug, PartialEq, Eq)]
pub enum Json {
    /// A string.
    Str(String),
    /// A number.
    Num(i64),
    /// An array.
    Arr(Vec<Json>),
    /// An object, keys in insertion order.
    Obj(Vec<(String, Json)>),
}

/// The mathematical shape of a JSON value.
pub enum JsonSpec {
    Str(Seq<char>),
    Num(int),
    Arr(Seq<JsonSpec>),
    Obj(Seq<(Seq<char>, JsonSpec)>),
}

/// The views of a sequence of JSON values.
pub open spec fn json_views_of(l: Seq<Json>) -> Seq<JsonSpec>
    decreases l,
{
    Seq::new(l.len(), |i: int| if 0 <= i < l.len() { l[i]@ } else { JsonSpec::Num(0) })
}

/// The views of a sequence of JSON object members.
pub open spec fn member_views_of(l: Seq<(String, Json)>) -> Seq<(Seq<char>, JsonSpec)>
    decreases l,
{
    Seq::new(
        l.len(),
        |i: int| if 0 <= i < l.len() { (l[i].0@, l[i].1@) } else { (Seq::empty(), JsonSpec::Num(0)) },
    )
}

impl View for Json {
    type V = JsonSpec;

    open spec fn view(&self) -> JsonSpec
        decreases self,
    {
        match self {
            Json::Str(s) => JsonSpec::Str(s@),
            Json::Num(n) => JsonSpec::Num(*n as int),
            Json::Arr(l) => JsonSpec::Arr(json_views_of(l@)),
            Json::Obj(m) => JsonSpec::Obj(member_views_of(m@)),
        }
    }
}

/// The JSON projection of a bencode value: byte strings and keys decoded
/// lossily, integers as numbers, lists as arrays, dictionaries as objects
/// with keys in order.
pub open spec fn spec_to_json(v: BValue) -> JsonSpec
    decreases v,
{
    match v {
        BValue::Bytes(b) => JsonSpec::Str(lossy_utf8_of(b)),
        BValue::Int(i) => JsonSpec::Num(i),
        BValue::List(l) => JsonSpec::Arr(
            Seq::new(l.len(), |i: int| if 0 <= i < l.len() { spec_to_json(l[i]) } else { JsonSpec::Num(0) }),
        ),
        BValue::Dict(d) => JsonSpec::Obj(
            Seq::new(
                d.len(),
                |i: int|
                    if 0 <= i < d.len() {
                        (lossy_utf8_of(d[i].0), spec_to_json(d[i].1))
                    } else {
                        (Seq::empty(), JsonSpec::Num(0))
                    },
            ),
        ),
    }
}

/// Projects a bencode value to JSON, exactly as the specification maps it.
pub fn to_json(v: &Bencode) -> (r: Json)
    ensures
        r@ == spec_to_json(v@),
    decreases v,
{
    match v {
        Bencode::Bytes(b) => Json::Str(lossy_utf8(b.as_slice())),
        Bencode::Int(i) => Json::Num(*i),
        Bencode::List(l) => {
            let mut out: Vec<Json> = Vec::new();
            let n = l.len();
            for k in 0..n
                invariant
                    *v == Bencode::List(*l),
                    n == l@.len(),
                    out@.len() == k as int,
                    forall|j: int|
                        0 <= j < k as int ==> (#[trigger] out@[j])@ == spec_to_json(l@[j]@),
            {
                let elem = &l[k];
                proof {
                    assert(decreases_to!(*v => v->List_0));
                    assert(v->List_0 == *l);
                    assert(decreases_to!(*l => l@));
                    assert(decreases_to!(l@ => l@[k as int]));
                }
                let j = to_json(elem);
                out.push(j);
            }
            proof {
                assert(json_views_of(out@) =~= spec_to_json(v@)->Arr_0);
            }
            Json::Arr(out)
        },
        Bencode::Dict(d) => {
            let mut out: Vec<(String, Json)> = Vec::new();
            let n = d.len();
            for k in 0..n
                invariant
                    *v == Bencode::Dict(*d),
                    n == d@.len(),
                    out@.len() == k as int,
                    forall|j: int|
                        0 <= j < k as int ==> (#[trigger] out@[j]).0@ == lossy_utf8_of(d@[j].0@)
                            && out@[j].1@ == spec_to_json(d@[j].1@),
            {
                let key = lossy_utf8(d[k].0.as_slice());
                let val = &d[k].1;
                proof {
                    assert(decreases_to!(*v => v->Dict_0));
                    assert(v->Dict_0 == *d);
                    assert(decreases_to!(*d => d@));
                    assert(decreases_to!(d@ => d@[k as int]));
                    assert(decreases_to!(d@[k as int] => d@[k as int].1));
                }
                let j = to_json(val);
                out.push((key, j));
            }
            proof {
                let ghost target = spec_to_json(v@)->Obj_0;
                assert forall|j: int|
                    0 <= j < out@.len() implies #[trigger] member_views_of(out@)[j]
                    == target[j] by {
                    assert(crate::bencode::entry_views_of(d@)[j] == (d@[j].0@, d@[j].1@));
                }
                assert(out@.len() == n as int);
                assert(member_views_of(out@).len() == n as int);
                assert(v@ == BValue::Dict(crate::bencode::entry_views_of(d@)));
                assert(crate::bencode::entry_views_of(d@).len() == n as int);
                assert(target.len() == n as int);
                assert(member_views_of(out@) =~= target);
            }
            Json::Obj(out)
        },
    }
}

} // verus!
