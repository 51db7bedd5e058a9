use bittorrent::bencode::Bencode;
use bittorrent::json::Json;
use bittorrent::json::to_json;
use bittorrent::ClientError;

fn decode_ok(input: &[u8]) -> Bencode {
    Bencode::decode(input).expect("input should decode")
}

#[test]
fn decode_byte_string() {
    let v = decode_ok(b"5:hello");
    assert_eq!(v, Bencode::Bytes(b"hello".to_vec()));
    assert_eq!(to_json(&v), Json::Str("hello".to_string()));
}

#[test]
fn decode_negative_integer() {
    let v = decode_ok(b"i-42e");
    assert_eq!(v, Bencode::Int(-42));
    assert_eq!(to_json(&v), Json::Num(-42));
}

#[test]
fn decode_list() {
    let v = decode_ok(b"l5:helloi52ee");
    assert_eq!(
        v,
        Bencode::List(vec![Bencode::Bytes(b"hello".to_vec()), Bencode::Int(52)])
    );
    assert_eq!(
        to_json(&v),
        Json::Arr(vec![Json::Str("hello".to_string()), Json::Num(52)])
    );
}

#[test]
fn decode_dict() {
    let v = decode_ok(b"d3:foo3:bar5:helloi52ee");
    assert_eq!(
        v,
        Bencode::Dict(vec![
            (b"foo".to_vec(), Bencode::Bytes(b"bar".to_vec())),
            (b"hello".to_vec(), Bencode::Int(52)),
        ])
    );
    assert_eq!(
        to_json(&v),
        Json::Obj(vec![
            ("foo".to_string(), Json::Str("bar".to_string())),
            ("hello".to_string(), Json::Num(52)),
        ])
    );
}

#[test]
fn decode_zero_and_empty() {
    assert_eq!(decode_ok(b"i0e"), Bencode::Int(0));
    assert_eq!(decode_ok(b"0:"), Bencode::Bytes(vec![]));
    assert_eq!(decode_ok(b"le"), Bencode::List(vec![]));
    assert_eq!(decode_ok(b"de"), Bencode::Dict(vec![]));
}

#[test]
fn decode_extreme_integers() {
    assert_eq!(
        decode_ok(b"i9223372036854775807e"),
        Bencode::Int(9223372036854775807)
    );
    assert_eq!(
        decode_ok(b"i-9223372036854775808e"),
        Bencode::Int(i64::MIN)
    );
    assert_eq!(
        Bencode::decode(b"i9223372036854775808e"),
        Err(ClientError::MalformedBencode)
    );
    assert_eq!(
        Bencode::decode(b"i-9223372036854775809e"),
        Err(ClientError::MalformedBencode)
    );
}

#[test]
fn decode_rejects_malformed() {
    for bad in [
        &b""[..],
        b"i-0e",
        b"i042e",
        b"ie",
        b"i-e",
        b"i12",
        b"5:hell",
        b"0x:",
        b"x",
        b"l5:hello",
        b"d3:fooe",
        b"d3:foo3:bar",
        b"de extra",
        b"05:hello",
    ] {
        assert_eq!(
            Bencode::decode(bad),
            Err(ClientError::MalformedBencode),
            "expected rejection of {:?}",
            bad
        );
    }
}

#[test]
fn decode_rejects_trailing_bytes() {
    assert_eq!(
        Bencode::decode(b"i42e1:a"),
        Err(ClientError::MalformedBencode)
    );
}

#[test]
fn decode_prefix_reports_consumed_extent() {
    let (v, end) = Bencode::decode_prefix(b"i42e1:a", 0).expect("prefix decodes");
    assert_eq!(v, Bencode::Int(42));
    assert_eq!(end, 4);
    let (v2, end2) = Bencode::decode_prefix(b"i42e1:a", 4).expect("second value decodes");
    assert_eq!(v2, Bencode::Bytes(b"a".to_vec()));
    assert_eq!(end2, 7);
}

#[test]
fn decode_rejects_unsorted_dict_keys() {
    assert_eq!(
        Bencode::decode(b"d5:helloi52e3:foo3:bare"),
        Err(ClientError::MalformedBencode)
    );
    assert_eq!(
        Bencode::decode(b"d3:foo3:bar3:foo3:boze"),
        Err(ClientError::MalformedBencode)
    );
}

#[test]
fn encode_sorts_nothing_but_reproduces_sorted_dicts() {
    let v = Bencode::Dict(vec![
        (b"foo".to_vec(), Bencode::Bytes(b"bar".to_vec())),
        (b"hello".to_vec(), Bencode::Int(52)),
    ]);
    assert_eq!(v.encode(), b"d3:foo3:bar5:helloi52ee".to_vec());
}

#[test]
fn encode_integers() {
    assert_eq!(Bencode::Int(0).encode(), b"i0e".to_vec());
    assert_eq!(Bencode::Int(-42).encode(), b"i-42e".to_vec());
    assert_eq!(Bencode::Int(52).encode(), b"i52e".to_vec());
    assert_eq!(
        Bencode::Int(i64::MIN).encode(),
        b"i-9223372036854775808e".to_vec()
    );
}

#[test]
fn round_trip_decode_then_encode() {
    for doc in [
        &b"5:hello"[..],
        b"i-42e",
        b"l5:helloi52ee",
        b"d3:foo3:bar5:helloi52ee",
        b"d1:ad1:bl3:abci-1eee1:ci0ee",
        b"le",
        b"de",
        b"0:",
    ] {
        let v = decode_ok(doc);
        assert_eq!(v.encode(), doc.to_vec(), "re-encoding {:?}", doc);
    }
}

#[test]
fn round_trip_encode_then_decode() {
    let values = vec![
        Bencode::Int(-7),
        Bencode::Bytes(vec![0, 255, 10]),
        Bencode::List(vec![
            Bencode::Int(1),
            Bencode::List(vec![Bencode::Bytes(vec![])]),
        ]),
        Bencode::Dict(vec![
            (b"a".to_vec(), Bencode::Int(1)),
            (b"b".to_vec(), Bencode::Bytes(vec![0x65, 0x65])),
        ]),
    ];
    for v in values {
        let enc = v.encode();
        let back = Bencode::decode(&enc).expect("encoding decodes");
        assert_eq!(back, v);
    }
}

#[test]
fn json_projection_is_lossy_on_invalid_utf8() {
    let v = decode_ok(b"2:\xff\xfe");
    match to_json(&v) {
        Json::Str(s) => assert_eq!(s, "\u{fffd}\u{fffd}"),
        other => panic!("expected a string, got {:?}", other),
    }
}
