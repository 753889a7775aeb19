use neo4rs::codec::{decode, encode, CodecError};
use neo4rs::value::WireValue;

fn enc(v: &WireValue) -> Vec<u8> {
    let mut out = Vec::new();
    encode(v, &mut out);
    out
}

fn round_trip(v: WireValue) -> WireValue {
    let bytes = enc(&v);
    let (back, end) = decode(&bytes, 0).unwrap();
    assert_eq!(end, bytes.len());
    back
}

fn same(a: &WireValue, b: &WireValue) -> bool {
    match (a, b) {
        (WireValue::Null, WireValue::Null) => true,
        (WireValue::Bool(x), WireValue::Bool(y)) => x == y,
        (WireValue::Integer(x), WireValue::Integer(y)) => x == y,
        (WireValue::Float(x), WireValue::Float(y)) => x == y,
        (WireValue::Bytes(x), WireValue::Bytes(y)) => x == y,
        (WireValue::String(x), WireValue::String(y)) => x == y,
        (WireValue::List(x), WireValue::List(y)) => {
            x.len() == y.len() && x.iter().zip(y.iter()).all(|(p, q)| same(p, q))
        }
        (WireValue::Dict(x), WireValue::Dict(y)) => {
            x.len() == y.len() && x.iter().zip(y.iter()).all(|(p, q)| p.0 == q.0 && same(&p.1, &q.1))
        }
        (WireValue::Struct(s, x), WireValue::Struct(t, y)) => {
            s == t && x.len() == y.len() && x.iter().zip(y.iter()).all(|(p, q)| same(p, q))
        }
        _ => false,
    }
}

#[test]
fn round_trip_every_variant() {
    let values = vec![
        WireValue::Null,
        WireValue::Bool(true),
        WireValue::Bool(false),
        WireValue::Integer(0),
        WireValue::Integer(-16),
        WireValue::Integer(-17),
        WireValue::Integer(127),
        WireValue::Integer(128),
        WireValue::Integer(-129),
        WireValue::Integer(40000),
        WireValue::Integer(-40000),
        WireValue::Integer(3_000_000_000),
        WireValue::Integer(i64::MIN),
        WireValue::Integer(i64::MAX),
        WireValue::Float(1.5f64.to_bits()),
        WireValue::Bytes(vec![1, 2, 3]),
        WireValue::String("héllo".to_string()),
        WireValue::String("x".repeat(300)),
        WireValue::List((0..20).map(WireValue::Integer).collect()),
        WireValue::Dict(vec![
            ("a".to_string(), WireValue::Integer(1)),
            ("b".to_string(), WireValue::List(vec![WireValue::Null])),
        ]),
        WireValue::Struct(
            0x4E,
            vec![
                WireValue::Integer(7),
                WireValue::List(vec![WireValue::String("Person".to_string())]),
                WireValue::Dict(vec![("name".to_string(), WireValue::String("Mark".to_string()))]),
            ],
        ),
    ];
    for v in values {
        let back = round_trip(clone_value(&v));
        assert!(same(&v, &back));
    }
}

fn clone_value(v: &WireValue) -> WireValue {
    match v {
        WireValue::Null => WireValue::Null,
        WireValue::Bool(b) => WireValue::Bool(*b),
        WireValue::Integer(n) => WireValue::Integer(*n),
        WireValue::Float(f) => WireValue::Float(*f),
        WireValue::Bytes(b) => WireValue::Bytes(b.clone()),
        WireValue::String(s) => WireValue::String(s.clone()),
        WireValue::List(l) => WireValue::List(l.iter().map(clone_value).collect()),
        WireValue::Dict(m) => WireValue::Dict(m.iter().map(|(k, x)| (k.clone(), clone_value(x))).collect()),
        WireValue::Struct(t, l) => WireValue::Struct(*t, l.iter().map(clone_value).collect()),
    }
}

#[test]
fn integers_take_the_narrowest_form() {
    assert_eq!(enc(&WireValue::Integer(1)), vec![0x01]);
    assert_eq!(enc(&WireValue::Integer(-16)), vec![0xF0]);
    assert_eq!(enc(&WireValue::Integer(-17)), vec![0xC8, 0xEF]);
    assert_eq!(enc(&WireValue::Integer(128)), vec![0xC9, 0x00, 0x80]);
    assert_eq!(enc(&WireValue::Integer(-32769)), vec![0xCA, 0xFF, 0xFF, 0x7F, 0xFF]);
    assert_eq!(
        enc(&WireValue::Integer(2147483648)),
        vec![0xCB, 0, 0, 0, 0, 0x80, 0, 0, 0]
    );
}

#[test]
fn scalars_and_sizes_encode_exactly() {
    assert_eq!(enc(&WireValue::Null), vec![0xC0]);
    assert_eq!(enc(&WireValue::Bool(true)), vec![0xC3]);
    assert_eq!(enc(&WireValue::String("a".to_string())), vec![0x81, 0x61]);
    assert_eq!(enc(&WireValue::Bytes(vec![9])), vec![0xCC, 0x01, 0x09]);
    assert_eq!(enc(&WireValue::List(vec![])), vec![0x90]);
    let long = enc(&WireValue::String("y".repeat(16)));
    assert_eq!(&long[..2], &[0xD0, 16]);
    assert_eq!(
        enc(&WireValue::Float(1.0f64.to_bits())),
        vec![0xC1, 0x3F, 0xF0, 0, 0, 0, 0, 0, 0]
    );
}

#[test]
fn decode_rejects_bad_input() {
    assert!(matches!(decode(&vec![], 0), Err(CodecError::UnexpectedEnd)));
    assert!(matches!(decode(&vec![0xE0], 0), Err(CodecError::UnknownMarker(0xE0))));
    assert!(matches!(decode(&vec![0x82, 0x61], 0), Err(CodecError::SizeMismatch)));
    assert!(matches!(decode(&vec![0xC9, 0x01], 0), Err(CodecError::UnexpectedEnd)));
    assert!(matches!(decode(&vec![0x81, 0xFF], 0), Err(CodecError::InvalidUtf8)));
    assert!(matches!(decode(&vec![0xA1, 0x01, 0x01], 0), Err(CodecError::KeyNotString)));
    assert!(matches!(decode(&vec![0x92, 0x01], 0), Err(CodecError::SizeMismatch)));
    assert!(matches!(decode(&vec![0x92, 0x01, 0xC9], 0), Err(CodecError::UnexpectedEnd)));
    assert!(matches!(decode(&vec![0xA1, 0x81], 0), Err(CodecError::SizeMismatch)));
    assert!(matches!(decode(&vec![0xB3, 0x4E, 0x01], 0), Err(CodecError::SizeMismatch)));
}

#[test]
fn decode_reads_a_string_through_utf8() {
    let (v, end) = decode(&vec![0x82, 0xC3, 0xA9], 0).unwrap();
    assert_eq!(end, 3);
    match v {
        WireValue::String(s) => assert_eq!(s, "é"),
        _ => panic!("not a string"),
    }
}

#[test]
fn largest_size_forms_round_trip() {
    let long = "z".repeat(70000);
    let bytes = enc(&WireValue::String(long.clone()));
    assert_eq!(&bytes[..5], &[0xD2, 0x00, 0x01, 0x11, 0x70]);
    match decode(&bytes, 0).unwrap().0 {
        WireValue::String(s) => assert_eq!(s, long),
        _ => panic!("not a string"),
    }
    let blob = vec![7u8; 300];
    let bytes = enc(&WireValue::Bytes(blob.clone()));
    assert_eq!(&bytes[..3], &[0xCD, 0x01, 0x2C]);
    match decode(&bytes, 0).unwrap().0 {
        WireValue::Bytes(b) => assert_eq!(b, blob),
        _ => panic!("not bytes"),
    }
    let list = WireValue::List((0..70000).map(|_| WireValue::Null).collect());
    let bytes = enc(&list);
    assert_eq!(&bytes[..5], &[0xD6, 0x00, 0x01, 0x11, 0x70]);
    assert_eq!(decode(&bytes, 0).unwrap().1, bytes.len());
}

#[test]
fn maps_with_a_repeated_key_are_refused() {
    assert!(matches!(
        decode(&vec![0xA2, 0x81, 0x61, 0x01, 0x81, 0x61, 0x02], 0),
        Err(CodecError::DuplicateKey)
    ));
    let dup = WireValue::Dict(vec![("a".to_string(), WireValue::Null), ("a".to_string(), WireValue::Null)]);
    assert!(!neo4rs::codec::encodable(&dup));
    let (v, _) = decode(&vec![0xA2, 0x81, 0x61, 0x01, 0x81, 0x62, 0x02], 0).unwrap();
    assert!(matches!(v, WireValue::Dict(m) if m.len() == 2));
}
