use bencode_torrent::decoder::decode;
use bencode_torrent::value::Value;

fn encode(v: &Value, out: &mut Vec<u8>) {
    match v {
        Value::Integer(n) => out.extend(format!("i{}e", n).into_bytes()),
        Value::ByteString(b) => {
            out.extend(format!("{}:", b.len()).into_bytes());
            out.extend_from_slice(b);
        }
        Value::List(items) => {
            out.push(b'l');
            for item in items {
                encode(item, out);
            }
            out.push(b'e');
        }
        Value::Dictionary(entries) => {
            out.push(b'd');
            for (k, item) in entries {
                out.extend(format!("{}:", k.len()).into_bytes());
                out.extend_from_slice(k);
                encode(item, out);
            }
            out.push(b'e');
        }
    }
}

fn encoded(v: &Value) -> Vec<u8> {
    let mut out = Vec::new();
    encode(v, &mut out);
    out
}

#[test]
fn round_trip_hand_built_tree() {
    let tree = Value::Dictionary(vec![
        (b"zeta".to_vec(), Value::Integer(-17)),
        (b"alpha".to_vec(), Value::List(vec![
            Value::ByteString(vec![0, 1, 2, 255]),
            Value::List(vec![]),
            Value::Dictionary(vec![]),
            Value::Integer(i64::MIN),
            Value::Integer(i64::MAX),
        ])),
        (vec![0xff], Value::ByteString(Vec::new())),
    ]);
    let bytes = encoded(&tree);
    let (back, n) = decode(&bytes).unwrap();
    assert_eq!(format!("{:?}", back), format!("{:?}", tree));
    assert_eq!(n, bytes.len());
    let mut with_tail = bytes.clone();
    with_tail.extend_from_slice(b"i5e");
    let (back, n) = decode(&with_tail).unwrap();
    assert_eq!(format!("{:?}", back), format!("{:?}", tree));
    assert_eq!(n, bytes.len());
}

#[test]
fn round_trip_scalars() {
    for v in [Value::Integer(0), Value::Integer(7), Value::Integer(-1000), Value::ByteString(b"x".to_vec())] {
        let bytes = encoded(&v);
        let (back, n) = decode(&bytes).unwrap();
        assert_eq!(format!("{:?}", back), format!("{:?}", v));
        assert_eq!(n, bytes.len());
    }
}

#[test]
fn byte_strings_of_many_lengths() {
    for len in [0usize, 1, 9, 10, 99, 100, 1234] {
        let payload: Vec<u8> = (0..len).map(|i| (i % 251) as u8).collect();
        let mut input = format!("{}:", len).into_bytes();
        input.extend_from_slice(&payload);
        let (v, n) = decode(&input).unwrap();
        match v {
            Value::ByteString(b) => assert_eq!(b, payload),
            other => panic!("not a byte string: {:?}", other),
        }
        assert_eq!(n, len.to_string().len() + 1 + len);
    }
}
