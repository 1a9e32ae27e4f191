use bencode_torrent::cursor::ByteCursor;
use bencode_torrent::decoder::{decode, decode_from, DecodeError};
use bencode_torrent::grammar::{DecodeErrorKind, MAX_DEPTH};
use bencode_torrent::value::Value;

fn bytes_of(v: &Value) -> &[u8] {
    match v {
        Value::ByteString(b) => b,
        other => panic!("not a byte string: {:?}", other),
    }
}

fn int_of(v: &Value) -> i64 {
    match v {
        Value::Integer(n) => *n,
        other => panic!("not an integer: {:?}", other),
    }
}

fn err_kind(input: &[u8]) -> DecodeErrorKind {
    match decode(input) {
        Err(e) => e.kind,
        Ok((v, n)) => panic!("decoded {:?} ({} bytes)", v, n),
    }
}

#[test]
fn decodes_byte_string() {
    let (v, n) = decode(b"13:hello world !").unwrap();
    assert_eq!(bytes_of(&v), b"hello world !");
    assert_eq!(n, 16);
}

#[test]
fn decodes_empty_byte_string() {
    let (v, n) = decode(b"0:").unwrap();
    assert_eq!(bytes_of(&v), b"");
    assert_eq!(n, 2);
}

#[test]
fn byte_string_keeps_binary_bytes() {
    let input = vec![b'3', b':', 0x00, 0xff, 0x80, b'x'];
    let (v, n) = decode(&input).unwrap();
    assert_eq!(bytes_of(&v), &[0x00, 0xff, 0x80]);
    assert_eq!(n, 5);
}

#[test]
fn byte_string_consumed_length_counts_prefix() {
    let mut input = b"12:".to_vec();
    input.extend_from_slice(b"abcdefghijkl");
    let (v, n) = decode(&input).unwrap();
    assert_eq!(bytes_of(&v), b"abcdefghijkl");
    assert_eq!(n, 2 + 1 + 12);
}

#[test]
fn decodes_integers() {
    let (v, n) = decode(b"i42e").unwrap();
    assert_eq!(int_of(&v), 42);
    assert_eq!(n, 4);
    let (v, n) = decode(b"i-3e").unwrap();
    assert_eq!(int_of(&v), -3);
    assert_eq!(n, 4);
    let (v, n) = decode(b"i0e").unwrap();
    assert_eq!(int_of(&v), 0);
    assert_eq!(n, 3);
}

#[test]
fn rejects_malformed_integers() {
    assert_eq!(err_kind(b"i00e"), DecodeErrorKind::MalformedInteger);
    assert_eq!(err_kind(b"i-0e"), DecodeErrorKind::MalformedInteger);
    assert_eq!(err_kind(b"ie"), DecodeErrorKind::MalformedInteger);
    assert_eq!(err_kind(b"i-e"), DecodeErrorKind::MalformedInteger);
    assert_eq!(err_kind(b"i012e"), DecodeErrorKind::MalformedInteger);
    assert_eq!(err_kind(b"i1x"), DecodeErrorKind::MalformedInteger);
}

#[test]
fn integer_range_edges() {
    let (v, _) = decode(b"i9223372036854775807e").unwrap();
    assert_eq!(int_of(&v), i64::MAX);
    let (v, _) = decode(b"i-9223372036854775808e").unwrap();
    assert_eq!(int_of(&v), i64::MIN);
    assert_eq!(err_kind(b"i9223372036854775808e"), DecodeErrorKind::MalformedInteger);
    assert_eq!(err_kind(b"i-9223372036854775809e"), DecodeErrorKind::MalformedInteger);
    assert_eq!(err_kind(b"i99999999999999999999999e"), DecodeErrorKind::MalformedInteger);
}

#[test]
fn decodes_list() {
    let (v, n) = decode(b"l4:spam4:eggse").unwrap();
    assert_eq!(n, 14);
    match v {
        Value::List(items) => {
            assert_eq!(items.len(), 2);
            assert_eq!(bytes_of(&items[0]), b"spam");
            assert_eq!(bytes_of(&items[1]), b"eggs");
        }
        other => panic!("not a list: {:?}", other),
    }
}

#[test]
fn decodes_dictionary() {
    let (v, n) = decode(b"d3:cow3:moo4:spam4:eggse").unwrap();
    assert_eq!(n, 24);
    match v {
        Value::Dictionary(entries) => {
            assert_eq!(entries.len(), 2);
            assert_eq!(entries[0].0, b"cow".to_vec());
            assert_eq!(bytes_of(&entries[0].1), b"moo");
            assert_eq!(entries[1].0, b"spam".to_vec());
            assert_eq!(bytes_of(&entries[1].1), b"eggs");
        }
        other => panic!("not a dictionary: {:?}", other),
    }
}

#[test]
fn dictionary_accepts_unsorted_keys() {
    let (v, _) = decode(b"d1:bi1e1:ai2ee").unwrap();
    match v {
        Value::Dictionary(entries) => {
            assert_eq!(entries[0].0, b"b".to_vec());
            assert_eq!(entries[1].0, b"a".to_vec());
        }
        other => panic!("not a dictionary: {:?}", other),
    }
}

#[test]
fn nested_containers() {
    let (v, n) = decode(b"d4:listli1eli2eee3:numi7ee").unwrap();
    assert_eq!(n, 26);
    match v {
        Value::Dictionary(entries) => match &entries[0].1 {
            Value::List(items) => {
                assert_eq!(int_of(&items[0]), 1);
                match &items[1] {
                    Value::List(inner) => assert_eq!(int_of(&inner[0]), 2),
                    other => panic!("not a list: {:?}", other),
                }
            }
            other => panic!("not a list: {:?}", other),
        },
        other => panic!("not a dictionary: {:?}", other),
    }
}

#[test]
fn truncated_input_is_unexpected_end() {
    assert_eq!(decode(b"5:ab").unwrap_err(), DecodeError { kind: DecodeErrorKind::UnexpectedEnd, offset: 4 });
    assert_eq!(err_kind(b"l4:spam"), DecodeErrorKind::UnexpectedEnd);
    assert_eq!(err_kind(b"d3:cow"), DecodeErrorKind::UnexpectedEnd);
    assert_eq!(err_kind(b"i12"), DecodeErrorKind::UnexpectedEnd);
    assert_eq!(err_kind(b"l"), DecodeErrorKind::UnexpectedEnd);
}

#[test]
fn malformed_lengths() {
    assert_eq!(err_kind(b"5"), DecodeErrorKind::MalformedLength);
    assert_eq!(err_kind(b"5x"), DecodeErrorKind::MalformedLength);
    assert_eq!(err_kind(b"03:abc"), DecodeErrorKind::MalformedLength);
}

#[test]
fn unrecognized_markers() {
    assert_eq!(decode(b"").unwrap_err(), DecodeError { kind: DecodeErrorKind::UnrecognizedMarker, offset: 0 });
    assert_eq!(decode(b"x").unwrap_err(), DecodeError { kind: DecodeErrorKind::UnrecognizedMarker, offset: 0 });
    assert_eq!(decode(b"lxe").unwrap_err(), DecodeError { kind: DecodeErrorKind::UnrecognizedMarker, offset: 1 });
}

#[test]
fn dictionary_key_must_be_byte_string() {
    assert_eq!(decode(b"di1ei2ee").unwrap_err(), DecodeError { kind: DecodeErrorKind::InvalidKeyType, offset: 1 });
}

#[test]
fn duplicate_key_is_refused() {
    assert_eq!(decode(b"d1:ai1e1:ai2ee").unwrap_err(), DecodeError { kind: DecodeErrorKind::DuplicateKey, offset: 7 });
}

#[test]
fn nesting_limit() {
    let mut ok = vec![b'l'; MAX_DEPTH];
    ok.extend(vec![b'e'; MAX_DEPTH]);
    let (_, n) = decode(&ok).unwrap();
    assert_eq!(n, 2 * MAX_DEPTH);
    let mut deep = vec![b'l'; MAX_DEPTH + 1];
    deep.extend(vec![b'e'; MAX_DEPTH + 1]);
    assert_eq!(decode(&deep).unwrap_err(), DecodeError { kind: DecodeErrorKind::NestingTooDeep, offset: MAX_DEPTH });
}

#[test]
fn decoding_twice_gives_equal_results() {
    let input = b"d3:cow3:moo4:spam4:eggse";
    let (a, n) = decode(input).unwrap();
    let (b, m) = decode(input).unwrap();
    assert_eq!(format!("{:?}", a), format!("{:?}", b));
    assert_eq!(n, m);
    assert_eq!(decode(b"i-0e").unwrap_err(), decode(b"i-0e").unwrap_err());
}

#[test]
fn decode_leaves_trailing_bytes() {
    let (v, n) = decode(b"i1ei2e").unwrap();
    assert_eq!(int_of(&v), 1);
    assert_eq!(n, 3);
    let (v, q) = decode_from(b"i1ei2e", 3).unwrap();
    assert_eq!(int_of(&v), 2);
    assert_eq!(q, 6);
}

#[test]
fn cursor_walks_values() {
    let input = b"i1e3:abc";
    let mut c = ByteCursor::new(input);
    assert_eq!(c.peek(), Some(b'i'));
    let (v, n) = c.decode_value().unwrap();
    assert_eq!(int_of(&v), 1);
    assert_eq!(n, 3);
    assert_eq!(c.position(), 3);
    assert_eq!(c.remaining(), 5);
    let (v, n) = c.decode_value().unwrap();
    assert_eq!(bytes_of(&v), b"abc");
    assert_eq!(n, 5);
    assert_eq!(c.peek(), None);
    assert!(c.decode_value().is_err());
    assert_eq!(c.position(), 8);
}

#[test]
fn cursor_advance_is_bounded() {
    let input = b"abcd";
    let mut c = ByteCursor::new(input);
    assert_eq!(c.advance(3).unwrap(), b"abc");
    assert_eq!(c.advance(2).unwrap_err(), DecodeError { kind: DecodeErrorKind::UnexpectedEnd, offset: 4 });
    assert_eq!(c.position(), 3);
    assert_eq!(c.advance(1).unwrap(), b"d");
    assert_eq!(c.remaining(), 0);
}

#[test]
fn error_kinds_have_messages() {
    let e = decode(b"5:ab").unwrap_err();
    assert_eq!(e.kind.message(), "input ends inside a value");
    assert_eq!(DecodeErrorKind::DuplicateKey.message(), "dictionary key occurs twice");
}
