use bencode_torrent::decoder::decode;
use bencode_torrent::torrent::{project, project_info, Field, ProjectionError};
use bencode_torrent::value::Value;

fn bs(s: &str) -> Value {
    Value::ByteString(s.as_bytes().to_vec())
}

fn dict(entries: Vec<(&str, Value)>) -> Value {
    Value::Dictionary(entries.into_iter().map(|(k, v)| (k.as_bytes().to_vec(), v)).collect())
}

fn pieces(n: usize) -> Value {
    Value::ByteString(vec![7u8; n])
}

#[test]
fn projects_single_file_info() {
    let info = dict(vec![
        ("name", bs("ubuntu.iso")),
        ("piece length", Value::Integer(262144)),
        ("pieces", pieces(40)),
        ("length", Value::Integer(1000)),
    ]);
    let r = project_info(&info).unwrap();
    assert_eq!(r.name, "ubuntu.iso");
    assert_eq!(r.piece_length, 262144);
    assert_eq!(r.pieces.len(), 40);
    assert_eq!(r.piece_count(), 2);
    assert_eq!(r.length, Some(1000));
    assert!(r.files.is_none());
}

#[test]
fn projects_multi_file_info_through_torrent() {
    let file = dict(vec![
        ("length", Value::Integer(5)),
        ("path", Value::List(vec![bs("dir"), bs("a.txt")])),
    ]);
    let info = dict(vec![
        ("files", Value::List(vec![file])),
        ("name", bs("bundle")),
        ("piece length", Value::Integer(16)),
        ("pieces", pieces(20)),
    ]);
    let root = dict(vec![("announce", bs("http://tracker")), ("info", info)]);
    let t = project(&root).unwrap();
    assert_eq!(t.info.name, "bundle");
    assert!(t.info.length.is_none());
    let files = t.info.files.unwrap();
    assert_eq!(files.len(), 1);
    assert_eq!(files[0].length, 5);
    assert_eq!(files[0].path, vec!["dir".to_string(), "a.txt".to_string()]);
}

#[test]
fn projects_decoded_torrent() {
    let input = b"d4:infod6:lengthi3e4:name1:x12:piece lengthi1e6:pieces20:aaaaaaaaaaaaaaaaaaaaee";
    let (root, _) = decode(input).unwrap();
    let t = project(&root).unwrap();
    assert_eq!(t.info.name, "x");
    assert_eq!(t.info.length, Some(3));
    assert_eq!(t.info.pieces, b"aaaaaaaaaaaaaaaaaaaa".to_vec());
}

#[test]
fn missing_pieces_is_missing_field() {
    let info = dict(vec![
        ("name", bs("a")),
        ("piece length", Value::Integer(1)),
        ("length", Value::Integer(1)),
    ]);
    assert_eq!(project_info(&info).unwrap_err(), ProjectionError::MissingField(Field::Pieces));
}

#[test]
fn both_length_and_files_is_ambiguous() {
    let info = dict(vec![
        ("name", bs("a")),
        ("piece length", Value::Integer(1)),
        ("pieces", pieces(20)),
        ("length", Value::Integer(1)),
        ("files", Value::List(vec![])),
    ]);
    assert_eq!(project_info(&info).unwrap_err(), ProjectionError::AmbiguousLayout);
}

#[test]
fn neither_length_nor_files_is_ambiguous() {
    let info = dict(vec![("name", bs("a")), ("piece length", Value::Integer(1)), ("pieces", pieces(0))]);
    assert_eq!(project_info(&info).unwrap_err(), ProjectionError::AmbiguousLayout);
}

#[test]
fn projection_errors() {
    assert_eq!(project_info(&Value::Integer(1)).unwrap_err(), ProjectionError::NotADictionary);
    assert_eq!(project(&Value::List(vec![])).unwrap_err(), ProjectionError::NotADictionary);
    assert_eq!(project(&dict(vec![])).unwrap_err(), ProjectionError::MissingField(Field::Info));
    assert_eq!(project(&dict(vec![("info", bs("x"))])).unwrap_err(), ProjectionError::NotADictionary);
    assert_eq!(project_info(&dict(vec![])).unwrap_err(), ProjectionError::MissingField(Field::Name));
    let bad_name = dict(vec![("name", Value::ByteString(vec![0xff, 0xfe]))]);
    assert_eq!(project_info(&bad_name).unwrap_err(), ProjectionError::InvalidEncoding(Field::Name));
    let int_name = dict(vec![("name", Value::Integer(3))]);
    assert_eq!(project_info(&int_name).unwrap_err(), ProjectionError::WrongType(Field::Name));
    let zero = dict(vec![("name", bs("a")), ("piece length", Value::Integer(0))]);
    assert_eq!(project_info(&zero).unwrap_err(), ProjectionError::InvalidPieceLength);
    let no_pl = dict(vec![("name", bs("a"))]);
    assert_eq!(project_info(&no_pl).unwrap_err(), ProjectionError::MissingField(Field::PieceLength));
    let odd = dict(vec![("name", bs("a")), ("piece length", Value::Integer(2)), ("pieces", pieces(21))]);
    assert_eq!(project_info(&odd).unwrap_err(), ProjectionError::InvalidPiecesLength);
}

#[test]
fn file_entry_errors() {
    let base = |files: Value| {
        dict(vec![
            ("name", bs("a")),
            ("piece length", Value::Integer(1)),
            ("pieces", pieces(20)),
            ("files", files),
        ])
    };
    let no_path = base(Value::List(vec![dict(vec![("length", Value::Integer(1))])]));
    assert_eq!(project_info(&no_path).unwrap_err(), ProjectionError::MissingField(Field::Path));
    let no_len = base(Value::List(vec![dict(vec![("path", Value::List(vec![]))])]));
    assert_eq!(project_info(&no_len).unwrap_err(), ProjectionError::MissingField(Field::Length));
    let not_dict = base(Value::List(vec![Value::Integer(1)]));
    assert_eq!(project_info(&not_dict).unwrap_err(), ProjectionError::NotADictionary);
    let bad_seg = base(Value::List(vec![dict(vec![
        ("length", Value::Integer(1)),
        ("path", Value::List(vec![bs("ok"), Value::ByteString(vec![0xc3])])),
    ])]));
    assert_eq!(project_info(&bad_seg).unwrap_err(), ProjectionError::InvalidEncoding(Field::Path));
    let files_not_list = base(Value::Integer(4));
    assert_eq!(project_info(&files_not_list).unwrap_err(), ProjectionError::WrongType(Field::Files));
}

#[test]
fn field_keys() {
    assert_eq!(Field::PieceLength.key(), b"piece length".to_vec());
    assert_eq!(Field::Info.key(), b"info".to_vec());
    assert_eq!(Field::Pieces.key(), b"pieces".to_vec());
}

#[test]
fn dictionary_get_finds_keys() {
    let (root, _) = decode(b"d8:announce3:url7:commenti5ee").unwrap();
    match bencode_torrent::torrent::dictionary_get(&root, &b"announce".to_vec()) {
        Some(Value::ByteString(b)) => assert_eq!(b, &b"url".to_vec()),
        other => panic!("unexpected {:?}", other),
    }
    assert!(bencode_torrent::torrent::dictionary_get(&root, &b"missing".to_vec()).is_none());
    assert!(bencode_torrent::torrent::dictionary_get(&Value::Integer(1), &b"announce".to_vec()).is_none());
}
