//! The projection of a decoded metainfo dictionary onto typed fields.
use vstd::prelude::*;
use vstd::slice::slice_to_vec;
use crate::value::{Bencode, Value, entries_model, items_model, lemma_dict_model, lemma_list_model};
use crate::decoder::{bytes_equal, copy_range};
use crate::text::{utf8_text, utf8_to_string};

verus! {

/// The metainfo fields that the projection reads.
#[derive(Debug, Clone, Copy, PartialEq, Eq, Structural)]
pub enum Field {
    Info,
    Name,
    PieceLength,
    Pieces,
    Length,
    Files,
    Path,
}

#[derive(Debug, Clone, Copy, PartialEq, Eq, Structural)]
pub enum ProjectionError {
    /// A value that must be a dictionary is not one.
    NotADictionary,
    /// A required key is absent.
    MissingField(Field),
    /// A field holds a value of the wrong kind.
    WrongType(Field),
    /// A field that must be text is not valid UTF-8.
    InvalidEncoding(Field),
    /// `piece length` is not positive.
    InvalidPieceLength,
    /// The length of `pieces` is not a multiple of the hash size.
    InvalidPiecesLength,
    /// Both or neither of `length` and `files` are present.
    AmbiguousLayout,
}

/// The size in bytes of one piece hash.
pub const PIECE_HASH_LEN: usize = 20;

/// The dictionary key of a field.
pub open spec fn field_key(f: Field) -> Seq<u8> {
    match f {
        Field::Info => seq![105u8, 110, 102, 111],
        Field::Name => seq![110u8, 97, 109, 101],
        Field::PieceLength => seq![112u8, 105, 101, 99, 101, 32, 108, 101, 110, 103, 116, 104],
        Field::Pieces => seq![112u8, 105, 101, 99, 101, 115],
        Field::Length => seq![108u8, 101, 110, 103, 116, 104],
        Field::Files => seq![102u8, 105, 108, 101, 115],
        Field::Path => seq![112u8, 97, 116, 104],
    }
}

impl Field {
    /// The dictionary key of the field, as bytes.
    pub fn key(&self) -> (r: Vec<u8>)
        ensures
            r@ == field_key(*self),
    {
        let r = match self {
            Field::Info => vec![105u8, 110, 102, 111],
            Field::Name => vec![110u8, 97, 109, 101],
            Field::PieceLength => vec![112u8, 105, 101, 99, 101, 32, 108, 101, 110, 103, 116, 104],
            Field::Pieces => vec![112u8, 105, 101, 99, 101, 115],
            Field::Length => vec![108u8, 101, 110, 103, 116, 104],
            Field::Files => vec![102u8, 105, 108, 101, 115],
            Field::Path => vec![112u8, 97, 116, 104],
        };
        assert(r@ =~= field_key(*self));
        r
    }
}

/// The value of the first entry whose key is `k`.
pub open spec fn lookup(entries: Seq<(Seq<u8>, Bencode)>, k: Seq<u8>) -> Option<Bencode>
    decreases entries.len(),
{
    if entries.len() == 0 {
        None
    } else if entries[0].0 == k {
        Some(entries[0].1)
    } else {
        lookup(entries.drop_first(), k)
    }
}

pub struct FileModel {
    pub length: int,
    pub path: Seq<Seq<char>>,
}

pub enum LayoutModel {
    Single(int),
    Multi(Seq<FileModel>),
}

pub struct InfoModel {
    pub name: Seq<char>,
    pub piece_length: int,
    pub pieces: Seq<u8>,
    pub layout: LayoutModel,
}

/// The path segments as text, or the first defect among them.
pub open spec fn path_model(segs: Seq<Bencode>) -> Result<Seq<Seq<char>>, ProjectionError>
    decreases segs.len(),
{
    if segs.len() == 0 {
        Ok(seq![])
    } else {
        match path_model(segs.drop_last()) {
            Err(e) => Err(e),
            Ok(prev) => match segs.last() {
                Bencode::Bytes(b) => match utf8_text(b) {
                    Some(t) => Ok(prev.push(t)),
                    None => Err(ProjectionError::InvalidEncoding(Field::Path)),
                },
                _ => Err(ProjectionError::WrongType(Field::Path)),
            },
        }
    }
}

/// One entry of `files`.
pub open spec fn file_model(v: Bencode) -> Result<FileModel, ProjectionError> {
    match v {
        Bencode::Dict(e) => match lookup(e, field_key(Field::Length)) {
            None => Err(ProjectionError::MissingField(Field::Length)),
            Some(Bencode::Int(n)) => match lookup(e, field_key(Field::Path)) {
                None => Err(ProjectionError::MissingField(Field::Path)),
                Some(Bencode::List(segs)) => match path_model(segs) {
                    Ok(p) => Ok(FileModel { length: n, path: p }),
                    Err(err) => Err(err),
                },
                Some(_) => Err(ProjectionError::WrongType(Field::Path)),
            },
            Some(_) => Err(ProjectionError::WrongType(Field::Length)),
        },
        _ => Err(ProjectionError::NotADictionary),
    }
}

/// The entries of `files`, or the first defect among them.
pub open spec fn files_model(fs: Seq<Bencode>) -> Result<Seq<FileModel>, ProjectionError>
    decreases fs.len(),
{
    if fs.len() == 0 {
        Ok(seq![])
    } else {
        match files_model(fs.drop_last()) {
            Err(e) => Err(e),
            Ok(prev) => match file_model(fs.last()) {
                Ok(f) => Ok(prev.push(f)),
                Err(e) => Err(e),
            },
        }
    }
}

/// The layout: exactly one of `length` and `files`.
pub open spec fn layout_model(e: Seq<(Seq<u8>, Bencode)>) -> Result<LayoutModel, ProjectionError> {
    match (lookup(e, field_key(Field::Length)), lookup(e, field_key(Field::Files))) {
        (Some(Bencode::Int(n)), None) => Ok(LayoutModel::Single(n)),
        (Some(_), None) => Err(ProjectionError::WrongType(Field::Length)),
        (None, Some(Bencode::List(fs))) => match files_model(fs) {
            Ok(files) => Ok(LayoutModel::Multi(files)),
            Err(err) => Err(err),
        },
        (None, Some(_)) => Err(ProjectionError::WrongType(Field::Files)),
        _ => Err(ProjectionError::AmbiguousLayout),
    }
}

/// The projection of an info dictionary: `name`, then `piece length`, then
/// `pieces`, then the layout, each checked in that order.
pub open spec fn info_model(v: Bencode) -> Result<InfoModel, ProjectionError> {
    match v {
        Bencode::Dict(e) => match lookup(e, field_key(Field::Name)) {
            None => Err(ProjectionError::MissingField(Field::Name)),
            Some(Bencode::Bytes(nb)) => match utf8_text(nb) {
                None => Err(ProjectionError::InvalidEncoding(Field::Name)),
                Some(name) => match lookup(e, field_key(Field::PieceLength)) {
                    None => Err(ProjectionError::MissingField(Field::PieceLength)),
                    Some(Bencode::Int(pl)) => if pl <= 0 {
                        Err(ProjectionError::InvalidPieceLength)
                    } else {
                        match lookup(e, field_key(Field::Pieces)) {
                            None => Err(ProjectionError::MissingField(Field::Pieces)),
                            Some(Bencode::Bytes(pc)) => if pc.len() % (PIECE_HASH_LEN as nat) != 0 {
                                Err(ProjectionError::InvalidPiecesLength)
                            } else {
                                match layout_model(e) {
                                    Ok(layout) => Ok(InfoModel { name, piece_length: pl, pieces: pc, layout }),
                                    Err(err) => Err(err),
                                }
                            },
                            Some(_) => Err(ProjectionError::WrongType(Field::Pieces)),
                        }
                    },
                    Some(_) => Err(ProjectionError::WrongType(Field::PieceLength)),
                },
            },
            Some(_) => Err(ProjectionError::WrongType(Field::Name)),
        },
        _ => Err(ProjectionError::NotADictionary),
    }
}

/// The projection of a whole metainfo dictionary, through its `info` entry.
pub open spec fn torrent_model(v: Bencode) -> Result<InfoModel, ProjectionError> {
    match v {
        Bencode::Dict(e) => match lookup(e, field_key(Field::Info)) {
            None => Err(ProjectionError::MissingField(Field::Info)),
            Some(info) => info_model(info),
        },
        _ => Err(ProjectionError::NotADictionary),
    }
}

} // verus!

verus! {

/// One file of a multi-file torrent.
#[derive(Debug)]
pub struct File {
    pub length: i64,
    pub path: Vec<String>,
}

/// The info dictionary of a torrent: exactly one of `length` (one file) and
/// `files` (several) is present.
#[derive(Debug)]
pub struct Info {
    pub name: String,
    pub piece_length: i64,
    pub pieces: Vec<u8>,
    pub length: Option<i64>,
    pub files: Option<Vec<File>>,
}

/// A torrent metainfo file, as far as the projection reads it.
#[derive(Debug)]
pub struct TorrentFile {
    pub info: Info,
}

pub open spec fn strings_model(p: Seq<String>) -> Seq<Seq<char>> {
    Seq::new(p.len(), |i: int| p[i]@)
}

pub open spec fn files_seq_model(fs: Seq<File>) -> Seq<FileModel> {
    Seq::new(fs.len(), |i: int| fs[i].model())
}

impl File {
    pub open spec fn model(&self) -> FileModel {
        FileModel { length: self.length as int, path: strings_model(self.path@) }
    }
}

impl Info {
    pub open spec fn wf(&self) -> bool {
        self.length is Some != self.files is Some
    }

    pub open spec fn model(&self) -> InfoModel {
        InfoModel {
            name: self.name@,
            piece_length: self.piece_length as int,
            pieces: self.pieces@,
            layout: match self.files {
                Some(fs) => LayoutModel::Multi(files_seq_model(fs@)),
                None => LayoutModel::Single(
                    match self.length {
                        Some(n) => n as int,
                        None => 0,
                    },
                ),
            },
        }
    }

    /// The hash of piece `i`: the `i`-th run of `PIECE_HASH_LEN` bytes of
    /// `pieces`.
    pub fn piece_hash(&self, i: usize) -> (r: Vec<u8>)
        requires
            i < self.pieces@.len() / (PIECE_HASH_LEN as nat),
        ensures
            r@ == self.pieces@.subrange(
                i * PIECE_HASH_LEN as int,
                (i + 1) * PIECE_HASH_LEN as int,
            ),
    {
        let len = self.pieces.len();
        assert((i + 1) * 20 <= len) by (nonlinear_arith)
            requires
                i < len / 20,
        ;
        let start = i * PIECE_HASH_LEN;
        copy_range(self.pieces.as_slice(), start, start + PIECE_HASH_LEN)
    }

    /// The number of pieces, one hash each.
    pub fn piece_count(&self) -> (r: usize)
        ensures
            r == self.pieces@.len() / (PIECE_HASH_LEN as nat),
    {
        self.pieces.len() / PIECE_HASH_LEN
    }
}

/// Where a prefix of the segments already fails, the whole fails alike.
proof fn lemma_path_err_extends(s: Seq<Bencode>, j: int)
    requires
        0 <= j <= s.len(),
        path_model(s.take(j)) is Err,
    ensures
        path_model(s) == path_model(s.take(j)),
    decreases s.len(),
{
    if j == s.len() {
        assert(s.take(j) =~= s);
    } else {
        assert(s.drop_last().take(j) =~= s.take(j));
        lemma_path_err_extends(s.drop_last(), j);
    }
}

/// Where a prefix of the entries already fails, the whole fails alike.
proof fn lemma_files_err_extends(s: Seq<Bencode>, j: int)
    requires
        0 <= j <= s.len(),
        files_model(s.take(j)) is Err,
    ensures
        files_model(s) == files_model(s.take(j)),
    decreases s.len(),
{
    if j == s.len() {
        assert(s.take(j) =~= s);
    } else {
        assert(s.drop_last().take(j) =~= s.take(j));
        lemma_files_err_extends(s.drop_last(), j);
    }
}

/// The first entry whose key is `k`.
fn find<'a>(entries: &'a Vec<(Vec<u8>, Value)>, k: &Vec<u8>) -> (r: Option<&'a Value>)
    ensures
        match r {
            Some(v) => lookup(entries_model(entries@), k@) == Some(v.model()),
            None => lookup(entries_model(entries@), k@) is None,
        },
{
    let ghost m = entries_model(entries@);
    let mut i: usize = 0;
    assert(m.subrange(0, m.len() as int) =~= m);
    while i < entries.len()
        invariant
            0 <= i <= entries@.len(),
            m == entries_model(entries@),
            lookup(m.subrange(i as int, m.len() as int), k@) == lookup(m, k@),
        decreases entries@.len() - i,
    {
        let ghost rest = m.subrange(i as int, m.len() as int);
        assert(rest[0] == m[i as int]);
        if bytes_equal(entries[i].0.as_slice(), k.as_slice()) {
            return Some(&entries[i].1);
        }
        assert(rest.drop_first() =~= m.subrange(i + 1, m.len() as int));
        i = i + 1;
    }
    assert(m.subrange(i as int, m.len() as int) =~= Seq::<(Seq<u8>, Bencode)>::empty());
    None
}

/// The value under `key` in a dictionary; `None` where the key is absent or
/// `v` is not a dictionary.
pub fn dictionary_get<'a>(v: &'a Value, key: &Vec<u8>) -> (r: Option<&'a Value>)
    ensures
        match v.model() {
            Bencode::Dict(e) => match r {
                Some(x) => lookup(e, key@) == Some(x.model()),
                None => lookup(e, key@) is None,
            },
            _ => r is None,
        },
{
    match v {
        Value::Dictionary(entries) => {
            proof {
                lemma_dict_model(v);
            }
            find(entries, key)
        },
        _ => None,
    }
}

fn find_field<'a>(entries: &'a Vec<(Vec<u8>, Value)>, f: Field) -> (r: Option<&'a Value>)
    ensures
        match r {
            Some(v) => lookup(entries_model(entries@), field_key(f)) == Some(v.model()),
            None => lookup(entries_model(entries@), field_key(f)) is None,
        },
{
    let k = f.key();
    find(entries, &k)
}

fn project_path(segs: &Vec<Value>) -> (r: Result<Vec<String>, ProjectionError>)
    ensures
        match r {
            Ok(p) => path_model(items_model(segs@)) == Ok::<Seq<Seq<char>>, ProjectionError>(strings_model(p@)),
            Err(e) => path_model(items_model(segs@)) == Err::<Seq<Seq<char>>, ProjectionError>(e),
        },
{
    let ghost m = items_model(segs@);
    let mut out: Vec<String> = Vec::new();
    let mut i: usize = 0;
    proof {
        assert(m.take(0) =~= Seq::<Bencode>::empty());
        assert(strings_model(out@) =~= Seq::<Seq<char>>::empty());
    }
    while i < segs.len()
        invariant
            0 <= i <= segs@.len(),
            m == items_model(segs@),
            path_model(m.take(i as int)) == Ok::<Seq<Seq<char>>, ProjectionError>(strings_model(out@)),
        decreases segs@.len() - i,
    {
        let ghost prev = strings_model(out@);
        proof {
            assert(m.take(i + 1).drop_last() =~= m.take(i as int));
            assert(m.take(i + 1).last() == segs@[i as int].model());
        }
        match &segs[i] {
            Value::ByteString(b) => {
                match utf8_to_string(slice_to_vec(b.as_slice())) {
                    Some(t) => {
                        out.push(t);
                        proof {
                            assert(strings_model(out@) =~= prev.push(t@));
                        }
                    },
                    None => {
                        proof {
                            lemma_path_err_extends(m, i + 1);
                        }
                        return Err(ProjectionError::InvalidEncoding(Field::Path));
                    },
                }
            },
            _ => {
                proof {
                    lemma_path_err_extends(m, i + 1);
                }
                return Err(ProjectionError::WrongType(Field::Path));
            },
        }
        i = i + 1;
    }
    proof {
        assert(m.take(i as int) =~= m);
    }
    Ok(out)
}

fn project_file(v: &Value) -> (r: Result<File, ProjectionError>)
    ensures
        match r {
            Ok(f) => file_model(v.model()) == Ok::<FileModel, ProjectionError>(f.model()),
            Err(e) => file_model(v.model()) == Err::<FileModel, ProjectionError>(e),
        },
{
    match v {
        Value::Dictionary(entries) => {
            proof {
                lemma_dict_model(v);
            }
            let length = match find_field(entries, Field::Length) {
                None => return Err(ProjectionError::MissingField(Field::Length)),
                Some(Value::Integer(n)) => *n,
                Some(_) => return Err(ProjectionError::WrongType(Field::Length)),
            };
            match find_field(entries, Field::Path) {
                None => Err(ProjectionError::MissingField(Field::Path)),
                Some(p) => match p {
                    Value::List(segs) => {
                        proof {
                            lemma_list_model(p);
                        }
                        match project_path(segs) {
                            Ok(path) => Ok(File { length, path }),
                            Err(e) => Err(e),
                        }
                    },
                    _ => Err(ProjectionError::WrongType(Field::Path)),
                },
            }
        },
        _ => Err(ProjectionError::NotADictionary),
    }
}

fn project_files(fs: &Vec<Value>) -> (r: Result<Vec<File>, ProjectionError>)
    ensures
        match r {
            Ok(out) => files_model(items_model(fs@)) == Ok::<Seq<FileModel>, ProjectionError>(files_seq_model(out@)),
            Err(e) => files_model(items_model(fs@)) == Err::<Seq<FileModel>, ProjectionError>(e),
        },
{
    let ghost m = items_model(fs@);
    let mut out: Vec<File> = Vec::new();
    let mut i: usize = 0;
    proof {
        assert(m.take(0) =~= Seq::<Bencode>::empty());
        assert(files_seq_model(out@) =~= Seq::<FileModel>::empty());
    }
    while i < fs.len()
        invariant
            0 <= i <= fs@.len(),
            m == items_model(fs@),
            files_model(m.take(i as int)) == Ok::<Seq<FileModel>, ProjectionError>(files_seq_model(out@)),
        decreases fs@.len() - i,
    {
        let ghost prev = files_seq_model(out@);
        proof {
            assert(m.take(i + 1).drop_last() =~= m.take(i as int));
            assert(m.take(i + 1).last() == fs@[i as int].model());
        }
        match project_file(&fs[i]) {
            Ok(f) => {
                let ghost fm = f.model();
                out.push(f);
                proof {
                    assert(files_seq_model(out@) =~= prev.push(fm));
                }
            },
            Err(e) => {
                proof {
                    lemma_files_err_extends(m, i + 1);
                }
                return Err(e);
            },
        }
        i = i + 1;
    }
    proof {
        assert(m.take(i as int) =~= m);
    }
    Ok(out)
}

} // verus!

verus! {

/// Projects an info dictionary onto its typed fields.
pub fn project_info(v: &Value) -> (r: Result<Info, ProjectionError>)
    ensures
        match r {
            Ok(info) => info.wf() && info_model(v.model()) == Ok::<InfoModel, ProjectionError>(info.model()),
            Err(e) => info_model(v.model()) == Err::<InfoModel, ProjectionError>(e),
        },
{
    let entries = match v {
        Value::Dictionary(entries) => entries,
        _ => return Err(ProjectionError::NotADictionary),
    };
    proof {
        lemma_dict_model(v);
    }
    let name = match find_field(entries, Field::Name) {
        None => return Err(ProjectionError::MissingField(Field::Name)),
        Some(Value::ByteString(b)) => match utf8_to_string(slice_to_vec(b.as_slice())) {
            Some(t) => t,
            None => return Err(ProjectionError::InvalidEncoding(Field::Name)),
        },
        Some(_) => return Err(ProjectionError::WrongType(Field::Name)),
    };
    let piece_length = match find_field(entries, Field::PieceLength) {
        None => return Err(ProjectionError::MissingField(Field::PieceLength)),
        Some(Value::Integer(n)) => *n,
        Some(_) => return Err(ProjectionError::WrongType(Field::PieceLength)),
    };
    if piece_length <= 0 {
        return Err(ProjectionError::InvalidPieceLength);
    }
    let pieces = match find_field(entries, Field::Pieces) {
        None => return Err(ProjectionError::MissingField(Field::Pieces)),
        Some(Value::ByteString(b)) => slice_to_vec(b.as_slice()),
        Some(_) => return Err(ProjectionError::WrongType(Field::Pieces)),
    };
    if pieces.len() % PIECE_HASH_LEN != 0 {
        return Err(ProjectionError::InvalidPiecesLength);
    }
    let length_entry = find_field(entries, Field::Length);
    let files_entry = find_field(entries, Field::Files);
    match (length_entry, files_entry) {
        (Some(Value::Integer(n)), None) => Ok(
            Info { name, piece_length, pieces, length: Some(*n), files: None },
        ),
        (Some(_), None) => Err(ProjectionError::WrongType(Field::Length)),
        (None, Some(fv)) => match fv {
            Value::List(fs) => {
                proof {
                    lemma_list_model(fv);
                }
                match project_files(fs) {
                    Ok(files) => Ok(Info { name, piece_length, pieces, length: None, files: Some(files) }),
                    Err(e) => Err(e),
                }
            },
            _ => Err(ProjectionError::WrongType(Field::Files)),
        },
        _ => Err(ProjectionError::AmbiguousLayout),
    }
}

/// Projects a whole metainfo dictionary through its `info` entry.
pub fn project(root: &Value) -> (r: Result<TorrentFile, ProjectionError>)
    ensures
        match r {
            Ok(t) => t.info.wf() && torrent_model(root.model()) == Ok::<InfoModel, ProjectionError>(t.info.model()),
            Err(e) => torrent_model(root.model()) == Err::<InfoModel, ProjectionError>(e),
        },
{
    let entries = match root {
        Value::Dictionary(entries) => entries,
        _ => return Err(ProjectionError::NotADictionary),
    };
    proof {
        lemma_dict_model(root);
    }
    match find_field(entries, Field::Info) {
        None => Err(ProjectionError::MissingField(Field::Info)),
        Some(info) => match project_info(info) {
            Ok(info) => Ok(TorrentFile { info }),
            Err(e) => Err(e),
        },
    }
}

} // verus!
