//! The executable decoder. Every reader here answers exactly as its
//! counterpart in `grammar` does.
use vstd::prelude::*;
use crate::value::{Bencode, Value, entries_model, has_key, items_model};
use crate::grammar::{
    DecodeErrorKind, MAX_DEPTH, Reading, read_dict, read_list, read_value, digits_end, digits_value, is_digit, lemma_digits_end,
    lemma_digits_value_monotone, read_integer, read_raw_bytes,
};

verus! {

/// A decoding failure: its kind and the byte offset at which it is reported.
#[derive(Debug, Clone, Copy, PartialEq, Eq, Structural)]
pub struct DecodeError {
    pub kind: DecodeErrorKind,
    pub offset: usize,
}

/// `r` answers as the grammar's reading `g` does: the same value (by its
/// model) and end position, or the same error kind and offset.
pub open spec fn answers_value(r: Result<(Value, usize), DecodeError>, g: Reading) -> bool {
    match r {
        Ok((v, n)) => g == Ok::<(Bencode, int), (DecodeErrorKind, int)>((v.model(), n as int)),
        Err(e) => g == Err::<(Bencode, int), (DecodeErrorKind, int)>((e.kind, e.offset as int)),
    }
}

fn fail<T>(kind: DecodeErrorKind, offset: usize) -> (r: Result<T, DecodeError>)
    ensures
        r == Err::<T, DecodeError>(DecodeError { kind, offset }),
{
    Err(DecodeError { kind, offset })
}

fn scan_digits(s: &[u8], p: usize) -> (e: usize)
    requires
        p <= s@.len(),
    ensures
        e == digits_end(s@, p as int),
{
    let mut i: usize = p;
    while i < s.len() && 48 <= s[i] && s[i] <= 57
        invariant
            p <= i <= s@.len(),
            digits_end(s@, i as int) == digits_end(s@, p as int),
        decreases s@.len() - i,
    {
        i = i + 1;
    }
    i
}

/// The number written by the digits `s[start..end]`, if it is at most `limit`.
fn digits_value_upto(s: &[u8], start: usize, end: usize, limit: u64) -> (r: Option<u64>)
    requires
        start <= end <= s@.len(),
        forall|k: int| start <= k < end ==> is_digit(#[trigger] s@[k]),
    ensures
        r is Some <==> digits_value(s@, start as int, end as int) <= limit,
        r is Some ==> r->0 == digits_value(s@, start as int, end as int),
{
    let mut acc: u64 = 0;
    let mut i: usize = start;
    while i < end
        invariant
            start <= i <= end <= s@.len(),
            forall|k: int| start <= k < end ==> is_digit(#[trigger] s@[k]),
            acc == digits_value(s@, start as int, i as int),
            acc <= limit,
        decreases end - i,
    {
        assert(is_digit(s@[i as int]));
        let next: u128 = (acc as u128) * 10 + ((s[i] - 48) as u128);
        if next > limit as u128 {
            proof {
                lemma_digits_value_monotone(s@, start as int, i as int + 1, end as int);
            }
            return None;
        }
        acc = next as u64;
        i = i + 1;
    }
    Some(acc)
}

fn decode_integer(s: &[u8], p: usize) -> (r: Result<(Value, usize), DecodeError>)
    requires
        p < s@.len(),
        s@[p as int] == 105u8,
    ensures
        answers_value(r, read_integer(s@, p as int)),
        r matches Ok((_, q)) ==> p < q <= s@.len(),
{
    let neg = s.len() - p > 1 && s[p + 1] == 45u8;
    let d = if neg { p + 2 } else { p + 1 };
    let e = scan_digits(s, d);
    proof {
        lemma_digits_end(s@, d as int);
    }
    if e >= s.len() {
        return fail(DecodeErrorKind::UnexpectedEnd, s.len());
    }
    if s[e] != 101u8 || e == d || (s[d] == 48u8 && (e > d + 1 || neg)) {
        return fail(DecodeErrorKind::MalformedInteger, p);
    }
    let limit: u64 = if neg { 9223372036854775808 } else { 9223372036854775807 };
    match digits_value_upto(s, d, e, limit) {
        None => fail(DecodeErrorKind::MalformedInteger, p),
        Some(m) => {
            let n: i64 = if !neg {
                m as i64
            } else if m == 9223372036854775808 {
                i64::MIN
            } else {
                -(m as i64)
            };
            Ok((Value::Integer(n), e + 1))
        },
    }
}

pub(crate) fn copy_range(s: &[u8], a: usize, b: usize) -> (r: Vec<u8>)
    requires
        a <= b <= s@.len(),
    ensures
        r@ == s@.subrange(a as int, b as int),
{
    let mut out: Vec<u8> = Vec::new();
    let mut i: usize = a;
    while i < b
        invariant
            a <= i <= b <= s@.len(),
            out@ == s@.subrange(a as int, i as int),
        decreases b - i,
    {
        out.push(s[i]);
        i = i + 1;
    }
    out
}

pub(crate) fn decode_raw_bytes(s: &[u8], p: usize) -> (r: Result<(Vec<u8>, usize), DecodeError>)
    requires
        p < s@.len(),
    ensures
        match r {
            Ok((b, q)) => read_raw_bytes(s@, p as int) == Ok::<(Seq<u8>, int), (DecodeErrorKind, int)>((b@, q as int)),
            Err(e) => read_raw_bytes(s@, p as int) == Err::<(Seq<u8>, int), (DecodeErrorKind, int)>((e.kind, e.offset as int)),
        },
        r matches Ok((_, q)) ==> p < q <= s@.len(),
{
    let e = scan_digits(s, p);
    proof {
        lemma_digits_end(s@, p as int);
    }
    if e >= s.len() || s[e] != 58u8 || e == p || (s[p] == 48u8 && e > p + 1) {
        return fail(DecodeErrorKind::MalformedLength, p);
    }
    let room = s.len() - (e + 1);
    match digits_value_upto(s, p, e, room as u64) {
        None => fail(DecodeErrorKind::UnexpectedEnd, s.len()),
        Some(n) => {
            let n = n as usize;
            let b = copy_range(s, e + 1, e + 1 + n);
            Ok((b, e + 1 + n))
        },
    }
}

pub(crate) fn bytes_equal(a: &[u8], b: &[u8]) -> (r: bool)
    ensures
        r == (a@ == b@),
{
    if a.len() != b.len() {
        return false;
    }
    let mut i: usize = 0;
    while i < a.len()
        invariant
            a@.len() == b@.len(),
            0 <= i <= a@.len(),
            a@.subrange(0, i as int) == b@.subrange(0, i as int),
        decreases a@.len() - i,
    {
        if a[i] != b[i] {
            return false;
        }
        assert(a@.subrange(0, i + 1) == a@.subrange(0, i as int).push(a@[i as int]));
        assert(b@.subrange(0, i + 1) == b@.subrange(0, i as int).push(b@[i as int]));
        i = i + 1;
    }
    assert(a@ == a@.subrange(0, a@.len() as int));
    assert(b@ == b@.subrange(0, b@.len() as int));
    true
}

fn contains_key(entries: &Vec<(Vec<u8>, Value)>, k: &Vec<u8>) -> (r: bool)
    ensures
        r == has_key(entries_model(entries@), k@),
{
    let ghost m = entries_model(entries@);
    let mut i: usize = 0;
    while i < entries.len()
        invariant
            0 <= i <= entries@.len(),
            m == entries_model(entries@),
            forall|j: int| 0 <= j < i ==> m[j].0 != k@,
        decreases entries@.len() - i,
    {
        if bytes_equal(entries[i].0.as_slice(), k.as_slice()) {
            assert(m[i as int].0 == k@);
            return true;
        }
        i = i + 1;
    }
    false
}

} // verus!

verus! {

/// Decodes the value whose encoding starts at `p`, inside `depth` containers.
fn decode_at(s: &[u8], p: usize, depth: usize) -> (r: Result<(Value, usize), DecodeError>)
    requires
        depth <= MAX_DEPTH,
    ensures
        answers_value(r, read_value(s@, p as int, depth as nat)),
        r matches Ok((_, q)) ==> p < q <= s@.len(),
    decreases s@.len() - p,
{
    if p >= s.len() {
        return fail(DecodeErrorKind::UnrecognizedMarker, p);
    }
    let marker = s[p];
    if marker == 105u8 {
        decode_integer(s, p)
    } else if 48 <= marker && marker <= 57 {
        match decode_raw_bytes(s, p) {
            Ok((b, q)) => Ok((Value::ByteString(b), q)),
            Err(e) => Err(e),
        }
    } else if marker == 108u8 || marker == 100u8 {
        if depth >= MAX_DEPTH {
            return fail(DecodeErrorKind::NestingTooDeep, p);
        }
        if marker == 108u8 {
            decode_list(s, p, depth + 1)
        } else {
            decode_dict(s, p, depth + 1)
        }
    } else {
        fail(DecodeErrorKind::UnrecognizedMarker, p)
    }
}

fn decode_list(s: &[u8], p: usize, depth: usize) -> (r: Result<(Value, usize), DecodeError>)
    requires
        p < s@.len(),
        1 <= depth <= MAX_DEPTH,
    ensures
        answers_value(r, read_list(s@, p + 1, depth as nat, seq![])),
        r matches Ok((_, q)) ==> p < q <= s@.len(),
    decreases s@.len() - p, 0nat,
{
    let len = s.len();
    let mut items: Vec<Value> = Vec::new();
    let mut q: usize = p + 1;
    proof {
        assert(items_model(items@) =~= seq![]);
    }
    loop
        invariant
            p < q <= s@.len(),
            len == s@.len(),
            1 <= depth <= MAX_DEPTH,
            read_list(s@, q as int, depth as nat, items_model(items@))
                == read_list(s@, p + 1, depth as nat, seq![]),
        decreases s@.len() - q,
    {
        if q >= len {
            return fail(DecodeErrorKind::UnexpectedEnd, len);
        }
        if s[q] == 101u8 {
            let ghost m = items_model(items@);
            let v = Value::List(items);
            proof {
                assert(v.model()->List_0 =~= m);
            }
            return Ok((v, q + 1));
        }
        match decode_at(s, q, depth) {
            Err(e) => return Err(e),
            Ok((v, r)) => {
                let ghost before = items_model(items@);
                items.push(v);
                proof {
                    assert(items_model(items@) =~= before.push(v.model()));
                }
                q = r;
            },
        }
    }
}

fn decode_dict(s: &[u8], p: usize, depth: usize) -> (r: Result<(Value, usize), DecodeError>)
    requires
        p < s@.len(),
        1 <= depth <= MAX_DEPTH,
    ensures
        answers_value(r, read_dict(s@, p + 1, depth as nat, seq![])),
        r matches Ok((_, q)) ==> p < q <= s@.len(),
    decreases s@.len() - p, 0nat,
{
    let len = s.len();
    let mut entries: Vec<(Vec<u8>, Value)> = Vec::new();
    let mut q: usize = p + 1;
    proof {
        assert(entries_model(entries@) =~= seq![]);
    }
    loop
        invariant
            p < q <= s@.len(),
            len == s@.len(),
            1 <= depth <= MAX_DEPTH,
            read_dict(s@, q as int, depth as nat, entries_model(entries@))
                == read_dict(s@, p + 1, depth as nat, seq![]),
        decreases s@.len() - q,
    {
        if q >= len {
            return fail(DecodeErrorKind::UnexpectedEnd, len);
        }
        if s[q] == 101u8 {
            let ghost m = entries_model(entries@);
            let v = Value::Dictionary(entries);
            proof {
                assert(v.model()->Dict_0 =~= m);
            }
            return Ok((v, q + 1));
        }
        if !(48 <= s[q] && s[q] <= 57) {
            return fail(DecodeErrorKind::InvalidKeyType, q);
        }
        let (k, kq) = match decode_raw_bytes(s, q) {
            Err(e) => return Err(e),
            Ok(found) => found,
        };
        if contains_key(&entries, &k) {
            return fail(DecodeErrorKind::DuplicateKey, q);
        }
        if kq >= len {
            return fail(DecodeErrorKind::UnexpectedEnd, len);
        }
        match decode_at(s, kq, depth) {
            Err(e) => return Err(e),
            Ok((v, r)) => {
                let ghost before = entries_model(entries@);
                entries.push((k, v));
                proof {
                    assert(entries_model(entries@) =~= before.push((k@, v.model())));
                }
                q = r;
            },
        }
    }
}

} // verus!

verus! {

/// Decodes the value whose encoding starts the buffer, and reports how many
/// bytes its encoding takes. Bytes after it are left unread.
pub fn decode(bytes: &[u8]) -> (r: Result<(Value, usize), DecodeError>)
    ensures
        answers_value(r, read_value(bytes@, 0, 0)),
        r matches Ok((_, n)) ==> 0 < n <= bytes@.len(),
{
    decode_at(bytes, 0, 0)
}

/// Decodes the value whose encoding starts at `pos`.
pub fn decode_from(bytes: &[u8], pos: usize) -> (r: Result<(Value, usize), DecodeError>)
    ensures
        answers_value(r, read_value(bytes@, pos as int, 0)),
        r matches Ok((_, q)) ==> pos < q <= bytes@.len(),
{
    decode_at(bytes, pos, 0)
}

} // verus!
