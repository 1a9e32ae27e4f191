//! The Bencode grammar, stated as a recursive-descent reading of a byte
//! sequence. Each reader takes a position and answers with the value read and
//! the position just past its encoding, or with the kind of the first defect
//! met and the offset at which it is reported.
use vstd::prelude::*;
use crate::value::{Bencode, has_key};

verus! {

/// Containers nested deeper than this are refused.
pub const MAX_DEPTH: usize = 200;

#[derive(Debug, Clone, Copy, PartialEq, Eq, Structural)]
pub enum DecodeErrorKind {
    /// The byte at the offset starts no Bencode value, or the input ended
    /// where a value was expected.
    UnrecognizedMarker,
    /// An integer with no digits, a leading zero, `-0`, a byte other than
    /// `e` after its digits, or a value outside the range of `i64`.
    MalformedInteger,
    /// A byte-string length not followed by `:`, or with a leading zero.
    MalformedLength,
    /// The input ended inside a value.
    UnexpectedEnd,
    /// A dictionary key that is not a byte string.
    InvalidKeyType,
    /// A dictionary key that occurs twice in one dictionary.
    DuplicateKey,
    /// Containers nested deeper than `MAX_DEPTH`.
    NestingTooDeep,
}

impl DecodeErrorKind {
    /// A short description of the defect, for diagnostics.
    pub fn message(&self) -> &'static str {
        match self {
            DecodeErrorKind::UnrecognizedMarker => "no value starts here",
            DecodeErrorKind::MalformedInteger => "malformed integer",
            DecodeErrorKind::MalformedLength => "malformed byte-string length",
            DecodeErrorKind::UnexpectedEnd => "input ends inside a value",
            DecodeErrorKind::InvalidKeyType => "dictionary key is not a byte string",
            DecodeErrorKind::DuplicateKey => "dictionary key occurs twice",
            DecodeErrorKind::NestingTooDeep => "containers nested too deeply",
        }
    }
}

pub type Reading = Result<(Bencode, int), (DecodeErrorKind, int)>;

pub open spec fn is_digit(b: u8) -> bool {
    48 <= b <= 57
}

/// The end of the run of ASCII digits that starts at `p`.
pub open spec fn digits_end(s: Seq<u8>, p: int) -> int
    decreases s.len() - p,
{
    if 0 <= p < s.len() && is_digit(s[p]) {
        digits_end(s, p + 1)
    } else {
        p
    }
}

/// The number written in decimal by `s[start..end]`.
pub open spec fn digits_value(s: Seq<u8>, start: int, end: int) -> int
    decreases end - start,
{
    if end <= start {
        0
    } else {
        digits_value(s, start, end - 1) * 10 + (s[end - 1] as int - 48)
    }
}

/// An integer `i<digits>e` whose `i` stands at `p`.
pub open spec fn read_integer(s: Seq<u8>, p: int) -> Reading {
    let neg = p + 1 < s.len() && s[p + 1] == 45u8;
    let d = if neg { p + 2 } else { p + 1 };
    let e = digits_end(s, d);
    if e >= s.len() {
        Err((DecodeErrorKind::UnexpectedEnd, s.len() as int))
    } else if s[e] != 101u8 || e == d || (s[d] == 48u8 && (e > d + 1 || neg)) {
        Err((DecodeErrorKind::MalformedInteger, p))
    } else {
        let m = digits_value(s, d, e);
        let n = if neg { -m } else { m };
        if n < i64::MIN || n > i64::MAX {
            Err((DecodeErrorKind::MalformedInteger, p))
        } else {
            Ok((Bencode::Int(n), e + 1))
        }
    }
}

/// The bytes of a byte string `<length>:<bytes>` whose length starts at `p`.
pub open spec fn read_raw_bytes(s: Seq<u8>, p: int) -> Result<(Seq<u8>, int), (DecodeErrorKind, int)> {
    let e = digits_end(s, p);
    if e >= s.len() || s[e] != 58u8 || e == p || (s[p] == 48u8 && e > p + 1) {
        Err((DecodeErrorKind::MalformedLength, p))
    } else {
        let n = digits_value(s, p, e);
        if n > s.len() - (e + 1) {
            Err((DecodeErrorKind::UnexpectedEnd, s.len() as int))
        } else {
            Ok((s.subrange(e + 1, e + 1 + n), e + 1 + n))
        }
    }
}

pub open spec fn read_bytes(s: Seq<u8>, p: int) -> Reading {
    match read_raw_bytes(s, p) {
        Ok((b, q)) => Ok((Bencode::Bytes(b), q)),
        Err(e) => Err(e),
    }
}

/// The value whose encoding starts at `p`, inside `depth` containers.
pub open spec fn read_value(s: Seq<u8>, p: int, depth: nat) -> Reading
    decreases s.len() - p, 0int,
{
    if p < 0 || p >= s.len() {
        Err((DecodeErrorKind::UnrecognizedMarker, p))
    } else if s[p] == 105u8 {
        read_integer(s, p)
    } else if is_digit(s[p]) {
        read_bytes(s, p)
    } else if s[p] == 108u8 || s[p] == 100u8 {
        if depth >= MAX_DEPTH {
            Err((DecodeErrorKind::NestingTooDeep, p))
        } else if s[p] == 108u8 {
            read_list(s, p + 1, depth + 1, seq![])
        } else {
            read_dict(s, p + 1, depth + 1, seq![])
        }
    } else {
        Err((DecodeErrorKind::UnrecognizedMarker, p))
    }
}

/// The rest of a list from `p` on, after the items `acc` already read.
pub open spec fn read_list(s: Seq<u8>, p: int, depth: nat, acc: Seq<Bencode>) -> Reading
    decreases s.len() - p, 1int,
{
    if p < 0 || p >= s.len() {
        Err((DecodeErrorKind::UnexpectedEnd, s.len() as int))
    } else if s[p] == 101u8 {
        Ok((Bencode::List(acc), p + 1))
    } else {
        match read_value(s, p, depth) {
            Err(e) => Err(e),
            Ok((v, q)) => if p < q <= s.len() {
                read_list(s, q, depth, acc.push(v))
            } else {
                Err((DecodeErrorKind::UnexpectedEnd, s.len() as int))
            },
        }
    }
}

/// The rest of a dictionary from `p` on, after the entries `acc` already read.
pub open spec fn read_dict(
    s: Seq<u8>,
    p: int,
    depth: nat,
    acc: Seq<(Seq<u8>, Bencode)>,
) -> Reading
    decreases s.len() - p, 1int,
{
    if p < 0 || p >= s.len() {
        Err((DecodeErrorKind::UnexpectedEnd, s.len() as int))
    } else if s[p] == 101u8 {
        Ok((Bencode::Dict(acc), p + 1))
    } else if !is_digit(s[p]) {
        Err((DecodeErrorKind::InvalidKeyType, p))
    } else {
        match read_raw_bytes(s, p) {
            Err(e) => Err(e),
            Ok((k, q)) => if has_key(acc, k) {
                Err((DecodeErrorKind::DuplicateKey, p))
            } else if p < q < s.len() {
                match read_value(s, q, depth) {
                    Err(e) => Err(e),
                    Ok((v, r)) => if q < r <= s.len() {
                        read_dict(s, r, depth, acc.push((k, v)))
                    } else {
                        Err((DecodeErrorKind::UnexpectedEnd, s.len() as int))
                    },
                }
            } else {
                Err((DecodeErrorKind::UnexpectedEnd, s.len() as int))
            },
        }
    }
}

} // verus!

verus! {

/// What the run of digits from `p` on consists of, and where it stops.
pub proof fn lemma_digits_end(s: Seq<u8>, p: int)
    requires
        0 <= p <= s.len(),
    ensures
        p <= digits_end(s, p) <= s.len(),
        forall|k: int| p <= k < digits_end(s, p) ==> is_digit(#[trigger] s[k]),
        digits_end(s, p) < s.len() ==> !is_digit(s[digits_end(s, p)]),
    decreases s.len() - p,
{
    if p < s.len() && is_digit(s[p]) {
        lemma_digits_end(s, p + 1);
    }
}

/// A longer run of digits never writes a smaller number.
pub proof fn lemma_digits_value_monotone(s: Seq<u8>, start: int, i: int, j: int)
    requires
        start <= i <= j <= s.len(),
        0 <= start,
        forall|k: int| start <= k < j ==> is_digit(#[trigger] s[k]),
    ensures
        0 <= digits_value(s, start, i) <= digits_value(s, start, j),
    decreases j - start,
{
    if j > i {
        lemma_digits_value_monotone(s, start, i, j - 1);
        assert(is_digit(s[j - 1]));
    } else if i > start {
        lemma_digits_value_monotone(s, start, i - 1, i - 1);
        assert(is_digit(s[i - 1]));
    }
}

} // verus!
