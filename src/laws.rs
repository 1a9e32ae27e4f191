//! Laws that relate the decoder to the encoding and to itself.
use vstd::prelude::*;
use crate::value::{Bencode, Value};
use crate::grammar::{DecodeErrorKind, read_raw_bytes, read_value};
use crate::decoder::{DecodeError, answers_value};
use crate::encoding::{
    encode, encode_bytes, nat_digits, occurs_at, well_formed, lemma_digits_first, lemma_read_encoded,
    lemma_read_raw,
};

verus! {

/// Decoding the encoding of a well-formed value, whatever bytes follow it,
/// gives back that value, and the length consumed is the length of the
/// encoding.
pub proof fn lemma_decode_encode(v: Bencode, rest: Seq<u8>)
    requires
        well_formed(v, 0),
    ensures
        read_value(encode(v) + rest, 0, 0) == Ok::<(Bencode, int), (DecodeErrorKind, int)>(
            (v, encode(v).len() as int),
        ),
{
    let s = encode(v) + rest;
    assert(s.subrange(0, encode(v).len() as int) =~= encode(v));
    assert(occurs_at(s, 0, encode(v)));
    lemma_read_encoded(s, 0, v, 0);
}

/// A byte string `<L>:<L bytes>`, with `L` written in decimal without
/// leading zeros, decodes to exactly those bytes, consuming the digits of `L`,
/// the colon and the `L` bytes.
pub proof fn lemma_decode_byte_string(b: Seq<u8>)
    ensures
        read_value(encode_bytes(b), 0, 0) == Ok::<(Bencode, int), (DecodeErrorKind, int)>(
            (Bencode::Bytes(b), (nat_digits(b.len()).len() + 1 + b.len()) as int),
        ),
{
    let s = encode_bytes(b);
    assert(s.subrange(0, s.len() as int) =~= s);
    lemma_read_raw(s, 0, b);
    lemma_digits_first(b.len());
    assert(s[0] == nat_digits(b.len())[0]);
}

/// Decoding depends on the bytes alone: two decodings of equal buffers give
/// structurally equal values and equal lengths, or the same error.
pub proof fn lemma_decode_deterministic(
    a: Seq<u8>,
    b: Seq<u8>,
    r1: Result<(Value, usize), DecodeError>,
    r2: Result<(Value, usize), DecodeError>,
)
    requires
        a == b,
        answers_value(r1, read_value(a, 0, 0)),
        answers_value(r2, read_value(b, 0, 0)),
    ensures
        r1 is Ok <==> r2 is Ok,
        r1 matches Ok((v1, n1)) ==> r2 matches Ok((v2, n2)) && v1.model() == v2.model() && n1 == n2,
        r1 is Err ==> r1 == r2,
{
}

/// A buffer that starts with a byte string `<L>:<L bytes>`, `L` written in
/// decimal without leading zeros, is read as exactly those bytes, whatever
/// they are and whatever follows, with the digits of `L`, the colon and the
/// `L` bytes as the length of its encoding.
pub proof fn lemma_read_string_prefix(b: Seq<u8>, rest: Seq<u8>)
    ensures
        read_raw_bytes(encode_bytes(b) + rest, 0) == Ok::<(Seq<u8>, int), (DecodeErrorKind, int)>(
            (b, (nat_digits(b.len()).len() + 1 + b.len()) as int),
        ),
{
    let s = encode_bytes(b) + rest;
    assert(s.subrange(0, encode_bytes(b).len() as int) =~= encode_bytes(b));
    lemma_read_raw(s, 0, b);
}

} // verus!
