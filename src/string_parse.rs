//! Reading one byte string from the start of a buffer.
use vstd::prelude::*;
use vstd::slice::slice_to_vec;
use crate::grammar::{DecodeErrorKind, read_raw_bytes};
use crate::decoder::{DecodeError, decode_raw_bytes};
use crate::text::{utf8_text, utf8_to_string};

verus! {

/// A byte string: raw bytes, not necessarily text.
pub struct BencodeString {
    pub value: Vec<u8>,
}

impl BencodeString {
    /// The bytes read as UTF-8 text, or `None` where they are not valid UTF-8.
    pub fn as_text(&self) -> (r: Option<String>)
        ensures
            match r {
                Some(t) => utf8_text(self.value@) == Some(t@),
                None => utf8_text(self.value@) is None,
            },
    {
        utf8_to_string(slice_to_vec(self.value.as_slice()))
    }
}

/// A byte string read from the start of a buffer, with the length of its
/// encoding.
pub struct StringParsingSuccess {
    parsed_object: BencodeString,
    bencode_size: usize,
}

#[derive(Debug, Clone, Copy, PartialEq, Eq, Structural)]
pub enum BencodeError {
    /// The buffer does not start with a well-formed byte string.
    InvalidFormat(DecodeError),
}

impl StringParsingSuccess {
    pub closed spec fn bytes(&self) -> Seq<u8> {
        self.parsed_object.value@
    }

    pub closed spec fn size(&self) -> int {
        self.bencode_size as int
    }

    pub fn get_parsed_object(&self) -> (r: &BencodeString)
        ensures
            r.value@ == self.bytes(),
    {
        &self.parsed_object
    }

    pub fn get_bencode_size(&self) -> (r: usize)
        ensures
            r == self.size(),
    {
        self.bencode_size
    }
}

/// Reads the byte string `<length>:<bytes>` that starts the buffer. Its bytes
/// are kept as they are; bytes after it are left unread.
pub fn parse_string(bytes: &Vec<u8>) -> (r: Result<StringParsingSuccess, BencodeError>)
    ensures
        match read_raw_bytes(bytes@, 0) {
            Ok((b, n)) => r matches Ok(ok) && ok.bytes() == b && ok.size() == n,
            Err((kind, offset)) => r matches Err(BencodeError::InvalidFormat(e))
                && e.kind == kind && e.offset == offset,
        },
{
    if bytes.len() == 0 {
        return Err(BencodeError::InvalidFormat(DecodeError { kind: DecodeErrorKind::MalformedLength, offset: 0 }));
    }
    match decode_raw_bytes(bytes.as_slice(), 0) {
        Err(e) => Err(BencodeError::InvalidFormat(e)),
        Ok((value, n)) => Ok(StringParsingSuccess { parsed_object: BencodeString { value }, bencode_size: n }),
    }
}

} // verus!
