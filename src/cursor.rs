//! A read position over a byte buffer.
use vstd::prelude::*;
use vstd::slice::slice_subrange;
use crate::value::{Bencode, Value};
use crate::grammar::{DecodeErrorKind, read_value};
use crate::decoder::{DecodeError, decode_from};

verus! {

pub struct ByteCursor<'a> {
    bytes: &'a [u8],
    pos: usize,
}

impl<'a> ByteCursor<'a> {
    pub closed spec fn bytes(&self) -> Seq<u8> {
        self.bytes@
    }

    pub closed spec fn pos(&self) -> int {
        self.pos as int
    }

    pub open spec fn wf(&self) -> bool {
        0 <= self.pos() <= self.bytes().len()
    }

    pub fn new(bytes: &'a [u8]) -> (c: ByteCursor<'a>)
        ensures
            c.wf(),
            c.bytes() == bytes@,
            c.pos() == 0,
    {
        ByteCursor { bytes, pos: 0 }
    }

    /// The byte at the position, if any; the position stays.
    pub fn peek(&self) -> (r: Option<u8>)
        requires
            self.wf(),
        ensures
            self.pos() < self.bytes().len() ==> r == Some(self.bytes()[self.pos()]),
            self.pos() >= self.bytes().len() ==> r is None,
    {
        if self.pos < self.bytes.len() {
            Some(self.bytes[self.pos])
        } else {
            None
        }
    }

    /// The next `n` bytes; the position moves past them. Fails, and stays,
    /// where fewer than `n` bytes remain.
    pub fn advance(&mut self, n: usize) -> (r: Result<&'a [u8], DecodeError>)
        requires
            old(self).wf(),
        ensures
            final(self).wf(),
            final(self).bytes() == old(self).bytes(),
            match r {
                Ok(b) => n <= old(self).bytes().len() - old(self).pos()
                    && b@ == old(self).bytes().subrange(old(self).pos(), old(self).pos() + n)
                    && final(self).pos() == old(self).pos() + n,
                Err(e) => n > old(self).bytes().len() - old(self).pos()
                    && e == (DecodeError { kind: DecodeErrorKind::UnexpectedEnd, offset: old(self).bytes().len() as usize })
                    && final(self).pos() == old(self).pos(),
            },
    {
        if n > self.bytes.len() - self.pos {
            return Err(DecodeError { kind: DecodeErrorKind::UnexpectedEnd, offset: self.bytes.len() });
        }
        let b = slice_subrange(self.bytes, self.pos, self.pos + n);
        self.pos = self.pos + n;
        Ok(b)
    }

    pub fn position(&self) -> (r: usize)
        ensures
            r == self.pos(),
    {
        self.pos
    }

    pub fn remaining(&self) -> (r: usize)
        requires
            self.wf(),
        ensures
            r == self.bytes().len() - self.pos(),
    {
        self.bytes.len() - self.pos
    }

    /// Decodes the value whose encoding starts at the position and moves past
    /// it; answers with the value and the length of its encoding. On failure
    /// the position stays.
    pub fn decode_value(&mut self) -> (r: Result<(Value, usize), DecodeError>)
        requires
            old(self).wf(),
        ensures
            final(self).wf(),
            final(self).bytes() == old(self).bytes(),
            match r {
                Ok((v, n)) => read_value(old(self).bytes(), old(self).pos(), 0)
                    == Ok::<(Bencode, int), (DecodeErrorKind, int)>((v.model(), old(self).pos() + n))
                    && final(self).pos() == old(self).pos() + n,
                Err(e) => read_value(old(self).bytes(), old(self).pos(), 0)
                    == Err::<(Bencode, int), (DecodeErrorKind, int)>((e.kind, e.offset as int))
                    && final(self).pos() == old(self).pos(),
            },
    {
        match decode_from(self.bytes, self.pos) {
            Ok((v, q)) => {
                let n = q - self.pos;
                self.pos = q;
                Ok((v, n))
            },
            Err(e) => Err(e),
        }
    }
}

} // verus!
