//! A sink that encodes messages into a byte buffer.
use vstd::prelude::*;
use crate::message::{encode, Message};

verus! {

/// Encodes messages onto the end of a byte buffer.
pub struct Writer {
    writer: Vec<u8>,
}

impl Writer {
    /// The bytes written so far.
    pub closed spec fn bytes(&self) -> Seq<u8> {
        self.writer@
    }

    /// A writer that appends to `writer`.
    pub fn new(writer: Vec<u8>) -> (r: Writer)
        ensures
            r.bytes() == writer@,
    {
        Writer { writer }
    }

    /// Appends the encoding of `message`; returns how many bytes that was.
    pub fn write(&mut self, message: Message) -> (r: usize)
        ensures
            final(self).bytes() == old(self).bytes() + encode(message@),
            r == encode(message@).len(),
    {
        let mut bytes = message.marshal();
        let n = bytes.len();
        self.writer.append(&mut bytes);
        n
    }

    /// The buffer, with all that was written to it.
    pub fn into_inner(self) -> (r: Vec<u8>)
        ensures
            r@ == self.bytes(),
    {
        self.writer
    }
}

} // verus!
