//! Output captured by the runtime as text.

use vstd::prelude::*;

use crate::text::{lossy_utf8, utf8_lossy};

verus! {

/// Bytes written by a program, read back as text.
pub struct StringOutput {
    buffer: Vec<u8>,
}

impl StringOutput {
    /// Bytes written so far.
    pub closed spec fn bytes(self) -> Seq<u8> {
        self.buffer@
    }

    /// An empty output.
    pub fn new() -> (o: StringOutput)
        ensures
            o.bytes().len() == 0,
    {
        StringOutput { buffer: Vec::new() }
    }

    /// Appends `data`, returning the number of bytes written.
    pub fn write(&mut self, data: &[u8]) -> (n: usize)
        ensures
            final(self).bytes() == old(self).bytes() + data@,
            n == data@.len(),
    {
        let mut i: usize = 0;
        while i < data.len()
            invariant
                0 <= i <= data@.len(),
                self.buffer@ == old(self).buffer@ + data@.take(i as int),
            decreases data@.len() - i,
        {
            self.buffer.push(data[i]);
            i = i + 1;
            assert(self.buffer@ =~= old(self).buffer@ + data@.take(i as int));
        }
        assert(data@.take(data@.len() as int) =~= data@);
        data.len()
    }

    /// The output as text; invalid UTF-8 is replaced.
    pub fn read(&self) -> (s: String)
        ensures
            s@ == lossy_utf8(self.bytes()),
            vstd::utf8::valid_utf8(self.bytes()) ==> s@ == vstd::utf8::decode_utf8(self.bytes()),
    {
        utf8_lossy(self.buffer.as_slice())
    }
}

} // verus!
