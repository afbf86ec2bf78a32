//! A buffer holding a document's bytes followed by readable zero padding.

use vstd::prelude::*;

verus! {

/// A document's bytes followed by `padding` zero bytes.
pub struct PaddedBuffer {
    bytes: Vec<u8>,
    length: usize,
    padding: usize,
}

impl View for PaddedBuffer {
    type V = Seq<u8>;

    /// The document's bytes, without the padding.
    closed spec fn view(&self) -> Seq<u8> {
        self.bytes@.subrange(0, self.length as int)
    }
}

impl PaddedBuffer {
    /// The storage holds the data and then exactly `padding` zero bytes.
    pub closed spec fn wf(&self) -> bool {
        &&& self.bytes@.len() == self.length + self.padding
        &&& forall|i: int|
            self.length <= i < self.bytes@.len() ==> #[trigger] self.bytes@[i] == 0u8
    }

    /// Number of padding bytes after the data.
    pub closed spec fn padding_len(&self) -> nat {
        self.padding as nat
    }

    /// Copy `data` into a new buffer and follow it with `padding` zero bytes.
    pub fn new(data: &[u8], padding: usize) -> (r: Self)
        requires
            data@.len() + padding <= usize::MAX,
        ensures
            r.wf(),
            r@ == data@,
            r.padding_len() == padding,
    {
        let mut bytes = vstd::slice::slice_to_vec(data);
        let length = data.len();
        let mut i: usize = 0;
        while i < padding
            invariant
                i <= padding,
                length == data@.len(),
                length + padding <= usize::MAX,
                bytes@.len() == length + i,
                bytes@.subrange(0, length as int) == data@,
                forall|k: int| length <= k < bytes@.len() ==> #[trigger] bytes@[k] == 0u8,
            decreases padding - i,
        {
            bytes.push(0u8);
            assert(bytes@.subrange(0, length as int) =~= data@);
            i = i + 1;
        }
        PaddedBuffer { bytes, length, padding }
    }

    /// The data, without the padding.
    pub fn data(&self) -> (r: &[u8])
        requires
            self.wf(),
        ensures
            r@ == self@,
    {
        vstd::slice::slice_subrange(self.bytes.as_slice(), 0, self.length)
    }

    /// Length of the data, without the padding.
    pub fn len(&self) -> (r: usize)
        requires
            self.wf(),
        ensures
            r == self@.len(),
    {
        self.length
    }

    /// Whether the data is empty.
    pub fn is_empty(&self) -> (r: bool)
        requires
            self.wf(),
        ensures
            r == (self@.len() == 0),
    {
        self.length == 0
    }
}

} // verus!
