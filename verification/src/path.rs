//! The path buffer: one growable byte string that holds the path of the node
//! being visited, extended on the way down and cut back on the way up.

use crate::literal::{push_bytes, push_index, DOT, LEFT_BRACKET, RIGHT_BRACKET};
use crate::model::{index_segment, key_segment};
use vstd::prelude::*;
use vstd::utf8::encode_utf8;

verus! {

pub struct PathBuffer {
    bytes: Vec<u8>,
}

impl View for PathBuffer {
    type V = Seq<u8>;

    closed spec fn view(&self) -> Seq<u8> {
        self.bytes@
    }
}

impl PathBuffer {
    /// A buffer that holds the root name `prefix`.
    pub fn new(prefix: &str) -> (path: PathBuffer)
        ensures
            path@ == encode_utf8(prefix@),
    {
        let mut bytes: Vec<u8> = Vec::new();
        push_bytes(&mut bytes, prefix.as_bytes());
        PathBuffer { bytes }
    }

    /// The length of the path in bytes.
    pub fn len(&self) -> (n: usize)
        ensures
            n == self@.len(),
    {
        self.bytes.len()
    }

    /// The path.
    pub fn as_bytes(&self) -> (bytes: &[u8])
        ensures
            bytes@ == self@,
    {
        self.bytes.as_slice()
    }

    /// Extends the path by a dot and `key`, the key as it is.
    pub fn append_object_key(&mut self, key: &str)
        ensures
            final(self)@ == old(self)@ + key_segment(encode_utf8(key@)),
    {
        self.bytes.push(DOT);
        push_bytes(&mut self.bytes, key.as_bytes());
        assert(self@ =~= old(self)@ + key_segment(encode_utf8(key@)));
    }

    /// Extends the path by `index` in decimal between square brackets.
    pub fn append_array_index(&mut self, index: usize)
        ensures
            final(self)@ == old(self)@ + index_segment(index as int),
    {
        self.bytes.push(LEFT_BRACKET);
        push_index(&mut self.bytes, index);
        self.bytes.push(RIGHT_BRACKET);
        assert(self@ =~= old(self)@ + index_segment(index as int));
    }

    /// Cuts the path back to its first `len` bytes. A path that is no longer
    /// than `len` stays as it is.
    pub fn truncate_to(&mut self, len: usize)
        ensures
            final(self)@ == if len <= old(self)@.len() {
                old(self)@.take(len as int)
            } else {
                old(self)@
            },
    {
        self.bytes.truncate(len);
    }
}

} // verus!
