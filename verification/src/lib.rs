//! Conversion of JSON values into gron text: one line for each node, each
//! line a path and the literal bound to it, so that the result is easy to
//! search and to compare line by line.

use crate::model::gron_text;
use crate::value::Json;
use vstd::prelude::*;
use vstd::utf8::encode_utf8;

pub mod engine;
pub mod format;
pub mod laws;
pub mod literal;
pub mod model;
pub mod order;
pub mod path;
pub mod text;
pub mod value;

verus! {

/// What can be written out as gron text: anything that stands for a JSON
/// value.
pub trait ToGron {
    /// The JSON value that `self` stands for.
    spec fn json(&self) -> Json;

    /// Appends to `out` the gron text of `self` under the root name `prefix`.
    fn to_gron(&self, out: &mut Vec<u8>, prefix: &str)
        ensures
            final(out)@ == old(out)@ + gron_text(encode_utf8(prefix@), self.json()),
    ;
}

/// Appends to `out` the gron text of `json` under the root name `prefix`:
/// the line of the value itself, then the lines of its descendants in
/// pre-order.
pub fn json_to_gron<T: ToGron>(out: &mut Vec<u8>, prefix: &str, json: &T)
    ensures
        final(out)@ == old(out)@ + gron_text(encode_utf8(prefix@), json.json()),
{
    json.to_gron(out, prefix)
}

} // verus!
