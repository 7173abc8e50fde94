//! What the conversion produces, stated over the model of a JSON value: one
//! line for each node, in pre-order.

use crate::literal::{
    bool_text, decimal, null_text, quoted, DOT, EQUALS, LEFT_BRACE, LEFT_BRACKET, NEWLINE,
    RIGHT_BRACE, RIGHT_BRACKET, SPACE,
};
use crate::value::Json;
use vstd::prelude::*;

verus! {

/// `[]`
pub open spec fn array_text() -> Seq<u8> {
    seq![LEFT_BRACKET, RIGHT_BRACKET]
}

/// `{}`
pub open spec fn object_text() -> Seq<u8> {
    seq![LEFT_BRACE, RIGHT_BRACE]
}

/// What a path grows by on the way to the member `key` of an object: a dot
/// and the key as it is.
pub open spec fn key_segment(key: Seq<u8>) -> Seq<u8> {
    seq![DOT] + key
}

/// What a path grows by on the way to the element `index` of an array: the
/// index in decimal between square brackets.
pub open spec fn index_segment(index: int) -> Seq<u8> {
    seq![LEFT_BRACKET] + decimal(index) + seq![RIGHT_BRACKET]
}

/// The line that binds `path` to `literal`.
pub open spec fn assignment(path: Seq<u8>, literal: Seq<u8>) -> Seq<u8> {
    path + seq![SPACE, EQUALS, SPACE] + literal + seq![NEWLINE]
}

impl Json {
    pub open spec fn is_container(self) -> bool {
        self is Array || self is Object
    }

    /// The number of children: zero for a scalar.
    pub open spec fn child_count(self) -> nat {
        match self {
            Json::Array(items) => items.len(),
            Json::Object(entries) => entries.len(),
            _ => 0,
        }
    }

    /// The child at position `i` of the enumeration.
    pub open spec fn child(self, i: int) -> Json {
        match self {
            Json::Array(items) => items[i],
            Json::Object(entries) => entries[i].1,
            _ => Json::Null,
        }
    }

    /// What the path of this node grows by to give the path of its child at
    /// position `i`.
    pub open spec fn segment(self, i: int) -> Seq<u8> {
        match self {
            Json::Array(_) => index_segment(i),
            Json::Object(entries) => key_segment(entries[i].0),
            _ => Seq::empty(),
        }
    }

    /// The literal on the node's own line: the value of a scalar, and the
    /// empty array or object that announces a container.
    pub open spec fn literal(self) -> Seq<u8> {
        match self {
            Json::Null => null_text(),
            Json::Bool(b) => bool_text(b),
            Json::Integer(n) => decimal(n),
            Json::Float(text) => text,
            Json::String(s) => quoted(s),
            Json::Array(_) => array_text(),
            Json::Object(_) => object_text(),
        }
    }
}

/// The lines for the value `json` at `path`: its own line, then the lines of
/// each child in turn, each child at the path that its segment gives.
pub open spec fn gron_lines(path: Seq<u8>, json: Json) -> Seq<Seq<u8>>
    decreases json, json.child_count() + 1,
{
    seq![assignment(path, json.literal())] + child_lines(path, json, 0)
}

/// The lines of the children of `json` from position `from` on.
pub open spec fn child_lines(path: Seq<u8>, json: Json, from: nat) -> Seq<Seq<u8>>
    decreases json, json.child_count() - from,
{
    if from >= json.child_count() {
        Seq::empty()
    } else {
        gron_lines(path + json.segment(from as int), json.child(from as int)) + child_lines(
            path,
            json,
            from + 1,
        )
    }
}

/// The lines one after another.
pub open spec fn concat(lines: Seq<Seq<u8>>) -> Seq<u8>
    decreases lines.len(),
{
    if lines.len() == 0 {
        Seq::empty()
    } else {
        concat(lines.drop_last()) + lines.last()
    }
}

/// The whole text for the value `json` under the root name `prefix`.
pub open spec fn gron_text(prefix: Seq<u8>, json: Json) -> Seq<u8> {
    concat(gron_lines(prefix, json))
}

/// The lines one after another are the first line, then the others one after
/// another.
pub proof fn lemma_concat_first(lines: Seq<Seq<u8>>)
    requires
        lines.len() > 0,
    ensures
        concat(lines) == lines[0] + concat(lines.drop_first()),
    decreases lines.len(),
{
    if lines.len() == 1 {
        assert(concat(lines.drop_last()) =~= Seq::empty());
        assert(concat(lines.drop_first()) =~= Seq::empty());
        assert(concat(lines) =~= lines[0] + concat(lines.drop_first()));
    } else {
        lemma_concat_first(lines.drop_last());
        assert(lines.drop_last().drop_first() =~= lines.drop_first().drop_last());
        assert(concat(lines) =~= lines[0] + concat(lines.drop_first()));
    }
}

} // verus!
