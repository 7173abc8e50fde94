//! The formatter: one line of output for a path and a value.

use crate::literal::{
    push_bool, push_bytes, push_decimal, push_null, push_quoted, EQUALS, LEFT_BRACE,
    LEFT_BRACKET, NEWLINE, RIGHT_BRACE, RIGHT_BRACKET, SPACE,
};
use crate::model::{array_text, assignment, object_text};
use crate::value::Value;
use vstd::prelude::*;

verus! {

/// The two kinds of container.
#[derive(Debug, Clone, Copy, PartialEq, Eq)]
pub enum ContainerKind {
    Array,
    Object,
}

impl ContainerKind {
    /// The literal that announces a container of this kind.
    pub open spec fn literal(self) -> Seq<u8> {
        match self {
            ContainerKind::Array => array_text(),
            ContainerKind::Object => object_text(),
        }
    }
}

/// Starts a line: the path, then ` = `.
fn begin_line(path: &[u8]) -> (line: Vec<u8>)
    ensures
        line@ == path@ + seq![SPACE, EQUALS, SPACE],
{
    let mut line: Vec<u8> = Vec::new();
    push_bytes(&mut line, path);
    line.push(SPACE);
    line.push(EQUALS);
    line.push(SPACE);
    assert(line@ =~= path@ + seq![SPACE, EQUALS, SPACE]);
    line
}

/// The line that binds `path` to the literal of the scalar `value`.
pub fn render_scalar(path: &[u8], value: &Value) -> (line: Vec<u8>)
    requires
        !value@.is_container(),
    ensures
        line@ == assignment(path@, value@.literal()),
{
    let mut line = begin_line(path);
    match value {
        Value::Null => push_null(&mut line),
        Value::Bool(b) => push_bool(&mut line, *b),
        Value::Integer(n) => push_decimal(&mut line, *n),
        Value::Float(text) => push_bytes(&mut line, text.as_str().as_bytes()),
        Value::String(s) => push_quoted(&mut line, s.as_str().as_bytes()),
        _ => {},
    }
    line.push(NEWLINE);
    assert(line@ =~= assignment(path@, value@.literal()));
    line
}

/// The line that announces a container of the kind `kind` at `path`. It is
/// the same whether the container has children or not.
pub fn render_container_open(path: &[u8], kind: ContainerKind) -> (line: Vec<u8>)
    ensures
        line@ == assignment(path@, kind.literal()),
{
    let mut line = begin_line(path);
    match kind {
        ContainerKind::Array => {
            line.push(LEFT_BRACKET);
            line.push(RIGHT_BRACKET);
        },
        ContainerKind::Object => {
            line.push(LEFT_BRACE);
            line.push(RIGHT_BRACE);
        },
    }
    line.push(NEWLINE);
    assert(line@ =~= assignment(path@, kind.literal()));
    line
}

} // verus!
