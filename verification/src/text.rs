//! The output read as text: what escaping does to the characters of a
//! string, that the lines are UTF-8, and that each ends in its only newline.

use crate::literal::{
    decimal, digit, escape, escape_byte, hex_digit, significant_digits, DOT, EQUALS, LEFT_BRACKET,
    NEWLINE, QUOTE, RIGHT_BRACKET, SPACE,
};
use crate::model::{assignment, child_lines, concat, gron_lines, gron_text};
use crate::value::{lemma_view_is_text, Json, Value};
use vstd::prelude::*;
use vstd::utf8::{
    char_is_scalar, decode_utf8, decode_utf8_encode_utf8, encode_scalar, encode_utf8,
    encode_utf8_valid_utf8, is_ascii_chars, is_ascii_chars_encode_utf8, valid_utf8,
    valid_utf8_concat,
};

verus! {

/// What one character of a string becomes inside a quoted literal. Only the
/// quote, the backslash and the control codes below U+0020 change; every
/// other character, whether ASCII or not, stands for itself.
pub open spec fn escape_char(c: char) -> Seq<char> {
    if c == '"' {
        seq!['\\', '"']
    } else if c == '\\' {
        seq!['\\', '\\']
    } else if c == '\u{8}' {
        seq!['\\', 'b']
    } else if c == '\t' {
        seq!['\\', 't']
    } else if c == '\n' {
        seq!['\\', 'n']
    } else if c == '\u{c}' {
        seq!['\\', 'f']
    } else if c == '\r' {
        seq!['\\', 'r']
    } else if (c as u32) < 0x20 {
        seq![
            '\\',
            'u',
            '0',
            '0',
            hex_digit(c as u32 as int / 16) as char,
            hex_digit(c as u32 as int % 16) as char,
        ]
    } else {
        seq![c]
    }
}

/// The escaped form of a string, character by character.
pub open spec fn escape_chars(s: Seq<char>) -> Seq<char>
    decreases s.len(),
{
    if s.len() == 0 {
        Seq::empty()
    } else {
        escape_char(s[0]) + escape_chars(s.drop_first())
    }
}

/// Escaping goes through a concatenation.
pub proof fn lemma_escape_concat(a: Seq<u8>, b: Seq<u8>)
    ensures
        escape(a + b) == escape(a) + escape(b),
    decreases b.len(),
{
    if b.len() == 0 {
        assert(a + b =~= a);
        assert(escape(a) + escape(b) =~= escape(a));
    } else {
        assert((a + b).drop_last() =~= a + b.drop_last());
        lemma_escape_concat(a, b.drop_last());
        assert(escape(a + b) =~= escape(a) + escape(b));
    }
}

/// Encoding goes through a concatenation.
pub proof fn lemma_encode_concat(a: Seq<char>, b: Seq<char>)
    ensures
        encode_utf8(a + b) == encode_utf8(a) + encode_utf8(b),
    decreases a.len(),
{
    if a.len() == 0 {
        assert(a + b =~= b);
        assert(encode_utf8(a) + encode_utf8(b) =~= encode_utf8(b));
    } else {
        assert((a + b).drop_first() =~= a.drop_first() + b);
        lemma_encode_concat(a.drop_first(), b);
        assert(encode_utf8(a + b) =~= encode_utf8(a) + encode_utf8(b));
    }
}

/// A byte that stands alone is escaped as `escape_byte` says.
proof fn lemma_escape_single(b: u8)
    ensures
        escape(seq![b]) == escape_byte(b),
{
    assert(seq![b].drop_last() =~= Seq::<u8>::empty());
    assert(escape(seq![b].drop_last()) =~= Seq::<u8>::empty());
    assert(escape(seq![b]) =~= escape_byte(b));
}

/// The bytes of a character beyond ASCII are all 0x80 or more.
proof fn lemma_wide_bytes(v: u32)
    requires
        0x80 <= v <= 0x10ffff,
    ensures
        forall|i: int| 0 <= i < encode_scalar(v).len() ==> #[trigger] encode_scalar(v)[i] >= 0x80,
{
    assert(0xC0u8 | ((v >> 6) & 0x1F) as u8 >= 0x80) by (bit_vector);
    assert(0xE0u8 | ((v >> 12) & 0x0F) as u8 >= 0x80) by (bit_vector);
    assert(0xF0u8 | ((v >> 18) & 0x7) as u8 >= 0x80) by (bit_vector);
    assert(0x80u8 | (v & 0x3F) as u8 >= 0x80) by (bit_vector);
    assert(0x80u8 | ((v >> 6) & 0x3F) as u8 >= 0x80) by (bit_vector);
    assert(0x80u8 | ((v >> 12) & 0x3F) as u8 >= 0x80) by (bit_vector);
}

/// Bytes of 0x80 or more are left as they are.
proof fn lemma_escape_wide(s: Seq<u8>)
    requires
        forall|i: int| 0 <= i < s.len() ==> #[trigger] s[i] >= 0x80,
    ensures
        escape(s) == s,
    decreases s.len(),
{
    if s.len() > 0 {
        lemma_escape_wide(s.drop_last());
        assert(escape_byte(s.last()) =~= seq![s.last()]);
        assert(s.drop_last() + seq![s.last()] =~= s);
    }
}

/// Escaping the bytes of one character gives the bytes of the escaped
/// character.
proof fn lemma_escape_of_char(c: char)
    ensures
        escape(encode_scalar(c as u32)) == encode_utf8(escape_char(c)),
{
    let v = c as u32;
    char_is_scalar(c);
    if v < 0x80 {
        let b = v as u8;
        assert(b == (v & 0x7F) as u8) by (bit_vector)
            requires
                v < 0x80,
                b == v as u8,
        ;
        assert(encode_scalar(v) =~= seq![b]);
        lemma_escape_single(b);
        let chars = escape_char(c);
        assert(is_ascii_chars(chars));
        is_ascii_chars_encode_utf8(chars);
        assert(encode_utf8(chars) =~= escape_byte(b));
    } else {
        lemma_wide_bytes(v);
        lemma_escape_wide(encode_scalar(v));
        assert(escape_char(c) =~= seq![c]);
        assert(seq![c].drop_first() =~= Seq::<char>::empty());
        assert(encode_utf8(seq![c].drop_first()) =~= Seq::<u8>::empty());
        assert(encode_utf8(seq![c]) =~= encode_scalar(v));
    }
}

/// Escaping the bytes of a string gives the bytes of the string escaped
/// character by character: a character beyond ASCII is never taken apart.
pub proof fn lemma_escape_of_text(s: Seq<char>)
    ensures
        escape(encode_utf8(s)) == encode_utf8(escape_chars(s)),
    decreases s.len(),
{
    if s.len() > 0 {
        let rest = s.drop_first();
        lemma_escape_of_text(rest);
        lemma_escape_of_char(s[0]);
        lemma_escape_concat(encode_scalar(s[0] as u32), encode_utf8(rest));
        lemma_encode_concat(escape_char(s[0]), escape_chars(rest));
    }
}

/// Bytes below 0x80 are UTF-8: each is a character of its own.
pub proof fn lemma_ascii_is_utf8(bytes: Seq<u8>)
    requires
        forall|i: int| 0 <= i < bytes.len() ==> #[trigger] bytes[i] < 0x80,
    ensures
        valid_utf8(bytes),
{
    let chars = Seq::new(bytes.len(), |i: int| bytes[i] as char);
    assert(is_ascii_chars(chars));
    is_ascii_chars_encode_utf8(chars);
    assert(encode_utf8(chars) =~= bytes);
    encode_utf8_valid_utf8(chars);
}

/// The digits of a number are ASCII.
proof fn lemma_digits_are_ascii(n: nat)
    ensures
        forall|i: int|
            0 <= i < significant_digits(n).len() ==> #[trigger] significant_digits(n)[i] < 0x80,
    decreases n,
{
    if n > 0 {
        lemma_digits_are_ascii(n / 10);
        let front = significant_digits(n / 10);
        let last = digit((n % 10) as int);
        assert(last < 0x80);
        assert forall|i: int| 0 <= i < significant_digits(n).len() implies #[trigger] significant_digits(
            n,
        )[i] < 0x80 by {
            if i < front.len() {
                assert(front.push(last)[i] == front[i]);
            }
        }
    }
}

/// The decimal text of an integer is UTF-8.
pub proof fn lemma_decimal_is_utf8(n: int)
    ensures
        valid_utf8(decimal(n)),
{
    if n < 0 {
        lemma_digits_are_ascii((-n) as nat);
    } else {
        lemma_digits_are_ascii(n as nat);
    }
    lemma_ascii_is_utf8(decimal(n));
}

/// The escaped form of UTF-8 is UTF-8.
pub proof fn lemma_escape_is_utf8(s: Seq<u8>)
    requires
        valid_utf8(s),
    ensures
        valid_utf8(escape(s)),
{
    let chars = decode_utf8(s);
    decode_utf8_encode_utf8(s);
    lemma_escape_of_text(chars);
    encode_utf8_valid_utf8(escape_chars(chars));
}

/// The literal of a value that is text is UTF-8.
proof fn lemma_literal_is_utf8(json: Json)
    requires
        json.is_text(),
    ensures
        valid_utf8(json.literal()),
{
    match json {
        Json::Integer(n) => {
            lemma_decimal_is_utf8(n);
        },
        Json::Float(_) => {},
        Json::String(s) => {
            lemma_escape_is_utf8(s);
            lemma_ascii_is_utf8(seq![QUOTE]);
            valid_utf8_concat(seq![QUOTE], escape(s));
            valid_utf8_concat(seq![QUOTE] + escape(s), seq![QUOTE]);
        },
        _ => {
            lemma_ascii_is_utf8(json.literal());
        },
    }
}

/// A line that binds a UTF-8 path to a UTF-8 literal is UTF-8.
proof fn lemma_assignment_is_utf8(path: Seq<u8>, literal: Seq<u8>)
    requires
        valid_utf8(path),
        valid_utf8(literal),
    ensures
        valid_utf8(assignment(path, literal)),
{
    let middle = seq![SPACE, EQUALS, SPACE];
    let end = seq![NEWLINE];
    lemma_ascii_is_utf8(middle);
    lemma_ascii_is_utf8(end);
    valid_utf8_concat(path, middle);
    valid_utf8_concat(path + middle, literal);
    valid_utf8_concat(path + middle + literal, end);
}

/// The segment of a child of a value that is text is UTF-8.
proof fn lemma_segment_is_utf8(json: Json, i: int)
    requires
        json.is_text(),
        0 <= i < json.child_count(),
    ensures
        valid_utf8(json.segment(i)),
{
    match json {
        Json::Array(_) => {
            let open = seq![LEFT_BRACKET];
            let close = seq![RIGHT_BRACKET];
            lemma_ascii_is_utf8(open);
            lemma_ascii_is_utf8(close);
            lemma_decimal_is_utf8(i);
            valid_utf8_concat(open, decimal(i));
            valid_utf8_concat(open + decimal(i), close);
        },
        Json::Object(entries) => {
            let dot = seq![DOT];
            lemma_ascii_is_utf8(dot);
            assert(valid_utf8(entries[i].0));
            valid_utf8_concat(dot, entries[i].0);
        },
        _ => {},
    }
}

/// Whether each of the lines is UTF-8.
pub open spec fn all_utf8(lines: Seq<Seq<u8>>) -> bool {
    forall|k: int| 0 <= k < lines.len() ==> valid_utf8(#[trigger] lines[k])
}

/// Under a UTF-8 path, every line of a value that is text is UTF-8.
pub proof fn lemma_lines_are_utf8(path: Seq<u8>, json: Json)
    requires
        valid_utf8(path),
        json.is_text(),
    ensures
        all_utf8(gron_lines(path, json)),
    decreases json, json.child_count() + 1,
{
    lemma_literal_is_utf8(json);
    lemma_assignment_is_utf8(path, json.literal());
    lemma_child_lines_are_utf8(path, json, 0);
}

proof fn lemma_child_lines_are_utf8(path: Seq<u8>, json: Json, from: nat)
    requires
        valid_utf8(path),
        json.is_text(),
    ensures
        all_utf8(child_lines(path, json, from)),
    decreases json, json.child_count() - from,
{
    if from < json.child_count() {
        let i = from as int;
        lemma_segment_is_utf8(json, i);
        valid_utf8_concat(path, json.segment(i));
        assert(json.child(i).is_text());
        lemma_lines_are_utf8(path + json.segment(i), json.child(i));
        lemma_child_lines_are_utf8(path, json, from + 1);
    }
}

/// Lines that are UTF-8 make a text that is UTF-8.
pub proof fn lemma_concat_is_utf8(lines: Seq<Seq<u8>>)
    requires
        all_utf8(lines),
    ensures
        valid_utf8(concat(lines)),
    decreases lines.len(),
{
    if lines.len() > 0 {
        lemma_concat_is_utf8(lines.drop_last());
        valid_utf8_concat(concat(lines.drop_last()), lines.last());
    }
}

/// The gron text of every value, under every root name, is UTF-8.
pub proof fn lemma_gron_text_is_utf8(prefix: Seq<char>, value: Value)
    ensures
        all_utf8(gron_lines(encode_utf8(prefix), value@)),
        valid_utf8(gron_text(encode_utf8(prefix), value@)),
{
    encode_utf8_valid_utf8(prefix);
    lemma_view_is_text(value);
    lemma_lines_are_utf8(encode_utf8(prefix), value@);
    lemma_concat_is_utf8(gron_lines(encode_utf8(prefix), value@));
}

/// Whether `bytes` holds no newline.
pub open spec fn on_one_line(bytes: Seq<u8>) -> bool {
    forall|i: int| 0 <= i < bytes.len() ==> #[trigger] bytes[i] != NEWLINE
}

/// Whether `bytes` ends in a newline and holds no other.
pub open spec fn is_line(bytes: Seq<u8>) -> bool {
    bytes.len() > 0 && bytes.last() == NEWLINE && on_one_line(bytes.drop_last())
}

/// Whether each of `lines` ends in a newline and holds no other.
pub open spec fn all_lines(lines: Seq<Seq<u8>>) -> bool {
    forall|k: int| 0 <= k < lines.len() ==> is_line(#[trigger] lines[k])
}

impl Json {
    /// Whether no key and no text of a float in the value holds a newline.
    /// Strings may: they are escaped.
    pub open spec fn keeps_to_line(self) -> bool
        decreases self,
    {
        match self {
            Json::Float(text) => on_one_line(text),
            Json::Array(items) => forall|i: int|
                0 <= i < items.len() ==> (#[trigger] items[i]).keeps_to_line(),
            Json::Object(entries) => forall|i: int|
                0 <= i < entries.len() ==> on_one_line((#[trigger] entries[i]).0)
                    && entries[i].1.keeps_to_line(),
            _ => true,
        }
    }
}

/// The decimal digits hold no newline.
proof fn lemma_digits_on_one_line(n: nat)
    ensures
        on_one_line(significant_digits(n)),
    decreases n,
{
    if n > 0 {
        lemma_digits_on_one_line(n / 10);
        let front = significant_digits(n / 10);
        let last = digit((n % 10) as int);
        assert forall|i: int| 0 <= i < significant_digits(n).len() implies #[trigger] significant_digits(
            n,
        )[i] != NEWLINE by {
            if i < front.len() {
                assert(front.push(last)[i] == front[i]);
            }
        }
    }
}

/// The escaped form of a string holds no newline.
pub proof fn lemma_escape_on_one_line(s: Seq<u8>)
    ensures
        on_one_line(escape(s)),
    decreases s.len(),
{
    if s.len() > 0 {
        lemma_escape_on_one_line(s.drop_last());
        let front = escape(s.drop_last());
        let end = escape_byte(s.last());
        assert(on_one_line(end));
        assert forall|i: int| 0 <= i < escape(s).len() implies #[trigger] escape(s)[i]
            != NEWLINE by {
            if i < front.len() {
                assert((front + end)[i] == front[i]);
            } else {
                assert((front + end)[i] == end[i - front.len()]);
            }
        }
    }
}

/// The literal of a value that keeps to the line holds no newline.
proof fn lemma_literal_on_one_line(json: Json)
    requires
        json.keeps_to_line(),
    ensures
        on_one_line(json.literal()),
{
    match json {
        Json::Integer(n) => {
            if n < 0 {
                lemma_digits_on_one_line((-n) as nat);
            } else {
                lemma_digits_on_one_line(n as nat);
            }
        },
        Json::String(s) => {
            lemma_escape_on_one_line(s);
        },
        _ => {},
    }
}

/// Each line of a value that keeps to the line, under a path without a
/// newline, ends in a newline and holds no other: the lines of the text are
/// the lines of the nodes.
pub proof fn lemma_lines_end_in_newline(path: Seq<u8>, json: Json)
    requires
        on_one_line(path),
        json.keeps_to_line(),
    ensures
        all_lines(gron_lines(path, json)),
    decreases json, json.child_count() + 1,
{
    lemma_literal_on_one_line(json);
    let own = assignment(path, json.literal());
    assert(own.drop_last() =~= path + seq![SPACE, EQUALS, SPACE] + json.literal());
    assert(is_line(own));
    lemma_child_lines_end_in_newline(path, json, 0);
}

proof fn lemma_child_lines_end_in_newline(path: Seq<u8>, json: Json, from: nat)
    requires
        on_one_line(path),
        json.keeps_to_line(),
    ensures
        all_lines(child_lines(path, json, from)),
    decreases json, json.child_count() - from,
{
    if from < json.child_count() {
        let i = from as int;
        let segment = json.segment(i);
        assert(on_one_line(segment)) by {
            match json {
                Json::Array(_) => {
                    if i > 0 {
                        lemma_digits_on_one_line(i as nat);
                    }
                },
                Json::Object(entries) => {
                    assert(on_one_line(entries[i].0));
                },
                _ => {},
            }
        }
        assert(json.child(i).keeps_to_line());
        lemma_lines_end_in_newline(path + segment, json.child(i));
        lemma_child_lines_end_in_newline(path, json, from + 1);
    }
}

} // verus!
