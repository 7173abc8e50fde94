use gron::literal::{
    push_bool, push_bytes, push_decimal, push_escaped_byte, push_index, push_null, push_quoted,
};

fn decimal_text(n: i128) -> String {
    let mut out = Vec::new();
    push_decimal(&mut out, n);
    String::from_utf8(out).unwrap()
}

fn quoted_text(s: &str) -> String {
    let mut out = Vec::new();
    push_quoted(&mut out, s.as_bytes());
    String::from_utf8(out).unwrap()
}

fn escaped_byte_text(b: u8) -> String {
    let mut out = Vec::new();
    push_escaped_byte(&mut out, b);
    String::from_utf8(out).unwrap()
}

#[test]
fn decimal_of_zero_and_small_numbers() {
    assert_eq!(decimal_text(0), "0");
    assert_eq!(decimal_text(7), "7");
    assert_eq!(decimal_text(10), "10");
    assert_eq!(decimal_text(-120), "-120");
    assert_eq!(decimal_text(1000000007), "1000000007");
}

#[test]
fn decimal_of_the_extremes() {
    assert_eq!(decimal_text(i128::MAX), "170141183460469231731687303715884105727");
    assert_eq!(decimal_text(i128::MIN), "-170141183460469231731687303715884105728");
    assert_eq!(decimal_text(i128::from(u64::MAX)), u64::MAX.to_string());
    assert_eq!(decimal_text(i128::from(i64::MIN)), i64::MIN.to_string());
}

#[test]
fn decimal_agrees_with_the_standard_formatter() {
    let mut n: i128 = 1;
    for _ in 0..60 {
        assert_eq!(decimal_text(n), n.to_string());
        assert_eq!(decimal_text(-n), (-n).to_string());
        assert_eq!(decimal_text(n - 1), (n - 1).to_string());
        n *= 3;
    }
}

#[test]
fn index_in_decimal() {
    let mut out = Vec::new();
    push_index(&mut out, 0);
    out.push(b' ');
    push_index(&mut out, 42);
    out.push(b' ');
    push_index(&mut out, usize::MAX);
    assert_eq!(String::from_utf8(out).unwrap(), format!("0 42 {}", usize::MAX));
}

#[test]
fn keywords() {
    let mut out = b"x".to_vec();
    push_null(&mut out);
    push_bool(&mut out, true);
    push_bool(&mut out, false);
    assert_eq!(out, b"xnulltruefalse");
}

#[test]
fn bytes_are_appended_as_they_are() {
    let mut out = b"ab".to_vec();
    push_bytes(&mut out, b"");
    assert_eq!(out, b"ab");
    push_bytes(&mut out, b"\"\\\n\x00c");
    assert_eq!(out, b"ab\"\\\n\x00c");
}

#[test]
fn quote_and_backslash_get_a_backslash() {
    assert_eq!(escaped_byte_text(b'"'), "\\\"");
    assert_eq!(escaped_byte_text(b'\\'), "\\\\");
}

#[test]
fn control_codes_with_a_short_escape() {
    assert_eq!(escaped_byte_text(0x08), "\\b");
    assert_eq!(escaped_byte_text(0x09), "\\t");
    assert_eq!(escaped_byte_text(0x0a), "\\n");
    assert_eq!(escaped_byte_text(0x0c), "\\f");
    assert_eq!(escaped_byte_text(0x0d), "\\r");
}

#[test]
fn other_control_codes_in_hexadecimal() {
    assert_eq!(escaped_byte_text(0x00), "\\u0000");
    assert_eq!(escaped_byte_text(0x01), "\\u0001");
    assert_eq!(escaped_byte_text(0x0b), "\\u000b");
    assert_eq!(escaped_byte_text(0x10), "\\u0010");
    assert_eq!(escaped_byte_text(0x1b), "\\u001b");
    assert_eq!(escaped_byte_text(0x1f), "\\u001f");
}

#[test]
fn every_other_byte_stands_for_itself() {
    for b in 0x20..=0xffu8 {
        if b == b'"' || b == b'\\' {
            continue;
        }
        let mut out = Vec::new();
        push_escaped_byte(&mut out, b);
        assert_eq!(out, vec![b]);
    }
}

#[test]
fn every_control_code_is_escaped() {
    for b in 0x00..0x20u8 {
        let text = escaped_byte_text(b);
        assert!(text.starts_with('\\'));
        assert!(text.bytes().all(|c| c >= 0x20));
    }
}

#[test]
fn quoted_strings() {
    assert_eq!(quoted_text(""), "\"\"");
    assert_eq!(quoted_text("x"), "\"x\"");
    assert_eq!(quoted_text("a b"), "\"a b\"");
    assert_eq!(quoted_text("say \"hi\""), "\"say \\\"hi\\\"\"");
    assert_eq!(quoted_text("a\\b"), "\"a\\\\b\"");
    assert_eq!(quoted_text("line\nbreak\ttab\r"), "\"line\\nbreak\\ttab\\r\"");
    assert_eq!(quoted_text("\u{1}\u{7f}"), "\"\\u0001\u{7f}\"");
}

#[test]
fn characters_beyond_ascii_pass_through() {
    assert_eq!(quoted_text("h\u{e9}llo"), "\"h\u{e9}llo\"");
    assert_eq!(quoted_text("\u{4e16}\u{754c}"), "\"\u{4e16}\u{754c}\"");
    assert_eq!(quoted_text("\u{1f600}\"\u{1f600}"), "\"\u{1f600}\\\"\u{1f600}\"");
    assert_eq!(quoted_text("\u{80}\u{7ff}\u{800}\u{ffff}\u{10000}\u{10ffff}"),
        "\"\u{80}\u{7ff}\u{800}\u{ffff}\u{10000}\u{10ffff}\"");
}
