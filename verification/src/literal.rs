//! The text of scalar literals: decimal integers, quoted strings and the
//! three keywords, as sequences of bytes.

use vstd::prelude::*;

verus! {

pub const SPACE: u8 = 0x20;

pub const QUOTE: u8 = 0x22;

pub const MINUS: u8 = 0x2d;

pub const DOT: u8 = 0x2e;

pub const ZERO: u8 = 0x30;

pub const EQUALS: u8 = 0x3d;

pub const LEFT_BRACKET: u8 = 0x5b;

pub const BACKSLASH: u8 = 0x5c;

pub const RIGHT_BRACKET: u8 = 0x5d;

pub const LEFT_BRACE: u8 = 0x7b;

pub const RIGHT_BRACE: u8 = 0x7d;

pub const NEWLINE: u8 = 0x0a;

/// `null`
pub open spec fn null_text() -> Seq<u8> {
    seq!['n' as u8, 'u' as u8, 'l' as u8, 'l' as u8]
}

/// `true`
pub open spec fn true_text() -> Seq<u8> {
    seq!['t' as u8, 'r' as u8, 'u' as u8, 'e' as u8]
}

/// `false`
pub open spec fn false_text() -> Seq<u8> {
    seq!['f' as u8, 'a' as u8, 'l' as u8, 's' as u8, 'e' as u8]
}

/// `true` or `false`
pub open spec fn bool_text(b: bool) -> Seq<u8> {
    if b {
        true_text()
    } else {
        false_text()
    }
}

/// The ASCII digit that stands for `d`, for `0 <= d < 10`.
pub open spec fn digit(d: int) -> u8 {
    (ZERO + d) as u8
}

/// The decimal digits of `n`, most significant first; empty for zero.
pub open spec fn significant_digits(n: nat) -> Seq<u8>
    decreases n,
{
    if n == 0 {
        Seq::empty()
    } else {
        significant_digits(n / 10).push(digit((n % 10) as int))
    }
}

/// The decimal text of an integer: no leading zeros, a sign only if negative.
pub open spec fn decimal(n: int) -> Seq<u8> {
    if n == 0 {
        seq![ZERO]
    } else if n < 0 {
        seq![MINUS] + significant_digits((-n) as nat)
    } else {
        significant_digits(n as nat)
    }
}

/// The lower-case hexadecimal digit that stands for `d`, for `0 <= d < 16`.
pub open spec fn hex_digit(d: int) -> u8 {
    if d < 10 {
        (ZERO + d) as u8
    } else {
        ('a' as u8 + d - 10) as u8
    }
}

/// What one byte of a string becomes inside a quoted literal. The quote and
/// the backslash get a backslash in front; the control codes below U+0020 get
/// their short escape where JSON has one and `\u00XX` otherwise; every other
/// byte, and so every byte of a non-ASCII character, stands for itself.
pub open spec fn escape_byte(b: u8) -> Seq<u8> {
    if b == QUOTE {
        seq![BACKSLASH, QUOTE]
    } else if b == BACKSLASH {
        seq![BACKSLASH, BACKSLASH]
    } else if b == 0x08 {
        seq![BACKSLASH, 'b' as u8]
    } else if b == 0x09 {
        seq![BACKSLASH, 't' as u8]
    } else if b == 0x0a {
        seq![BACKSLASH, 'n' as u8]
    } else if b == 0x0c {
        seq![BACKSLASH, 'f' as u8]
    } else if b == 0x0d {
        seq![BACKSLASH, 'r' as u8]
    } else if b < 0x20 {
        seq![BACKSLASH, 'u' as u8, ZERO, ZERO, hex_digit(b as int / 16), hex_digit(b as int % 16)]
    } else {
        seq![b]
    }
}

/// The escaped form of a string, byte by byte.
pub open spec fn escape(s: Seq<u8>) -> Seq<u8>
    decreases s.len(),
{
    if s.len() == 0 {
        Seq::empty()
    } else {
        escape(s.drop_last()) + escape_byte(s.last())
    }
}

/// The quoted literal of a string.
pub open spec fn quoted(s: Seq<u8>) -> Seq<u8> {
    seq![QUOTE] + escape(s) + seq![QUOTE]
}

/// `s` read from its last element to its first.
spec fn backwards(s: Seq<u8>) -> Seq<u8> {
    Seq::new(s.len(), |i: int| s[s.len() - 1 - i])
}

/// Appends `null` to `out`.
pub fn push_null(out: &mut Vec<u8>)
    ensures
        final(out)@ == old(out)@ + null_text(),
{
    out.push(0x6e);
    out.push(0x75);
    out.push(0x6c);
    out.push(0x6c);
    assert(out@ =~= old(out)@ + null_text());
}

/// Appends `true` or `false` to `out`.
pub fn push_bool(out: &mut Vec<u8>, b: bool)
    ensures
        final(out)@ == old(out)@ + bool_text(b),
{
    if b {
        out.push(0x74);
        out.push(0x72);
        out.push(0x75);
        out.push(0x65);
    } else {
        out.push(0x66);
        out.push(0x61);
        out.push(0x6c);
        out.push(0x73);
        out.push(0x65);
    }
    assert(out@ =~= old(out)@ + bool_text(b));
}

/// Appends the decimal digits of `n` to `out`, or nothing if `n` is zero.
fn push_significant_digits(out: &mut Vec<u8>, n: u128)
    ensures
        final(out)@ == old(out)@ + significant_digits(n as nat),
{
    let mut least_first: Vec<u8> = Vec::new();
    let mut rest: u128 = n;
    while rest > 0
        invariant
            significant_digits(n as nat) == significant_digits(rest as nat) + backwards(
                least_first@,
            ),
        decreases rest,
    {
        let d: u8 = (rest % 10) as u8;
        proof {
            let before = least_first@;
            let after = before.push((ZERO + d) as u8);
            assert(backwards(after) =~= seq![digit(d as int)] + backwards(before));
            assert(significant_digits(rest as nat) == significant_digits((rest / 10) as nat).push(
                digit(d as int),
            ));
            assert(significant_digits(rest as nat) + backwards(before) =~= significant_digits(
                (rest / 10) as nat,
            ) + backwards(after));
        }
        least_first.push(ZERO + d);
        rest = rest / 10;
    }
    let mut i: usize = least_first.len();
    while i > 0
        invariant
            i <= least_first.len(),
            out@ == old(out)@ + backwards(least_first@).take(least_first.len() - i),
        decreases i,
    {
        i = i - 1;
        out.push(least_first[i]);
        assert(out@ =~= old(out)@ + backwards(least_first@).take(least_first.len() - i));
    }
    assert(backwards(least_first@).take(least_first.len() as int) =~= backwards(least_first@));
    assert(significant_digits(0) + backwards(least_first@) =~= backwards(least_first@));
}

/// Appends the decimal text of `n` to `out`.
pub fn push_decimal(out: &mut Vec<u8>, n: i128)
    ensures
        final(out)@ == old(out)@ + decimal(n as int),
{
    if n == 0 {
        out.push(ZERO);
        assert(out@ =~= old(out)@ + decimal(0));
    } else if n < 0 {
        out.push(MINUS);
        let magnitude: u128 = (-(n + 1)) as u128 + 1;
        push_significant_digits(out, magnitude);
        assert(out@ =~= old(out)@ + decimal(n as int));
    } else {
        push_significant_digits(out, n as u128);
    }
}

/// Appends the decimal text of an index to `out`.
pub fn push_index(out: &mut Vec<u8>, i: usize)
    ensures
        final(out)@ == old(out)@ + decimal(i as int),
{
    push_decimal(out, i as i128)
}

/// The hexadecimal digit for `d`.
fn hex_digit_of(d: u8) -> (c: u8)
    requires
        d < 16,
    ensures
        c == hex_digit(d as int),
{
    if d < 10 {
        ZERO + d
    } else {
        0x61 + (d - 10)
    }
}

/// Appends the escaped form of one byte to `out`.
pub fn push_escaped_byte(out: &mut Vec<u8>, b: u8)
    ensures
        final(out)@ == old(out)@ + escape_byte(b),
{
    if b == QUOTE {
        out.push(BACKSLASH);
        out.push(QUOTE);
    } else if b == BACKSLASH {
        out.push(BACKSLASH);
        out.push(BACKSLASH);
    } else if b == 0x08 {
        out.push(BACKSLASH);
        out.push(0x62);
    } else if b == 0x09 {
        out.push(BACKSLASH);
        out.push(0x74);
    } else if b == 0x0a {
        out.push(BACKSLASH);
        out.push(0x6e);
    } else if b == 0x0c {
        out.push(BACKSLASH);
        out.push(0x66);
    } else if b == 0x0d {
        out.push(BACKSLASH);
        out.push(0x72);
    } else if b < 0x20 {
        out.push(BACKSLASH);
        out.push(0x75);
        out.push(ZERO);
        out.push(ZERO);
        out.push(hex_digit_of(b / 16));
        out.push(hex_digit_of(b % 16));
    } else {
        out.push(b);
    }
    assert(out@ =~= old(out)@ + escape_byte(b));
}

/// Appends the quoted literal of the string `s` to `out`.
pub fn push_quoted(out: &mut Vec<u8>, s: &[u8])
    ensures
        final(out)@ == old(out)@ + quoted(s@),
{
    out.push(QUOTE);
    let mut i: usize = 0;
    while i < s.len()
        invariant
            i <= s.len(),
            out@ == old(out)@ + seq![QUOTE] + escape(s@.take(i as int)),
        decreases s.len() - i,
    {
        proof {
            assert(s@.take(i + 1).drop_last() =~= s@.take(i as int));
        }
        push_escaped_byte(out, s[i]);
        i = i + 1;
        assert(out@ =~= old(out)@ + seq![QUOTE] + escape(s@.take(i as int)));
    }
    out.push(QUOTE);
    assert(s@.take(s.len() as int) =~= s@);
    assert(out@ =~= old(out)@ + quoted(s@));
}

/// Appends the bytes `bytes` to `out`.
pub fn push_bytes(out: &mut Vec<u8>, bytes: &[u8])
    ensures
        final(out)@ == old(out)@ + bytes@,
{
    let mut i: usize = 0;
    while i < bytes.len()
        invariant
            i <= bytes.len(),
            out@ == old(out)@ + bytes@.take(i as int),
        decreases bytes.len() - i,
    {
        out.push(bytes[i]);
        i = i + 1;
        assert(out@ =~= old(out)@ + bytes@.take(i as int));
    }
    assert(bytes@.take(bytes.len() as int) =~= bytes@);
}

} // verus!
