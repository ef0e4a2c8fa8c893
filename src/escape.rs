use vstd::prelude::*;
use crate::text::push_char;

verus! {

/// The lowercase hexadecimal digit of `d`.
pub open spec fn hex_digit(d: int) -> char {
    if d < 10 {
        ((d + 48) as u8) as char
    } else {
        ((d + 87) as u8) as char
    }
}

/// How one byte is shown in a diagnostic: printable ASCII as itself, tab,
/// the two line-break bytes and the backslash as escapes, a double quote
/// escaped where `quotes` is set, and any other byte as `\xNN`. Byte 10 is
/// shown as `\r` and byte 13 as `\n`.
pub open spec fn escape_byte(c: u8, quotes: bool) -> Seq<char> {
    if c == 9 {
        seq!['\\', 't']
    } else if c == 10 {
        seq!['\\', 'r']
    } else if c == 13 {
        seq!['\\', 'n']
    } else if c == 92 {
        seq!['\\', '\\']
    } else if quotes && c == 34 {
        seq!['\\', '"']
    } else if 32 <= c <= 126 {
        seq![c as char]
    } else {
        seq!['\\', 'x', hex_digit(c as int / 16), hex_digit(c as int % 16)]
    }
}

/// How a byte string is shown in a diagnostic.
pub open spec fn escape_bytes(b: Seq<u8>, quotes: bool) -> Seq<char>
    decreases b.len(),
{
    if b.len() == 0 {
        Seq::empty()
    } else {
        escape_bytes(b.drop_last(), quotes) + escape_byte(b.last(), quotes)
    }
}

fn hex_char(d: u8) -> (c: char)
    requires
        d < 16,
    ensures
        c == hex_digit(d as int),
{
    if d < 10 {
        (d + 48) as char
    } else {
        (d + 87) as char
    }
}

fn push_escaped(s: &mut String, c: u8, quotes: bool)
    ensures
        final(s)@ == old(s)@ + escape_byte(c, quotes),
{
    let ghost s0 = s@;
    if c == 9 {
        push_char(s, '\\');
        push_char(s, 't');
    } else if c == 10 {
        push_char(s, '\\');
        push_char(s, 'r');
    } else if c == 13 {
        push_char(s, '\\');
        push_char(s, 'n');
    } else if c == 92 {
        push_char(s, '\\');
        push_char(s, '\\');
    } else if quotes && c == 34 {
        push_char(s, '\\');
        push_char(s, '"');
    } else if 32 <= c && c <= 126 {
        push_char(s, c as char);
    } else {
        push_char(s, '\\');
        push_char(s, 'x');
        push_char(s, hex_char(c / 16));
        push_char(s, hex_char(c % 16));
    }
    assert(s@ =~= s0 + escape_byte(c, quotes));
}

fn escape_with(raw: &[u8], quotes: bool) -> (r: String)
    ensures
        r@ == escape_bytes(raw@, quotes),
{
    let mut s = String::new();
    let mut i: usize = 0;
    while i < raw.len()
        invariant
            i <= raw@.len(),
            s@ == escape_bytes(raw@.take(i as int), quotes),
        decreases raw@.len() - i,
    {
        push_escaped(&mut s, raw[i], quotes);
        assert(raw@.take(i + 1).drop_last() =~= raw@.take(i as int));
        i = i + 1;
    }
    assert(raw@.take(i as int) =~= raw@);
    s
}

/// Shows bytes for a diagnostic, escaping what is not printable ASCII.
pub fn escaped_string(raw: &[u8]) -> (r: String)
    ensures
        r@ == escape_bytes(raw@, false),
{
    escape_with(raw, false)
}

/// Shows bytes for a diagnostic inside double quotes: as `escaped_string`,
/// with the double quote escaped too.
pub fn escaped_string_quotes(raw: &[u8]) -> (r: String)
    ensures
        r@ == escape_bytes(raw@, true),
{
    escape_with(raw, true)
}

} // verus!
