//! The compact JSON text that the vault's signature covers, written the way
//! `serde_json::to_vec` writes it: strings with serde_json's escapes, byte
//! strings as arrays of numbers, maps as objects in key order.
use crate::crypto::append_chars;
use crate::text::{chars_of, decimal, decimal_chars};
use vstd::prelude::*;

verus! {

/// The JSON escape of one character, as serde_json writes it.
pub open spec fn json_escape_char(c: char) -> Seq<char> {
    if c == '"' {
        seq!['\\', '"']
    } else if c == '\\' {
        seq!['\\', '\\']
    } else if c == '\n' {
        seq!['\\', 'n']
    } else if c == '\r' {
        seq!['\\', 'r']
    } else if c == '\t' {
        seq!['\\', 't']
    } else if c == '\u{8}' {
        seq!['\\', 'b']
    } else if c == '\u{c}' {
        seq!['\\', 'f']
    } else if (c as u32) < 0x20 {
        seq!['\\', 'u', '0', '0', hex_lower_digit((c as u32 / 16) as nat), hex_lower_digit((c as u32 % 16) as nat)]
    } else {
        seq![c]
    }
}

pub open spec fn hex_lower_digit(n: nat) -> char {
    crate::hex::hex_digit(n)
}

pub open spec fn json_escape(s: Seq<char>) -> Seq<char>
    decreases s.len(),
{
    if s.len() == 0 {
        seq![]
    } else {
        json_escape(s.drop_last()) + json_escape_char(s.last())
    }
}

/// A JSON string literal.
pub open spec fn json_string(s: Seq<char>) -> Seq<char> {
    seq!['"'] + json_escape(s) + seq!['"']
}

/// Items separated by commas.
pub open spec fn join(items: Seq<Seq<char>>) -> Seq<char>
    decreases items.len(),
{
    if items.len() == 0 {
        seq![]
    } else if items.len() == 1 {
        items[0]
    } else {
        join(items.drop_last()) + seq![','] + items.last()
    }
}

/// A byte string as a JSON array of numbers.
pub open spec fn json_byte_array(b: Seq<u8>) -> Seq<char> {
    seq!['['] + join(b.map_values(|x: u8| decimal(x as nat))) + seq![']']
}

/// A JSON object with the given members (each already `"key":value`).
pub open spec fn json_object(members: Seq<Seq<char>>) -> Seq<char> {
    seq!['{'] + join(members) + seq!['}']
}

/// A JSON member `"key":value`.
pub open spec fn json_member(key: Seq<char>, value: Seq<char>) -> Seq<char> {
    json_string(key) + seq![':'] + value
}

proof fn lemma_join_push(items: Seq<Seq<char>>, i: int)
    requires
        0 <= i < items.len(),
    ensures
        join(items.take(i + 1)) == if i == 0 {
            items[0]
        } else {
            join(items.take(i)) + seq![','] + items[i]
        },
{
    assert(items.take(i + 1).drop_last() == items.take(i));
    if i == 0 {
        assert(items.take(1)[0] == items[0]);
    }
}

/// Appends the JSON escape of a text.
pub fn push_json_escaped(out: &mut Vec<char>, s: &str)
    ensures
        final(out)@ == old(out)@ + json_escape(s@),
{
    let c = chars_of(s);
    let ghost o0 = out@;
    let mut i: usize = 0;
    while i < c.len()
        invariant
            i <= c.len(),
            c@ == s@,
            out@ == o0 + json_escape(c@.take(i as int)),
        decreases c.len() - i,
    {
        let ch = c[i];
        let ghost before = out@;
        if ch == '"' {
            out.push('\\');
            out.push('"');
        } else if ch == '\\' {
            out.push('\\');
            out.push('\\');
        } else if ch == '\n' {
            out.push('\\');
            out.push('n');
        } else if ch == '\r' {
            out.push('\\');
            out.push('r');
        } else if ch == '\t' {
            out.push('\\');
            out.push('t');
        } else if ch == '\u{8}' {
            out.push('\\');
            out.push('b');
        } else if ch == '\u{c}' {
            out.push('\\');
            out.push('f');
        } else if (ch as u32) < 0x20 {
            let u = ch as u32;
            out.push('\\');
            out.push('u');
            out.push('0');
            out.push('0');
            out.push(hex_char((u / 16) as u8));
            out.push(hex_char((u % 16) as u8));
        } else {
            out.push(ch);
        }
        assert(out@ == before + json_escape_char(ch));
        assert(c@.take(i + 1).drop_last() == c@.take(i as int));
        i = i + 1;
    }
    assert(c@.take(c.len() as int) == c@);
}

fn hex_char(n: u8) -> (c: char)
    requires
        n < 16,
    ensures
        c == hex_lower_digit(n as nat),
{
    crate::hex::hex_digit_char(n)
}

/// Appends a JSON string literal.
pub fn push_json_string(out: &mut Vec<char>, s: &str)
    ensures
        final(out)@ == old(out)@ + json_string(s@),
{
    let ghost o0 = out@;
    out.push('"');
    push_json_escaped(out, s);
    out.push('"');
    assert(out@ == o0 + json_string(s@));
}

/// Appends a byte string as a JSON array of numbers.
pub fn push_json_bytes(out: &mut Vec<char>, b: &[u8])
    ensures
        final(out)@ == old(out)@ + json_byte_array(b@),
{
    let ghost o0 = out@;
    let ghost items = b@.map_values(|x: u8| decimal(x as nat));
    out.push('[');
    let mut i: usize = 0;
    while i < b.len()
        invariant
            i <= b.len(),
            items == b@.map_values(|x: u8| decimal(x as nat)),
            out@ == o0 + seq!['['] + join(items.take(i as int)),
        decreases b.len() - i,
    {
        proof {
            lemma_join_push(items, i as int);
        }
        if i > 0 {
            out.push(',');
        }
        let d = decimal_chars(b[i] as usize);
        append_chars(out, d.as_slice());
        i = i + 1;
    }
    assert(items.take(b.len() as int) == items);
    out.push(']');
    assert(out@ == o0 + json_byte_array(b@));
}

} // verus!
