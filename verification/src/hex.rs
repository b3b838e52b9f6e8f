//! Lowercase hexadecimal text for byte strings (the encoding of the `hex`
//! crate: two lowercase digits per byte; either case read back).
use crate::text::{chars_of, string_from_chars};
use vstd::prelude::*;

verus! {

/// The lowercase hex digit of `n` (0..=15).
pub open spec fn hex_digit(n: nat) -> char {
    if n < 10 {
        (('0' as u32) + n) as char
    } else {
        (('a' as u32) + (n - 10)) as char
    }
}

/// Two lowercase hex digits per byte.
pub open spec fn hex_encode(b: Seq<u8>) -> Seq<char>
    decreases b.len(),
{
    if b.len() == 0 {
        seq![]
    } else {
        hex_encode(b.drop_last()) + seq![hex_digit(b.last() as nat / 16), hex_digit(b.last() as nat % 16)]
    }
}

/// The value of a hex digit of either case.
pub open spec fn hex_value(c: char) -> Option<nat> {
    if '0' <= c && c <= '9' {
        Some((c as u32 - '0' as u32) as nat)
    } else if 'a' <= c && c <= 'f' {
        Some((c as u32 - 'a' as u32 + 10) as nat)
    } else if 'A' <= c && c <= 'F' {
        Some((c as u32 - 'A' as u32 + 10) as nat)
    } else {
        None
    }
}

pub open spec fn all_hex(s: Seq<char>) -> bool {
    forall|i: int| 0 <= i < s.len() ==> (#[trigger] hex_value(s[i])) is Some
}

/// The bytes that pairs of hex digits denote.
pub open spec fn hex_bytes(s: Seq<char>) -> Seq<u8>
    decreases s.len(),
{
    if s.len() < 2 {
        seq![]
    } else {
        let n = s.len();
        hex_bytes(s.take(n - 2)) + seq![
            (hex_value(s[n - 2])->0 * 16 + hex_value(s[n - 1])->0) as u8,
        ]
    }
}

/// `hex::decode`: the bytes, where the text has an even number of hex digits.
pub open spec fn hex_decode(s: Seq<char>) -> Option<Seq<u8>> {
    if s.len() % 2 == 0 && all_hex(s) {
        Some(hex_bytes(s))
    } else {
        None
    }
}

proof fn lemma_hex_digit(n: nat)
    requires
        n < 16,
    ensures
        hex_value(hex_digit(n)) == Some(n),
{
}

pub proof fn lemma_hex_encode_len(b: Seq<u8>)
    ensures
        hex_encode(b).len() == 2 * b.len(),
    decreases b.len(),
{
    if b.len() > 0 {
        lemma_hex_encode_len(b.drop_last());
    }
}

/// Decoding the hex text of bytes gives the bytes back.
pub proof fn lemma_hex_roundtrip(b: Seq<u8>)
    ensures
        hex_decode(hex_encode(b)) == Some(b),
    decreases b.len(),
{
    lemma_hex_encode_len(b);
    if b.len() > 0 {
        lemma_hex_roundtrip(b.drop_last());
        let s = hex_encode(b);
        let p = hex_encode(b.drop_last());
        let n = s.len();
        lemma_hex_digit(b.last() as nat / 16);
        lemma_hex_digit(b.last() as nat % 16);
        assert(s.take(n - 2) == p);
        assert(hex_bytes(s) == b) by {
            assert(b.last() as nat / 16 * 16 + b.last() as nat % 16 == b.last() as nat);
            assert(b == b.drop_last().push(b.last()));
        }
        assert forall|i: int| 0 <= i < s.len() implies (#[trigger] hex_value(s[i])) is Some by {
            if i < n - 2 {
                assert(s[i] == p[i]);
            }
        }
    } else {
        assert(hex_encode(b) == Seq::<char>::empty());
    }
}

pub(crate) fn hex_digit_char(n: u8) -> (c: char)
    requires
        n < 16,
    ensures
        c == hex_digit(n as nat),
{
    if n < 10 {
        let c = (48u8 + n) as char;
        assert(c == hex_digit(n as nat)) by {
            vstd::utf8::char_u32_cast(c, (48 + n) as u32);
        }
        c
    } else {
        let c = (97u8 + (n - 10)) as char;
        assert(c == hex_digit(n as nat)) by {
            vstd::utf8::char_u32_cast(c, (97 + n - 10) as u32);
        }
        c
    }
}

/// Two lowercase hex digits per byte.
pub fn encode_hex(b: &[u8]) -> (s: String)
    ensures
        s@ == hex_encode(b@),
{
    let mut out: Vec<char> = Vec::new();
    let mut i: usize = 0;
    while i < b.len()
        invariant
            i <= b.len(),
            out@ == hex_encode(b@.take(i as int)),
        decreases b.len() - i,
    {
        let x = b[i];
        out.push(hex_digit_char(x / 16));
        out.push(hex_digit_char(x % 16));
        assert(b@.take(i + 1).drop_last() == b@.take(i as int));
        i = i + 1;
    }
    assert(b@.take(b.len() as int) == b@);
    string_from_chars(out.as_slice())
}

fn hex_value_of(c: char) -> (r: Option<u8>)
    ensures
        match (r, hex_value(c)) {
            (Some(a), Some(b)) => a == b && a < 16,
            (None, None) => true,
            _ => false,
        },
{
    let u = c as u32;
    if u >= 48 && u <= 57 {
        Some((u - 48) as u8)
    } else if u >= 97 && u <= 102 {
        Some((u - 97 + 10) as u8)
    } else if u >= 65 && u <= 70 {
        Some((u - 65 + 10) as u8)
    } else {
        None
    }
}

/// `hex::decode`: the bytes that an even number of hex digits denote.
pub fn decode_hex(s: &str) -> (r: Option<Vec<u8>>)
    ensures
        match (r, hex_decode(s@)) {
            (Some(a), Some(b)) => a@ == b,
            (None, None) => true,
            _ => false,
        },
{
    let c = chars_of(s);
    if c.len() % 2 != 0 {
        return None;
    }
    let mut out: Vec<u8> = Vec::new();
    let mut i: usize = 0;
    while i < c.len()
        invariant
            i <= c.len(),
            i % 2 == 0,
            c.len() % 2 == 0,
            c@ == s@,
            all_hex(c@.take(i as int)),
            out@ == hex_bytes(c@.take(i as int)),
        decreases c.len() - i,
    {
        let hi = hex_value_of(c[i]);
        let lo = hex_value_of(c[i + 1]);
        match (hi, lo) {
            (Some(h), Some(l)) => {
                out.push(h * 16 + l);
                let ghost t = c@.take(i + 2);
                assert(t.take(i as int) == c@.take(i as int));
                assert(t[i as int] == c@[i as int]);
                assert(t[i + 1] == c@[i + 1]);
                assert forall|j: int| 0 <= j < t.len() implies (#[trigger] hex_value(t[j])) is Some by {
                    if j < i {
                        assert(t[j] == c@.take(i as int)[j]);
                    }
                }
                i = i + 2;
            },
            _ => {
                proof {
                    if hi is None {
                        assert(hex_value(c@[i as int]) is None);
                    } else {
                        assert(hex_value(c@[i + 1]) is None);
                    }
                }
                return None;
            },
        }
    }
    assert(c@.take(c.len() as int) == c@);
    Some(out)
}

} // verus!
