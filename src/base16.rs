//! Hexadecimal: two lowercase digits per byte.
use vstd::prelude::*;
use crate::errors::DecodeError;

verus! {

/// The lowercase hexadecimal digit of `d` (for `d < 16`).
pub open spec fn hex_char(d: int) -> char {
    if d < 10 {
        (48 + d) as char
    } else {
        (87 + d) as char
    }
}

/// The value of a hexadecimal digit of either case, or -1 for any other character.
pub open spec fn hex_val(c: char) -> int {
    if '0' <= c <= '9' {
        c as int - 48
    } else if 'a' <= c <= 'f' {
        c as int - 87
    } else if 'A' <= c <= 'F' {
        c as int - 55
    } else {
        -1
    }
}

/// Two digits per byte, the high half first.
pub open spec fn hex_encode(b: Seq<u8>) -> Seq<char> {
    Seq::new(
        2 * b.len(),
        |i: int|
            if i % 2 == 0 {
                hex_char(b[i / 2] as int / 16)
            } else {
                hex_char(b[i / 2] as int % 16)
            },
    )
}

/// A character of the encoding alphabet `0-9a-f`.
pub open spec fn is_lower_hex(c: char) -> bool {
    ('0' <= c <= '9') || ('a' <= c <= 'f')
}

/// A string that decodes: even length, every character a hexadecimal digit.
pub open spec fn hex_decodable(s: Seq<char>) -> bool {
    &&& s.len() % 2 == 0
    &&& forall|i: int| 0 <= i < s.len() ==> hex_val(#[trigger] s[i]) >= 0
}

/// The bytes that a decodable string stands for.
pub open spec fn hex_decode(s: Seq<char>) -> Seq<u8> {
    Seq::new(s.len() / 2, |i: int| (hex_val(s[2 * i]) * 16 + hex_val(s[2 * i + 1])) as u8)
}

/// Decoding the encoding of any byte sequence gives it back.
pub proof fn lemma_hex_round_trip(b: Seq<u8>)
    ensures
        hex_decodable(hex_encode(b)),
        hex_decode(hex_encode(b)) == b,
{
    let e = hex_encode(b);
    assert forall|i: int| 0 <= i < e.len() implies hex_val(#[trigger] e[i]) >= 0 by {
        let x = b[i / 2] as int;
        assert(0 <= x / 16 < 16 && 0 <= x % 16 < 16);
    }
    assert forall|i: int| 0 <= i < b.len() implies hex_decode(e)[i] == b[i] by {
        assert((2 * i) / 2 == i && (2 * i + 1) / 2 == i);
        assert((2 * i) % 2 == 0 && (2 * i + 1) % 2 == 1);
        let x = b[i] as int;
        assert(x == (x / 16) * 16 + x % 16);
    }
    assert(hex_decode(e) =~= b);
}

fn hex_digit(d: u8) -> (c: char)
    requires
        d < 16,
    ensures
        c == hex_char(d as int),
{
    if d < 10 {
        (48 + d) as char
    } else {
        (87 + d) as char
    }
}

fn hex_value(c: char) -> (r: Option<u8>)
    ensures
        r is Some <==> hex_val(c) >= 0,
        r is Some ==> r->0 == hex_val(c),
{
    if '0' <= c && c <= '9' {
        Some((c as u32 - 48) as u8)
    } else if 'a' <= c && c <= 'f' {
        Some((c as u32 - 87) as u8)
    } else if 'A' <= c && c <= 'F' {
        Some((c as u32 - 55) as u8)
    } else {
        None
    }
}

pub struct Base16 {}

impl Base16 {
    /// Two lowercase hexadecimal digits for each byte; never fails.
    pub fn encode(input: &[u8]) -> (r: Result<String, DecodeError>)
        ensures
            r matches Ok(s) && s@ == hex_encode(input@),
            r matches Ok(s) && forall|i: int| 0 <= i < s@.len() ==> is_lower_hex(#[trigger] s@[i]),
    {
        let mut out: Vec<char> = Vec::new();
        for i in 0..input.len()
            invariant
                out@ == hex_encode(input@.take(i as int)),
        {
            let b = input[i];
            proof {
                assert(b / 16 < 16 && b % 16 < 16) by (bit_vector);
            }
            out.push(hex_digit(b / 16));
            out.push(hex_digit(b % 16));
            assert(out@ =~= hex_encode(input@.take(i + 1)));
        }
        assert(input@.take(input@.len() as int) == input@);
        assert forall|i: int| 0 <= i < out@.len() implies is_lower_hex(#[trigger] out@[i]) by {
            let x = input@[i / 2] as int;
            assert(0 <= x / 16 < 16 && 0 <= x % 16 < 16);
        }
        Ok(crate::alphabet::string_of(&out))
    }

    /// Fails where the length is odd or a character is not a hexadecimal digit
    /// (either case); else each pair of digits gives one byte.
    pub fn decode(input: &str) -> (r: Result<Vec<u8>, DecodeError>)
        ensures
            r is Ok <==> hex_decodable(input@),
            r matches Ok(v) ==> v@ == hex_decode(input@),
    {
        let s = crate::alphabet::chars_of(input);
        if s.len() % 2 != 0 {
            return Err(DecodeError::new("hex string has an odd length"));
        }
        let mut ret: Vec<u8> = Vec::new();
        let mut i: usize = 0;
        while i < s.len()
            invariant
                s@ == input@,
                s.len() % 2 == 0,
                i % 2 == 0,
                i <= s.len(),
                forall|j: int| 0 <= j < i ==> hex_val(#[trigger] s@[j]) >= 0,
                ret@ == hex_decode(s@.take(i as int)),
            decreases s.len() - i,
        {
            let hi = hex_value(s[i]);
            let lo = hex_value(s[i + 1]);
            match (hi, lo) {
                (Some(h), Some(l)) => {
                    ret.push(h * 16 + l);
                    assert(ret@ =~= hex_decode(s@.take(i + 2)));
                    i = i + 2;
                },
                _ => {
                    return Err(DecodeError::new("invalid hex digit"));
                },
            }
        }
        assert(s@.take(s@.len() as int) == s@);
        Ok(ret)
    }
}

} // verus!
