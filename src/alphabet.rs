//! The fixed alphabets of the encodings, as maps between digit values and
//! characters, and the conversions between strings and character vectors.
use vstd::prelude::*;

verus! {

/// Relies on `String::push`: the character is appended at the end.
pub assume_specification[ String::push ](s: &mut String, c: char)
    ensures
        final(s)@ == old(s)@.push(c),
;

/// The digit alphabets of the encodings.
#[derive(Clone, Copy, Debug, PartialEq, Eq, Structural)]
pub enum Alphabet {
    /// `A-Z2-7`
    B32,
    /// `0-9a-z`
    B36,
    /// `1-9A-Za-z` without `I`, `O` and `l`
    B58,
    /// `0-9A-Za-z`
    B62,
    /// `A-Za-z0-9+/`
    B64,
    /// `A-Za-z0-9` followed by ``!#$%&()*+,./:;<=>?@[]^_`{|}~"``
    B91,
}

pub open spec fn radix(a: Alphabet) -> nat {
    match a {
        Alphabet::B32 => 32,
        Alphabet::B36 => 36,
        Alphabet::B58 => 58,
        Alphabet::B62 => 62,
        Alphabet::B64 => 64,
        Alphabet::B91 => 91,
    }
}

/// The character that stands for digit `d` (for `d < radix(a)`).
pub open spec fn digit_char(a: Alphabet, n: nat) -> char {
    let d = n as int;
    let c: int = match a {
        Alphabet::B32 => if d < 26 { 65 + d } else { 24 + d },
        Alphabet::B36 => if d < 10 { 48 + d } else { 87 + d },
        Alphabet::B58 => if d < 9 {
            49 + d
        } else if d < 17 {
            56 + d
        } else if d < 22 {
            57 + d
        } else if d < 33 {
            58 + d
        } else if d < 44 {
            64 + d
        } else {
            65 + d
        },
        Alphabet::B62 => if d < 10 {
            48 + d
        } else if d < 36 {
            55 + d
        } else {
            61 + d
        },
        Alphabet::B64 => if d < 26 {
            65 + d
        } else if d < 52 {
            71 + d
        } else if d < 62 {
            d - 4
        } else if d == 62 {
            43
        } else {
            47
        },
        Alphabet::B91 => if d < 26 {
            65 + d
        } else if d < 52 {
            71 + d
        } else if d < 62 {
            d - 4
        } else if d == 62 {
            33
        } else if d < 67 {
            d - 28
        } else if d < 72 {
            d - 27
        } else if d < 74 {
            d - 26
        } else if d < 81 {
            d - 16
        } else if d == 81 {
            91
        } else if d < 86 {
            d + 11
        } else if d < 90 {
            d + 37
        } else {
            34
        },
    };
    c as char
}

/// The digit value of character `c`, or -1 where `c` is not in the alphabet.
pub open spec fn char_digit(a: Alphabet, c: char) -> int {
    let x = c as int;
    match a {
        Alphabet::B32 => if 65 <= x <= 90 {
            x - 65
        } else if 50 <= x <= 55 {
            x - 24
        } else {
            -1
        },
        Alphabet::B36 => if 48 <= x <= 57 {
            x - 48
        } else if 97 <= x <= 122 {
            x - 87
        } else {
            -1
        },
        Alphabet::B58 => if 49 <= x <= 57 {
            x - 49
        } else if 65 <= x <= 72 {
            x - 56
        } else if 74 <= x <= 78 {
            x - 57
        } else if 80 <= x <= 90 {
            x - 58
        } else if 97 <= x <= 107 {
            x - 64
        } else if 109 <= x <= 122 {
            x - 65
        } else {
            -1
        },
        Alphabet::B62 => if 48 <= x <= 57 {
            x - 48
        } else if 65 <= x <= 90 {
            x - 55
        } else if 97 <= x <= 122 {
            x - 61
        } else {
            -1
        },
        Alphabet::B64 => if 65 <= x <= 90 {
            x - 65
        } else if 97 <= x <= 122 {
            x - 71
        } else if 48 <= x <= 57 {
            x + 4
        } else if x == 43 {
            62
        } else if x == 47 {
            63
        } else {
            -1
        },
        Alphabet::B91 => if 65 <= x <= 90 {
            x - 65
        } else if 97 <= x <= 122 {
            x - 71
        } else if 48 <= x <= 57 {
            x + 4
        } else if x == 33 {
            62
        } else if 35 <= x <= 38 {
            x + 28
        } else if 40 <= x <= 44 {
            x + 27
        } else if 46 <= x <= 47 {
            x + 26
        } else if 58 <= x <= 64 {
            x + 16
        } else if x == 91 {
            81
        } else if 93 <= x <= 96 {
            x - 11
        } else if 123 <= x <= 126 {
            x - 37
        } else if x == 34 {
            90
        } else {
            -1
        },
    }
}

/// A character of the alphabet.
pub open spec fn in_alphabet(a: Alphabet, c: char) -> bool {
    char_digit(a, c) >= 0
}

/// Every character of `s` is a character of the alphabet.
pub open spec fn all_in_alphabet(a: Alphabet, s: Seq<char>) -> bool {
    forall|i: int| 0 <= i < s.len() ==> in_alphabet(a, #[trigger] s[i])
}

/// The characters that stand for the digits `d`.
pub open spec fn digits_chars(a: Alphabet, d: Seq<u8>) -> Seq<char> {
    d.map_values(|x: u8| digit_char(a, x as nat))
}

/// The digit values of the characters `s`.
pub open spec fn chars_digits(a: Alphabet, s: Seq<char>) -> Seq<u8> {
    s.map_values(|c: char| char_digit(a, c) as u8)
}

/// Each digit has one character, and that character reads back as the digit.
pub proof fn lemma_digit_char(a: Alphabet, d: nat)
    requires
        d < radix(a),
    ensures
        char_digit(a, digit_char(a, d)) == d,
        in_alphabet(a, digit_char(a, d)),
{
}

pub fn radix_of(a: Alphabet) -> (r: u8)
    ensures
        r == radix(a),
{
    match a {
        Alphabet::B32 => 32,
        Alphabet::B36 => 36,
        Alphabet::B58 => 58,
        Alphabet::B62 => 62,
        Alphabet::B64 => 64,
        Alphabet::B91 => 91,
    }
}

/// The character of digit `d`.
pub fn to_char(a: Alphabet, d: u8) -> (c: char)
    requires
        d < radix(a),
    ensures
        c == digit_char(a, d as nat),
        in_alphabet(a, c),
{
    proof {
        lemma_digit_char(a, d as nat);
    }
    let d = d as u32;
    let x: u32 = match a {
        Alphabet::B32 => if d < 26 { 65 + d } else { 24 + d },
        Alphabet::B36 => if d < 10 { 48 + d } else { 87 + d },
        Alphabet::B58 => if d < 9 {
            49 + d
        } else if d < 17 {
            56 + d
        } else if d < 22 {
            57 + d
        } else if d < 33 {
            58 + d
        } else if d < 44 {
            64 + d
        } else {
            65 + d
        },
        Alphabet::B62 => if d < 10 {
            48 + d
        } else if d < 36 {
            55 + d
        } else {
            61 + d
        },
        Alphabet::B64 => if d < 26 {
            65 + d
        } else if d < 52 {
            71 + d
        } else if d < 62 {
            d - 4
        } else if d == 62 {
            43
        } else {
            47
        },
        Alphabet::B91 => if d < 26 {
            65 + d
        } else if d < 52 {
            71 + d
        } else if d < 62 {
            d - 4
        } else if d == 62 {
            33
        } else if d < 67 {
            d - 28
        } else if d < 72 {
            d - 27
        } else if d < 74 {
            d - 26
        } else if d < 81 {
            d - 16
        } else if d == 81 {
            91
        } else if d < 86 {
            d + 11
        } else if d < 90 {
            d + 37
        } else {
            34
        },
    };
    (x as u8) as char
}

/// The digit of character `c`, or `None` where `c` is not in the alphabet.
pub fn to_digit(a: Alphabet, c: char) -> (r: Option<u8>)
    ensures
        r is Some <==> in_alphabet(a, c),
        r is Some ==> r->0 == char_digit(a, c) && r->0 < radix(a),
{
    let x = c as u32;
    let v: i32 = match a {
        Alphabet::B32 => if 65 <= x && x <= 90 {
            x as i32 - 65
        } else if 50 <= x && x <= 55 {
            x as i32 - 24
        } else {
            -1
        },
        Alphabet::B36 => if 48 <= x && x <= 57 {
            x as i32 - 48
        } else if 97 <= x && x <= 122 {
            x as i32 - 87
        } else {
            -1
        },
        Alphabet::B58 => if 49 <= x && x <= 57 {
            x as i32 - 49
        } else if 65 <= x && x <= 72 {
            x as i32 - 56
        } else if 74 <= x && x <= 78 {
            x as i32 - 57
        } else if 80 <= x && x <= 90 {
            x as i32 - 58
        } else if 97 <= x && x <= 107 {
            x as i32 - 64
        } else if 109 <= x && x <= 122 {
            x as i32 - 65
        } else {
            -1
        },
        Alphabet::B62 => if 48 <= x && x <= 57 {
            x as i32 - 48
        } else if 65 <= x && x <= 90 {
            x as i32 - 55
        } else if 97 <= x && x <= 122 {
            x as i32 - 61
        } else {
            -1
        },
        Alphabet::B64 => if 65 <= x && x <= 90 {
            x as i32 - 65
        } else if 97 <= x && x <= 122 {
            x as i32 - 71
        } else if 48 <= x && x <= 57 {
            x as i32 + 4
        } else if x == 43 {
            62
        } else if x == 47 {
            63
        } else {
            -1
        },
        Alphabet::B91 => if 65 <= x && x <= 90 {
            x as i32 - 65
        } else if 97 <= x && x <= 122 {
            x as i32 - 71
        } else if 48 <= x && x <= 57 {
            x as i32 + 4
        } else if x == 33 {
            62
        } else if 35 <= x && x <= 38 {
            x as i32 + 28
        } else if 40 <= x && x <= 44 {
            x as i32 + 27
        } else if 46 <= x && x <= 47 {
            x as i32 + 26
        } else if 58 <= x && x <= 64 {
            x as i32 + 16
        } else if x == 91 {
            81
        } else if 93 <= x && x <= 96 {
            x as i32 - 11
        } else if 123 <= x && x <= 126 {
            x as i32 - 37
        } else if x == 34 {
            90
        } else {
            -1
        },
    };
    if v < 0 {
        None
    } else {
        Some(v as u8)
    }
}

/// The characters of a string, in order.
pub fn chars_of(s: &str) -> (r: Vec<char>)
    ensures
        r@ == s@,
{
    let mut v: Vec<char> = Vec::new();
    for c in it: s.chars()
        invariant
            v@ == it.seq().take(it.index() as int),
    {
        v.push(c);
    }
    v
}

/// The string made of the characters `v`, in order.
pub fn string_of(v: &Vec<char>) -> (r: String)
    ensures
        r@ == v@,
{
    let mut s = String::new();
    for i in 0..v.len()
        invariant
            s@ == v@.take(i as int),
    {
        s.push(v[i]);
        assert(v@.take(i + 1) == v@.take(i as int).push(v@[i as int]));
    }
    assert(v@.take(v@.len() as int) == v@);
    s
}

} // verus!
