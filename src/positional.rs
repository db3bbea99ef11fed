//! Base36, Base58 and Base62: the input read as one big-endian number and
//! written in another radix, of any length.
use vstd::prelude::*;
use crate::alphabet::{
    Alphabet, radix, digit_char, in_alphabet, all_in_alphabet, chars_digits, digits_chars,
    radix_of, to_char, to_digit,
};
use crate::errors::DecodeError;

verus! {

/// The number whose digits in `base` are `d`, the most significant first.
pub open spec fn value(d: Seq<u8>, base: nat) -> nat
    decreases d.len(),
{
    if d.len() == 0 {
        0
    } else {
        value(d.drop_last(), base) * base + d.last() as nat
    }
}

/// The digits of `n` in radix `r`, the most significant first, without leading
/// zeros (none at all for zero).
pub open spec fn radix_digits(n: nat, r: nat) -> Seq<u8>
    recommends
        2 <= r <= 256,
    decreases n via radix_digits_decreases
{
    if n == 0 || r < 2 || r > 256 {
        Seq::empty()
    } else {
        radix_digits(n / r, r).push((n % r) as u8)
    }
}

#[via_fn]
proof fn radix_digits_decreases(n: nat, r: nat) {
    if n != 0 && r >= 2 && r <= 256 {
        vstd::arithmetic::div_mod::lemma_div_decreases(n as int, r as int);
    }
}

/// All digits are below `base`.
pub open spec fn digits_below(d: Seq<u8>, base: nat) -> bool {
    forall|i: int| 0 <= i < d.len() ==> (#[trigger] d[i]) < base
}

proof fn lemma_value_zero(d: Seq<u8>, base: nat)
    requires
        base > 0,
    ensures
        value(d, base) == 0 <==> forall|i: int| 0 <= i < d.len() ==> #[trigger] d[i] == 0,
    decreases d.len(),
{
    if d.len() > 0 {
        let p = d.drop_last();
        lemma_value_zero(p, base);
        let v = value(p, base);
        if value(d, base) == 0 {
            assert(v == 0 && d.last() == 0) by (nonlinear_arith)
                requires v * base + d.last() as nat == 0, v >= 0, base > 0;
            assert forall|i: int| 0 <= i < d.len() implies #[trigger] d[i] == 0 by {
                if i < d.len() - 1 {
                    assert(d[i] == p[i]);
                }
            }
        } else {
            if forall|i: int| 0 <= i < d.len() ==> #[trigger] d[i] == 0 {
                assert forall|i: int| 0 <= i < p.len() implies #[trigger] p[i] == 0 by {
                    assert(d[i] == 0);
                }
                assert(d[d.len() - 1] == 0);
            }
        }
    }
}

/// The digits of `n` are digits of the radix, the first is not zero, and they
/// write `n`.
pub proof fn lemma_radix_digits(n: nat, r: nat)
    requires
        2 <= r <= 256,
    ensures
        digits_below(radix_digits(n, r), r),
        n > 0 ==> radix_digits(n, r)[0] != 0,
        value(radix_digits(n, r), r) == n,
    decreases n,
{
    if n > 0 {
        let q = n / r;
        vstd::arithmetic::div_mod::lemma_div_decreases(n as int, r as int);
        lemma_radix_digits(q, r);
        let d = radix_digits(n, r);
        let p = radix_digits(q, r);
        assert(d == p.push((n % r) as u8));
        assert(d.drop_last() =~= p);
        assert(n == q * r + n % r) by (nonlinear_arith) requires r > 0, q == n / r;
        assert forall|i: int| 0 <= i < d.len() implies (#[trigger] d[i]) < r by {
            if i < p.len() {
                assert(d[i] == p[i]);
            }
        }
        if q == 0 {
            assert(n % r == n) by (nonlinear_arith) requires q == n / r, q == 0, r > 0, n > 0;
        } else {
            assert(d[0] == p[0]);
        }
    }
}

/// Divides the number whose digits in `base` are `d` by `divisor`: the quotient
/// has as many digits, and the remainder is returned beside it.
fn divmod(d: &Vec<u8>, base: u32, divisor: u32) -> (r: (Vec<u8>, u32))
    requires
        2 <= base <= 256,
        2 <= divisor <= 256,
        digits_below(d@, base as nat),
    ensures
        value(r.0@, base as nat) * divisor + r.1 == value(d@, base as nat),
        r.1 < divisor,
        r.0@.len() == d@.len(),
        digits_below(r.0@, base as nat),
{
    let mut q: Vec<u8> = Vec::new();
    let mut rem: u32 = 0;
    assert(d@.take(0) =~= Seq::<u8>::empty());
    assert(value(q@, base as nat) == 0);
    assert(value(d@.take(0), base as nat) == 0);
    for i in 0..d.len()
        invariant
            2 <= base <= 256,
            2 <= divisor <= 256,
            digits_below(d@, base as nat),
            rem < divisor,
            q@.len() == i,
            digits_below(q@, base as nat),
            value(q@, base as nat) * divisor + rem == value(d@.take(i as int), base as nat),
    {
        assert(rem * base <= 65536) by (nonlinear_arith) requires rem < divisor <= 256, base <= 256;
        let cur: u32 = rem * base + d[i] as u32;
        assert(cur < divisor * base) by (nonlinear_arith)
            requires cur == rem * base + d@[i as int], rem < divisor, d@[i as int] < base;
        assert(cur / divisor < base) by (nonlinear_arith)
            requires cur < divisor * base, divisor > 0;
        let ghost vq = value(q@, base as nat);
        let ghost old_q = q@;
        q.push((cur / divisor) as u8);
        let ghost prev = d@.take(i as int);
        assert(d@.take(i + 1).drop_last() == prev);
        assert(q@.drop_last() =~= old_q);
        proof {
            let c = cur as int;
            let dv = divisor as int;
            assert(c == (c / dv) * dv + c % dv) by (nonlinear_arith) requires dv > 0;
            assert((vq * base + c / dv) * dv + c % dv == (vq * dv + rem) * base + d@[i as int])
                by (nonlinear_arith)
                requires c == rem * base + d@[i as int], c == (c / dv) * dv + c % dv;
        }
        rem = cur % divisor;
        assert(value(q@, base as nat) == vq * base + (cur / divisor));
    }
    assert(d@.take(d@.len() as int) == d@);
    (q, rem)
}

/// Whether every digit is zero.
fn all_zero(d: &Vec<u8>, base: u32) -> (r: bool)
    requires
        base > 0,
    ensures
        r <==> value(d@, base as nat) == 0,
{
    for i in 0..d.len()
        invariant
            base > 0,
            forall|j: int| 0 <= j < i ==> d@[j] == 0,
    {
        if d[i] != 0 {
            assert(d@[i as int] != 0);
            proof {
                lemma_value_zero(d@, base as nat);
            }
            return false;
        }
    }
    proof {
        lemma_value_zero(d@, base as nat);
    }
    true
}

/// The digits in radix `to` of the number whose digits in radix `from` are `d`.
fn convert(d: &Vec<u8>, from: u32, to: u32) -> (r: Vec<u8>)
    requires
        2 <= from <= 256,
        2 <= to <= 256,
        digits_below(d@, from as nat),
    ensures
        r@ == radix_digits(value(d@, from as nat), to as nat),
{
    let mut cur: Vec<u8> = d.clone();
    let mut out: Vec<u8> = Vec::new();
    let ghost total = value(d@, from as nat);
    while !all_zero(&cur, from)
        invariant
            2 <= from <= 256,
            2 <= to <= 256,
            digits_below(cur@, from as nat),
            radix_digits(total, to as nat) == radix_digits(value(cur@, from as nat), to as nat)
                + out@,
        decreases value(cur@, from as nat),
    {
        let (q, rem) = divmod(&cur, from, to);
        proof {
            let v = value(cur@, from as nat) as int;
            let qv = value(q@, from as nat) as int;
            let t = to as int;
            vstd::arithmetic::div_mod::lemma_fundamental_div_mod_converse(v, t, qv, rem as int);
            assert(qv < v) by (nonlinear_arith) requires qv * t + rem == v, t >= 2, v > 0;
            assert(radix_digits(v as nat, t as nat) == radix_digits(qv as nat, t as nat).push(
                rem as u8,
            ));
            assert(radix_digits(qv as nat, t as nat) + out@.insert(0, rem as u8) =~= radix_digits(
                qv as nat,
                t as nat,
            ).push(rem as u8) + out@);
        }
        out.insert(0, rem as u8);
        cur = q;
    }
    assert(radix_digits(0, to as nat) + out@ =~= out@);
    out
}

/// How many times `x` opens `s`.
pub open spec fn lead_count<A>(s: Seq<A>, x: A) -> nat
    decreases s.len(),
{
    if s.len() == 0 || s[0] != x {
        0
    } else {
        1 + lead_count(s.drop_first(), x)
    }
}

/// Whether the scheme writes one zero digit for each leading zero byte.
pub open spec fn keeps_zeros(a: Alphabet) -> bool {
    a != Alphabet::B36
}

/// The encoding of `b`: its value in the alphabet's radix; with Base58 and
/// Base62 after one zero digit for each leading zero byte; with Base36 `0` for
/// the value zero.
pub open spec fn positional_encode(a: Alphabet, b: Seq<u8>) -> Seq<char> {
    let digits = digits_chars(a, radix_digits(value(b, 256), radix(a)));
    if keeps_zeros(a) {
        Seq::new(lead_count(b, 0u8), |i: int| digit_char(a, 0)) + digits
    } else if digits.len() == 0 {
        seq!['0']
    } else {
        digits
    }
}

/// The bytes of the number that `s` writes in the alphabet's radix; with Base58
/// and Base62 after one zero byte for each leading zero digit.
pub open spec fn positional_decode(a: Alphabet, s: Seq<char>) -> Seq<u8> {
    let bytes = radix_digits(value(chars_digits(a, s), radix(a)), 256);
    if keeps_zeros(a) {
        Seq::new(lead_count(s, digit_char(a, 0)), |i: int| 0u8) + bytes
    } else {
        bytes
    }
}

pub open spec fn positional(a: Alphabet) -> bool {
    a == Alphabet::B36 || a == Alphabet::B58 || a == Alphabet::B62
}

proof fn lemma_lead_count<A>(s: Seq<A>, x: A, i: int)
    requires
        0 <= i <= s.len(),
        forall|j: int| 0 <= j < i ==> s[j] == x,
        i == s.len() || s[i] != x,
    ensures
        lead_count(s, x) == i,
    decreases i,
{
    if i > 0 {
        lemma_lead_count(s.drop_first(), x, i - 1);
    }
}

/// How many zero bytes open `b`.
fn count_zero_bytes(b: &Vec<u8>) -> (r: usize)
    ensures
        r == lead_count(b@, 0u8),
{
    let mut i: usize = 0;
    while i < b.len() && b[i] == 0
        invariant
            i <= b.len(),
            forall|j: int| 0 <= j < i ==> b@[j] == 0u8,
        decreases b.len() - i,
    {
        i = i + 1;
    }
    proof {
        lemma_lead_count(b@, 0u8, i as int);
    }
    i
}

/// How many times `c` opens `s`.
fn count_leading_char(s: &Vec<char>, c: char) -> (r: usize)
    ensures
        r == lead_count(s@, c),
{
    let mut i: usize = 0;
    while i < s.len() && s[i] == c
        invariant
            i <= s.len(),
            forall|j: int| 0 <= j < i ==> s@[j] == c,
        decreases s.len() - i,
    {
        i = i + 1;
    }
    proof {
        lemma_lead_count(s@, c, i as int);
    }
    i
}

fn positional_encode_exec(a: Alphabet, input: &[u8]) -> (r: Vec<char>)
    requires
        positional(a),
    ensures
        r@ == positional_encode(a, input@),
{
    let mut bytes: Vec<u8> = Vec::new();
    for i in 0..input.len()
        invariant
            bytes@ == input@.take(i as int),
    {
        bytes.push(input[i]);
        assert(bytes@ =~= input@.take(i + 1));
    }
    assert(input@.take(input@.len() as int) =~= input@);
    let r = radix_of(a);
    let digits = convert(&bytes, 256, r as u32);
    let mut out: Vec<char> = Vec::new();
    if a != Alphabet::B36 {
        let z = count_zero_bytes(&bytes);
        let zero = to_char(a, 0);
        for k in 0..z
            invariant
                out@ == Seq::new(k as nat, |i: int| digit_char(a, 0)),
                zero == digit_char(a, 0),
        {
            out.push(zero);
            assert(out@ =~= Seq::new((k + 1) as nat, |i: int| digit_char(a, 0)));
        }
    }
    let ghost start = out@;
    let ghost ds = radix_digits(value(input@, 256), radix(a));
    assert(digits@ == ds);
    proof {
        lemma_radix_digits(value(input@, 256), radix(a));
    }
    for k in 0..digits.len()
        invariant
            positional(a), r == radix(a),
            digits@ == ds,
            forall|i: int| 0 <= i < ds.len() ==> #[trigger] ds[i] < radix(a),
            out@ == start + digits_chars(a, ds.take(k as int)),
    {
        out.push(to_char(a, digits[k]));
        assert(out@ =~= start + digits_chars(a, ds.take(k + 1)));
    }
    assert(ds.take(ds.len() as int) =~= ds);
    if a == Alphabet::B36 && digits.len() == 0 {
        out.push('0');
        assert(out@ =~= seq!['0']);
    }
    out
}

fn positional_decode_exec(a: Alphabet, input: &str) -> (r: Result<Vec<u8>, DecodeError>)
    requires
        positional(a),
    ensures
        r is Ok <==> all_in_alphabet(a, input@),
        r matches Ok(v) ==> v@ == positional_decode(a, input@),
{
    let s = crate::alphabet::chars_of(input);
    let mut d: Vec<u8> = Vec::new();
    for i in 0..s.len()
        invariant
            s@ == input@,
            forall|j: int| 0 <= j < i ==> in_alphabet(a, #[trigger] s@[j]),
            d@ == chars_digits(a, s@.take(i as int)),
            digits_below(d@, radix(a)),
    {
        match to_digit(a, s[i]) {
            Some(v) => {
                d.push(v);
                assert(d@ =~= chars_digits(a, s@.take(i + 1)));
            },
            None => {
                return Err(DecodeError::new("invalid character"));
            },
        }
    }
    assert(s@.take(s@.len() as int) =~= s@);
    let r = radix_of(a);
    let bytes = convert(&d, r as u32, 256);
    if a == Alphabet::B36 {
        return Ok(bytes);
    }
    let z = count_leading_char(&s, to_char(a, 0));
    let mut out: Vec<u8> = Vec::new();
    for k in 0..z
        invariant
            out@ == Seq::new(k as nat, |i: int| 0u8),
    {
        out.push(0);
        assert(out@ =~= Seq::new((k + 1) as nat, |i: int| 0u8));
    }
    let ghost start = out@;
    for k in 0..bytes.len()
        invariant
            out@ == start + bytes@.take(k as int),
    {
        out.push(bytes[k]);
        assert(out@ =~= start + bytes@.take(k + 1));
    }
    assert(bytes@.take(bytes@.len() as int) =~= bytes@);
    Ok(out)
}

/// Every character of an encoding is in the alphabet.
pub proof fn lemma_positional_encode_in_alphabet(a: Alphabet, b: Seq<u8>)
    requires
        positional(a),
    ensures
        all_in_alphabet(a, positional_encode(a, b)),
{
    let ds = radix_digits(value(b, 256), radix(a));
    lemma_radix_digits(value(b, 256), radix(a));
    crate::alphabet::lemma_digit_char(a, 0);
    let digits = digits_chars(a, ds);
    assert forall|i: int| 0 <= i < digits.len() implies in_alphabet(a, #[trigger] digits[i]) by {
        crate::alphabet::lemma_digit_char(a, ds[i] as nat);
    }
    let e = positional_encode(a, b);
    if keeps_zeros(a) {
        let z = Seq::new(lead_count(b, 0u8), |i: int| digit_char(a, 0));
        assert forall|i: int| 0 <= i < e.len() implies in_alphabet(a, #[trigger] e[i]) by {
            if i < z.len() {
                assert(e[i] == z[i]);
            } else {
                assert(e[i] == digits[i - z.len()]);
            }
        }
    }
}

proof fn lemma_value_canonical(d: Seq<u8>, r: nat)
    requires
        2 <= r <= 256,
        digits_below(d, r),
        d.len() == 0 || d[0] != 0,
    ensures
        radix_digits(value(d, r), r) == d,
    decreases d.len(),
{
    if d.len() > 0 {
        let p = d.drop_last();
        lemma_value_zero(d, r);
        assert(d[0] != 0);
        let v = value(d, r);
        assert(v != 0);
        assert(d.last() < r);
        vstd::arithmetic::div_mod::lemma_fundamental_div_mod_converse(
            v as int,
            r as int,
            value(p, r) as int,
            d.last() as int,
        );
        if p.len() > 0 {
            assert(p[0] == d[0]);
        }
        assert(digits_below(p, r)) by {
            assert forall|i: int| 0 <= i < p.len() implies (#[trigger] p[i]) < r by {
                assert(p[i] == d[i]);
            }
        }
        lemma_value_canonical(p, r);
        assert(d == p.push(d.last()));
    }
}

proof fn lemma_value_leading_zeros(z: nat, d: Seq<u8>, r: nat)
    requires
        r > 0,
    ensures
        value(Seq::new(z, |i: int| 0u8) + d, r) == value(d, r),
    decreases d.len(),
{
    let zs = Seq::new(z, |i: int| 0u8);
    if d.len() == 0 {
        assert(zs + d =~= zs);
        lemma_value_zero(zs, r);
    } else {
        assert((zs + d).drop_last() =~= zs + d.drop_last());
        lemma_value_leading_zeros(z, d.drop_last(), r);
    }
}

proof fn lemma_lead_count_split<A>(s: Seq<A>, x: A)
    ensures
        lead_count(s, x) <= s.len(),
        forall|j: int| 0 <= j < lead_count(s, x) ==> s[j] == x,
        lead_count(s, x) < s.len() ==> s[lead_count(s, x) as int] != x,
    decreases s.len(),
{
    if s.len() > 0 && s[0] == x {
        lemma_lead_count_split(s.drop_first(), x);
        assert forall|j: int| 0 <= j < lead_count(s, x) implies s[j] == x by {
            if j > 0 {
                assert(s[j] == s.drop_first()[j - 1]);
            }
        }
    }
}

/// Decoding the encoding of `b` gives `b` back: always with Base58 and Base62,
/// and with Base36 where `b` does not open with a zero byte.
pub proof fn lemma_positional_round_trip(a: Alphabet, b: Seq<u8>)
    requires
        positional(a),
        !keeps_zeros(a) ==> b.len() == 0 || b[0] != 0,
    ensures
        all_in_alphabet(a, positional_encode(a, b)),
        positional_decode(a, positional_encode(a, b)) == b,
{
    lemma_positional_encode_in_alphabet(a, b);
    let r = radix(a);
    let z = lead_count(b, 0u8);
    lemma_lead_count_split(b, 0u8);
    let zs = Seq::new(z, |i: int| 0u8);
    let rest = b.skip(z as int);
    assert(b =~= zs + rest);
    lemma_value_leading_zeros(z, rest, 256);
    let v = value(b, 256);
    assert(v == value(rest, 256));
    assert(digits_below(rest, 256)) by {
        assert forall|i: int| 0 <= i < rest.len() implies (#[trigger] rest[i]) < 256 by {}
    }
    if rest.len() > 0 {
        assert(rest[0] == b[z as int]);
    }
    lemma_value_canonical(rest, 256);
    let ds = radix_digits(v, r);
    lemma_radix_digits(v, r);
    let dc = digits_chars(a, ds);
    assert(chars_digits(a, dc) =~= ds) by {
        assert forall|i: int| 0 <= i < ds.len() implies chars_digits(a, dc)[i] == ds[i] by {
            crate::alphabet::lemma_digit_char(a, ds[i] as nat);
        }
    }
    crate::alphabet::lemma_digit_char(a, 0);
    let e = positional_encode(a, b);
    if keeps_zeros(a) {
        let c0 = digit_char(a, 0);
        let zc = Seq::new(z, |i: int| c0);
        assert(e == zc + dc);
        assert(chars_digits(a, e) =~= zs + ds) by {
            assert forall|i: int| 0 <= i < e.len() implies chars_digits(a, e)[i] == (zs + ds)[i] by {
                if i >= z {
                    assert(e[i] == dc[i - z]);
                    assert(chars_digits(a, dc)[i - z] == ds[i - z]);
                }
            }
        }
        lemma_value_leading_zeros(z, ds, r);
        assert forall|j: int| 0 <= j < z implies e[j] == c0 by {}
        if e.len() > z {
            assert(e[z as int] == dc[0]);
            crate::alphabet::lemma_digit_char(a, ds[0] as nat);
            assert(dc[0] != c0);
        }
        lemma_lead_count(e, c0, z as int);
        assert(positional_decode(a, e) =~= zs + rest);
    } else {
        assert(z == 0) by {
            if b.len() > 0 {
                assert(b[0] != 0);
            }
        }
        assert(rest =~= b);
        if ds.len() == 0 {
            assert(e == seq!['0']);
            assert(chars_digits(a, e) =~= seq![0u8]);
            assert(seq![0u8] =~= Seq::new(1, |i: int| 0u8) + Seq::<u8>::empty());
            lemma_value_leading_zeros(1, Seq::<u8>::empty(), r);
            assert(value(chars_digits(a, e), r) == 0);
        }
    }
}

/// Base36: `0-9a-z`; leading zero bytes are not kept.
pub struct Base36 {}

impl Base36 {
    /// The input's value in radix 36, or `0` for the value zero.
    /// Never fails.
    pub fn encode(input: &[u8]) -> (r: Result<String, DecodeError>)
        ensures
            r matches Ok(s) && s@ == positional_encode(Alphabet::B36, input@),
            r matches Ok(s) && all_in_alphabet(Alphabet::B36, s@),
    {
        proof {
            lemma_positional_encode_in_alphabet(Alphabet::B36, input@);
        }
        let v = positional_encode_exec(Alphabet::B36, input);
        Ok(crate::alphabet::string_of(&v))
    }

    /// Fails where a character is not in the alphabet.
    pub fn decode(input: &str) -> (r: Result<Vec<u8>, DecodeError>)
        ensures
            r is Ok <==> all_in_alphabet(Alphabet::B36, input@),
            r matches Ok(v) ==> v@ == positional_decode(Alphabet::B36, input@),
    {
        positional_decode_exec(Alphabet::B36, input)
    }
}

/// Base58: `1-9A-Za-z` without `I`, `O` and `l`; leading zero bytes are kept as `1`.
pub struct Base58 {}

impl Base58 {
    /// One `1` per leading zero byte, then the input's value in radix 58.
    /// Never fails.
    pub fn encode(input: &[u8]) -> (r: Result<String, DecodeError>)
        ensures
            r matches Ok(s) && s@ == positional_encode(Alphabet::B58, input@),
            r matches Ok(s) && all_in_alphabet(Alphabet::B58, s@),
    {
        proof {
            lemma_positional_encode_in_alphabet(Alphabet::B58, input@);
        }
        let v = positional_encode_exec(Alphabet::B58, input);
        Ok(crate::alphabet::string_of(&v))
    }

    /// Fails where a character is not in the alphabet.
    pub fn decode(input: &str) -> (r: Result<Vec<u8>, DecodeError>)
        ensures
            r is Ok <==> all_in_alphabet(Alphabet::B58, input@),
            r matches Ok(v) ==> v@ == positional_decode(Alphabet::B58, input@),
    {
        positional_decode_exec(Alphabet::B58, input)
    }
}

/// Base62: `0-9A-Za-z`; leading zero bytes are kept as `0`.
pub struct Base62 {}

impl Base62 {
    /// One `0` per leading zero byte, then the input's value in radix 62.
    /// Never fails.
    pub fn encode(input: &[u8]) -> (r: Result<String, DecodeError>)
        ensures
            r matches Ok(s) && s@ == positional_encode(Alphabet::B62, input@),
            r matches Ok(s) && all_in_alphabet(Alphabet::B62, s@),
    {
        proof {
            lemma_positional_encode_in_alphabet(Alphabet::B62, input@);
        }
        let v = positional_encode_exec(Alphabet::B62, input);
        Ok(crate::alphabet::string_of(&v))
    }

    /// Fails where a character is not in the alphabet.
    pub fn decode(input: &str) -> (r: Result<Vec<u8>, DecodeError>)
        ensures
            r is Ok <==> all_in_alphabet(Alphabet::B62, input@),
            r matches Ok(v) ==> v@ == positional_decode(Alphabet::B62, input@),
    {
        positional_decode_exec(Alphabet::B62, input)
    }
}

} // verus!
