//! Base91: 13 or 14 bits of input for each pair of characters.
use vstd::prelude::*;
use crate::alphabet::{Alphabet, digit_char, in_alphabet, all_in_alphabet, chars_digits, to_char, to_digit};
use crate::errors::DecodeError;

verus! {

pub open spec fn c91(x: u32) -> char {
    digit_char(Alphabet::B91, x as nat)
}

/// The encoder's state after one more byte, and the characters that the byte
/// completes: `b` holds `n` pending bits, the oldest lowest.
pub open spec fn enc91_step(b: u32, n: u32, byte: u8) -> (u32, u32, Seq<char>) {
    let b1 = b | ((byte as u32) << n);
    let n1 = (n + 8) as u32;
    if n1 > 13 {
        if b1 & 8191 > 88 {
            let v = b1 & 8191;
            (b1 >> 13u32, (n1 - 13) as u32, seq![c91(v % 91), c91(v / 91)])
        } else {
            let v = b1 & 16383;
            (b1 >> 14u32, (n1 - 14) as u32, seq![c91(v % 91), c91(v / 91)])
        }
    } else {
        (b1, n1, Seq::empty())
    }
}

/// The encoder's state and output after the bytes `b`.
pub open spec fn enc91_run(b: Seq<u8>) -> (u32, u32, Seq<char>)
    decreases b.len(),
{
    if b.len() == 0 {
        (0, 0, Seq::empty())
    } else {
        let s = enc91_run(b.drop_last());
        let t = enc91_step(s.0, s.1, b.last());
        (t.0, t.1, s.2 + t.2)
    }
}

/// The characters for the bits left at the end: one, or two where they are
/// more than 7 bits or more than 90.
pub open spec fn enc91_tail(b: u32, n: u32) -> Seq<char> {
    if n > 0 {
        if n > 7 || b > 90 {
            seq![c91(b % 91), c91(b / 91)]
        } else {
            seq![c91(b % 91)]
        }
    } else {
        Seq::empty()
    }
}

/// The Base91 encoding of `b`.
pub open spec fn base91_encode(b: Seq<u8>) -> Seq<char> {
    let s = enc91_run(b);
    s.2 + enc91_tail(s.0, s.1)
}

/// Every whole byte of the `n` bits in `b`, the lowest first, and what is left.
pub open spec fn dec91_drain(b: u32, n: u32) -> (u32, u32, Seq<u8>)
    decreases n,
{
    if n > 7 {
        let t = dec91_drain(b >> 8u32, (n - 8) as u32);
        (t.0, t.1, seq![(b & 255) as u8] + t.2)
    } else {
        (b, n, Seq::empty())
    }
}

/// The decoder's state after one more digit: a digit waits for its pair; a pair
/// gives 13 or 14 bits.
pub open spec fn dec91_step(b: u32, n: u32, pend: Option<u32>, d: u8) -> (u32, u32, Option<u32>, Seq<u8>) {
    match pend {
        None => (b, n, Some(d as u32), Seq::empty()),
        Some(v0) => {
            let v = (v0 + d * 91) as u32;
            let b1 = b | (v << n);
            let n1 = if v & 8191 > 88 { (n + 13) as u32 } else { (n + 14) as u32 };
            let t = dec91_drain(b1, n1);
            (t.0, t.1, None, t.2)
        },
    }
}

/// The decoder's state and output after the digits `d`.
pub open spec fn dec91_run(d: Seq<u8>) -> (u32, u32, Option<u32>, Seq<u8>)
    decreases d.len(),
{
    if d.len() == 0 {
        (0, 0, None, Seq::empty())
    } else {
        let s = dec91_run(d.drop_last());
        let t = dec91_step(s.0, s.1, s.2, d.last());
        (t.0, t.1, t.2, s.3 + t.3)
    }
}

/// The byte that a digit left without its pair gives at the end.
pub open spec fn dec91_tail(b: u32, n: u32, pend: Option<u32>) -> Seq<u8> {
    match pend {
        Some(v) => seq![((b | (v << n)) & 255) as u8],
        None => Seq::empty(),
    }
}

/// The bytes that the Base91 string `s` stands for.
pub open spec fn base91_decode(s: Seq<char>) -> Seq<u8> {
    let t = dec91_run(chars_digits(Alphabet::B91, s));
    t.3 + dec91_tail(t.0, t.1, t.2)
}

proof fn bv_shr_shr(c: u32, a: u32, b: u32)
    requires
        a + b < 32,
    ensures
        (c >> a) >> b == c >> ((a + b) as u32),
{
    let s = (a + b) as u32;
    assert((c >> a) >> b == c >> s) by (bit_vector) requires a + b < 32, s == a + b;
}

/// Draining takes every whole byte of the buffer, the lowest first.
proof fn lemma_drain(b: u32, n: u32)
    requires
        n <= 23,
    ensures
        dec91_drain(b, n).0 == b >> (8 * (n / 8)) as u32,
        dec91_drain(b, n).1 == n - 8 * (n / 8),
        dec91_drain(b, n).2 == Seq::new((n / 8) as nat, |j: int| ((b >> (8 * j) as u32) & 255) as u8),
    decreases n,
{
    if n > 7 {
        lemma_drain(b >> 8u32, (n - 8) as u32);
        let k = (n - 8) / 8;
        assert(n / 8 == k + 1);
        bv_shr_shr(b, 8, (8 * k) as u32);
        let t = dec91_drain(b >> 8u32, (n - 8) as u32);
        let want = Seq::new((n / 8) as nat, |j: int| ((b >> (8 * j) as u32) & 255) as u8);
        let got = seq![(b & 255) as u8] + t.2;
        assert forall|j: int| 0 <= j < want.len() implies got[j] == want[j] by {
            if j > 0 {
                let s1 = (8 * (j - 1)) as u32;
                bv_shr_shr(b, 8, s1);
                assert(got[j] == t.2[j - 1]);
                assert(t.2[j - 1] == (((b >> 8u32) >> s1) & 255) as u8);
                assert((8 * j) as u32 == 8 + s1);
            } else {
                assert((8 * j) as u32 == 0u32);
                assert(b >> 0u32 == b) by (bit_vector);
            }
        }
        assert(seq![(b & 255) as u8] + t.2 =~= Seq::new(
            (n / 8) as nat,
            |j: int| ((b >> (8 * j) as u32) & 255) as u8,
        ));
    } else {
        assert(b >> 0u32 == b) by (bit_vector);
        assert(Seq::<u8>::empty() =~= Seq::new((n / 8) as nat, |j: int| ((b >> (8 * j) as u32) & 255) as u8));
    }
}

/// The bytes `x[from..from + cnt]` sit in `c`, the first lowest.
pub open spec fn holds(c: u32, x: Seq<u8>, from: int, cnt: int) -> bool {
    forall|k: int| 0 <= k < cnt ==> #[trigger] x[from + k] as u32 == (c >> (8 * k) as u32) & 255
}

proof fn bv_push(bd: u32, b: u32, nd: u32, n: u32, y: u32, s: u32)
    requires
        bd >> nd == 0,
        b >> n == 0,
        nd <= 7,
        n <= 13,
        y < 256,
        s + 8 <= nd + n,
    ensures
        ((bd | ((b | (y << n)) << nd)) >> s) & 255 == ((bd | (b << nd)) >> s) & 255,
{
    assert(((bd | ((b | (y << n)) << nd)) >> s) & 255 == ((bd | (b << nd)) >> s) & 255)
        by (bit_vector)
        requires nd <= 7, n <= 13, y < 256, s + 8 <= nd + n;
}

proof fn bv_push_top(bd: u32, b: u32, nd: u32, n: u32, y: u32)
    requires
        bd >> nd == 0,
        b >> n == 0,
        nd <= 7,
        n <= 13,
        y < 256,
    ensures
        (b | (y << n)) >> (n + 8) == 0,
        ((bd | ((b | (y << n)) << nd)) >> (nd + n)) & 255 == y,
{
    assert((b | (y << n)) >> (n + 8) == 0) by (bit_vector) requires b >> n == 0, n <= 13, y < 256;
    assert(((bd | ((b | (y << n)) << nd)) >> (nd + n)) & 255 == y) by (bit_vector)
        requires bd >> nd == 0, b >> n == 0, nd <= 7, n <= 13, y < 256;
}

proof fn bv_take(bd: u32, b1: u32, nd: u32, n1: u32, w: u32, mask: u32, k8: u32, r: u32, q: u32)
    requires
        bd >> nd == 0,
        b1 >> n1 == 0,
        nd <= 7,
        14 <= n1 <= 21,
        w == 13 || w == 14,
        mask == (1u32 << w) - 1,
        k8 <= nd + w,
        r == nd + w - k8,
        q == n1 - w,
    ensures
        ((bd | ((b1 & mask) << nd)) >> k8) | ((b1 >> w) << r) == (bd | (b1 << nd)) >> k8,
        (bd | ((b1 & mask) << nd)) >> (nd + w) == 0,
        (b1 >> w) >> q == 0,
{
    assert(((bd | ((b1 & mask) << nd)) >> k8) | ((b1 >> w) << r) == (bd | (b1 << nd)) >> k8)
        by (bit_vector)
        requires bd >> nd == 0, b1 >> n1 == 0, nd <= 7, 14 <= n1 <= 21, w == 13 || w == 14,
            mask == (1u32 << w) - 1, k8 <= nd + w, r == nd + w - k8;
    assert((bd | ((b1 & mask) << nd)) >> (nd + w) == 0) by (bit_vector)
        requires bd >> nd == 0, nd <= 7, w == 13 || w == 14, mask == (1u32 << w) - 1;
    assert((b1 >> w) >> q == 0) by (bit_vector)
        requires b1 >> n1 == 0, 14 <= n1 <= 21, w == 13 || w == 14, q == n1 - w;
}

proof fn bv_low(bd: u32, b1: u32, nd: u32, w: u32, mask: u32, s: u32)
    requires
        nd <= 7,
        w == 13 || w == 14,
        mask == (1u32 << w) - 1,
        s + 8 <= nd + w,
    ensures
        ((bd | ((b1 & mask) << nd)) >> s) & 255 == ((bd | (b1 << nd)) >> s) & 255,
{
    assert(((bd | ((b1 & mask) << nd)) >> s) & 255 == ((bd | (b1 << nd)) >> s) & 255)
        by (bit_vector)
        requires nd <= 7, w == 13 || w == 14, mask == (1u32 << w) - 1, s + 8 <= nd + w;
}

/// After the encoder has read `x[..i]` and the decoder has read what it wrote, the
/// decoder has given back a prefix of `x`, and the two buffers together hold the
/// rest of `x[..i]`.
spec fn in_step(x: Seq<u8>, i: int) -> bool {
    let e = enc91_run(x.take(i));
    let d = dec91_run(chars_digits(Alphabet::B91, e.2));
    let dl = d.3.len() as int;
    &&& d.2 is None
    &&& d.1 <= 7
    &&& e.1 <= 13
    &&& e.0 >> e.1 == 0
    &&& d.0 >> d.1 == 0
    &&& dl <= i
    &&& d.3 == x.take(dl)
    &&& d.1 + e.1 == 8 * (i - dl)
    &&& holds(d.0 | (e.0 << d.1), x, dl, i - dl)
    &&& all_in_alphabet(Alphabet::B91, e.2)
}

/// The decoder's state after the pair of characters that the encoder wrote for `v`.
proof fn lemma_pair(out: Seq<char>, v: u32)
    requires
        v <= 8280,
    ensures
        v % 91 < 91 && v / 91 < 91,
        chars_digits(Alphabet::B91, out + seq![c91(v % 91), c91(v / 91)]) == chars_digits(
            Alphabet::B91,
            out,
        ) + seq![(v % 91) as u8, (v / 91) as u8],
        ((v % 91) as u8 as u32 + (v / 91) as u8 * 91) as u32 == v,
{
    crate::alphabet::lemma_digit_char(Alphabet::B91, (v % 91) as nat);
    crate::alphabet::lemma_digit_char(Alphabet::B91, (v / 91) as nat);
    assert(chars_digits(Alphabet::B91, out + seq![c91(v % 91), c91(v / 91)]) =~= chars_digits(
        Alphabet::B91,
        out,
    ) + seq![(v % 91) as u8, (v / 91) as u8]);
}

/// The encoder reads one more byte; the decoder follows.
#[verifier::rlimit(50)]
proof fn lemma_in_step_next(x: Seq<u8>, j: int)
    requires
        0 <= j < x.len(),
        in_step(x, j),
    ensures
        in_step(x, j + 1),
{
    let y = x[j];
    assert(x.take(j + 1).drop_last() =~= x.take(j));
    let e0 = enc91_run(x.take(j));
    let (b, n, out) = e0;
    let d0 = dec91_run(chars_digits(Alphabet::B91, out));
    let (bd, nd, pend, dd) = d0;
    let dl = dd.len() as int;
    let cnt = j - dl;
    let yy = y as u32;
    let b1 = b | (yy << n);
    let c = bd | (b1 << nd);
    bv_push_top(bd, b, nd, n, yy);
    assert(holds(c, x, dl, cnt + 1)) by {
        assert forall|k: int| 0 <= k < cnt + 1 implies #[trigger] x[dl + k] as u32 == (c >> (8
            * k) as u32) & 255 by {
            if k < cnt {
                bv_push(bd, b, nd, n, yy, (8 * k) as u32);
                assert(x[dl + k] as u32 == ((bd | (b << nd)) >> (8 * k) as u32) & 255);
            } else {
                assert((8 * k) as u32 == nd + n);
            }
        }
    }
    let e = enc91_run(x.take(j + 1));
    if n + 8 <= 13 {
        assert(e == (b1, (n + 8) as u32, out));
    } else {
        let n1 = (n + 8) as u32;
        let w: u32 = if b1 & 8191 > 88 { 13 } else { 14 };
        let mask: u32 = if w == 13 { 8191 } else { 16383 };
        assert(mask == (1u32 << w) - 1) by (bit_vector)
            requires w == 13 || w == 14, mask == (if w == 13 { 8191u32 } else { 16383u32 });
        let v = b1 & mask;
        assert(v <= 8280 && (v & 8191 > 88 <==> w == 13)) by (bit_vector)
            requires v == b1 & mask, w == (if b1 & 8191 > 88 { 13u32 } else { 14u32 }),
                mask == (if w == 13 { 8191u32 } else { 16383u32 });
        let b2 = b1 >> w;
        let n2 = (n1 - w) as u32;
        assert(e == (b2, n2, out + seq![c91(v % 91), c91(v / 91)]));
        lemma_pair(out, v);
        let ds = chars_digits(Alphabet::B91, out);
        let d_lo = (v % 91) as u8;
        let d_hi = (v / 91) as u8;
        let ds2 = ds + seq![d_lo, d_hi];
        assert(ds2.drop_last() =~= ds + seq![d_lo]);
        assert((ds + seq![d_lo]).drop_last() =~= ds);
        let bb = bd | (v << nd);
        let nn = (nd + w) as u32;
        lemma_drain(bb, nn);
        let k = nn / 8;
        let k8 = (8 * k) as u32;
        let r = (nn - k8) as u32;
        bv_take(bd, b1, nd, n1, w, mask, k8, r, n2);
        let t = dec91_drain(bb, nn);
        let d = dec91_run(chars_digits(Alphabet::B91, e.2));
        assert(chars_digits(Alphabet::B91, e.2) == ds2);
        let s1 = dec91_run(ds + seq![d_lo]);
        assert((ds + seq![d_lo]).last() == d_lo);
        assert(dd + Seq::<u8>::empty() =~= dd);
        assert(s1 == (bd, nd, Some(d_lo as u32), dd));
        assert(ds2.last() == d_hi);
        assert(((d_lo as u32) + d_hi * 91) as u32 == v);
        assert(dec91_step(bd, nd, Some(d_lo as u32), d_hi) == (t.0, t.1, None::<u32>, t.2));
        assert(d == (t.0, t.1, None::<u32>, dd + t.2));
        assert(t.2 =~= x.subrange(dl, dl + k)) by {
            assert forall|m: int| 0 <= m < k implies t.2[m] == x[dl + m] by {
                bv_low(bd, b1, nd, w, mask, (8 * m) as u32);
                assert(x[dl + m] as u32 == (c >> (8 * m) as u32) & 255);
            }
        }
        assert(dd + t.2 =~= x.take(dl + k));
        let c2 = t.0 | (b2 << t.1);
        assert(c2 == c >> k8);
        bv_shr_shr(bb, k8, r);
        assert(holds(c2, x, dl + k, cnt + 1 - k)) by {
            assert forall|m: int| 0 <= m < cnt + 1 - k implies #[trigger] x[dl + k + m] as u32 == (
            c2 >> (8 * m) as u32) & 255 by {
                bv_shr_shr(c, k8, (8 * m) as u32);
                assert((k8 + (8 * m) as u32) as u32 == (8 * (k + m)) as u32);
                assert(x[dl + (k + m)] as u32 == (c >> (8 * (k + m)) as u32) & 255);
                assert(dl + k + m == dl + (k + m));
            }
        }
        assert(all_in_alphabet(Alphabet::B91, e.2)) by {
            crate::alphabet::lemma_digit_char(Alphabet::B91, (v % 91) as nat);
            crate::alphabet::lemma_digit_char(Alphabet::B91, (v / 91) as nat);
            assert forall|q: int| 0 <= q < e.2.len() implies crate::alphabet::in_alphabet(
                Alphabet::B91,
                #[trigger] e.2[q],
            ) by {
                if q < out.len() {
                    assert(e.2[q] == out[q]);
                }
            }
        }
    }
}

proof fn lemma_in_step(x: Seq<u8>, i: int)
    requires
        0 <= i <= x.len(),
    ensures
        in_step(x, i),
    decreases i,
{
    if i == 0 {
        assert(x.take(0) =~= Seq::<u8>::empty());
        assert(chars_digits(Alphabet::B91, Seq::<char>::empty()) =~= Seq::<u8>::empty());
        assert(0u32 >> 0u32 == 0) by (bit_vector);
    } else {
        lemma_in_step(x, i - 1);
        lemma_in_step_next(x, i - 1);
    }
}

/// Decoding the Base91 encoding of any byte sequence gives it back, and the
/// encoding is made of characters of the alphabet.
#[verifier::rlimit(50)]
pub proof fn lemma_base91_round_trip(x: Seq<u8>)
    ensures
        all_in_alphabet(Alphabet::B91, base91_encode(x)),
        base91_decode(base91_encode(x)) == x,
{
    lemma_in_step(x, x.len() as int);
    assert(x.take(x.len() as int) =~= x);
    let (b, n, out) = enc91_run(x);
    let ds = chars_digits(Alphabet::B91, out);
    let (bd, nd, pend, dd) = dec91_run(ds);
    let dl = dd.len() as int;
    let cnt = x.len() - dl;
    let c = bd | (b << nd);
    let enc = base91_encode(x);
    assert(b < 8192) by (bit_vector) requires b >> n == 0, n <= 13;
    crate::alphabet::lemma_digit_char(Alphabet::B91, (b % 91) as nat);
    crate::alphabet::lemma_digit_char(Alphabet::B91, (b / 91) as nat);
    assert(all_in_alphabet(Alphabet::B91, enc)) by {
        assert forall|q: int| 0 <= q < enc.len() implies crate::alphabet::in_alphabet(
            Alphabet::B91,
            #[trigger] enc[q],
        ) by {
            if q < out.len() {
                assert(enc[q] == out[q]);
            }
        }
    }
    if n == 0 {
        assert(enc =~= out);
        assert(dd + Seq::<u8>::empty() =~= dd);
    } else if !(n > 7 || b > 90) {
        let d_lo = (b % 91) as u8;
        assert(enc == out + seq![c91(b % 91)]);
        assert(chars_digits(Alphabet::B91, enc) =~= ds + seq![d_lo]);
        assert((ds + seq![d_lo]).drop_last() =~= ds);
        assert(dd + Seq::<u8>::empty() =~= dd);
        assert(b % 91 == b);
        assert(cnt == 1);
        assert(x[dl + 0] as u32 == (c >> (8 * 0) as u32) & 255);
        assert(c >> 0u32 == c) by (bit_vector);
        let low = (bd | (b << nd)) & 255;
        assert(low < 256) by (bit_vector) requires low == (bd | (b << nd)) & 255;
        assert(dd + seq![low as u8] =~= x);
    } else {
        assert(n >= 7) by (bit_vector) requires b >> n == 0, n <= 13, n > 7 || b > 90;
        lemma_pair(out, b);
        let d_lo = (b % 91) as u8;
        let d_hi = (b / 91) as u8;
        assert(enc == out + seq![c91(b % 91), c91(b / 91)]);
        let ds2 = ds + seq![d_lo, d_hi];
        assert(chars_digits(Alphabet::B91, enc) == ds2);
        assert(ds2.drop_last() =~= ds + seq![d_lo]);
        assert((ds + seq![d_lo]).drop_last() =~= ds);
        assert(dd + Seq::<u8>::empty() =~= dd);
        assert(b & 8191 == b) by (bit_vector) requires b < 8192;
        let w: u32 = if b > 88 { 13 } else { 14 };
        let nn = (nd + w) as u32;
        lemma_drain(c, nn);
        let t = dec91_drain(c, nn);
        let k = nn / 8;
        assert(k == cnt);
        let s1 = dec91_run(ds + seq![d_lo]);
        assert(s1 == (bd, nd, Some(d_lo as u32), dd));
        assert(dec91_run(ds2) == (t.0, t.1, None::<u32>, dd + t.2));
        assert(t.2 =~= x.subrange(dl, dl + k)) by {
            assert forall|m: int| 0 <= m < k implies t.2[m] == x[dl + m] by {
                assert(x[dl + m] as u32 == (c >> (8 * m) as u32) & 255);
            }
        }
        assert(dd + t.2 + Seq::<u8>::empty() =~= x);
    }
}

pub struct Base91 {}

impl Base91 {
    /// Never fails; every character is in the alphabet.
    pub fn encode(input: &[u8]) -> (r: Result<String, DecodeError>)
        ensures
            r matches Ok(s) && s@ == base91_encode(input@),
            r matches Ok(s) && all_in_alphabet(Alphabet::B91, s@),
    {
        let mut b: u32 = 0;
        let mut n: u32 = 0;
        let mut out: Vec<char> = Vec::new();
        assert(b >> n == 0) by (bit_vector) requires b == 0u32;
        for i in 0..input.len()
            invariant
                (b, n, out@) == enc91_run(input@.take(i as int)),
                n <= 13,
                b >> n == 0,
                all_in_alphabet(Alphabet::B91, out@),
        {
            let byte = input[i];
            assert(input@.take(i + 1).drop_last() =~= input@.take(i as int));
            let ghost old_out = out@;
            let bb = byte as u32;
            let b0 = b;
            let n0 = n;
            let b1 = b0 | (bb << n0);
            let n1 = n0 + 8;
            assert(b1 >> n1 == 0) by (bit_vector)
                requires b1 == b0 | (bb << n0), n1 == n0 + 8, b0 >> n0 == 0, n0 <= 13, bb < 256;
            if n1 > 13 {
                let v: u32 = if b1 & 8191 > 88 {
                    b = b1 >> 13;
                    n = n1 - 13;
                    assert(b >> n == 0) by (bit_vector)
                        requires b == b1 >> 13, n == n1 - 13, b1 >> n1 == 0, n1 > 13, n1 <= 21;
                    b1 & 8191
                } else {
                    b = b1 >> 14;
                    n = n1 - 14;
                    assert(b >> n == 0) by (bit_vector)
                        requires b == b1 >> 14, n == n1 - 14, b1 >> n1 == 0, n1 > 13, n1 <= 21;
                    b1 & 16383
                };
                assert(v <= 8280) by (bit_vector)
                    requires v == b1 & 8191 || (v == b1 & 16383 && b1 & 8191 <= 88);
                let c0 = to_char(Alphabet::B91, (v % 91) as u8);
                let c1 = to_char(Alphabet::B91, (v / 91) as u8);
                out.push(c0);
                out.push(c1);
                assert(all_in_alphabet(Alphabet::B91, out@)) by {
                    assert forall|k: int| 0 <= k < out@.len() implies in_alphabet(
                        Alphabet::B91,
                        #[trigger] out@[k],
                    ) by {
                        if k < out@.len() - 2 {
                            assert(out@[k] == old_out[k]);
                        }
                    }
                }
            } else {
                b = b1;
                n = n1;
            }
            assert(out@ =~= old_out + enc91_step(b0, n0, byte).2);
        }
        proof {
            assert(input@.take(input@.len() as int) =~= input@);
        }
        let ghost body = out@;
        if n > 0 {
            assert(b < 8192) by (bit_vector) requires b >> n == 0, n <= 13;
            out.push(to_char(Alphabet::B91, (b % 91) as u8));
            if n > 7 || b > 90 {
                out.push(to_char(Alphabet::B91, (b / 91) as u8));
            }
        }
        assert(out@ =~= body + enc91_tail(b, n));
        assert(all_in_alphabet(Alphabet::B91, out@)) by {
            assert forall|k: int| 0 <= k < out@.len() implies in_alphabet(
                Alphabet::B91,
                #[trigger] out@[k],
            ) by {
                if k < body.len() {
                    assert(out@[k] == body[k]);
                }
            }
        }
        Ok(crate::alphabet::string_of(&out))
    }

    /// Fails where a character is not in the alphabet.
    pub fn decode(input: &str) -> (r: Result<Vec<u8>, DecodeError>)
        ensures
            r is Ok <==> all_in_alphabet(Alphabet::B91, input@),
            r matches Ok(v) ==> v@ == base91_decode(input@),
    {
        let s = crate::alphabet::chars_of(input);
        let mut out: Vec<u8> = Vec::new();
        let mut b: u32 = 0;
        let mut n: u32 = 0;
        let mut pend: Option<u32> = None;
        let ghost ds = chars_digits(Alphabet::B91, s@);
        for i in 0..s.len()
            invariant
                s@ == input@,
                ds == chars_digits(Alphabet::B91, s@),
                forall|j: int| 0 <= j < i ==> in_alphabet(Alphabet::B91, #[trigger] s@[j]),
                (b, n, pend, out@) == dec91_run(ds.take(i as int)),
                n <= 7,
                pend matches Some(v) ==> v < 91,
        {
            let d = match to_digit(Alphabet::B91, s[i]) {
                Some(d) => d,
                None => {
                    return Err(DecodeError::new("invalid base91 character"));
                },
            };
            assert(ds.take(i + 1).drop_last() =~= ds.take(i as int));
            assert(ds.take(i + 1).last() == d);
            match pend {
                None => {
                    pend = Some(d as u32);
                },
                Some(v0) => {
                    let v: u32 = v0 + (d as u32) * 91;
                    let b0 = b;
                    let n0 = n;
                    b = b | (v << n);
                    n = if v & 8191 > 88 { n + 13 } else { n + 14 };
                    let ghost target = dec91_drain(b, n);
                    let ghost start = out@;
                    while n > 7
                        invariant
                            n <= 21,
                            dec91_drain(b, n).0 == target.0,
                            dec91_drain(b, n).1 == target.1,
                            out@ + dec91_drain(b, n).2 == start + target.2,
                        decreases n,
                    {
                        let ghost rest = dec91_drain(b >> 8u32, (n - 8) as u32);
                        let low = b & 255;
                        assert(low < 256) by (bit_vector) requires low == b & 255;
                        let byte = low as u8;
                        out.push(byte);
                        let b2 = b >> 8;
                        let n2 = n - 8;
                        assert(out@ + rest.2 =~= start + target.2);
                        b = b2;
                        n = n2;
                    }
                    assert(out@ =~= start + target.2);
                    pend = None;
                },
            }
            assert(d < 91);
        }
        assert(s@.take(s@.len() as int) =~= s@);
        assert(ds.take(ds.len() as int) =~= ds);
        let ghost body = out@;
        match pend {
            Some(v) => {
                let low = (b | (v << n)) & 255;
                assert(low < 256) by (bit_vector) requires low == (b | (v << n)) & 255;
                out.push(low as u8);
            },
            None => {},
        }
        assert(out@ =~= body + dec91_tail(b, n, pend));
        Ok(out)
    }
}

} // verus!
