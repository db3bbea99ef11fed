//! Base32 and Base64: the input bits, most significant first, cut into digits
//! of 5 or 6 bits, padded with `=` to whole blocks.
use vstd::prelude::*;
use crate::alphabet::{
    Alphabet, radix, digit_char, in_alphabet, all_in_alphabet, chars_digits, radix_of, to_char,
    to_digit,
};
use crate::errors::DecodeError;

verus! {

/// The two alphabets that pack bits.
pub open spec fn packs(a: Alphabet) -> bool {
    a == Alphabet::B32 || a == Alphabet::B64
}

/// Bits per digit.
pub open spec fn width(a: Alphabet) -> nat {
    if a == Alphabet::B32 { 5 } else { 6 }
}

/// Bytes per block.
pub open spec fn block_bytes(a: Alphabet) -> nat {
    if a == Alphabet::B32 { 5 } else { 3 }
}

/// Characters per block.
pub open spec fn block_chars(a: Alphabet) -> nat {
    if a == Alphabet::B32 { 8 } else { 4 }
}

pub open spec fn byte_or0(b: Seq<u8>, i: int) -> u64 {
    if 0 <= i < b.len() { b[i] as u64 } else { 0 }
}

/// The first `k` bytes of `b` (zero past its end) as one big-endian word.
pub open spec fn block_word(b: Seq<u8>, k: nat) -> u64
    decreases k,
{
    if k == 0 { 0 } else { (block_word(b, (k - 1) as nat) << 8u64) | byte_or0(b, k - 1) }
}

/// Digit `k` of a block whose bits are `x`.
pub open spec fn word_digit(a: Alphabet, x: u64, k: int) -> u8 {
    ((x >> ((width(a) * (block_chars(a) - 1 - k)) as u64)) & ((radix(a) - 1) as u64)) as u8
}

/// How many digits carry the bits of `n` bytes: all of them, the last one filled with zeros.
pub open spec fn data_chars(a: Alphabet, n: nat) -> nat {
    ((8 * n + width(a) - 1) as nat / width(a)) as nat
}

/// One block of at most `block_bytes(a)` bytes: its digits, then `=` to the block's size.
pub open spec fn encode_block(a: Alphabet, blk: Seq<u8>) -> Seq<char> {
    Seq::new(
        block_chars(a),
        |k: int|
            if k < data_chars(a, blk.len()) {
                digit_char(a, word_digit(a, block_word(blk, block_bytes(a)), k) as nat)
            } else {
                '='
            },
    )
}

/// Where the last block of `n` bytes starts.
pub open spec fn last_start(n: nat, size: nat) -> int {
    ((n - 1) / size as int) * size
}

/// The encoding of `b`: its blocks, one after another.
pub open spec fn pack_encode(a: Alphabet, b: Seq<u8>) -> Seq<char>
    recommends
        packs(a),
    decreases b.len() via pack_encode_decreases
{
    if b.len() == 0 || !packs(a) {
        Seq::empty()
    } else {
        let q = last_start(b.len(), block_bytes(a));
        pack_encode(a, b.take(q)) + encode_block(a, b.skip(q))
    }
}

proof fn lemma_last_start_lt(n: nat, size: nat)
    requires
        n > 0,
        size > 0,
    ensures
        0 <= last_start(n, size) < n,
{
    let k = (n - 1) / size as int;
    assert(0 <= k * size <= n - 1) by (nonlinear_arith)
        requires k == (n - 1) / size as int, n > 0, size > 0;
}

#[via_fn]
proof fn pack_encode_decreases(a: Alphabet, b: Seq<u8>) {
    if b.len() != 0 && packs(a) {
        lemma_last_start_lt(b.len(), block_bytes(a));
    }
}

#[via_fn]
proof fn pack_decode_decreases(a: Alphabet, d: Seq<u8>) {
    if d.len() != 0 && packs(a) {
        lemma_last_start_lt(d.len(), block_chars(a));
    }
}

/// Where the data of an encoded string ends: at its first `=`, or at its end.
pub open spec fn pad_pos(s: Seq<char>) -> nat
    decreases s.len(),
{
    if s.len() == 0 || s[0] == '=' { 0 } else { 1 + pad_pos(s.drop_first()) }
}

/// The data part of an encoded string.
pub open spec fn data_part(s: Seq<char>) -> Seq<char> {
    s.take(pad_pos(s) as int)
}

pub open spec fn digit_or0(d: Seq<u8>, i: int) -> u64 {
    if 0 <= i < d.len() { d[i] as u64 } else { 0 }
}

/// The bits of the first `k` digits of `d` (zero past its end), the first most significant.
pub open spec fn chunk_word(a: Alphabet, d: Seq<u8>, k: nat) -> u64
    decreases k,
{
    if k == 0 { 0 } else { (chunk_word(a, d, (k - 1) as nat) << width(a) as u64) | digit_or0(d, k - 1) }
}

/// One chunk of at most `block_chars(a)` digits: every whole byte of its bits.
pub open spec fn decode_chunk(a: Alphabet, d: Seq<u8>) -> Seq<u8> {
    let y = chunk_word(a, d, block_chars(a));
    Seq::new(
        (d.len() * width(a)) / 8,
        |j: int| ((y >> (8 * (block_bytes(a) - 1 - j)) as u64) & 255) as u8,
    )
}

/// The bytes of the digits `d`, chunk after chunk; bits that make no whole byte are dropped.
pub open spec fn pack_decode(a: Alphabet, d: Seq<u8>) -> Seq<u8>
    recommends
        packs(a),
    decreases d.len() via pack_decode_decreases
{
    if d.len() == 0 || !packs(a) {
        Seq::empty()
    } else {
        let q = last_start(d.len(), block_chars(a));
        pack_decode(a, d.take(q)) + decode_chunk(a, d.skip(q))
    }
}

/// A string that decodes: every character before the first `=` is in the alphabet.
pub open spec fn pack_decodable(a: Alphabet, s: Seq<char>) -> bool {
    all_in_alphabet(a, data_part(s))
}

proof fn lemma_pad_pos(s: Seq<char>, i: int)
    requires
        0 <= i <= s.len(),
        forall|j: int| 0 <= j < i ==> s[j] != '=',
        i == s.len() || s[i] == '=',
    ensures
        pad_pos(s) == i,
    decreases i,
{
    if i > 0 {
        lemma_pad_pos(s.drop_first(), i - 1);
    }
}

proof fn lemma_last_start(i: nat, n: nat, size: nat)
    requires
        size > 0,
        i % size == 0,
        i < n <= i + size,
    ensures
        last_start(n, size) == i,
{
    let k = i / size;
    assert(i == k * size) by (nonlinear_arith) requires i % size == 0, k == i / size, size > 0;
    assert((n - 1) / size as int == k) by (nonlinear_arith)
        requires i == k * size, i < n <= i + size, size > 0;
}

proof fn lemma_pad_pos_bounds(s: Seq<char>)
    ensures
        pad_pos(s) <= s.len(),
        forall|j: int| 0 <= j < pad_pos(s) ==> s[j] != '=',
        pad_pos(s) < s.len() ==> s[pad_pos(s) as int] == '=',
    decreases s.len(),
{
    if s.len() > 0 && s[0] != '=' {
        lemma_pad_pos_bounds(s.drop_first());
        assert forall|j: int| 0 <= j < pad_pos(s) implies s[j] != '=' by {
            if j > 0 {
                assert(s[j] == s.drop_first()[j - 1]);
            }
        }
    }
}

fn width_of(a: Alphabet) -> (r: u64)
    requires packs(a),
    ensures r == width(a),
{
    if a == Alphabet::B32 { 5 } else { 6 }
}

fn block_bytes_of(a: Alphabet) -> (r: usize)
    requires packs(a),
    ensures r == block_bytes(a),
{
    if a == Alphabet::B32 { 5 } else { 3 }
}

fn block_chars_of(a: Alphabet) -> (r: usize)
    requires packs(a),
    ensures r == block_chars(a),
{
    if a == Alphabet::B32 { 8 } else { 4 }
}

/// Encodes `input` with one of the two packing alphabets.
pub fn pack_encode_exec(a: Alphabet, input: &[u8]) -> (r: Vec<char>)
    requires
        packs(a),
    ensures
        r@ == pack_encode(a, input@),
{
    let w = width_of(a);
    let nb = block_bytes_of(a);
    let g = block_chars_of(a);
    let mask: u64 = radix_of(a) as u64 - 1;
    let n = input.len();
    let mut out: Vec<char> = Vec::new();
    let mut i: usize = 0;
    while i < n
        invariant
            packs(a), w == width(a), nb == block_bytes(a), g == block_chars(a),
            mask == radix(a) - 1, n == input@.len(),
            i <= n, i % nb == 0 || i == n,
            out@ == pack_encode(a, input@.take(i as int)),
        decreases n - i,
    {
        let len: usize = if n - i < nb { n - i } else { nb };
        let ghost blk = input@.subrange(i as int, i + len);
        let mut x: u64 = 0;
        for k in 0..nb
            invariant
                nb == block_bytes(a), packs(a),
                i + len <= n, n == input@.len(), len <= nb,
                blk == input@.subrange(i as int, i + len),
                x == block_word(blk, k as nat),
        {
            let byte: u64 = if k < len { input[i + k] as u64 } else { 0 };
            x = (x << 8u64) | byte;
        }
        let m: usize = (8 * len + w as usize - 1) / w as usize;
        let ghost start = out@;
        for k in 0..g
            invariant
                packs(a), w == width(a), g == block_chars(a), mask == radix(a) - 1,
                x == block_word(blk, block_bytes(a)), len == blk.len(),
                m == data_chars(a, len as nat),
                out@ == start + encode_block(a, blk).take(k as int),
        {
            if k < m {
                let shift: u64 = w * ((g - 1 - k) as u64);
                let d: u64 = (x >> shift) & mask;
                assert(d <= mask) by (bit_vector) requires d == (x >> shift) & mask;
                out.push(to_char(a, d as u8));
            } else {
                out.push('=');
            }
            assert(out@ =~= start + encode_block(a, blk).take(k + 1));
        }
        proof {
            lemma_last_start(i as nat, (i + len) as nat, nb as nat);
            assert(input@.take(i + len).take(i as int) =~= input@.take(i as int));
            assert(input@.take(i + len).skip(i as int) =~= blk);
            assert(encode_block(a, blk).take(g as int) =~= encode_block(a, blk));
        }
        i = i + len;
    }
    assert(input@.take(n as int) =~= input@);
    out
}

/// The digits of the data part of `s`, or an error where one of its characters is
/// not in the alphabet.
fn data_digits(a: Alphabet, s: &Vec<char>) -> (r: Result<Vec<u8>, DecodeError>)
    ensures
        r is Ok <==> all_in_alphabet(a, data_part(s@)),
        r matches Ok(d) ==> d@ == chars_digits(a, data_part(s@)),
        r matches Ok(d) ==> forall|i: int| 0 <= i < d@.len() ==> d@[i] < radix(a),
{
    let mut d: Vec<u8> = Vec::new();
    let mut i: usize = 0;
    while i < s.len() && s[i] != '='
        invariant
            i <= s.len(),
            forall|j: int| 0 <= j < i ==> s@[j] != '=',
            forall|j: int| 0 <= j < i ==> in_alphabet(a, #[trigger] s@[j]),
            d@ == chars_digits(a, s@.take(i as int)),
            forall|j: int| 0 <= j < d@.len() ==> d@[j] < radix(a),
        decreases s.len() - i,
    {
        match to_digit(a, s[i]) {
            Some(v) => {
                d.push(v);
                assert(d@ =~= chars_digits(a, s@.take(i + 1)));
            },
            None => {
                proof {
                    lemma_pad_pos_bounds(s@);
                    let k = i as int;
                    assert(k < pad_pos(s@));
                    assert(data_part(s@)[k] == s@[k]);
                }
                return Err(DecodeError::new("invalid character"));
            },
        }
        i = i + 1;
    }
    proof {
        lemma_pad_pos(s@, i as int);
        assert(data_part(s@) =~= s@.take(i as int));
    }
    Ok(d)
}

/// Decodes with one of the two packing alphabets.
pub fn pack_decode_exec(a: Alphabet, input: &str) -> (r: Result<Vec<u8>, DecodeError>)
    requires
        packs(a),
    ensures
        r is Ok <==> pack_decodable(a, input@),
        r matches Ok(v) ==> v@ == pack_decode(a, chars_digits(a, data_part(input@))),
{
    let s = crate::alphabet::chars_of(input);
    let d = match data_digits(a, &s) {
        Ok(d) => d,
        Err(e) => return Err(e),
    };
    let w = width_of(a);
    let nb = block_bytes_of(a);
    let g = block_chars_of(a);
    let n = d.len();
    let mut out: Vec<u8> = Vec::new();
    let mut i: usize = 0;
    while i < n
        invariant
            packs(a), w == width(a), nb == block_bytes(a), g == block_chars(a),
            n == d@.len(), i <= n, i % g == 0 || i == n,
            forall|j: int| 0 <= j < d@.len() ==> d@[j] < radix(a),
            out@ == pack_decode(a, d@.take(i as int)),
        decreases n - i,
    {
        let len: usize = if n - i < g { n - i } else { g };
        let ghost chunk = d@.subrange(i as int, i + len);
        let mut y: u64 = 0;
        for k in 0..g
            invariant
                g == block_chars(a), w == width(a), packs(a),
                i + len <= n, n == d@.len(), len <= g,
                chunk == d@.subrange(i as int, i + len),
                y == chunk_word(a, chunk, k as nat),
        {
            let digit: u64 = if k < len { d[i + k] as u64 } else { 0 };
            y = (y << w) | digit;
        }
        let nbytes: usize = (len * w as usize) / 8;
        let ghost start = out@;
        assert(nbytes <= nb) by {
            assert(len * width(a) <= block_chars(a) * width(a)) by (nonlinear_arith)
                requires len <= block_chars(a);
        }
        for j in 0..nbytes
            invariant
                packs(a), nb == block_bytes(a), nbytes <= nb,
                y == chunk_word(a, chunk, block_chars(a)), len == chunk.len(),
                nbytes == (chunk.len() * width(a)) / 8,
                out@ == start + decode_chunk(a, chunk).take(j as int),
        {
            let shift: u64 = 8 * ((nb - 1 - j) as u64);
            let byte: u64 = (y >> shift) & 255;
            assert(byte < 256) by (bit_vector) requires byte == (y >> shift) & 255;
            out.push(byte as u8);
            assert(out@ =~= start + decode_chunk(a, chunk).take(j + 1));
        }
        proof {
            lemma_last_start(i as nat, (i + len) as nat, g as nat);
            assert(d@.take(i + len).take(i as int) =~= d@.take(i as int));
            assert(d@.take(i + len).skip(i as int) =~= chunk);
            assert(decode_chunk(a, chunk).take(nbytes as int) =~= decode_chunk(a, chunk));
        }
        i = i + len;
    }
    assert(d@.take(n as int) =~= d@);
    Ok(out)
}

/// Every character of an encoding is a digit of the alphabet or `=`, and the
/// encoding is made of whole blocks.
pub proof fn lemma_pack_encode_shape(a: Alphabet, b: Seq<u8>)
    requires
        packs(a),
    ensures
        pack_encode(a, b).len() % block_chars(a) == 0,
        forall|i: int|
            0 <= i < pack_encode(a, b).len() ==> in_alphabet(a, #[trigger] pack_encode(a, b)[i])
                || pack_encode(a, b)[i] == '=',
    decreases b.len(),
{
    if b.len() > 0 {
        let q = last_start(b.len(), block_bytes(a));
        lemma_last_start_lt(b.len(), block_bytes(a));
        lemma_pack_encode_shape(a, b.take(q));
        let p = pack_encode(a, b.take(q));
        let blk = encode_block(a, b.skip(q));
        let x = block_word(b.skip(q), block_bytes(a));
        assert forall|k: int| 0 <= k < blk.len() implies in_alphabet(a, #[trigger] blk[k])
            || blk[k] == '=' by {
            if k < data_chars(a, b.skip(q).len()) {
                let sh = (width(a) * (block_chars(a) - 1 - k)) as u64;
                if a == Alphabet::B32 {
                    assert((x >> sh) & 31u64 <= 31u64) by (bit_vector);
                } else {
                    assert((x >> sh) & 63u64 <= 63u64) by (bit_vector);
                }
                crate::alphabet::lemma_digit_char(a, word_digit(a, x, k) as nat);
            }
        }
        let e = pack_encode(a, b);
        assert(e == p + blk);
        assert((p.len() + blk.len()) % block_chars(a) == 0) by (nonlinear_arith)
            requires p.len() % block_chars(a) == 0, blk.len() == block_chars(a),
            block_chars(a) > 0;
        assert forall|i: int| 0 <= i < e.len() implies in_alphabet(a, #[trigger] e[i]) || e[i]
            == '=' by {
            if i < p.len() {
                assert(e[i] == p[i]);
            } else {
                assert(e[i] == blk[i - p.len()]);
            }
        }
    }
}

proof fn bv_recombine(x: u64, t: u64, w: u64, mask: u64)
    requires
        1 <= w <= 6,
        t + w < 64,
        mask == (1u64 << w) - 1,
    ensures
        ((x >> (t + w)) << w) | ((x >> t) & mask) == x >> t,
{
    assert(((x >> (t + w)) << w) | ((x >> t) & mask) == x >> t) by (bit_vector)
        requires 1 <= w <= 6, t + w < 64, mask == (1u64 << w) - 1;
}

proof fn bv_zero_digit(x: u64, s: u64, t: u64, w: u64, mask: u64)
    requires
        1 <= w <= 6,
        t + w <= s,
        s < 64,
        mask == (1u64 << w) - 1,
    ensures
        ((x << s) >> t) & mask == 0,
{
    assert(((x << s) >> t) & mask == 0) by (bit_vector)
        requires 1 <= w <= 6, t + w <= s, s < 64, mask == (1u64 << w) - 1;
}

proof fn bv_byte_push(bw: u64, bk: u64, k: u64)
    requires
        bk < 256,
        k <= 6,
        bw >> (8 * k) == 0,
    ensures
        ((bw << 8) | bk) >> (8 * k + 8) == 0,
        ((bw << 8) | bk) & 255 == bk,
{
    assert(((bw << 8) | bk) >> (8 * k + 8) == 0) by (bit_vector)
        requires bk < 256, k <= 6, bw >> (8 * k) == 0;
    assert(((bw << 8) | bk) & 255 == bk) by (bit_vector) requires bk < 256;
}

proof fn bv_byte_step(bw: u64, bk: u64, s: u64, k: u64)
    requires
        bk < 256,
        k <= 6,
        s + 8 <= 8 * k,
    ensures
        (((bw << 8) | bk) >> (s + 8)) & 255 == (bw >> s) & 255,
{
    assert((((bw << 8) | bk) >> (s + 8)) & 255 == (bw >> s) & 255) by (bit_vector)
        requires bk < 256, k <= 6, s + 8 <= 8 * k;
}

/// The first `k` bytes of `b`, at their places in the word.
proof fn lemma_block_word_bytes(b: Seq<u8>, k: nat)
    requires
        k <= 6,
    ensures
        block_word(b, k) >> (8 * k) as u64 == 0,
        forall|j: int|
            0 <= j < k ==> (block_word(b, k) >> (8 * (k - 1 - j)) as u64) & 255 == byte_or0(b, j),
    decreases k,
{
    if k == 0 {
        assert(0u64 >> 0u64 == 0) by (bit_vector);
    } else {
        let k1 = (k - 1) as nat;
        lemma_block_word_bytes(b, k1);
        let bw = block_word(b, k1);
        let bk = byte_or0(b, k - 1);
        bv_byte_push(bw, bk, k1 as u64);
        assert((8 * k) as u64 == 8 * (k1 as u64) + 8);
        assert forall|j: int| 0 <= j < k implies (block_word(b, k) >> (8 * (k - 1 - j)) as u64)
            & 255 == byte_or0(b, j) by {
            if j < k - 1 {
                let s = (8 * (k1 - 1 - j)) as u64;
                bv_byte_step(bw, bk, s, k1 as u64);
                assert((8 * (k - 1 - j)) as u64 == s + 8);
            } else {
                assert((8 * (k - 1 - j)) as u64 == 0);
                assert(((bw << 8) | bk) >> 0u64 == (bw << 8) | bk) by (bit_vector);
            }
        }
    }
}

/// Past the bytes of `b`, the word is only shifted.
proof fn lemma_block_word_shift(b: Seq<u8>, k: nat)
    requires
        b.len() <= k <= 6,
    ensures
        block_word(b, k) == block_word(b, b.len()) << (8 * (k - b.len())) as u64,
    decreases k,
{
    let x = block_word(b, b.len());
    if k == b.len() {
        assert(x << 0u64 == x) by (bit_vector);
    } else {
        lemma_block_word_shift(b, (k - 1) as nat);
        let s = (8 * (k - 1 - b.len())) as u64;
        assert((x << s) << 8u64 == x << (s + 8)) by (bit_vector) requires s <= 40;
        assert(((x << s) << 8u64) | 0u64 == (x << s) << 8u64) by (bit_vector);
        assert((8 * (k - b.len())) as u64 == s + 8);
    }
}

proof fn lemma_mask(a: Alphabet)
    requires
        packs(a),
    ensures
        (radix(a) - 1) as u64 == (1u64 << width(a) as u64) - 1,
{
    if a == Alphabet::B32 {
        assert((1u64 << 5u64) - 1 == 31) by (bit_vector);
    } else {
        assert((1u64 << 6u64) - 1 == 63) by (bit_vector);
    }
}

/// Recombining every digit of a block gives its word back.
proof fn lemma_chunk_word(a: Alphabet, d: Seq<u8>, x: u64, k: nat)
    requires
        packs(a),
        k <= block_chars(a),
        x >> (width(a) * block_chars(a)) as u64 == 0,
        forall|i: int| 0 <= i < block_chars(a) ==> digit_or0(d, i) == word_digit(a, x, i),
    ensures
        chunk_word(a, d, k) == x >> (width(a) * (block_chars(a) - k)) as u64,
    decreases k,
{
    let w = width(a);
    let g = block_chars(a);
    if k > 0 {
        lemma_chunk_word(a, d, x, (k - 1) as nat);
        lemma_mask(a);
        let t = (w * (g - k)) as u64;
        bv_recombine(x, t, w as u64, (radix(a) - 1) as u64);
        assert((w * (g - (k - 1))) as u64 == t + w as u64) by (nonlinear_arith)
            requires k <= g, g <= 8, w <= 6, k >= 1, t == (w * (g - k)) as u64;
        assert(digit_or0(d, k - 1) == word_digit(a, x, k - 1));
        assert((w * (g - 1 - (k - 1))) as u64 == t);
        let mask = (radix(a) - 1) as u64;
        let dg = (x >> t) & mask;
        assert(dg <= mask) by (bit_vector) requires dg == (x >> t) & mask;
        assert(mask <= 63);
        assert(digit_or0(d, k - 1) == dg);
    }
}

/// The digits that a block of `blk` carries.
pub open spec fn block_digits(a: Alphabet, blk: Seq<u8>) -> Seq<u8> {
    Seq::new(
        data_chars(a, blk.len()),
        |k: int| word_digit(a, block_word(blk, block_bytes(a)), k),
    )
}

proof fn lemma_block_round_trip(a: Alphabet, blk: Seq<u8>)
    requires
        packs(a),
        1 <= blk.len() <= block_bytes(a),
    ensures
        decode_chunk(a, block_digits(a, blk)) == blk,
        data_chars(a, blk.len()) <= block_chars(a),
        1 <= data_chars(a, blk.len()),
{
    let w = width(a);
    let g = block_chars(a);
    let nb = block_bytes(a);
    let l = blk.len();
    let m = data_chars(a, l);
    let x = block_word(blk, nb);
    let d = block_digits(a, blk);
    // the digit count and the byte count, case by case
    assert(m * w / 8 == l && w * m >= 8 * l && m <= g && m >= 1 && w * g == 8 * nb) by {
        if a == Alphabet::B32 {
            if l == 1 {} else if l == 2 {} else if l == 3 {} else if l == 4 {} else {}
        } else {
            if l == 1 {} else if l == 2 {} else {}
        }
    }
    lemma_block_word_bytes(blk, nb);
    lemma_block_word_shift(blk, nb);
    lemma_block_word_bytes(blk, l);
    lemma_mask(a);
    let s = (8 * (nb - l)) as u64;
    assert forall|i: int| 0 <= i < g implies digit_or0(d, i) == word_digit(a, x, i) by {
        if i >= m {
            let t = (w * (g - 1 - i)) as u64;
            assert(t + w <= s) by (nonlinear_arith)
                requires i >= m, i < g, w * m >= 8 * l, w * g == 8 * nb, t == w * (g - 1 - i),
                    s == 8 * (nb - l), l <= nb;
            bv_zero_digit(block_word(blk, l), s, t, w as u64, (radix(a) - 1) as u64);
        }
    }
    lemma_chunk_word(a, d, x, g);
    assert(w * (g - g) == 0);
    assert(x >> 0u64 == x) by (bit_vector);
    let r = decode_chunk(a, d);
    assert forall|j: int| 0 <= j < l implies r[j] == blk[j] by {
        assert(byte_or0(blk, j) == blk[j] as u64);
        let sh = (8 * (nb - 1 - j)) as u64;
        let v = (x >> sh) & 255;
        assert(v < 256) by (bit_vector) requires v == (x >> sh) & 255;
    }
    assert(r =~= blk);
}

proof fn lemma_word_digit(a: Alphabet, x: u64, k: int)
    requires
        packs(a),
    ensures
        word_digit(a, x, k) < radix(a),
        in_alphabet(a, digit_char(a, word_digit(a, x, k) as nat)),
        digit_char(a, word_digit(a, x, k) as nat) != '=',
{
    let sh = (width(a) * (block_chars(a) - 1 - k)) as u64;
    let mask = (radix(a) - 1) as u64;
    let dg = (x >> sh) & mask;
    assert(dg <= mask) by (bit_vector) requires dg == (x >> sh) & mask;
    crate::alphabet::lemma_digit_char(a, word_digit(a, x, k) as nat);
}

proof fn lemma_pad_not_in_alphabet(a: Alphabet)
    requires
        packs(a),
    ensures
        !in_alphabet(a, '='),
{
}

/// An encoding of whole blocks holds no `=`, and has `block_chars(a)` characters per block.
proof fn lemma_pack_encode_whole(a: Alphabet, b: Seq<u8>)
    requires
        packs(a),
        b.len() % block_bytes(a) == 0,
    ensures
        pack_encode(a, b).len() == (b.len() as int / block_bytes(a) as int) * block_chars(a),
        all_in_alphabet(a, pack_encode(a, b)),
    decreases b.len(),
{
    lemma_pad_not_in_alphabet(a);
    lemma_pack_encode_shape(a, b);
    if b.len() > 0 {
        let nb = block_bytes(a);
        let q = last_start(b.len(), nb);
        let n = b.len() as int;
        let k = n / nb as int;
        assert(n == k * nb) by (nonlinear_arith) requires n % nb as int == 0, k == n / nb as int, nb > 0;
        assert(q == n - nb) by {
            assert((n - 1) / nb as int == k - 1) by (nonlinear_arith)
                requires n == k * nb, nb > 0, k >= 1;
            assert((k - 1) * nb == n - nb) by (nonlinear_arith) requires n == k * nb;
        }
        assert(q % nb as int == 0) by (nonlinear_arith) requires q == (k - 1) * nb, nb > 0, k >= 1;
        assert(q / nb as int == k - 1) by (nonlinear_arith) requires q == (k - 1) * nb, nb > 0, k >= 1;
        lemma_pack_encode_whole(a, b.take(q));
        let blk = b.skip(q);
        assert(data_chars(a, blk.len()) == block_chars(a));
        let p = pack_encode(a, b.take(q));
        let e = encode_block(a, blk);
        assert(pack_encode(a, b) == p + e);
        assert(((k - 1) * block_chars(a)) + block_chars(a) == k * block_chars(a)) by (nonlinear_arith);
        assert forall|i: int| 0 <= i < pack_encode(a, b).len() implies in_alphabet(
            a,
            #[trigger] pack_encode(a, b)[i],
        ) by {
            if i >= p.len() {
                assert(pack_encode(a, b)[i] == e[i - p.len()]);
                lemma_word_digit(a, block_word(blk, block_bytes(a)), i - p.len());
            } else {
                assert(pack_encode(a, b)[i] == p[i]);
            }
        }
    }
}

/// The data part of whole blocks followed by one more block: everything but that
/// block's padding.
proof fn lemma_last_block_data(a: Alphabet, p: Seq<char>, blk: Seq<u8>)
    requires
        packs(a),
        all_in_alphabet(a, p),
        1 <= blk.len() <= block_bytes(a),
    ensures
        all_in_alphabet(a, data_part(p + encode_block(a, blk))),
        chars_digits(a, data_part(p + encode_block(a, blk))) == chars_digits(a, p) + block_digits(
            a,
            blk,
        ),
{
    lemma_pad_not_in_alphabet(a);
    lemma_block_round_trip(a, blk);
    let e = p + encode_block(a, blk);
    let eb = encode_block(a, blk);
    let m = data_chars(a, blk.len());
    let pl = p.len() as int;
    let x = block_word(blk, block_bytes(a));
    assert forall|j: int| 0 <= j < pl + m implies in_alphabet(a, #[trigger] e[j]) by {
        if j < pl {
            assert(e[j] == p[j]);
        } else {
            assert(e[j] == eb[j - pl]);
            lemma_word_digit(a, x, j - pl);
        }
    }
    if pl + m < e.len() {
        assert(e[pl + m] == eb[m as int]);
    }
    lemma_pad_pos(e, pl + m);
    let dp = data_part(e);
    assert(dp =~= e.take(pl + m));
    let bd = block_digits(a, blk);
    assert(chars_digits(a, dp) =~= chars_digits(a, p) + bd) by {
        assert forall|i: int| 0 <= i < dp.len() implies chars_digits(a, dp)[i] == (chars_digits(
            a,
            p,
        ) + bd)[i] by {
            if i >= pl {
                assert(dp[i] == eb[i - pl]);
                lemma_word_digit(a, x, i - pl);
                crate::alphabet::lemma_digit_char(a, word_digit(a, x, i - pl) as nat);
            } else {
                assert(dp[i] == p[i]);
            }
        }
    }
}

/// Decoding the Base32 or Base64 encoding of any byte sequence gives it back.
pub proof fn lemma_pack_round_trip(a: Alphabet, b: Seq<u8>)
    requires
        packs(a),
    ensures
        pack_decodable(a, pack_encode(a, b)),
        pack_decode(a, chars_digits(a, data_part(pack_encode(a, b)))) == b,
    decreases b.len(),
{
    let e = pack_encode(a, b);
    if b.len() == 0 {
        assert(pad_pos(e) == 0);
        assert(data_part(e) =~= Seq::<char>::empty());
        assert(chars_digits(a, data_part(e)) =~= Seq::<u8>::empty());
        assert(b =~= Seq::<u8>::empty());
    } else {
        let nb = block_bytes(a);
        let g = block_chars(a);
        let q = last_start(b.len(), nb);
        lemma_last_start_lt(b.len(), nb);
        let k = (b.len() - 1) / nb as int;
        assert(q % nb as int == 0 && q / nb as int == k) by (nonlinear_arith)
            requires q == k * nb, nb > 0, k >= 0;
        assert(b.len() - q <= nb) by (nonlinear_arith)
            requires q == k * nb, k == (b.len() - 1) / nb as int, nb > 0;
        let front = b.take(q);
        let blk = b.skip(q);
        lemma_pack_round_trip(a, front);
        lemma_pack_encode_whole(a, front);
        lemma_block_round_trip(a, blk);
        let p = pack_encode(a, front);
        assert(e == p + encode_block(a, blk));
        lemma_pad_pos(p, p.len() as int);
        assert(data_part(p) =~= p);
        lemma_last_block_data(a, p, blk);
        let pl = p.len() as int;
        let cp = chars_digits(a, p);
        let bd = block_digits(a, blk);
        let dd = chars_digits(a, data_part(e));
        assert(dd == cp + bd);
        assert(pl % g as int == 0) by (nonlinear_arith) requires pl == k * g, g > 0, k >= 0;
        lemma_last_start(pl as nat, dd.len(), g);
        assert(dd.take(pl) =~= cp);
        assert(dd.skip(pl) =~= bd);
        assert(b =~= front + blk);
    }
}

/// A string with a character that is neither in the alphabet nor `=`, and no `=`
/// before it, does not decode.
pub proof fn lemma_foreign_rejected(a: Alphabet, s: Seq<char>, i: int)
    requires
        packs(a),
        0 <= i < s.len(),
        !in_alphabet(a, s[i]),
        s[i] != '=',
        forall|j: int| 0 <= j < i ==> s[j] != '=',
    ensures
        !pack_decodable(a, s),
{
    lemma_pad_pos_bounds(s);
    assert(i < pad_pos(s));
    assert(data_part(s)[i] == s[i]);
}

/// RFC 4648 Base32: `A-Z2-7`, 5 bits per character, padded with `=` to blocks of 8.
pub struct Base32 {}

impl Base32 {
    /// Never fails; the result is made of blocks of 8 characters.
    pub fn encode(input: &[u8]) -> (r: Result<String, DecodeError>)
        ensures
            r matches Ok(s) && s@ == pack_encode(Alphabet::B32, input@),
            r matches Ok(s) && s@.len() % 8 == 0,
            r matches Ok(s) && forall|i: int|
                0 <= i < s@.len() ==> in_alphabet(Alphabet::B32, #[trigger] s@[i]) || s@[i] == '=',
    {
        proof {
            lemma_pack_encode_shape(Alphabet::B32, input@);
        }
        let v = pack_encode_exec(Alphabet::B32, input);
        Ok(crate::alphabet::string_of(&v))
    }

    /// Reads up to the first `=`; fails where a character before it is not in the
    /// alphabet. Bits left over that make no whole byte are dropped.
    pub fn decode(input: &str) -> (r: Result<Vec<u8>, DecodeError>)
        ensures
            r is Ok <==> pack_decodable(Alphabet::B32, input@),
            r matches Ok(v) ==> v@ == pack_decode(
                Alphabet::B32,
                chars_digits(Alphabet::B32, data_part(input@)),
            ),
    {
        pack_decode_exec(Alphabet::B32, input)
    }
}

/// Standard Base64: `A-Za-z0-9+/`, 6 bits per character, padded with `=` to blocks of 4.
pub struct Base64 {}

impl Base64 {
    /// Never fails; the result is made of blocks of 4 characters.
    pub fn encode(input: &[u8]) -> (r: Result<String, DecodeError>)
        ensures
            r matches Ok(s) && s@ == pack_encode(Alphabet::B64, input@),
            r matches Ok(s) && s@.len() % 4 == 0,
            r matches Ok(s) && forall|i: int|
                0 <= i < s@.len() ==> in_alphabet(Alphabet::B64, #[trigger] s@[i]) || s@[i] == '=',
    {
        proof {
            lemma_pack_encode_shape(Alphabet::B64, input@);
        }
        let v = pack_encode_exec(Alphabet::B64, input);
        Ok(crate::alphabet::string_of(&v))
    }

    /// Reads up to the first `=`; fails where a character before it is not in the
    /// alphabet. Bits left over that make no whole byte are dropped.
    pub fn decode(input: &str) -> (r: Result<Vec<u8>, DecodeError>)
        ensures
            r is Ok <==> pack_decodable(Alphabet::B64, input@),
            r matches Ok(v) ==> v@ == pack_decode(
                Alphabet::B64,
                chars_digits(Alphabet::B64, data_part(input@)),
            ),
    {
        pack_decode_exec(Alphabet::B64, input)
    }
}

} // verus!
