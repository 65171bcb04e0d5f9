//! Morton (Z-order) codes: a bijection between pairs of `i32` and `u64` that
//! interleaves the bits of the two (biased) coordinates.
use vstd::prelude::*;

verus! {

/// Spreads the low 32 bits of `v` so that bit `i` moves to bit `2 * i` (the
/// closed form of the bit interleave; `lemma_spread_bit` states it bit by bit).
pub open spec fn spread(v: u64) -> u64 {
    let v1 = (v | (v << 16u64)) & 0x0000_FFFF_0000_FFFFu64;
    let v2 = (v1 | (v1 << 8u64)) & 0x00FF_00FF_00FF_00FFu64;
    let v3 = (v2 | (v2 << 4u64)) & 0x0F0F_0F0F_0F0F_0F0Fu64;
    let v4 = (v3 | (v3 << 2u64)) & 0x3333_3333_3333_3333u64;
    (v4 | (v4 << 1u64)) & 0x5555_5555_5555_5555u64
}

/// Gathers the even bits of `v`: bit `2 * i` moves to bit `i`.
pub open spec fn compact(v: u64) -> u64 {
    let v0 = v & 0x5555_5555_5555_5555u64;
    let v1 = (v0 | (v0 >> 1u64)) & 0x3333_3333_3333_3333u64;
    let v2 = (v1 | (v1 >> 2u64)) & 0x0F0F_0F0F_0F0F_0F0Fu64;
    let v3 = (v2 | (v2 >> 4u64)) & 0x00FF_00FF_00FF_00FFu64;
    let v4 = (v3 | (v3 >> 8u64)) & 0x0000_FFFF_0000_FFFFu64;
    (v4 | (v4 >> 16u64)) & 0x0000_0000_FFFF_FFFFu64
}

/// `compact` undoes `spread` on 32-bit values.
pub proof fn lemma_compact_spread(v: u64)
    requires
        v <= 0xffff_ffffu64,
    ensures
        compact(spread(v)) == v,
{
    assert(compact(spread(v)) == v) by (bit_vector)
        requires
            v <= 0xffff_ffffu64,
    ;
}

/// Every word is the spread of its even bits joined with the spread of its
/// odd bits moved one place up.
pub proof fn lemma_spread_compact(c: u64)
    ensures
        spread(compact(c)) | (spread(compact(c >> 1u64)) << 1u64) == c,
{
    assert(spread(compact(c)) | (spread(compact(c >> 1u64)) << 1u64) == c) by (bit_vector);
}

/// Bit `i` of `v`.
pub open spec fn bit(v: u64, i: u64) -> bool {
    (v >> i) & 1u64 == 1u64
}

/// `spread` moves bit `i` of a 32-bit value to bit `2 * i` and leaves the odd
/// bits clear.
pub proof fn lemma_spread_bit(v: u64, i: u64)
    requires
        v <= 0xffff_ffffu64,
        i < 32,
    ensures
        bit(spread(v), (2 * i) as u64) == bit(v, i),
        !bit(spread(v), (2 * i + 1) as u64),
{
    assert(((spread(v) >> ((2 * i) as u64)) & 1u64) == ((v >> i) & 1u64)
        && ((spread(v) >> ((2 * i + 1) as u64)) & 1u64) == 0u64) by (bit_vector)
        requires
            v <= 0xffff_ffffu64,
            i < 32,
    ;
}

/// Bit `i` of `compact(v)` is bit `2 * i` of `v`, its bits from 32 up are
/// clear, and the odd bits of `v` do not matter.
pub proof fn lemma_compact_bit(v: u64, i: u64)
    requires
        i < 32,
    ensures
        bit(compact(v), i) == bit(v, (2 * i) as u64),
        !bit(compact(v), (i + 32) as u64),
        compact(v) == compact(v & 0x5555_5555_5555_5555u64),
{
    assert(((compact(v) >> i) & 1u64) == ((v >> ((2 * i) as u64)) & 1u64)
        && ((compact(v) >> ((i + 32) as u64)) & 1u64) == 0u64
        && compact(v) == compact(v & 0x5555_5555_5555_5555u64)) by (bit_vector)
        requires
            i < 32,
    ;
}

/// Two words that agree on all 64 bits are equal.
pub proof fn lemma_bits_determine_word(a: u64, b: u64)
    requires
        forall|j: u64| j < 64 ==> #[trigger] bit(a, j) == bit(b, j),
    ensures
        a == b,
{
    if a != b {
        let d = a ^ b;
        assert(d != 0) by (bit_vector)
            requires
                a != b,
                d == a ^ b,
        ;
        let t = vstd::std_specs::bits::u64_trailing_zeros(d);
        vstd::std_specs::bits::axiom_u64_trailing_zeros(d);
        let tt = t as u64;
        assert(bit(a, tt) != bit(b, tt)) by (bit_vector)
            requires
                d == a ^ b,
                (d >> tt) & 1u64 == 1u64,
        ;
    }
}

/// A coordinate shifted by `2^31` into `0 .. 2^32`, so that the unsigned order
/// of the result is the signed order of `x`.
pub open spec fn biased(x: i32) -> u64 {
    (x as int + 0x8000_0000) as u64
}

/// The inverse of `biased` on `0 .. 2^32`.
pub open spec fn unbiased(u: u64) -> i32 {
    (u as int - 0x8000_0000) as i32
}

/// The Morton code of `(x, y)`: the bits of `biased(x)` at the even positions
/// and those of `biased(y)` at the odd ones.
pub open spec fn morton_key(x: i32, y: i32) -> u64 {
    spread(biased(x)) | (spread(biased(y)) << 1u64)
}

/// Whether the bits of `biased(x)` are the even bits of `code` and those of
/// `biased(y)` its odd bits, in order.
pub open spec fn interleaves(code: u64, x: i32, y: i32) -> bool {
    forall|i: u64|
        i < 32 ==> #[trigger] bit(code, (2 * i) as u64) == bit(biased(x), i) && bit(
            code,
            (2 * i + 1) as u64,
        ) == bit(biased(y), i)
}

/// The pair whose Morton code is `code`.
pub open spec fn morton_point(code: u64) -> (i32, i32) {
    (unbiased(compact(code)), unbiased(compact(code >> 1u64)))
}

proof fn lemma_compact_bound(v: u64)
    ensures
        compact(v) <= 0xffff_ffffu64,
{
    assert(compact(v) <= 0xffff_ffffu64) by (bit_vector);
}

proof fn lemma_compact_of_key(a: u64, b: u64)
    requires
        a <= 0xffff_ffffu64,
        b <= 0xffff_ffffu64,
    ensures
        compact(spread(a) | (spread(b) << 1u64)) == a,
        compact((spread(a) | (spread(b) << 1u64)) >> 1u64) == b,
{
    assert(compact(spread(a) | (spread(b) << 1u64)) == a
        && compact((spread(a) | (spread(b) << 1u64)) >> 1u64) == b) by (bit_vector)
        requires
            a <= 0xffff_ffffu64,
            b <= 0xffff_ffffu64,
    ;
}

/// Decoding a Morton code gives back the pair that was encoded.
pub proof fn lemma_morton_point_of_key(x: i32, y: i32)
    ensures
        morton_point(morton_key(x, y)) == (x, y),
{
    lemma_compact_of_key(biased(x), biased(y));
}

/// Every `u64` is the Morton code of exactly the pair it decodes to.
pub proof fn lemma_morton_key_of_point(code: u64)
    ensures
        morton_key(morton_point(code).0, morton_point(code).1) == code,
{
    lemma_compact_bound(code);
    lemma_compact_bound(code >> 1u64);
    lemma_spread_compact(code);
}

/// Distinct pairs have distinct Morton codes.
pub proof fn lemma_morton_key_injective(x1: i32, y1: i32, x2: i32, y2: i32)
    requires
        morton_key(x1, y1) == morton_key(x2, y2),
    ensures
        x1 == x2 && y1 == y2,
{
    lemma_morton_point_of_key(x1, y1);
    lemma_morton_point_of_key(x2, y2);
}

/// Bit `2 * i` of the code of `(x, y)` is bit `i` of `biased(x)`, and bit
/// `2 * i + 1` is bit `i` of `biased(y)`.
pub proof fn lemma_morton_key_bits(x: i32, y: i32, i: u64)
    requires
        i < 32,
    ensures
        bit(morton_key(x, y), (2 * i) as u64) == bit(biased(x), i),
        bit(morton_key(x, y), (2 * i + 1) as u64) == bit(biased(y), i),
{
    let a = biased(x);
    let b = biased(y);
    assert(((((spread(a) | (spread(b) << 1u64)) >> ((2 * i) as u64)) & 1u64) == ((a >> i) & 1u64))
        && ((((spread(a) | (spread(b) << 1u64)) >> ((2 * i + 1) as u64)) & 1u64) == ((b >> i)
        & 1u64))) by (bit_vector)
        requires
            a <= 0xffff_ffffu64,
            b <= 0xffff_ffffu64,
            i < 32,
    ;
}

/// The Morton code of `(x, y)` interleaves their bits, and it is the only word
/// that does.
pub proof fn lemma_morton_key_interleaves(x: i32, y: i32, code: u64)
    ensures
        interleaves(morton_key(x, y), x, y),
        interleaves(code, x, y) ==> code == morton_key(x, y),
{
    let k = morton_key(x, y);
    assert forall|i: u64| i < 32 implies #[trigger] bit(k, (2 * i) as u64) == bit(biased(x), i)
        && bit(k, (2 * i + 1) as u64) == bit(biased(y), i) by {
        lemma_morton_key_bits(x, y, i);
    }
    if interleaves(code, x, y) {
        assert forall|j: u64| j < 64 implies #[trigger] bit(code, j) == bit(k, j) by {
            let i = j / 2;
            if j % 2 == 0 {
                assert(j == (2 * i) as u64);
                assert(bit(code, (2 * i) as u64) == bit(biased(x), i));
                assert(bit(k, (2 * i) as u64) == bit(biased(x), i));
            } else {
                assert(j == (2 * i + 1) as u64);
                assert(bit(code, (2 * i) as u64) == bit(biased(x), i));
                assert(bit(code, (2 * i + 1) as u64) == bit(biased(y), i));
                assert(bit(k, (2 * i) as u64) == bit(biased(x), i));
                assert(bit(k, (2 * i + 1) as u64) == bit(biased(y), i));
            }
        }
        lemma_bits_determine_word(code, k);
    }
}

/// Spreads the bits of `v`: bit `i` goes to bit `2 * i`, and the odd bits
/// are clear.
pub fn spread_bits(v: u32) -> (r: u64)
    ensures
        r == spread(v as u64),
        forall|i: u64|
            i < 32 ==> #[trigger] bit(r, (2 * i) as u64) == bit(v as u64, i) && !bit(
                r,
                (2 * i + 1) as u64,
            ),
{
    proof {
        assert forall|i: u64|
            i < 32 implies #[trigger] bit(spread(v as u64), (2 * i) as u64) == bit(v as u64, i)
            && !bit(spread(v as u64), (2 * i + 1) as u64) by {
            lemma_spread_bit(v as u64, i);
        }
    }
    let mut v = v as u64;
    v = (v | (v << 16)) & 0x0000_FFFF_0000_FFFF;
    v = (v | (v << 8)) & 0x00FF_00FF_00FF_00FF;
    v = (v | (v << 4)) & 0x0F0F_0F0F_0F0F_0F0F;
    v = (v | (v << 2)) & 0x3333_3333_3333_3333;
    v = (v | (v << 1)) & 0x5555_5555_5555_5555;
    v
}

/// Gathers the even bits of `v`: bit `2 * i` goes to bit `i`; the odd bits
/// of `v` play no part.
pub fn compact_bits(v: u64) -> (r: u32)
    ensures
        r as u64 == compact(v),
        forall|i: u64| i < 32 ==> #[trigger] bit(r as u64, i) == bit(v, (2 * i) as u64),
{
    proof {
        assert forall|i: u64| i < 32 implies #[trigger] bit(compact(v), i) == bit(v, (2 * i) as u64) by {
            lemma_compact_bit(v, i);
        }
    }
    let ghost v0 = v;
    let mut v = v;
    v &= 0x5555_5555_5555_5555;
    v = (v | (v >> 1)) & 0x3333_3333_3333_3333;
    v = (v | (v >> 2)) & 0x0F0F_0F0F_0F0F_0F0F;
    v = (v | (v >> 4)) & 0x00FF_00FF_00FF_00FF;
    v = (v | (v >> 8)) & 0x0000_FFFF_0000_FFFF;
    v = (v | (v >> 16)) & 0x0000_0000_FFFF_FFFF;
    proof {
        lemma_compact_bound(v0);
    }
    v as u32
}

/// The Morton code of `(x, y)`.
pub fn morton_encode(x: i32, y: i32) -> (r: u64)
    ensures
        r == morton_key(x, y),
        interleaves(r, x, y),
{
    proof {
        lemma_morton_key_interleaves(x, y, 0);
    }
    let ux = (x ^ i32::MIN) as u32;
    let uy = (y ^ i32::MIN) as u32;
    assert(ux as u64 == biased(x) && uy as u64 == biased(y)) by (bit_vector)
        requires
            ux == (x ^ i32::MIN) as u32,
            uy == (y ^ i32::MIN) as u32,
    ;
    spread_bits(ux) | (spread_bits(uy) << 1)
}

/// The pair whose Morton code is `code`.
pub fn morton_decode(code: u64) -> (r: (i32, i32))
    ensures
        r == morton_point(code),
        interleaves(code, r.0, r.1),
{
    proof {
        lemma_morton_key_of_point(code);
        lemma_morton_key_interleaves(morton_point(code).0, morton_point(code).1, code);
    }
    let ux = compact_bits(code);
    let uy = compact_bits(code >> 1);
    let x = (ux as i32) ^ i32::MIN;
    let y = (uy as i32) ^ i32::MIN;
    assert(x == unbiased(ux as u64) && y == unbiased(uy as u64)) by (bit_vector)
        requires
            x == (ux as i32) ^ i32::MIN,
            y == (uy as i32) ^ i32::MIN,
    ;
    (x, y)
}

} // verus!
