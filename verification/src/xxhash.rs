//! XXHash-64, whose lower 32 bits zstd stores as a frame's content checksum.
use vstd::prelude::*;
use vstd::arithmetic::power2::*;

verus! {

pub const PRIME64_1: u64 = 0x9E3779B185EBCA87;
pub const PRIME64_2: u64 = 0xC2B2AE3D27D4EB4F;
pub const PRIME64_3: u64 = 0x165667B19E3779F9;
pub const PRIME64_4: u64 = 0x85EBCA77C2B2AE63;
pub const PRIME64_5: u64 = 0x27D4EB2F165667C5;

/// `x` rotated left by `r` bits (0 < r < 64).
pub open spec fn rotl(x: u64, r: u64) -> u64 {
    (x << r) | (x >> ((64 - r) as u64))
}

/// The little-endian 64-bit word at `i`.
pub open spec fn le64(d: Seq<u8>, i: int) -> u64 {
    (d[i] + 256 * (d[i + 1] + 256 * (d[i + 2] + 256 * (d[i + 3] + 256 * (d[i + 4] + 256 * (d[i + 5] + 256 * (d[i + 6] + 256 * d[i + 7]))))))) as u64
}

/// The little-endian 32-bit word at `i`.
pub open spec fn le32(d: Seq<u8>, i: int) -> u64 {
    (d[i] + 256 * (d[i + 1] + 256 * (d[i + 2] + 256 * d[i + 3]))) as u64
}

pub open spec fn round64(acc: u64, input: u64) -> u64 {
    rotl(acc.wrapping_add(input.wrapping_mul(PRIME64_2)), 31).wrapping_mul(PRIME64_1)
}

pub open spec fn merge_round(acc: u64, val: u64) -> u64 {
    (acc ^ round64(0, val)).wrapping_mul(PRIME64_1).wrapping_add(PRIME64_4)
}

/// The four accumulators after every whole 32-byte stripe from `i` on, and
/// the position after the last one.
pub open spec fn stripes(d: Seq<u8>, i: nat, v: (u64, u64, u64, u64)) -> ((u64, u64, u64, u64), nat)
    decreases d.len() - i,
{
    if i + 32 <= d.len() {
        stripes(d, i + 32, (
            round64(v.0, le64(d, i as int)),
            round64(v.1, le64(d, i + 8int)),
            round64(v.2, le64(d, i + 16int)),
            round64(v.3, le64(d, i + 24int)),
        ))
    } else {
        (v, i)
    }
}

/// The hash state after the 8-byte words from `i` on, and the position
/// after them.
pub open spec fn words8(d: Seq<u8>, i: nat, h: u64) -> (u64, nat)
    decreases d.len() - i,
{
    if i + 8 <= d.len() {
        let k = round64(0, le64(d, i as int));
        words8(d, i + 8, rotl(h ^ k, 27).wrapping_mul(PRIME64_1).wrapping_add(PRIME64_4))
    } else {
        (h, i)
    }
}

/// The hash state after the single bytes from `i` to the end.
pub open spec fn bytes1(d: Seq<u8>, i: nat, h: u64) -> u64
    decreases d.len() - i,
{
    if i < d.len() {
        bytes1(d, i + 1, rotl(h ^ (d[i as int] as u64).wrapping_mul(PRIME64_5), 11).wrapping_mul(PRIME64_1))
    } else {
        h
    }
}

pub open spec fn avalanche(h: u64) -> u64 {
    let h1 = h ^ (h >> 33);
    let h2 = h1.wrapping_mul(PRIME64_2);
    let h3 = h2 ^ (h2 >> 29);
    let h4 = h3.wrapping_mul(PRIME64_3);
    h4 ^ (h4 >> 32)
}

/// XXHash-64 of `d` with `seed`.
pub open spec fn spec_xxh64(d: Seq<u8>, seed: u64) -> u64 {
    let (h0, i0) = if d.len() >= 32 {
        let (v, i) = stripes(d, 0, (
            seed.wrapping_add(PRIME64_1).wrapping_add(PRIME64_2),
            seed.wrapping_add(PRIME64_2),
            seed,
            seed.wrapping_sub(PRIME64_1),
        ));
        let h = rotl(v.0, 1).wrapping_add(rotl(v.1, 7)).wrapping_add(rotl(v.2, 12)).wrapping_add(rotl(v.3, 18));
        (merge_round(merge_round(merge_round(merge_round(h, v.0), v.1), v.2), v.3), i)
    } else {
        (seed.wrapping_add(PRIME64_5), 0nat)
    };
    let h1 = h0.wrapping_add(d.len() as u64);
    let (h2, i2) = words8(d, i0, h1);
    let (h3, i3) = if i2 + 4 <= d.len() {
        (rotl(h2 ^ le32(d, i2 as int).wrapping_mul(PRIME64_1), 23).wrapping_mul(PRIME64_2).wrapping_add(PRIME64_3), i2 + 4)
    } else {
        (h2, i2)
    };
    avalanche(bytes1(d, i3, h3))
}

// ---------------------------------------------------------------------------
// XXH64 as the xxHash specification states it
// ---------------------------------------------------------------------------

/// `x` rotated left by `r` bits, as arithmetic on its value: the bits
/// below `64 - r` move up by `r`, the top `r` bits come down to the bottom.
#[verifier::opaque]
pub open spec fn rotate_left(x: u64, r: nat) -> u64 {
    ((x as nat * pow2(r)) % pow2(64) + x as nat / pow2((64 - r) as nat)) as u64
}

/// The number whose little-endian bytes are `d[i..i + n]`.
pub open spec fn le_value(d: Seq<u8>, i: int, n: nat) -> nat
    decreases n,
{
    if n == 0 {
        0
    } else {
        d[i] as nat + 256 * le_value(d, i + 1, (n - 1) as nat)
    }
}

/// The 64-bit lane at byte `i`.
pub open spec fn lane(d: Seq<u8>, i: int) -> u64 {
    le_value(d, i, 8) as u64
}

/// One round of the specification: `acc + lane * PRIME64_2`, rotated
/// left by 31, times `PRIME64_1` (all modulo 2^64).
#[verifier::opaque]
pub open spec fn xxh_round(acc: u64, input: u64) -> u64 {
    rotate_left(acc.wrapping_add(input.wrapping_mul(0xC2B2AE3D27D4EB4Fu64)), 31).wrapping_mul(0x9E3779B185EBCA87u64)
}

/// Accumulator `j` (0 to 3) as the specification initialises it.
pub open spec fn acc_init(seed: u64, j: int) -> u64 {
    if j == 0 {
        seed.wrapping_add(0x9E3779B185EBCA87u64).wrapping_add(0xC2B2AE3D27D4EB4Fu64)
    } else if j == 1 {
        seed.wrapping_add(0xC2B2AE3D27D4EB4Fu64)
    } else if j == 2 {
        seed
    } else {
        seed.wrapping_sub(0x9E3779B185EBCA87u64)
    }
}

/// Accumulator `j` after the first `n` stripes: each stripe of 32 bytes
/// holds four lanes, lane `j` feeding accumulator `j`.
pub open spec fn acc_after(d: Seq<u8>, seed: u64, j: int, n: nat) -> u64
    decreases n,
{
    if n == 0 {
        acc_init(seed, j)
    } else {
        xxh_round(acc_after(d, seed, j, (n - 1) as nat), lane(d, 32 * (n - 1) + 8 * j))
    }
}

/// Merging an accumulator into the converged value.
#[verifier::opaque]
pub open spec fn xxh_merge(h: u64, acc: u64) -> u64 {
    (h ^ xxh_round(0, acc)).wrapping_mul(0x9E3779B185EBCA87u64).wrapping_add(0x85EBCA77C2B2AE63u64)
}

/// The four accumulators after `n` stripes, converged and merged.
pub open spec fn converge(d: Seq<u8>, seed: u64, n: nat) -> u64 {
    let a0 = acc_after(d, seed, 0, n);
    let a1 = acc_after(d, seed, 1, n);
    let a2 = acc_after(d, seed, 2, n);
    let a3 = acc_after(d, seed, 3, n);
    let h = rotate_left(a0, 1).wrapping_add(rotate_left(a1, 7)).wrapping_add(rotate_left(a2, 12)).wrapping_add(rotate_left(a3, 18));
    xxh_merge(xxh_merge(xxh_merge(xxh_merge(h, a0), a1), a2), a3)
}

/// The input left after the stripes, from byte `p` on: 8-byte lanes while
/// they fit, then a 4-byte word if it fits, then single bytes.
pub open spec fn consume_rest(d: Seq<u8>, p: nat, h: u64) -> u64
    decreases d.len() - p,
{
    if p + 8 <= d.len() {
        consume_rest(d, p + 8,
            rotate_left(h ^ xxh_round(0, lane(d, p as int)), 27).wrapping_mul(0x9E3779B185EBCA87u64).wrapping_add(0x85EBCA77C2B2AE63u64))
    } else if p + 4 <= d.len() {
        consume_rest(d, p + 4,
            rotate_left(h ^ (le_value(d, p as int, 4) as u64).wrapping_mul(0x9E3779B185EBCA87u64), 23).wrapping_mul(0xC2B2AE3D27D4EB4Fu64)
                .wrapping_add(0x165667B19E3779F9u64))
    } else if p < d.len() {
        consume_rest(d, p + 1, rotate_left(h ^ (d[p as int] as u64).wrapping_mul(0x27D4EB2F165667C5u64), 11).wrapping_mul(0x9E3779B185EBCA87u64))
    } else {
        h
    }
}

/// The final mix.
pub open spec fn final_mix(h: u64) -> u64 {
    let a = (h ^ (h / 0x2_0000_0000u64)).wrapping_mul(0xC2B2AE3D27D4EB4Fu64);
    let b = (a ^ (a / 0x2000_0000u64)).wrapping_mul(0x165667B19E3779F9u64);
    b ^ (b / 0x1_0000_0000u64)
}

/// XXH64 of `d` with `seed`, step by step as the xxHash specification
/// gives it: the stripes through four accumulators (inputs of 32 bytes or
/// more), else `seed + PRIME64_5`; then the length; then the rest of the
/// input; then the final mix.
pub open spec fn xxh64_reference(d: Seq<u8>, seed: u64) -> u64 {
    let n = d.len() / 32;
    let h = if d.len() >= 32 { converge(d, seed, n) } else { seed.wrapping_add(0x27D4EB2F165667C5u64) };
    final_mix(consume_rest(d, 32 * n, h.wrapping_add(d.len() as u64)))
}

proof fn lemma_rotl(x: u64, r: nat)
    requires
        r == 1 || r == 7 || r == 11 || r == 12 || r == 18 || r == 23 || r == 27 || r == 31,
    ensures
        rotl(x, r as u64) == rotate_left(x, r),
{
    reveal(rotate_left);
    lemma2_to64();
    lemma2_to64_rest();
    if r == 1 {
        assert(((x << 1u64) | (x >> 63u64)) == ((x * 0x2u64) % 0x1_0000_0000_0000_0000 + x / 0x8000_0000_0000_0000u64) as u64) by (bit_vector);
    } else if r == 7 {
        assert(((x << 7u64) | (x >> 57u64)) == ((x * 0x80u64) % 0x1_0000_0000_0000_0000 + x / 0x200_0000_0000_0000u64) as u64) by (bit_vector);
    } else if r == 11 {
        assert(((x << 11u64) | (x >> 53u64)) == ((x * 0x800u64) % 0x1_0000_0000_0000_0000 + x / 0x20_0000_0000_0000u64) as u64) by (bit_vector);
    } else if r == 12 {
        assert(((x << 12u64) | (x >> 52u64)) == ((x * 0x1000u64) % 0x1_0000_0000_0000_0000 + x / 0x10_0000_0000_0000u64) as u64) by (bit_vector);
    } else if r == 18 {
        assert(((x << 18u64) | (x >> 46u64)) == ((x * 0x4_0000u64) % 0x1_0000_0000_0000_0000 + x / 0x4000_0000_0000u64) as u64) by (bit_vector);
    } else if r == 23 {
        assert(((x << 23u64) | (x >> 41u64)) == ((x * 0x80_0000u64) % 0x1_0000_0000_0000_0000 + x / 0x200_0000_0000u64) as u64) by (bit_vector);
    } else if r == 27 {
        assert(((x << 27u64) | (x >> 37u64)) == ((x * 0x800_0000u64) % 0x1_0000_0000_0000_0000 + x / 0x20_0000_0000u64) as u64) by (bit_vector);
    } else {
        assert(((x << 31u64) | (x >> 33u64)) == ((x * 0x8000_0000u64) % 0x1_0000_0000_0000_0000 + x / 0x2_0000_0000u64) as u64) by (bit_vector);
    }
}

proof fn lemma_lanes(d: Seq<u8>, i: int)
    requires
        0 <= i,
    ensures
        i + 8 <= d.len() ==> le64(d, i) == lane(d, i),
        i + 4 <= d.len() ==> le32(d, i) == le_value(d, i, 4) as u64,
{
    reveal_with_fuel(le_value, 9);
}

proof fn lemma_round(acc: u64, input: u64)
    ensures
        round64(acc, input) == xxh_round(acc, input),
        merge_round(acc, input) == xxh_merge(acc, input),
{
    reveal(xxh_round);
    reveal(xxh_merge);
    lemma_rotl(acc.wrapping_add(input.wrapping_mul(PRIME64_2)), 31);
    lemma_rotl(0u64.wrapping_add(input.wrapping_mul(PRIME64_2)), 31);
}

proof fn lemma_avalanche(h: u64)
    ensures
        avalanche(h) == final_mix(h),
{
    let h1 = h ^ (h >> 33);
    assert(h >> 33 == h / 0x2_0000_0000u64) by (bit_vector);
    let h2 = h1.wrapping_mul(PRIME64_2);
    assert(h2 >> 29 == h2 / 0x2000_0000u64) by (bit_vector);
    let h3 = h2 ^ (h2 >> 29);
    let h4 = h3.wrapping_mul(PRIME64_3);
    assert(h4 >> 32 == h4 / 0x1_0000_0000u64) by (bit_vector);
}

/// The stripes read so far leave the accumulators of the specification.
proof fn lemma_stripes(d: Seq<u8>, seed: u64, m: nat)
    requires
        32 * m <= d.len(),
    ensures
        stripes(d, 0, (acc_init(seed, 0), acc_init(seed, 1), acc_init(seed, 2), acc_init(seed, 3)))
            == stripes(d, 32 * m, (acc_after(d, seed, 0, m), acc_after(d, seed, 1, m), acc_after(d, seed, 2, m), acc_after(d, seed, 3, m))),
    decreases m,
{
    if m > 0 {
        let k = (m - 1) as nat;
        lemma_stripes(d, seed, k);
        let i: int = 32 * k as int;
        let v = (acc_after(d, seed, 0, k), acc_after(d, seed, 1, k), acc_after(d, seed, 2, k), acc_after(d, seed, 3, k));
        lemma_lanes(d, i);
        lemma_lanes(d, i + 8);
        lemma_lanes(d, i + 16);
        lemma_lanes(d, i + 24);
        lemma_round(v.0, le64(d, i));
        lemma_round(v.1, le64(d, i + 8));
        lemma_round(v.2, le64(d, i + 16));
        lemma_round(v.3, le64(d, i + 24));
        assert(i + 32 == 32 * m);
    }
}

/// Single bytes, once fewer than four are left.
proof fn lemma_bytes_rest(d: Seq<u8>, p: nat, h: u64)
    requires
        p <= d.len() < p + 4,
    ensures
        bytes1(d, p, h) == consume_rest(d, p, h),
    decreases d.len() - p,
{
    if p < d.len() {
        let x = h ^ (d[p as int] as u64).wrapping_mul(PRIME64_5);
        lemma_rotl(x, 11);
        lemma_bytes_rest(d, p + 1, rotl(x, 11).wrapping_mul(PRIME64_1));
    }
}

/// The 8-byte lanes of the rest.
proof fn lemma_words_rest(d: Seq<u8>, p: nat, h: u64)
    requires
        p <= d.len(),
    ensures
        words8(d, p, h).1 <= d.len() < words8(d, p, h).1 + 8,
        consume_rest(d, p, h) == consume_rest(d, words8(d, p, h).1, words8(d, p, h).0),
    decreases d.len() - p,
{
    if p + 8 <= d.len() {
        lemma_lanes(d, p as int);
        let k = round64(0, le64(d, p as int));
        lemma_round(0, le64(d, p as int));
        lemma_rotl(h ^ k, 27);
        lemma_words_rest(d, p + 8, rotl(h ^ k, 27).wrapping_mul(PRIME64_1).wrapping_add(PRIME64_4));
    }
}

/// Law: the hash that [`xxhash32`] keeps the low 32 bits of is XXH64 as
/// the xxHash specification defines it, for every input and seed.
pub proof fn lemma_xxh64_is_reference(d: Seq<u8>, seed: u64)
    ensures
        spec_xxh64(d, seed) == xxh64_reference(d, seed),
{
    let n = d.len() / 32;
    let h0 = if d.len() >= 32 { converge(d, seed, n) } else { seed.wrapping_add(0x27D4EB2F165667C5u64) };
    if d.len() >= 32 {
        lemma_stripes(d, seed, n);
        let v = (acc_after(d, seed, 0, n), acc_after(d, seed, 1, n), acc_after(d, seed, 2, n), acc_after(d, seed, 3, n));
        assert(stripes(d, 32 * n, v) == (v, 32 * n));
        lemma_rotl(v.0, 1);
        lemma_rotl(v.1, 7);
        lemma_rotl(v.2, 12);
        lemma_rotl(v.3, 18);
        let h = rotl(v.0, 1).wrapping_add(rotl(v.1, 7)).wrapping_add(rotl(v.2, 12)).wrapping_add(rotl(v.3, 18));
        lemma_round(h, v.0);
        lemma_round(merge_round(h, v.0), v.1);
        lemma_round(merge_round(merge_round(h, v.0), v.1), v.2);
        lemma_round(merge_round(merge_round(merge_round(h, v.0), v.1), v.2), v.3);
    }
    let h1 = h0.wrapping_add(d.len() as u64);
    let p0 = 32 * n;
    lemma_words_rest(d, p0, h1);
    let (h2, i2) = words8(d, p0, h1);
    if i2 + 4 <= d.len() {
        lemma_lanes(d, i2 as int);
        let x = h2 ^ le32(d, i2 as int).wrapping_mul(PRIME64_1);
        lemma_rotl(x, 23);
        lemma_bytes_rest(d, i2 + 4, rotl(x, 23).wrapping_mul(PRIME64_2).wrapping_add(PRIME64_3));
    } else {
        lemma_bytes_rest(d, i2, h2);
    }
    let (h3, i3) = if i2 + 4 <= d.len() {
        (rotl(h2 ^ le32(d, i2 as int).wrapping_mul(PRIME64_1), 23).wrapping_mul(PRIME64_2).wrapping_add(PRIME64_3), i2 + 4)
    } else {
        (h2, i2)
    };
    lemma_avalanche(bytes1(d, i3, h3));
}

proof fn lemma_round_value(a: u64, l: u64, t1: u64, t2: u64, t3: u64, r: u64)
    requires
        t1 == (l as nat * 0xC2B2AE3D27D4EB4Fnat) % 0x1_0000_0000_0000_0000nat,
        t2 == (a as nat + t1 as nat) % 0x1_0000_0000_0000_0000nat,
        t3 == (t2 as nat * 0x8000_0000nat) % 0x1_0000_0000_0000_0000nat + t2 as nat / 0x2_0000_0000nat,
        r == (t3 as nat * 0x9E3779B185EBCA87nat) % 0x1_0000_0000_0000_0000nat,
    ensures
        xxh_round(a, l) == r,
{
    reveal(xxh_round);
    reveal(rotate_left);
    lemma2_to64();
    lemma2_to64_rest();
}

proof fn lemma_rotate_value(x: u64, r: nat, p: nat, q: nat, y: u64)
    requires
        r <= 64,
        p == pow2(r),
        q == pow2((64 - r) as nat),
        y == (x as nat * p) % 0x1_0000_0000_0000_0000nat + x as nat / q,
    ensures
        rotate_left(x, r) == y,
{
    reveal(rotate_left);
    lemma2_to64();
}

proof fn lemma_merge_value(h: u64, a: u64, t1: u64, t2: u64, t3: u64, r0: u64, x: u64, out: u64)
    requires
        t1 == (a as nat * 0xC2B2AE3D27D4EB4Fnat) % 0x1_0000_0000_0000_0000nat,
        t2 == t1,
        t3 == (t2 as nat * 0x8000_0000nat) % 0x1_0000_0000_0000_0000nat + t2 as nat / 0x2_0000_0000nat,
        r0 == (t3 as nat * 0x9E3779B185EBCA87nat) % 0x1_0000_0000_0000_0000nat,
        h ^ r0 == x,
        out == ((x as nat * 0x9E3779B185EBCA87nat) % 0x1_0000_0000_0000_0000nat + 0x85EBCA77C2B2AE63nat) % 0x1_0000_0000_0000_0000nat,
    ensures
        xxh_merge(h, a) == out,
{
    reveal(xxh_merge);
    lemma_round_value(0, a, t1, t2, t3, r0);
}

proof fn lemma_known_accumulator(d: Seq<u8>, j: int, init: u64, lv: u64, t1: u64, t2: u64, t3: u64, r: u64)
    requires
        0 <= j < 4,
        lane(d, 8 * j) == lv,
        acc_init(0, j) == init,
        t1 == (lv as nat * 0xC2B2AE3D27D4EB4Fnat) % 0x1_0000_0000_0000_0000nat,
        t2 == (init as nat + t1 as nat) % 0x1_0000_0000_0000_0000nat,
        t3 == (t2 as nat * 0x8000_0000nat) % 0x1_0000_0000_0000_0000nat + t2 as nat / 0x2_0000_0000nat,
        r == (t3 as nat * 0x9E3779B185EBCA87nat) % 0x1_0000_0000_0000_0000nat,
    ensures
        acc_after(d, 0, j, 1) == r,
{
    assert(acc_after(d, 0, j, 0) == init);
    assert(32 * (1 - 1) + 8 * j == 8 * j);
    lemma_round_value(init, lv, t1, t2, t3, r);
}

proof fn lemma_known_accumulators(d: Seq<u8>)
    requires
        d == seq![97u8, 98u8, 99u8, 100u8, 101u8, 102u8, 103u8, 104u8, 105u8, 106u8, 107u8, 108u8, 109u8, 110u8, 111u8, 112u8, 113u8, 114u8, 115u8, 116u8, 117u8, 118u8, 119u8, 120u8, 121u8, 122u8, 48u8, 49u8, 50u8, 51u8, 52u8, 53u8],
    ensures
        acc_after(d, 0, 0, 1) == 0x24201c46204b39b5u64,
        acc_after(d, 0, 1, 1) == 0xf33e2c3fffa3007du64,
        acc_after(d, 0, 2, 1) == 0xfa91a0f6a881305bu64,
        acc_after(d, 0, 3, 1) == 0x85147c916ab5610du64,
{
    reveal_with_fuel(le_value, 9);
    assert(lane(d, 0) == 0x6867666564636261u64);
    assert(lane(d, 8) == 0x706f6e6d6c6b6a69u64);
    assert(lane(d, 16) == 0x7877767574737271u64);
    assert(lane(d, 24) == 0x3534333231307a79u64);
    assert(acc_init(0, 0) == 0x60ea27eeadc0b5d6u64);
    assert(acc_init(0, 1) == 0xc2b2ae3d27d4eb4fu64);
    assert(acc_init(0, 2) == 0x0u64);
    assert(acc_init(0, 3) == 0x61c8864e7a143579u64);
    lemma_known_accumulator(d, 0, 0x60ea27eeadc0b5d6u64, 0x6867666564636261u64, 0xc32851d8754e66efu64, 0x241279c7230f1cc5u64, 0x91878e6292093ce3u64, 0x24201c46204b39b5u64);
    lemma_known_accumulator(d, 1, 0xc2b2ae3d27d4eb4fu64, 0x706f6e6d6c6b6a69u64, 0x81d1657a2dc83967u64, 0x448413b7559d24b6u64, 0xaace925b224209dbu64, 0xf33e2c3fffa3007du64);
    lemma_known_accumulator(d, 2, 0x0u64, 0x7877767574737271u64, 0x407a791be6420bdfu64, 0x407a791be6420bdfu64, 0xf32105efa03d3c8du64, 0xfa91a0f6a881305bu64);
    lemma_known_accumulator(d, 3, 0x61c8864e7a143579u64, 0x3534333231307a79u64, 0xe7176b478996de57u64, 0x48dff19603ab13d0u64, 0x1d589e8246ff8cbu64, 0x85147c916ab5610du64);
}

proof fn lemma_known_converge(d: Seq<u8>)
    requires
        acc_after(d, 0, 0, 1) == 0x24201c46204b39b5u64,
        acc_after(d, 0, 1, 1) == 0xf33e2c3fffa3007du64,
        acc_after(d, 0, 2, 1) == 0xfa91a0f6a881305bu64,
        acc_after(d, 0, 3, 1) == 0x85147c916ab5610du64,
    ensures
        converge(d, 0, 1) == 0xa3fb16449c9d49f7u64,
{
    lemma2_to64();
    lemma2_to64_rest();
    lemma_rotate_value(0x24201c46204b39b5u64, 1, 2, 9223372036854775808, 0x4840388c4096736au64);
    lemma_rotate_value(0xf33e2c3fffa3007du64, 7, 128, 144115188075855872, 0x9f161fffd1803ef9u64);
    lemma_rotate_value(0xfa91a0f6a881305bu64, 12, 4096, 4503599627370496, 0x1a0f6a881305bfa9u64);
    lemma_rotate_value(0x85147c916ab5610du64, 18, 262144, 70368744177664, 0xf245aad584361451u64);
    assert((0x4840388c4096736au64).wrapping_add(0x9f161fffd1803ef9u64).wrapping_add(0x1a0f6a881305bfa9u64).wrapping_add(0xf245aad584361451u64) == 0xf3ab6de9a952865du64);
    assert(0xf3ab6de9a952865du64 ^ 0x7c4f1d3485352440u64 == 0x8fe470dd2c67a21du64) by (bit_vector);
    lemma_merge_value(0xf3ab6de9a952865du64, 0x24201c46204b39b5u64, 0xd5db13806213f5dbu64, 0xd5db13806213f5dbu64, 0x3109faedeaed89c0u64, 0x7c4f1d3485352440u64, 0x8fe470dd2c67a21du64, 0x950d398bd4e30daeu64);
    assert(0x950d398bd4e30daeu64 ^ 0xf9e3bb0b5581e5e7u64 == 0x6cee82808162e849u64) by (bit_vector);
    lemma_merge_value(0x950d398bd4e30daeu64, 0xf33e2c3fffa3007du64, 0x4cd60342f743e593u64, 0x4cd60342f743e593u64, 0x7ba1f2c9a66b01a1u64, 0xf9e3bb0b5581e5e7u64, 0x6cee82808162e849u64, 0xe4b746463127c6e2u64);
    assert(0xe4b746463127c6e2u64 ^ 0xd9df4b749c968766u64 == 0x3d680d32adb14184u64) by (bit_vector);
    lemma_merge_value(0xe4b746463127c6e2u64, 0xfa91a0f6a881305bu64, 0x6c8eb1d57f9d7515u64, 0x6c8eb1d57f9d7515u64, 0xbfceba8ab64758eau64, 0xd9df4b749c968766u64, 0x3d680d32adb14184u64, 0xded8f643f10a62ffu64);
    assert(0xded8f643f10a62ffu64 ^ 0xab408a15870d6a33u64 == 0x75987c56760708ccu64) by (bit_vector);
    lemma_merge_value(0xded8f643f10a62ffu64, 0x85147c916ab5610du64, 0x3992e3eac7d3e203u64, 0x3992e3eac7d3e203u64, 0x63e9f1019cc971f5u64, 0xab408a15870d6a33u64, 0x75987c56760708ccu64, 0xa3fb16449c9d49f7u64);
}

/// The reference gives the published XXH64 value of a 32-byte input,
/// which runs the stripes and the merge rounds.
pub proof fn lemma_xxh64_reference_known_value()
    ensures
        xxh64_reference(seq![97u8, 98u8, 99u8, 100u8, 101u8, 102u8, 103u8, 104u8, 105u8, 106u8, 107u8, 108u8, 109u8, 110u8, 111u8, 112u8, 113u8, 114u8, 115u8, 116u8, 117u8, 118u8, 119u8, 120u8, 121u8, 122u8, 48u8, 49u8, 50u8, 51u8, 52u8, 53u8], 0) == 0xBF2CD639B4143B80u64,
{
    let d = seq![97u8, 98u8, 99u8, 100u8, 101u8, 102u8, 103u8, 104u8, 105u8, 106u8, 107u8, 108u8, 109u8, 110u8, 111u8, 112u8, 113u8, 114u8, 115u8, 116u8, 117u8, 118u8, 119u8, 120u8, 121u8, 122u8, 48u8, 49u8, 50u8, 51u8, 52u8, 53u8];
    lemma_known_accumulators(d);
    lemma_known_converge(d);
    assert(d.len() == 32);
    assert(consume_rest(d, 32, 0xa3fb16449c9d4a17u64) == 0xa3fb16449c9d4a17u64);
    assert(0xa3fb16449c9d4a17u64 ^ 0x51fd8b22u64 == 0xa3fb1644cd60c135u64) by (bit_vector);
    assert(0x386ae8f3451b465bu64 ^ 0x1c357479au64 == 0x386ae8f2864c01c1u64) by (bit_vector);
    assert(0xbf2cd6390b38edb9u64 ^ 0xbf2cd639u64 == 0xbf2cd639b4143b80u64) by (bit_vector);
    assert(final_mix(0xa3fb16449c9d4a17u64) == 0xbf2cd639b4143b80u64);
}

fn rotl_exec(x: u64, r: u64) -> (y: u64)
    requires
        0 < r < 64,
    ensures
        y == rotl(x, r),
{
    (x << r) | (x >> (64 - r))
}

fn round64_exec(acc: u64, input: u64) -> (r: u64)
    ensures
        r == round64(acc, input),
{
    rotl_exec(acc.wrapping_add(input.wrapping_mul(PRIME64_2)), 31).wrapping_mul(PRIME64_1)
}

fn merge_round_exec(acc: u64, val: u64) -> (r: u64)
    ensures
        r == merge_round(acc, val),
{
    (acc ^ round64_exec(0, val)).wrapping_mul(PRIME64_1).wrapping_add(PRIME64_4)
}

fn read_u64_le(d: &[u8], i: usize) -> (r: u64)
    requires
        i + 8 <= d@.len(),
    ensures
        r == le64(d@, i as int),
{
    let b0 = d[i] as u64;
    let b1 = d[i + 1] as u64;
    let b2 = d[i + 2] as u64;
    let b3 = d[i + 3] as u64;
    let b4 = d[i + 4] as u64;
    let b5 = d[i + 5] as u64;
    let b6 = d[i + 6] as u64;
    let b7 = d[i + 7] as u64;
    b0 + 256 * (b1 + 256 * (b2 + 256 * (b3 + 256 * (b4 + 256 * (b5 + 256 * (b6 + 256 * b7))))))
}

fn read_u32_le(d: &[u8], i: usize) -> (r: u64)
    requires
        i + 4 <= d@.len(),
    ensures
        r == le32(d@, i as int),
{
    let b0 = d[i] as u64;
    let b1 = d[i + 1] as u64;
    let b2 = d[i + 2] as u64;
    let b3 = d[i + 3] as u64;
    b0 + 256 * (b1 + 256 * (b2 + 256 * b3))
}

fn xxhash64(data: &[u8], seed: u64) -> (h: u64)
    ensures
        h == spec_xxh64(data@, seed),
{
    let len = data.len();
    let mut i: usize = 0;
    let mut h64: u64;
    if len >= 32 {
        let mut v1 = seed.wrapping_add(PRIME64_1).wrapping_add(PRIME64_2);
        let mut v2 = seed.wrapping_add(PRIME64_2);
        let mut v3 = seed;
        let mut v4 = seed.wrapping_sub(PRIME64_1);
        let ghost v0 = (v1, v2, v3, v4);
        while len - i >= 32
            invariant
                len == data@.len(),
                i <= len,
                stripes(data@, 0, v0) == stripes(data@, i as nat, (v1, v2, v3, v4)),
            decreases len - i,
        {
            v1 = round64_exec(v1, read_u64_le(data, i));
            v2 = round64_exec(v2, read_u64_le(data, i + 8));
            v3 = round64_exec(v3, read_u64_le(data, i + 16));
            v4 = round64_exec(v4, read_u64_le(data, i + 24));
            i += 32;
        }
        h64 = rotl_exec(v1, 1).wrapping_add(rotl_exec(v2, 7)).wrapping_add(rotl_exec(v3, 12)).wrapping_add(rotl_exec(v4, 18));
        h64 = merge_round_exec(h64, v1);
        h64 = merge_round_exec(h64, v2);
        h64 = merge_round_exec(h64, v3);
        h64 = merge_round_exec(h64, v4);
    } else {
        h64 = seed.wrapping_add(PRIME64_5);
    }
    h64 = h64.wrapping_add(len as u64);
    let ghost i0 = i;
    let ghost g0 = h64;
    while len - i >= 8
        invariant
            len == data@.len(),
            i <= len,
            words8(data@, i0 as nat, g0) == words8(data@, i as nat, h64),
        decreases len - i,
    {
        let k = round64_exec(0, read_u64_le(data, i));
        h64 = rotl_exec(h64 ^ k, 27).wrapping_mul(PRIME64_1).wrapping_add(PRIME64_4);
        i += 8;
    }
    if len - i >= 4 {
        let k = read_u32_le(data, i);
        h64 = rotl_exec(h64 ^ k.wrapping_mul(PRIME64_1), 23).wrapping_mul(PRIME64_2).wrapping_add(PRIME64_3);
        i += 4;
    }
    let ghost i3 = i;
    let ghost g3 = h64;
    while i < len
        invariant
            len == data@.len(),
            i <= len,
            bytes1(data@, i3 as nat, g3) == bytes1(data@, i as nat, h64),
        decreases len - i,
    {
        h64 = rotl_exec(h64 ^ (data[i] as u64).wrapping_mul(PRIME64_5), 11).wrapping_mul(PRIME64_1);
        i += 1;
    }
    h64 = h64 ^ (h64 >> 33);
    h64 = h64.wrapping_mul(PRIME64_2);
    h64 = h64 ^ (h64 >> 29);
    h64 = h64.wrapping_mul(PRIME64_3);
    h64 = h64 ^ (h64 >> 32);
    h64
}

/// The lower 32 bits of XXHash-64 of `data` with `seed`: the value zstd
/// stores as a frame's content checksum.
pub fn xxhash32(data: &[u8], seed: u64) -> (r: u32)
    ensures
        r == spec_xxh64(data@, seed) as u32,
        r == xxh64_reference(data@, seed) as u32,
{
    proof {
        lemma_xxh64_is_reference(data@, seed);
    }
    xxhash64(data, seed) as u32
}

} // verus!
