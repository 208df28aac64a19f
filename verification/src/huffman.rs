//! Huffman coding of literals.
//!
//! Each symbol has a "weight" w, and its code length is `max_bits - w + 1`
//! (weight 0 means the symbol is absent).  Codes are canonical: shorter
//! codes take the smaller values.
use vstd::prelude::*;
use vstd::arithmetic::power2::*;
use crate::error::{Result, ZstdError};
use crate::fse::{
    build_decode_table, byte_at, byte_bit, field_bits, lemma_byte_at_bit, read_distribution_table,
    sentinel_pos, spec_decode_table, spec_read_distribution, take_bits, take_bits_exec, BitReader,
    FseDecodeEntry,
};

pub mod kraft;
pub mod limit;
pub mod roundtrip;

use self::limit::{lemma_kraft_single, lemma_limit, lemma_room_bound, limit_lengths, limit_lengths_exec};
use self::roundtrip::kraft_sum;

verus! {

/// Maximum number of symbols in a Huffman tree (all byte values).
pub const MAX_SYMBOLS: usize = 256;
/// Maximum Huffman code length.
pub const MAX_CODE_LEN: u8 = 11;

/// A Huffman table: a code length and a canonical code for each symbol.
#[derive(Debug, Clone, Copy)]
pub struct HuffmanTable {
    /// Code length for each symbol (0 = absent).
    pub lengths: [u8; 256],
    /// Canonical code for each symbol.
    pub codes: [u16; 256],
    /// Maximum code length used.
    pub max_bits: u8,
}

impl HuffmanTable {
    /// Lengths within `1..=max_bits <= 11`, as every constructor builds them.
    pub open spec fn wf(&self) -> bool {
        &&& 1 <= self.max_bits <= MAX_CODE_LEN
        &&& forall|s: int| 0 <= s < 256 ==> #[trigger] self.lengths@[s] <= self.max_bits
    }
}

// ---------------------------------------------------------------------------
// Canonical codes
// ---------------------------------------------------------------------------

/// Number of symbols among the first `k` whose code length is `l`.
pub open spec fn count_len(lengths: Seq<u8>, k: int, l: nat) -> nat
    decreases k,
{
    if k <= 0 {
        0
    } else {
        count_len(lengths, k - 1, l) + if lengths[k - 1] == l { 1nat } else { 0nat }
    }
}

/// The first canonical code of length `bits` (2 <= bits), before the
/// codes of shorter lengths are known to fit.
pub open spec fn first_code(lengths: Seq<u8>, bits: nat) -> int
    decreases bits,
{
    if bits <= 1 {
        0
    } else {
        (first_code(lengths, (bits - 1) as nat) + count_len(lengths, 256, (bits - 1) as nat)) * 2
    }
}

/// The canonical code of symbol `s`: the first code of its length plus the
/// number of earlier symbols of the same length.
pub open spec fn canonical_code(lengths: Seq<u8>, s: int) -> int {
    first_code(lengths, lengths[s] as nat) + count_len(lengths, s, lengths[s] as nat)
}

/// Whether canonical code assignment fits in 16 bits: what
/// [`canonical_codes`] checks.
pub open spec fn canonical_fits(lengths: Seq<u8>, max_bits: nat) -> bool {
    &&& forall|b: nat| 2 <= b <= max_bits ==> #[trigger] first_code(lengths, b) <= 0xFFFF
    &&& forall|s: int| 0 <= s < 256 && lengths[s] > 0 ==> #[trigger] canonical_code(lengths, s) < 0xFFFF
}

/// What [`canonical_codes`] returns.
pub open spec fn spec_canonical_codes(lengths: Seq<u8>, max_bits: nat) -> Result<Seq<u16>> {
    if exists|s: int| 0 <= s < 256 && #[trigger] lengths[s] > max_bits {
        Err(ZstdError::HuffmanError("length exceeds max_bits"))
    } else if !canonical_fits(lengths, max_bits) {
        Err(ZstdError::HuffmanError("code space overflow"))
    } else {
        Ok(Seq::new(256, |s: int| if lengths[s] > 0 { canonical_code(lengths, s) as u16 } else { 0u16 }))
    }
}

proof fn lemma_count_len_bound(lengths: Seq<u8>, k: int, l: nat)
    requires
        0 <= k,
    ensures
        count_len(lengths, k, l) <= k,
    decreases k,
{
    if k > 0 {
        lemma_count_len_bound(lengths, k - 1, l);
    }
}

/// Assign canonical Huffman codes given code lengths.
fn canonical_codes(lengths: &[u8; 256], max_bits: u8) -> (r: Result<[u16; 256]>)
    requires
        1 <= max_bits <= MAX_CODE_LEN,
    ensures
        r matches Ok(c) ==> spec_canonical_codes(lengths@, max_bits as nat) == Ok::<Seq<u16>, ZstdError>(c@),
        r matches Err(e) ==> spec_canonical_codes(lengths@, max_bits as nat) == Err::<Seq<u16>, ZstdError>(e),
{
    let mb = max_bits as usize;
    // Count symbols per length.
    let mut bl_count: Vec<u32> = vec![0u32; mb + 1];
    let mut s: usize = 0;
    while s < 256
        invariant
            s <= 256,
            mb == max_bits,
            mb <= 11,
            bl_count@.len() == mb + 1,
            forall|j: int| 0 <= j < s ==> lengths@[j] <= max_bits,
            forall|l: int| 1 <= l <= mb ==> #[trigger] bl_count@[l] == count_len(lengths@, s as int, l as nat),
        decreases 256 - s,
    {
        let l = lengths[s];
        if l > 0 {
            if l > max_bits {
                return Err(ZstdError::HuffmanError("length exceeds max_bits"));
            }
            proof {
                lemma_count_len_bound(lengths@, s as int, l as nat);
            }
            bl_count.set(l as usize, bl_count[l as usize] + 1);
        }
        s += 1;
    }
    // First code of each length.
    let mut next_code: Vec<u32> = vec![0u32; mb + 2];
    let mut code: u32 = 0;
    let mut bits: usize = 2;
    while bits <= mb
        invariant
            2 <= bits <= mb + 1,
            mb == max_bits,
            mb <= 11,
            bl_count@.len() == mb + 1,
            next_code@.len() == mb + 2,
            next_code@[1] == 0,
            forall|l: int| 1 <= l <= mb ==> #[trigger] bl_count@[l] == count_len(lengths@, 256, l as nat),
            forall|j: int| 0 <= j < 256 ==> lengths@[j] <= max_bits,
            code == first_code(lengths@, (bits - 1) as nat),
            code <= 0xFFFF,
            forall|b: nat| 2 <= b < bits ==> #[trigger] first_code(lengths@, b) <= 0xFFFF,
            forall|b: int| 2 <= b < bits ==> next_code@[b] == first_code(lengths@, b as nat),
        decreases mb + 1 - bits,
    {
        proof {
            lemma_count_len_bound(lengths@, 256, (bits - 1) as nat);
        }
        let c = (code + bl_count[bits - 1]) * 2;
        if c > 0xFFFF {
            proof {
                assert(first_code(lengths@, bits as nat) > 0xFFFF);
                assert(!canonical_fits(lengths@, max_bits as nat));
            }
            return Err(ZstdError::HuffmanError("code space overflow"));
        }
        code = c;
        next_code.set(bits, code);
        bits += 1;
    }
    // Assign codes.
    let mut codes: [u16; 256] = [0u16; 256];
    proof {
        assert(first_code(lengths@, 1) == 0);
    }
    let mut s: usize = 0;
    while s < 256
        invariant
            s <= 256,
            mb == max_bits,
            mb <= 11,
            next_code@.len() == mb + 2,
            forall|j: int| 0 <= j < 256 ==> lengths@[j] <= max_bits,
            forall|b: nat| 2 <= b <= mb ==> #[trigger] first_code(lengths@, b) <= 0xFFFF,
            forall|l: int| 1 <= l <= mb ==> #[trigger] next_code@[l] == first_code(lengths@, l as nat) + count_len(lengths@, s as int, l as nat),
            forall|j: int| 0 <= j < s ==> #[trigger] codes@[j] == (if lengths@[j] > 0 { canonical_code(lengths@, j) as u16 } else { 0u16 }),
            forall|j: int| 0 <= j < s && lengths@[j] > 0 ==> #[trigger] canonical_code(lengths@, j) < 0xFFFF,
            forall|j: int| s <= j < 256 ==> codes@[j] == 0,
        decreases 256 - s,
    {
        let l = lengths[s] as usize;
        if l > 0 {
            let c = next_code[l];
            if c >= 0xFFFF {
                proof {
                    assert(canonical_code(lengths@, s as int) == c);
                    assert(!canonical_fits(lengths@, max_bits as nat));
                }
                return Err(ZstdError::HuffmanError("code space overflow"));
            }
            codes[s] = c as u16;
            next_code.set(l, c + 1);
        }
        s += 1;
    }
    proof {
        assert(codes@ =~= Seq::new(256, |s: int| if lengths@[s] > 0 { canonical_code(lengths@, s) as u16 } else { 0u16 }));
    }
    Ok(codes)
}


// ---------------------------------------------------------------------------
// Weights
// ---------------------------------------------------------------------------

/// Sum of `2^(w - 1)` over the nonzero weights among the first `k`.
pub open spec fn weight_sum(w: Seq<u8>, k: int) -> nat
    decreases k,
{
    if k <= 0 {
        0
    } else {
        weight_sum(w, k - 1) + if w[k - 1] > 0 { pow2((w[k - 1] - 1) as nat) } else { 0nat }
    }
}

/// The smallest `k` with `2^k >= x`.
pub open spec fn ceil_log2(x: nat) -> nat
    decreases x,
{
    if x <= 1 {
        0
    } else {
        1 + ceil_log2((x + 1) / 2)
    }
}

/// Code lengths from weights at a given maximum length.
pub open spec fn lengths_from_weights(w: Seq<u8>, mb: nat) -> Seq<u8> {
    Seq::new(256, |s: int| if s < w.len() && w[s] > 0 { (mb - w[s] + 1) as u8 } else { 0u8 })
}

/// What [`HuffmanTable::from_weights`] builds, as (lengths, codes, max_bits).
pub open spec fn spec_from_weights(w: Seq<u8>) -> Result<(Seq<u8>, Seq<u16>, u8)> {
    if w.len() > 256 {
        Err(ZstdError::HuffmanError("too many symbols"))
    } else if (exists|i: int| 0 <= i < w.len() && #[trigger] w[i] > 32) || weight_sum(w, w.len() as int) > 0xFFFF_FFFF {
        Err(ZstdError::HuffmanError("weight sum overflow"))
    } else if weight_sum(w, w.len() as int) == 0 {
        Err(ZstdError::HuffmanError("all weights are zero"))
    } else {
        let mb = ceil_log2(weight_sum(w, w.len() as int));
        if mb == 0 || mb > 11 {
            Err(ZstdError::HuffmanError("max_bits out of range"))
        } else if exists|i: int| 0 <= i < w.len() && #[trigger] w[i] > mb {
            Err(ZstdError::HuffmanError("weight exceeds max_bits"))
        } else {
            match spec_canonical_codes(lengths_from_weights(w, mb), mb) {
                Err(e) => Err(e),
                Ok(codes) => Ok((lengths_from_weights(w, mb), codes, mb as u8)),
            }
        }
    }
}

/// The weights of a table: `max_bits - length + 1` for present symbols,
/// with trailing zeros removed.
pub open spec fn spec_to_weights(lengths: Seq<u8>, mb: u8) -> Seq<u8> {
    trim_zeros(Seq::new(256, |s: int| if lengths[s] > 0 { (mb - lengths[s] + 1) as u8 } else { 0u8 }))
}

pub open spec fn trim_zeros(s: Seq<u8>) -> Seq<u8>
    decreases s.len(),
{
    if s.len() > 0 && s.last() == 0 {
        trim_zeros(s.drop_last())
    } else {
        s
    }
}

/// Trailing zeros added to weights are trimmed again.
proof fn lemma_trim_padding(w: Seq<u8>, k: nat)
    ensures
        trim_zeros(w + Seq::new(k, |i: int| 0u8)) == trim_zeros(w),
    decreases k,
{
    let padded = w + Seq::new(k, |i: int| 0u8);
    if k == 0 {
        assert(padded =~= w);
    } else {
        assert(padded.last() == 0);
        assert(padded.drop_last() =~= w + Seq::new((k - 1) as nat, |i: int| 0u8));
        lemma_trim_padding(w, (k - 1) as nat);
    }
}

/// Law: the weights of a table built from weights are those weights,
/// without their trailing zeros.
pub proof fn lemma_weights_roundtrip(w: Seq<u8>)
    ensures
        spec_from_weights(w) matches Ok((l, c, mb)) ==> spec_to_weights(l, mb) == trim_zeros(w),
{
    if let Ok((l, c, mb)) = spec_from_weights(w) {
        let full = Seq::new(256, |s: int| if l[s] > 0 { (mb - l[s] + 1) as u8 } else { 0u8 });
        let padded = w + Seq::new((256 - w.len()) as nat, |i: int| 0u8);
        assert forall|s: int| 0 <= s < 256 implies full[s] == padded[s] by {
            if s < w.len() && w[s] > 0 {
                assert(w[s] <= mb);
            }
        }
        assert(full =~= padded);
        lemma_trim_padding(w, (256 - w.len()) as nat);
    }
}

fn ceil_log2_exec(x: u64) -> (r: u8)
    requires
        1 <= x <= 0xFFFF_FFFF,
    ensures
        r == ceil_log2(x as nat),
        r <= 32,
{
    proof {
        lemma2_to64();
        lemma_ceil_log2_bound(x as nat, 32);
    }
    let mut v = x;
    let mut r: u8 = 0;
    while v > 1
        invariant
            1 <= v <= 0xFFFF_FFFF,
            ceil_log2(x as nat) == r + ceil_log2(v as nat),
            r + ceil_log2(v as nat) <= 32,
        decreases v,
    {
        v = (v + 1) / 2;
        r += 1;
    }
    r
}

proof fn lemma_ceil_log2_bound(x: nat, k: nat)
    requires
        1 <= x <= pow2(k),
    ensures
        ceil_log2(x) <= k,
    decreases k,
{
    if x > 1 {
        if k == 0 {
            lemma2_to64();
        } else {
            lemma_pow2_unfold(k);
            lemma_ceil_log2_bound((x + 1) / 2, (k - 1) as nat);
        }
    }
}

impl HuffmanTable {
    /// Build a Huffman table from symbol weights.
    ///
    /// `weights[i]` is the weight of symbol `i`; weight 0 means the symbol
    /// is unused.  All weights are stored, the last one included.
    pub fn from_weights(weights: &[u8]) -> (r: Result<Self>)
        ensures
            r matches Ok(t) ==> spec_from_weights(weights@) == Ok::<(Seq<u8>, Seq<u16>, u8), ZstdError>((t.lengths@, t.codes@, t.max_bits)) && t.wf(),
            r matches Err(e) ==> spec_from_weights(weights@) == Err::<(Seq<u8>, Seq<u16>, u8), ZstdError>(e),
    {
        if weights.len() > MAX_SYMBOLS {
            return Err(ZstdError::HuffmanError("too many symbols"));
        }
        let mut sum: u64 = 0;
        let mut i: usize = 0;
        while i < weights.len()
            invariant
                i <= weights@.len(),
                weights@.len() <= 256,
                forall|j: int| 0 <= j < i ==> weights@[j] <= 32,
                sum == weight_sum(weights@, i as int),
                sum <= i * 0x8000_0000,
            decreases weights@.len() - i,
        {
            let w = weights[i];
            if w > 32 {
                return Err(ZstdError::HuffmanError("weight sum overflow"));
            }
            if w > 0 {
                proof {
                    lemma2_to64();
                    if w - 1 < 31 {
                        lemma_pow2_strictly_increases((w - 1) as nat, 31);
                    }
                    vstd::bits::lemma_u64_shl_is_mul(1, (w - 1) as u64);
                }
                sum = sum + (1u64 << (w - 1));
            }
            i += 1;
        }
        if sum > 0xFFFF_FFFF {
            return Err(ZstdError::HuffmanError("weight sum overflow"));
        }
        if sum == 0 {
            return Err(ZstdError::HuffmanError("all weights are zero"));
        }
        let max_bits = ceil_log2_exec(sum);
        if max_bits == 0 || max_bits > MAX_CODE_LEN {
            return Err(ZstdError::HuffmanError("max_bits out of range"));
        }
        let mut lengths: [u8; 256] = [0u8; 256];
        let mut i: usize = 0;
        while i < weights.len()
            invariant
                i <= weights@.len(),
                weights@.len() <= 256,
                1 <= max_bits <= 11,
                forall|j: int| 0 <= j < weights@.len() ==> weights@[j] <= 32,
                sum == weight_sum(weights@, weights@.len() as int),
                1 <= sum <= 0xFFFF_FFFF,
                max_bits == ceil_log2(sum as nat),
                forall|j: int| 0 <= j < i ==> weights@[j] <= max_bits,
                forall|j: int| 0 <= j < i ==> #[trigger] lengths@[j] == lengths_from_weights(weights@, max_bits as nat)[j],
                forall|j: int| i <= j < 256 ==> lengths@[j] == 0,
            decreases weights@.len() - i,
        {
            let w = weights[i];
            if w > max_bits {
                proof {
                    assert(weights@[i as int] > max_bits);
                }
                return Err(ZstdError::HuffmanError("weight exceeds max_bits"));
            }
            if w > 0 {
                lengths[i] = max_bits - w + 1;
            }
            i += 1;
        }
        proof {
            assert(lengths@ =~= lengths_from_weights(weights@, max_bits as nat));
        }
        let codes = canonical_codes(&lengths, max_bits)?;
        Ok(HuffmanTable { lengths, codes, max_bits })
    }

    /// Compute symbol weights from this table's lengths (inverse of `from_weights`).
    pub fn to_weights(&self) -> (w: Vec<u8>)
        requires
            self.wf(),
        ensures
            w@ == spec_to_weights(self.lengths@, self.max_bits),
    {
        let mut weights: Vec<u8> = Vec::new();
        let mut s: usize = 0;
        while s < MAX_SYMBOLS
            invariant
                s <= 256,
                self.wf(),
                weights@ == Seq::new(s as nat, |j: int| if self.lengths@[j] > 0 { (self.max_bits - self.lengths@[j] + 1) as u8 } else { 0u8 }),
            decreases 256 - s,
        {
            let len = self.lengths[s];
            let w = if len > 0 { self.max_bits - len + 1 } else { 0 };
            weights.push(w);
            s += 1;
            proof {
                assert(weights@ =~= Seq::new(s as nat, |j: int| if self.lengths@[j] > 0 { (self.max_bits - self.lengths@[j] + 1) as u8 } else { 0u8 }));
            }
        }
        let ghost full = weights@;
        while weights.len() > 0 && weights[weights.len() - 1] == 0
            invariant
                trim_zeros(full) == trim_zeros(weights@),
            decreases weights@.len(),
        {
            weights.pop();
        }
        weights
    }
}


// ---------------------------------------------------------------------------
// Forward (most significant bit first) bit strings
// ---------------------------------------------------------------------------

/// Bit `k` of `data` read most significant bit first; zero past the end.
pub open spec fn fwd_bit(data: Seq<u8>, k: int) -> bool {
    if 0 <= k < 8 * data.len() {
        byte_bit(data[k / 8], 7 - k % 8)
    } else {
        false
    }
}

/// The bytes holding `bits` most significant bit first, the last byte
/// padded with zero bits.
pub open spec fn pack_forward(bits: Seq<bool>) -> Seq<u8> {
    let m = (bits.len() + 7) / 8;
    let padded = Seq::new((8 * m) as nat, |j: int| if j < bits.len() { bits[j] } else { false });
    Seq::new(m as nat, |i: int| byte_at(padded, 8 * i))
}

/// Law: the bits of `pack_forward(bits)` are `bits`, then zeros.
pub proof fn lemma_pack_forward_bits(bits: Seq<bool>, k: int)
    requires
        0 <= k,
    ensures
        fwd_bit(pack_forward(bits), k) == (k < bits.len() && bits[k]),
{
    let m = (bits.len() + 7) / 8;
    let padded = Seq::new((8 * m) as nat, |j: int| if j < bits.len() { bits[j] } else { false });
    if k < 8 * m {
        assert(k == 8 * (k / 8) + k % 8);
        lemma_byte_at_bit(padded, 8 * (k / 8), 7 - k % 8);
    }
}

fn pack_forward_exec(bits: &Vec<bool>) -> (out: Vec<u8>)
    requires
        bits@.len() + 8 <= usize::MAX,
    ensures
        out@ == pack_forward(bits@),
{
    let n = bits.len();
    let m = (n + 7) / 8;
    let ghost padded = Seq::new((8 * m) as nat, |j: int| if j < n { bits@[j] } else { false });
    let mut out: Vec<u8> = Vec::with_capacity(m);
    let mut i: usize = 0;
    while i < m
        invariant
            n == bits@.len(),
            m == (n + 7) / 8,
            padded == Seq::new((8 * m) as nat, |j: int| if j < n { bits@[j] } else { false }),
            i <= m,
            out@.len() == i,
            forall|k: int| 0 <= k < i ==> out@[k] == byte_at(padded, 8 * k),
        decreases m - i,
    {
        let off = 8 * i;
        let b = crate::fse::pack8_exec(
            off < n && bits[off],
            off + 1 < n && bits[off + 1],
            off + 2 < n && bits[off + 2],
            off + 3 < n && bits[off + 3],
            off + 4 < n && bits[off + 4],
            off + 5 < n && bits[off + 5],
            off + 6 < n && bits[off + 6],
            off + 7 < n && bits[off + 7],
        );
        out.push(b);
        i += 1;
    }
    proof {
        assert(out@ =~= pack_forward(bits@));
    }
    out
}

/// Append the `n` low bits of `val`, most significant first.
fn push_bits(bits: &mut Vec<bool>, val: u64, n: u32)
    requires
        n <= 64,
    ensures
        final(bits)@ == old(bits)@ + field_bits(val, n as nat),
{
    let ghost start = bits@;
    let mut i: u32 = 0;
    while i < n
        invariant
            i <= n,
            n <= 64,
            bits@ == start + field_bits(val, n as nat).take(i as int),
        decreases n - i,
    {
        let b = (val >> ((n - 1 - i) as u64)) & 1u64 == 1u64;
        bits.push(b);
        i += 1;
        proof {
            assert(field_bits(val, n as nat).take(i as int) == field_bits(val, n as nat).take(i - 1).push(b));
        }
    }
    proof {
        assert(field_bits(val, n as nat).take(n as int) == field_bits(val, n as nat));
    }
}

// ---------------------------------------------------------------------------
// Encoding and decoding
// ---------------------------------------------------------------------------

/// The code bits of `data`, symbol after symbol.
pub open spec fn code_bits(lengths: Seq<u8>, codes: Seq<u16>, data: Seq<u8>) -> Result<Seq<bool>>
    decreases data.len(),
{
    if data.len() == 0 {
        Ok(Seq::empty())
    } else {
        match code_bits(lengths, codes, data.drop_last()) {
            Err(e) => Err(e),
            Ok(b) => {
                let sym = data.last();
                let len = lengths[sym as int];
                if len == 0 {
                    Err(ZstdError::HuffmanError("symbol not in table"))
                } else if codes[sym as int] >= pow2(len as nat) {
                    Err(ZstdError::HuffmanError("code does not fit its length"))
                } else {
                    Ok(b + field_bits(codes[sym as int] as u64, len as nat))
                }
            },
        }
    }
}

/// Whether every present symbol's code fits in its length.
pub open spec fn codes_fit(lengths: Seq<u8>, codes: Seq<u16>) -> bool {
    forall|s: int| 0 <= s < 256 && lengths[s] > 0 ==> #[trigger] codes[s] < pow2(lengths[s] as nat)
}

/// Whether `idx`, a `mb`-bit window, starts with the code of symbol `s`.
pub open spec fn code_prefixes(lengths: Seq<u8>, codes: Seq<u16>, mb: nat, s: int, idx: nat) -> bool {
    lengths[s] > 0 && idx / pow2((mb - lengths[s]) as nat) == codes[s]
}

/// The (symbol, length) a window `idx` decodes to among the symbols below
/// `s`: the highest whose code starts it, or (0, 0) when there is none.
pub open spec fn lookup_upto(lengths: Seq<u8>, codes: Seq<u16>, mb: nat, s: int, idx: nat) -> (u8, u8)
    decreases s,
{
    if s <= 0 {
        (0, 0)
    } else if code_prefixes(lengths, codes, mb, s - 1, idx) {
        ((s - 1) as u8, lengths[s - 1])
    } else {
        lookup_upto(lengths, codes, mb, s - 1, idx)
    }
}

/// The `n` bits of `data` from position `c` on, most significant first,
/// zeros past the end.
pub open spec fn fwd_peek(data: Seq<u8>, c: nat, n: nat) -> nat
    decreases n,
{
    if n == 0 {
        0
    } else {
        2 * fwd_peek(data, c, (n - 1) as nat) + if fwd_bit(data, c + n - 1) { 1nat } else { 0nat }
    }
}

/// Symbols decoded from bit position `c` on until `bit_count` bits are
/// used or `max` symbols are out.
pub open spec fn huff_loop(lengths: Seq<u8>, codes: Seq<u16>, mb: nat, data: Seq<u8>, bit_count: nat, max: nat, c: nat, out: Seq<u8>) -> Result<Seq<u8>>
    decreases max - out.len(),
{
    if c >= bit_count || out.len() >= max {
        Ok(out)
    } else {
        let (sym, len) = lookup_upto(lengths, codes, mb, 256, fwd_peek(data, c, mb));
        if len == 0 {
            Err(ZstdError::HuffmanError("invalid code during decode"))
        } else {
            huff_loop(lengths, codes, mb, data, bit_count, max, (c + len) as nat, out.push(sym))
        }
    }
}

/// What [`HuffmanTable::decode`] returns.
pub open spec fn spec_huff_decode(lengths: Seq<u8>, codes: Seq<u16>, mb: nat, data: Seq<u8>, bit_count: nat, max: nat) -> Result<Seq<u8>> {
    if !codes_fit(lengths, codes) {
        Err(ZstdError::HuffmanError("code does not fit its length"))
    } else {
        huff_loop(lengths, codes, mb, data, bit_count, max, 0, Seq::empty())
    }
}

proof fn lemma_div_window(idx: nat, c: nat, d: nat)
    requires
        d > 0,
    ensures
        (c * d <= idx < c * d + d) <==> idx / d == c,
{
    vstd::arithmetic::div_mod::lemma_fundamental_div_mod(idx as int, d as int);
    let q = idx / d;
    let r = idx % d;
    if c * d <= idx < c * d + d {
        if q < c {
            assert(q * d + d <= c * d) by (nonlinear_arith) requires q < c, d > 0;
            assert(idx == d * q + r);
            assert(d * q == q * d) by (nonlinear_arith);
        }
        if q > c {
            assert(c * d + d <= q * d) by (nonlinear_arith) requires q > c, d > 0;
            assert(idx == d * q + r);
            assert(d * q == q * d) by (nonlinear_arith);
        }
    }
    if q == c {
        assert(idx == d * q + r);
        assert(d * q == c * d) by (nonlinear_arith) requires q == c;
    }
}

fn fwd_bit_exec(data: &[u8], k: usize) -> (b: bool)
    ensures
        b == fwd_bit(data@, k as int),
{
    if k / 8 < data.len() {
        (data[k / 8] >> ((7 - k % 8) as u8)) & 1u8 == 1u8
    } else {
        false
    }
}

impl HuffmanTable {
    /// Encode `data` with this table, codes written most significant bit
    /// first and the last byte padded with zero bits.
    pub fn encode(&self, data: &[u8]) -> (r: Result<Vec<u8>>)
        requires
            self.wf(),
            data@.len() * 16 + 8 <= usize::MAX,
        ensures
            r matches Ok(out) ==> code_bits(self.lengths@, self.codes@, data@) matches Ok(b) && out@ == pack_forward(b),
            r matches Err(e) ==> code_bits(self.lengths@, self.codes@, data@) == Err::<Seq<bool>, ZstdError>(e),
    {
        let mut bits: Vec<bool> = Vec::new();
        let mut i: usize = 0;
        while i < data.len()
            invariant
                i <= data@.len(),
                data@.len() * 16 + 8 <= usize::MAX,
                self.wf(),
                bits@.len() <= 16 * i,
                code_bits(self.lengths@, self.codes@, data@.take(i as int)) == Ok::<Seq<bool>, ZstdError>(bits@),
            decreases data@.len() - i,
        {
            let sym = data[i];
            let len = self.lengths[sym as usize];
            proof {
                assert(data@.take(i + 1).drop_last() == data@.take(i as int));
            }
            if len == 0 {
                proof {
                    lemma_code_bits_err_extends(self.lengths@, self.codes@, data@, (i + 1) as int);
                }
                return Err(ZstdError::HuffmanError("symbol not in table"));
            }
            let code = self.codes[sym as usize];
            proof {
                assert(self.lengths@[sym as int] <= self.max_bits);
                lemma2_to64();
                vstd::bits::lemma_u32_shl_is_mul(1, len as u32);
            }
            if (code as u32) >= (1u32 << len) {
                proof {
                    lemma_code_bits_err_extends(self.lengths@, self.codes@, data@, (i + 1) as int);
                }
                return Err(ZstdError::HuffmanError("code does not fit its length"));
            }
            push_bits(&mut bits, code as u64, len as u32);
            i += 1;
        }
        proof {
            assert(data@.take(data@.len() as int) == data@);
        }
        Ok(pack_forward_exec(&bits))
    }
}


spec fn table_entry(syms: Seq<u8>, lens: Seq<u8>, idx: int) -> (u8, u8) {
    (syms[idx], lens[idx])
}

proof fn lemma_fwd_peek_bound(data: Seq<u8>, c: nat, n: nat)
    ensures
        fwd_peek(data, c, n) < pow2(n),
    decreases n,
{
    if n == 0 {
        lemma2_to64();
    } else {
        lemma_fwd_peek_bound(data, c, (n - 1) as nat);
        lemma_pow2_unfold(n);
    }
}

fn fwd_peek_exec(data: &[u8], c: usize, n: u8) -> (v: usize)
    requires
        n <= 11,
        c + 16 <= usize::MAX,
    ensures
        v == fwd_peek(data@, c as nat, n as nat),
        v < pow2(n as nat),
{
    let mut v: usize = 0;
    let mut j: u8 = 0;
    while j < n
        invariant
            j <= n,
            n <= 11,
            c + 16 <= usize::MAX,
            v == fwd_peek(data@, c as nat, j as nat),
        decreases n - j,
    {
        proof {
            lemma_fwd_peek_bound(data@, c as nat, j as nat);
            lemma2_to64();
            lemma_pow2_strictly_increases(j as nat, 11);
        }
        let b = fwd_bit_exec(data, c + j as usize);
        v = 2 * v + if b { 1 } else { 0 };
        j += 1;
    }
    proof {
        lemma_fwd_peek_bound(data@, c as nat, n as nat);
    }
    v
}

impl HuffmanTable {
    /// Decode symbols from `data`, codes read most significant bit first
    /// (zero bits past the end), until `bit_count` bits are used or
    /// `max_symbols` symbols are out.
    pub fn decode(&self, data: &[u8], bit_count: usize, max_symbols: usize) -> (r: Result<Vec<u8>>)
        requires
            self.wf(),
            bit_count + 16 <= usize::MAX,
        ensures
            r matches Ok(v) ==> spec_huff_decode(self.lengths@, self.codes@, self.max_bits as nat, data@, bit_count as nat, max_symbols as nat) == Ok::<Seq<u8>, ZstdError>(v@),
            r matches Err(e) ==> spec_huff_decode(self.lengths@, self.codes@, self.max_bits as nat, data@, bit_count as nat, max_symbols as nat) == Err::<Seq<u8>, ZstdError>(e),
    {
        let mb = self.max_bits;
        let ghost lengths = self.lengths@;
        let ghost codes = self.codes@;
        proof {
            lemma2_to64();
            lemma_pow2_strictly_increases(mb as nat, 12);
            vstd::bits::lemma_u64_shl_is_mul(1, mb as u64);
        }
        let table_size: usize = 1usize << mb;
        assert(table_size == pow2(mb as nat)) by {
            vstd::bits::lemma_usize_shl_is_mul(1, mb as usize);
        }
        let mut table_sym: Vec<u8> = vec![0u8; table_size];
        let mut table_len: Vec<u8> = vec![0u8; table_size];
        proof {
            assert forall|idx: int| 0 <= idx < table_size implies #[trigger] table_entry(table_sym@, table_len@, idx) == lookup_upto(lengths, codes, mb as nat, 0, idx as nat) by {}
        }
        let mut s: usize = 0;
        while s < MAX_SYMBOLS
            invariant
                s <= 256,
                self.wf(),
                mb == self.max_bits,
                lengths == self.lengths@,
                codes == self.codes@,
                table_size == pow2(mb as nat),
                table_size <= 2048,
                table_sym@.len() == table_size,
                table_len@.len() == table_size,
                forall|j: int| 0 <= j < s && lengths[j] > 0 ==> #[trigger] codes[j] < pow2(lengths[j] as nat),
                forall|idx: int| 0 <= idx < table_size ==> #[trigger] table_entry(table_sym@, table_len@, idx) == lookup_upto(lengths, codes, mb as nat, s as int, idx as nat),
            decreases 256 - s,
        {
            let len = self.lengths[s];
            if len > 0 {
                let code = self.codes[s] as usize;
                let shift = mb - len;
                proof {
                    lemma2_to64();
                    assert(lengths[s as int] <= mb);
                    lemma_pow2_strictly_increases(len as nat, 12);
                    lemma_pow2_strictly_increases(shift as nat, 12);
                    vstd::bits::lemma_usize_shl_is_mul(1, len as usize);
                    vstd::bits::lemma_usize_shl_is_mul(1, shift as usize);
                }
                if code >= (1usize << len) {
                    proof {
                        assert(!codes_fit(lengths, codes));
                    }
                    return Err(ZstdError::HuffmanError("code does not fit its length"));
                }
                let fill: usize = 1usize << shift;
                proof {
                    vstd::arithmetic::power2::lemma_pow2_adds(len as nat, shift as nat);
                    assert(code * fill + fill <= table_size) by (nonlinear_arith)
                        requires code < pow2(len as nat), fill == pow2(shift as nat), table_size == pow2(len as nat) * pow2(shift as nat);
                }
                let base = code * fill;
                let mut i: usize = 0;
                while i < fill
                    invariant
                        i <= fill,
                        fill == pow2(shift as nat),
                        fill > 0,
                        base == code * fill,
                        base + fill <= table_size,
                        table_sym@.len() == table_size,
                table_len@.len() == table_size,
                        0 <= s < 256,
                        lengths == self.lengths@,
                        len == lengths[s as int],
                        len > 0,
                        shift == mb - len,
                        forall|idx: int| 0 <= idx < table_size ==> #[trigger] table_entry(table_sym@, table_len@, idx) == (if base <= idx < base + i { (s as u8, len) } else { lookup_upto(lengths, codes, mb as nat, s as int, idx as nat) }),
                    decreases fill - i,
                {
                    let ghost old_sym = table_sym@;
                    let ghost old_len = table_len@;
                    table_sym.set(base + i, s as u8);
                    table_len.set(base + i, len);
                    proof {
                        assert forall|idx: int| 0 <= idx < table_size implies #[trigger] table_entry(table_sym@, table_len@, idx) == (if base <= idx < base + i + 1 { (s as u8, len) } else { lookup_upto(lengths, codes, mb as nat, s as int, idx as nat) }) by {
                            if idx != base + i {
                                assert(table_entry(old_sym, old_len, idx) == table_entry(table_sym@, table_len@, idx));
                            }
                        }
                    }
                    i += 1;
                }
                proof {
                    assert forall|idx: int| 0 <= idx < table_size implies #[trigger] table_entry(table_sym@, table_len@, idx) == lookup_upto(lengths, codes, mb as nat, (s + 1) as int, idx as nat) by {
                        lemma_div_window(idx as nat, code as nat, fill as nat);
                    }
                }
            } else {
                proof {
                    assert forall|idx: int| 0 <= idx < table_size implies #[trigger] table_entry(table_sym@, table_len@, idx) == lookup_upto(lengths, codes, mb as nat, (s + 1) as int, idx as nat) by {}
                }
            }
            s += 1;
        }
        assert(codes_fit(lengths, codes));
        let mut out: Vec<u8> = Vec::new();
        let mut c: usize = 0;
        while c < bit_count && out.len() < max_symbols
            invariant
                self.wf(),
                mb == self.max_bits,
                lengths == self.lengths@,
                codes == self.codes@,
                table_size == pow2(mb as nat),
                table_sym@.len() == table_size,
                table_len@.len() == table_size,
                codes_fit(lengths, codes),
                bit_count + 16 <= usize::MAX,
                c <= bit_count + 11,
                out@.len() <= max_symbols,
                forall|idx: int| 0 <= idx < table_size ==> #[trigger] table_entry(table_sym@, table_len@, idx) == lookup_upto(lengths, codes, mb as nat, 256, idx as nat),
                huff_loop(lengths, codes, mb as nat, data@, bit_count as nat, max_symbols as nat, 0, Seq::empty())
                    == huff_loop(lengths, codes, mb as nat, data@, bit_count as nat, max_symbols as nat, c as nat, out@),
            decreases max_symbols - out@.len(),
        {
            let idx = fwd_peek_exec(data, c, mb);
            let sym = table_sym[idx];
            let len = table_len[idx];
            proof {
                assert(table_entry(table_sym@, table_len@, idx as int) == lookup_upto(lengths, codes, mb as nat, 256, idx as nat));
            }
            if len == 0 {
                return Err(ZstdError::HuffmanError("invalid code during decode"));
            }
            proof {
                lemma_lookup_upto_len(lengths, codes, mb as nat, 256, idx as nat);
            }
            c = c + len as usize;
            out.push(sym);
        }
        Ok(out)
    }
}

proof fn lemma_lookup_upto_len(lengths: Seq<u8>, codes: Seq<u16>, mb: nat, s: int, idx: nat)
    requires
        s <= 256,
        forall|j: int| 0 <= j < 256 ==> #[trigger] lengths[j] <= 11,
    ensures
        lookup_upto(lengths, codes, mb, s, idx).1 <= 11,
    decreases s,
{
    if s > 0 {
        lemma_lookup_upto_len(lengths, codes, mb, s - 1, idx);
    }
}

proof fn lemma_code_bits_err_extends(lengths: Seq<u8>, codes: Seq<u16>, data: Seq<u8>, k: int)
    requires
        0 <= k <= data.len(),
        code_bits(lengths, codes, data.take(k)) is Err,
    ensures
        code_bits(lengths, codes, data) == code_bits(lengths, codes, data.take(k)),
    decreases data.len() - k,
{
    if k < data.len() {
        assert(data.take(k + 1).drop_last() == data.take(k));
        lemma_code_bits_err_extends(lengths, codes, data, k + 1);
    } else {
        assert(data.take(k) == data);
    }
}


// ---------------------------------------------------------------------------
// Table headers
// ---------------------------------------------------------------------------

/// The weights an FSE-coded weight stream yields once its initial state is
/// read: from bit position `p` and state `state` on, collected in `w`.
pub open spec fn weights_loop(data: Seq<u8>, t: Seq<FseDecodeEntry>, ts: nat, p: nat, state: nat, w: Seq<u8>) -> Result<Seq<u8>>
    decreases 256 - w.len(),
{
    if state >= t.len() {
        Err(ZstdError::CorruptData("state outside the table"))
    } else if p == 0 {
        Ok(w.push(t[state as int].symbol))
    } else if w.len() >= 256 {
        Err(ZstdError::HuffmanError("too many symbols"))
    } else {
        let e = t[state as int];
        match take_bits(data, p, e.num_bits as nat) {
            None => Err(ZstdError::CorruptData("bitstream exhausted")),
            Some((v, p2)) => {
                let st = e.base_line + v;
                if st >= ts {
                    Err(ZstdError::CorruptData("state outside the table"))
                } else {
                    weights_loop(data, t, ts, p2, st as nat, w.push(e.symbol))
                }
            },
        }
    }
}

/// The Huffman weights an FSE-compressed weight description holds.
pub open spec fn spec_fse_weights(data: Seq<u8>) -> Result<Seq<u8>> {
    match spec_read_distribution(data) {
        Err(e) => Err(e),
        Ok((norm, log, used)) => match spec_decode_table(norm, log) {
            Err(e) => Err(e),
            Ok(t) => {
                let bs = data.subrange(used as int, data.len() as int);
                if bs.len() == 0 {
                    Ok(Seq::empty())
                } else {
                    match take_bits(bs, sentinel_pos(bs), log as nat) {
                        None => Err(ZstdError::CorruptData("bitstream exhausted")),
                        Some((st, p)) => weights_loop(bs, t, pow2(log as nat), p, st, Seq::empty()),
                    }
                }
            },
        },
    }
}

/// Decode FSE-encoded Huffman weights.
fn decode_fse_weights(data: &[u8]) -> (r: Result<Vec<u8>>)
    requires
        data@.len() <= 128,
    ensures
        r matches Ok(w) ==> spec_fse_weights(data@) == Ok::<Seq<u8>, ZstdError>(w@),
        r matches Err(e) ==> spec_fse_weights(data@) == Err::<Seq<u8>, ZstdError>(e),
{
    let (norm, accuracy_log, consumed) = read_distribution_table(data)?;
    let decode_table = build_decode_table(&norm, accuracy_log)?;
    let table = &decode_table.table;
    let bitstream = &data[consumed..data.len()];
    let ghost bs = data@.subrange(consumed as int, data@.len() as int);
    assert(bitstream@ == bs);
    if bitstream.len() == 0 {
        return Ok(Vec::new());
    }
    let mut reader = BitReader::new(bitstream);
    proof {
        lemma2_to64();
        lemma_pow2_strictly_increases(accuracy_log as nat, 13);
        vstd::bits::lemma_usize_shl_is_mul(1, accuracy_log as usize);
    }
    let table_size: usize = 1usize << accuracy_log;
    let first = take_bits_exec(&mut reader, accuracy_log);
    let mut state: usize = match first {
        None => {
            return Err(ZstdError::CorruptData("bitstream exhausted"));
        },
        Some(v) => v,
    };
    let mut weights: Vec<u8> = Vec::new();
    loop
        invariant
            reader.bytes() == bs,
            table@.len() == table_size,
            table_size == pow2(accuracy_log as nat),
            table_size <= 4096,
            crate::fse::table_reads_fit(table@),
            spec_fse_weights(data@) == weights_loop(bs, table@, table_size as nat, reader.remaining(), state as nat, weights@),
        decreases 256 - weights@.len(),
    {
        if state >= table.len() {
            return Err(ZstdError::CorruptData("state outside the table"));
        }
        let entry = table[state];
        if reader.is_empty() {
            weights.push(entry.symbol);
            return Ok(weights);
        }
        if weights.len() >= 256 {
            return Err(ZstdError::HuffmanError("too many symbols"));
        }
        let extra = match take_bits_exec(&mut reader, entry.num_bits) {
            None => {
                return Err(ZstdError::CorruptData("bitstream exhausted"));
            },
            Some(v) => v,
        };
        proof {
            assert(entry.num_bits <= 12);
            lemma2_to64();
            lemma_pow2_strictly_increases(entry.num_bits as nat, 13);
        }
        let st = entry.base_line as usize + extra;
        if st >= table_size {
            return Err(ZstdError::CorruptData("state outside the table"));
        }
        weights.push(entry.symbol);
        state = st;
    }
}

/// The weights of a direct header: `n` nibbles after the header byte, the
/// low nibble of each byte first.
pub open spec fn direct_weights(data: Seq<u8>, n: nat) -> Seq<u8> {
    Seq::new(n, |i: int| if i % 2 == 0 { data[1 + i / 2] % 16 } else { data[1 + i / 2] / 16 })
}

/// What [`read_huffman_header`] returns: the table, as (lengths, codes,
/// max_bits), and the bytes consumed.
pub open spec fn spec_read_huffman_header(data: Seq<u8>) -> Result<((Seq<u8>, Seq<u16>, u8), nat)> {
    if data.len() == 0 {
        Err(ZstdError::UnexpectedEof)
    } else if data[0] < 128 {
        let size = data[0] as nat;
        if data.len() < 1 + size {
            Err(ZstdError::UnexpectedEof)
        } else {
            match spec_fse_weights(data.subrange(1, 1 + size as int)) {
                Err(e) => Err(e),
                Ok(w) => match spec_from_weights(w) {
                    Err(e) => Err(e),
                    Ok(t) => Ok((t, 1 + size)),
                },
            }
        }
    } else {
        let n = (data[0] - 127) as nat;
        let wb = (n + 1) / 2;
        if data.len() < 1 + wb {
            Err(ZstdError::UnexpectedEof)
        } else {
            match spec_from_weights(direct_weights(data, n)) {
                Err(e) => Err(e),
                Ok(t) => Ok((t, 1 + wb)),
            }
        }
    }
}

/// Read the Huffman table description at the start of a literals section.
///
/// Returns `(table, bytes_consumed)`.
pub fn read_huffman_header(data: &[u8]) -> (r: Result<(HuffmanTable, usize)>)
    ensures
        r matches Ok((t, used)) ==> spec_read_huffman_header(data@) == Ok::<((Seq<u8>, Seq<u16>, u8), nat), ZstdError>(((t.lengths@, t.codes@, t.max_bits), used as nat))
            && t.wf() && used <= data@.len(),
        r matches Err(e) ==> spec_read_huffman_header(data@) == Err::<((Seq<u8>, Seq<u16>, u8), nat), ZstdError>(e),
{
    if data.len() == 0 {
        return Err(ZstdError::UnexpectedEof);
    }
    let header_byte = data[0];
    if header_byte < 128 {
        let fse_size = header_byte as usize;
        if data.len() < 1 + fse_size {
            return Err(ZstdError::UnexpectedEof);
        }
        let fse_data = &data[1..1 + fse_size];
        assert(fse_data@ == data@.subrange(1, 1 + fse_size));
        let weights = decode_fse_weights(fse_data)?;
        let table = HuffmanTable::from_weights(&weights)?;
        Ok((table, 1 + fse_size))
    } else {
        let num_symbols = header_byte as usize - 127;
        let weight_bytes = (num_symbols + 1) / 2;
        if data.len() < 1 + weight_bytes {
            return Err(ZstdError::UnexpectedEof);
        }
        let mut weights: Vec<u8> = Vec::new();
        let mut i: usize = 0;
        while i < num_symbols
            invariant
                i <= num_symbols,
                num_symbols == data@[0] - 127,
                num_symbols <= 128,
                weight_bytes == (num_symbols + 1) / 2,
                data@.len() >= 1 + weight_bytes,
                weights@ == direct_weights(data@, num_symbols as nat).take(i as int),
            decreases num_symbols - i,
        {
            let byte = data[1 + i / 2];
            let w = if i % 2 == 0 { byte % 16 } else { byte / 16 };
            weights.push(w);
            i += 1;
            proof {
                assert(weights@ =~= direct_weights(data@, num_symbols as nat).take(i as int));
            }
        }
        proof {
            assert(weights@ =~= direct_weights(data@, num_symbols as nat));
        }
        let table = HuffmanTable::from_weights(&weights)?;
        Ok((table, 1 + weight_bytes))
    }
}

/// The direct header [`write_huffman_header`] writes for weights `w`.
pub open spec fn spec_write_header(w: Seq<u8>) -> Seq<u8> {
    let n = w.len();
    let nb = (n + 1) / 2;
    seq![(n + 127) as u8] + Seq::new(nb, |j: int| {
        let lo = w[2 * j];
        let hi = if 2 * j + 1 < n { w[2 * j + 1] } else { 0u8 };
        (lo + 16 * hi) as u8
    })
}

/// Serialize a Huffman table description in the direct (4-bit weight) form.
pub fn write_huffman_header(table: &HuffmanTable) -> (out: Vec<u8>)
    requires
        table.wf(),
    ensures
        out@ == spec_write_header(spec_to_weights(table.lengths@, table.max_bits)),
{
    let weights = table.to_weights();
    proof {
        lemma_to_weights_small(table.lengths@, table.max_bits);
    }
    let num_symbols = weights.len();
    let weight_bytes = (num_symbols + 1) / 2;
    let mut out: Vec<u8> = Vec::with_capacity(1 + weight_bytes);
    out.push((num_symbols + 127) as u8);
    let mut j: usize = 0;
    while j < weight_bytes
        invariant
            j <= weight_bytes,
            num_symbols == weights@.len(),
            num_symbols <= 256,
            weight_bytes == (num_symbols + 1) / 2,
            forall|k: int| 0 <= k < weights@.len() ==> #[trigger] weights@[k] <= 15,
            out@ == spec_write_header(weights@).take(1 + j),
        decreases weight_bytes - j,
    {
        let i = 2 * j;
        let lo = weights[i];
        let hi = if i + 1 < num_symbols { weights[i + 1] } else { 0 };
        out.push(lo + 16 * hi);
        j += 1;
        proof {
            assert(out@ =~= spec_write_header(weights@).take(1 + j));
        }
    }
    proof {
        assert(out@ =~= spec_write_header(weights@));
    }
    out
}

proof fn lemma_trim_zeros(s: Seq<u8>)
    ensures
        trim_zeros(s).len() <= s.len(),
        forall|k: int| 0 <= k < trim_zeros(s).len() ==> #[trigger] trim_zeros(s)[k] == s[k],
    decreases s.len(),
{
    if s.len() > 0 && s.last() == 0 {
        lemma_trim_zeros(s.drop_last());
    }
}

proof fn lemma_to_weights_small(lengths: Seq<u8>, mb: u8)
    requires
        1 <= mb <= 11,
        lengths.len() == 256,
        forall|s: int| 0 <= s < 256 ==> #[trigger] lengths[s] <= mb,
    ensures
        spec_to_weights(lengths, mb).len() <= 256,
        forall|k: int| 0 <= k < spec_to_weights(lengths, mb).len() ==> #[trigger] spec_to_weights(lengths, mb)[k] <= 15,
{
    let full = Seq::new(256, |s: int| if lengths[s] > 0 { (mb - lengths[s] + 1) as u8 } else { 0u8 });
    lemma_trim_zeros(full);
    assert forall|k: int| 0 <= k < spec_to_weights(lengths, mb).len() implies #[trigger] spec_to_weights(lengths, mb)[k] <= 15 by {
        assert(spec_to_weights(lengths, mb)[k] == full[k]);
    }
}


// ---------------------------------------------------------------------------
// Code lengths from frequencies
// ---------------------------------------------------------------------------

/// Whether symbol `s` occurs: among the first 256 frequencies and nonzero.
pub open spec fn present(freqs: Seq<u32>, s: int) -> bool {
    0 <= s < 256 && s < freqs.len() && freqs[s] > 0
}

/// Code lengths that suit the frequencies: a symbol has a code exactly when
/// it occurs, no code is longer than `max_len`, and a lone symbol gets a
/// one-bit code.
pub open spec fn lengths_for(lengths: Seq<u8>, freqs: Seq<u32>, max_len: nat) -> bool {
    &&& lengths.len() == 256
    &&& forall|s: int| 0 <= s < 256 ==> (#[trigger] lengths[s] > 0 <==> present(freqs, s)) && lengths[s] <= max_len
    &&& forall|s: int| present(freqs, s) && (forall|t: int| present(freqs, t) ==> t == s) ==> #[trigger] lengths[s] == 1
}

pub open spec fn seq_sum(s: Seq<nat>) -> nat
    decreases s.len(),
{
    if s.len() == 0 {
        0
    } else {
        seq_sum(s.drop_last()) + s.last()
    }
}

proof fn lemma_seq_sum_remove(s: Seq<nat>, k: int)
    requires
        0 <= k < s.len(),
    ensures
        seq_sum(s.remove(k)) + s[k] == seq_sum(s),
    decreases s.len(),
{
    if k == s.len() - 1 {
        assert(s.remove(k) =~= s.drop_last());
    } else {
        lemma_seq_sum_remove(s.drop_last(), k);
        assert(s.remove(k).drop_last() =~= s.drop_last().remove(k));
    }
}

/// Whether node `j` is a child of an internal node below `next`.
spec fn has_parent(left: Seq<usize>, right: Seq<usize>, lo: int, next: int, j: int) -> bool {
    exists|p: int| lo <= p < next && p > j && (left[p] == j || right[p] == j)
}

/// The occurring symbols among the first `n`, in increasing order.
pub open spec fn occurring(freqs: Seq<u32>, n: nat) -> Seq<usize>
    decreases n,
{
    if n == 0 {
        Seq::empty()
    } else if freqs[n - 1] > 0 {
        occurring(freqs, (n - 1) as nat).push((n - 1) as usize)
    } else {
        occurring(freqs, (n - 1) as nat)
    }
}

/// Whether entry `k` of an active list holds its smallest
/// (frequency, node) pair.
pub open spec fn is_rarest(fs: Seq<u64>, ids: Seq<usize>, k: int) -> bool {
    &&& 0 <= k < fs.len()
    &&& forall|j: int| 0 <= j < fs.len() ==> fs[k] < fs[j] || (fs[k] == fs[j] && ids[k] <= ids[j])
}

/// The entry of an active list that holds its smallest (frequency, node)
/// pair.
pub open spec fn rarest(fs: Seq<u64>, ids: Seq<usize>) -> int {
    let k = choose|k: int| is_rarest(fs, ids, k);
    if 0 <= k < fs.len() {
        k
    } else {
        0
    }
}

/// The children of each internal node of the Huffman tree grown from an
/// active list of (frequency, node) pairs: while more than one node is
/// active, the two rarest (on equal frequency the lower node first) become
/// the children of node `next`, which joins the list with their summed
/// frequency.
pub open spec fn merges(fs: Seq<u64>, ids: Seq<usize>, next: nat, left: Seq<usize>, right: Seq<usize>) -> (Seq<usize>, Seq<usize>)
    decreases fs.len(),
{
    if fs.len() <= 1 || fs.len() != ids.len() {
        (left, right)
    } else {
        let k1 = rarest(fs, ids);
        let fs1 = fs.remove(k1);
        let ids1 = ids.remove(k1);
        let k2 = rarest(fs1, ids1);
        merges(fs1.remove(k2).push((fs[k1] + fs1[k2]) as u64), ids1.remove(k2).push(next as usize), next + 1,
            left.update(next as int, ids[k1]), right.update(next as int, ids1[k2]))
    }
}

/// Node depths in a tree whose internal nodes `lo..p` each sit above their
/// children: from node `p - 1` down to `lo`, each passes its depth plus one
/// to its two children.
pub open spec fn depths_from(left: Seq<usize>, right: Seq<usize>, lo: nat, p: nat, depth: Seq<usize>) -> Seq<usize>
    decreases p,
{
    if p <= lo {
        depth
    } else {
        let q = (p - 1) as int;
        let d = (depth[q] + 1) as usize;
        depths_from(left, right, lo, (p - 1) as nat, depth.update(left[q] as int, d).update(right[q] as int, d))
    }
}

/// The code lengths of the first `i` occurring symbols: each one's leaf
/// depth, capped at `max_len`.
pub open spec fn assign_lengths(syms: Seq<usize>, depth: Seq<usize>, max_len: u8, i: nat) -> Seq<u8>
    decreases i,
{
    if i == 0 {
        Seq::new(256, |s: int| 0u8)
    } else {
        let k = (i - 1) as int;
        assign_lengths(syms, depth, max_len, (i - 1) as nat).update(syms[k] as int,
            if depth[k] > max_len { max_len } else { depth[k] as u8 })
    }
}

/// The symbols among the first 256 that occur, in increasing order.
pub open spec fn occurring_symbols(freqs: Seq<u32>) -> Seq<usize> {
    occurring(freqs, if freqs.len() < 256 { freqs.len() } else { 256 })
}

/// The Huffman tree of the occurring symbols: leaf `k` is the `k`-th
/// occurring symbol, and [`merges`] grows the internal nodes above them.
pub open spec fn huffman_tree(freqs: Seq<u32>) -> (Seq<usize>, Seq<usize>) {
    let syms = occurring_symbols(freqs);
    let ns = syms.len();
    let zeros = Seq::new(2 * ns, |k: int| 0usize);
    merges(Seq::new(ns, |k: int| freqs[syms[k] as int] as u64), Seq::new(ns, |k: int| k as usize), ns, zeros, zeros)
}

/// The depth of each node of the Huffman tree, the root at depth 0.
pub open spec fn huffman_depths(freqs: Seq<u32>) -> Seq<usize> {
    let ns = occurring_symbols(freqs).len();
    let tree = huffman_tree(freqs);
    depths_from(tree.0, tree.1, ns, (2 * ns - 1) as nat, Seq::new(2 * ns, |k: int| 0usize))
}

/// Huffman code lengths for the first 256 frequencies: none when no symbol
/// occurs, length 1 for a lone symbol, and otherwise each occurring
/// symbol's depth in the [`huffman_tree`], capped at `max_len`, then
/// lengthened by [`limit_lengths`] until the code space holds them.
pub open spec fn spec_build_lengths(freqs: Seq<u32>, max_len: u8) -> Result<Seq<u8>> {
    let syms = occurring_symbols(freqs);
    let ns = syms.len();
    if ns == 0 {
        Err(ZstdError::HuffmanError("no symbols with nonzero frequency"))
    } else if ns == 1 {
        Ok(Seq::new(256, |s: int| 0u8).update(syms[0] as int, 1u8))
    } else {
        Ok(limit_lengths(assign_lengths(syms, huffman_depths(freqs), max_len, ns), max_len, 4096))
    }
}

proof fn lemma_rarest_is(fs: Seq<u64>, ids: Seq<usize>, k: int)
    requires
        is_rarest(fs, ids, k),
        fs.len() == ids.len(),
        forall|a: int, b: int| 0 <= a < b < ids.len() ==> ids[a] != ids[b],
    ensures
        rarest(fs, ids) == k,
{
    let k2 = choose|k: int| is_rarest(fs, ids, k);
    assert(is_rarest(fs, ids, k2));
    assert(fs[k] <= fs[k2] && fs[k2] <= fs[k]);
    assert(ids[k] == ids[k2]);
}

proof fn lemma_distinct_remove(ids: Seq<usize>, k: int)
    requires
        0 <= k < ids.len(),
        forall|a: int, b: int| 0 <= a < b < ids.len() ==> ids[a] != ids[b],
    ensures
        forall|a: int, b: int| 0 <= a < b < ids.remove(k).len() ==> ids.remove(k)[a] != ids.remove(k)[b],
{
    let r = ids.remove(k);
    assert forall|a: int, b: int| 0 <= a < b < r.len() implies r[a] != r[b] by {
        let a0 = if a < k { a } else { a + 1 };
        let b0 = if b < k { b } else { b + 1 };
        assert(r[a] == ids[a0] && r[b] == ids[b0]);
    }
}

/// One merge of [`merges`], taken with the two rarest entries `k1` (of
/// the list) and `k2` (of what is left): the new node `next` joins the
/// list, which keeps its nodes distinct.
proof fn lemma_merge_step(fs: Seq<u64>, ids: Seq<usize>, next: nat, left: Seq<usize>, right: Seq<usize>, k1: int, k2: int)
    requires
        fs.len() == ids.len(),
        fs.len() >= 2,
        is_rarest(fs, ids, k1),
        is_rarest(fs.remove(k1), ids.remove(k1), k2),
        forall|a: int, b: int| 0 <= a < b < ids.len() ==> ids[a] != ids[b],
        forall|j: int| 0 <= j < ids.len() ==> ids[j] < next,
        fs[k1] + fs.remove(k1)[k2] <= u64::MAX,
        next <= usize::MAX,
    ensures
        ({
            let fs1 = fs.remove(k1);
            let ids1 = ids.remove(k1);
            let nids = ids1.remove(k2).push(next as usize);
            &&& merges(fs, ids, next, left, right) == merges(fs1.remove(k2).push((fs[k1] + fs1[k2]) as u64), nids, next + 1,
                left.update(next as int, ids[k1]), right.update(next as int, ids1[k2]))
            &&& forall|a: int, b: int| 0 <= a < b < nids.len() ==> nids[a] != nids[b]
        }),
{
    let fs1 = fs.remove(k1);
    let ids1 = ids.remove(k1);
    lemma_rarest_is(fs, ids, k1);
    lemma_distinct_remove(ids, k1);
    lemma_rarest_is(fs1, ids1, k2);
    lemma_distinct_remove(ids1, k2);
    let r = ids1.remove(k2);
    let nids = r.push(next as usize);
    assert forall|j: int| 0 <= j < r.len() implies r[j] < next by {
        let j1 = if j < k2 { j } else { j + 1 };
        let j0 = if j1 < k1 { j1 } else { j1 + 1 };
        assert(r[j] == ids1[j1] && ids1[j1] == ids[j0]);
    }
    assert forall|a: int, b: int| 0 <= a < b < nids.len() implies nids[a] != nids[b] by {
        if b == r.len() {
            assert(nids[a] == r[a]);
        } else {
            assert(nids[a] == r[a] && nids[b] == r[b]);
        }
    }
}

/// Index of the smallest `(freq, node)` pair.
fn min_pair(fs: &Vec<u64>, ids: &Vec<usize>) -> (k: usize)
    requires
        fs@.len() == ids@.len(),
        fs@.len() > 0,
    ensures
        k < fs@.len(),
        forall|j: int| 0 <= j < fs@.len() ==> fs@[k as int] < fs@[j] || (fs@[k as int] == fs@[j] && ids@[k as int] <= ids@[j]),
{
    let mut best: usize = 0;
    let mut j: usize = 1;
    while j < fs.len()
        invariant
            fs@.len() == ids@.len(),
            best < j <= fs@.len(),
            forall|i: int| 0 <= i < j ==> fs@[best as int] < fs@[i] || (fs@[best as int] == fs@[i] && ids@[best as int] <= ids@[i]),
        decreases fs@.len() - j,
    {
        if fs[j] < fs[best] || (fs[j] == fs[best] && ids[j] < ids[best]) {
            best = j;
        }
        j += 1;
    }
    best
}

/// Code lengths from a Huffman tree over the occurring symbols, each capped
/// at `max_len`; the two rarest nodes merge first, ties going to the lower
/// node index.  Where capping overflows the code space, the longest codes
/// that can still grow are lengthened until the lengths fit it.
#[verifier::spinoff_prover]
#[verifier::rlimit(60)]
fn build_lengths(freqs: &[u32], max_len: u8) -> (r: Result<[u8; 256]>)
    requires
        1 <= max_len <= 11,
    ensures
        r matches Ok(l) ==> lengths_for(l@, freqs@, max_len as nat) && spec_build_lengths(freqs@, max_len) == Ok::<Seq<u8>, ZstdError>(l@),
        r matches Err(e) ==> e == ZstdError::HuffmanError("no symbols with nonzero frequency") && !(exists|s: int| present(freqs@, s))
            && spec_build_lengths(freqs@, max_len) == Err::<Seq<u8>, ZstdError>(e),
        r is Err <==> !(exists|s: int| present(freqs@, s)),
        r matches Ok(l) ==> (max_len >= 8 ==> kraft_sum(l@, max_len as nat, 256) <= pow2(max_len as nat)),
{
    let n = if freqs.len() < MAX_SYMBOLS { freqs.len() } else { MAX_SYMBOLS };
    let mut lengths: [u8; 256] = [0u8; 256];
    proof {
        assert(lengths@ =~= Seq::new(256, |s: int| 0u8));
    }
    // The occurring symbols, in order.
    let mut leaf_f: Vec<u64> = Vec::new();
    let mut leaf_sym: Vec<usize> = Vec::new();
    let mut i: usize = 0;
    while i < n
        invariant
            n <= 256,
            n <= freqs@.len(),
            n == freqs@.len() || n == 256,
            i <= n,
            leaf_f@.len() == leaf_sym@.len(),
            leaf_f@.len() <= i,
            forall|k: int| 0 <= k < leaf_sym@.len() ==> #[trigger] leaf_sym@[k] < i && present(freqs@, leaf_sym@[k] as int),
            forall|k: int| 0 <= k < leaf_f@.len() ==> 1 <= #[trigger] leaf_f@[k] <= 0xFFFF_FFFF,
            forall|k1: int, k2: int| 0 <= k1 < k2 < leaf_sym@.len() ==> leaf_sym@[k1] < leaf_sym@[k2],
            forall|s: int| 0 <= s < i && present(freqs@, s) ==> exists|k: int| 0 <= k < leaf_sym@.len() && leaf_sym@[k] == s,
            leaf_sym@ == occurring(freqs@, i as nat),
            forall|k: int| 0 <= k < leaf_f@.len() ==> #[trigger] leaf_f@[k] == freqs@[leaf_sym@[k] as int] as u64,
        decreases n - i,
    {
        let ghost old_sym = leaf_sym@;
        if freqs[i] > 0 {
            leaf_f.push(freqs[i] as u64);
            leaf_sym.push(i);
            proof {
                assert(leaf_sym@[leaf_sym@.len() - 1] == i);
            }
        }
        proof {
            assert forall|s: int| 0 <= s < i + 1 && present(freqs@, s) implies exists|k: int| 0 <= k < leaf_sym@.len() && leaf_sym@[k] == s by {
                if s == i {
                    assert(leaf_sym@[leaf_sym@.len() - 1] == i);
                } else {
                    let k = choose|k: int| 0 <= k < old_sym.len() && old_sym[k] == s;
                    assert(leaf_sym@[k] == s);
                }
            }
        }
        i += 1;
    }
    let num_sym = leaf_f.len();
    let ghost syms = leaf_sym@;
    proof {
        assert forall|s: int| present(freqs@, s) implies exists|k: int| 0 <= k < leaf_sym@.len() && leaf_sym@[k] == s by {}
        assert(syms == occurring(freqs@, if freqs@.len() < 256 { freqs@.len() } else { 256 }));
    }
    if num_sym == 0 {
        return Err(ZstdError::HuffmanError("no symbols with nonzero frequency"));
    }
    if num_sym == 1 {
        lengths[leaf_sym[0]] = 1;
        proof {
            assert(lengths@ =~= Seq::new(256, |s: int| 0u8).update(syms[0] as int, 1u8));
            assert forall|s: int| 0 <= s < 256 implies (#[trigger] lengths@[s] > 0 <==> present(freqs@, s)) && lengths@[s] <= max_len by {
                if present(freqs@, s) {
                    let k = choose|k: int| 0 <= k < leaf_sym@.len() && leaf_sym@[k] == s;
                }
            }
            assert forall|s: int| present(freqs@, s) && (forall|t: int| present(freqs@, t) ==> t == s) implies #[trigger] lengths@[s] == 1 by {
                let k = choose|k: int| 0 <= k < leaf_sym@.len() && leaf_sym@[k] == s;
            }
            lemma_kraft_single(lengths@, max_len, 256, syms[0] as int);
            lemma_pow2_strictly_increases((max_len - 1) as nat, max_len as nat);
        }
        return Ok(lengths);
    }
    // Merge the two rarest nodes until one is left.
    let total = 2 * num_sym;
    let mut left: Vec<usize> = vec![0usize; total];
    let mut right: Vec<usize> = vec![0usize; total];
    let mut act_f: Vec<u64> = Vec::new();
    let mut act_id: Vec<usize> = Vec::new();
    let ghost mut cnt: Seq<nat> = Seq::empty();
    let mut k: usize = 0;
    while k < num_sym
        invariant
            k <= num_sym,
            num_sym == leaf_f@.len(),
            num_sym <= 256,
            act_f@.len() == k,
            act_id@.len() == k,
            cnt.len() == k,
            forall|j: int| 0 <= j < k ==> #[trigger] act_id@[j] == j && act_f@[j] == leaf_f@[j] && cnt[j] == 1,
            seq_sum(cnt) == k,
        decreases num_sym - k,
    {
        act_f.push(leaf_f[k]);
        act_id.push(k);
        proof {
            let c0 = cnt;
            cnt = cnt.push(1nat);
            assert(cnt.drop_last() =~= c0);
            assert forall|j: int| 0 <= j < k + 1 implies #[trigger] act_id@[j] == j && act_f@[j] == leaf_f@[j] && cnt[j] == 1 by {
                if j < k {
                    assert(act_id@[j] == j);
                }
            }
        }
        k += 1;
    }
    proof {
        assert forall|j: int| 0 <= j < num_sym implies (exists|a: int| 0 <= a < act_id@.len() && act_id@[a] == j) || has_parent(left@, right@, num_sym as int, num_sym as int, j) by {
            assert(act_id@[j] == j);
        }
        assert forall|j: int| 0 <= j < act_f@.len() implies #[trigger] act_f@[j] <= cnt[j] * 0xFFFF_FFFF by {
            assert(act_id@[j] == j);
        }
    }
    let ghost zeros = Seq::new(total as nat, |k: int| 0usize);
    let ghost tree = merges(Seq::new(num_sym as nat, |k: int| freqs@[syms[k] as int] as u64), Seq::new(num_sym as nat, |k: int| k as usize),
        num_sym as nat, zeros, zeros);
    proof {
        assert(act_f@ =~= Seq::new(num_sym as nat, |k: int| freqs@[syms[k] as int] as u64)) by {
            assert forall|k: int| 0 <= k < num_sym implies act_f@[k] == freqs@[syms[k] as int] as u64 by {
                assert(act_id@[k] == k);
                assert(leaf_f@[k] == freqs@[leaf_sym@[k] as int] as u64);
            }
        }
        assert(act_id@ =~= Seq::new(num_sym as nat, |k: int| k as usize)) by {
            assert forall|k: int| 0 <= k < num_sym implies act_id@[k] == k as usize by {
                assert(act_id@[k] == k);
            }
        }
        assert(left@ =~= zeros);
        assert(right@ =~= zeros);
    }
    let mut next_node: usize = num_sym;
    while act_f.len() > 1
        invariant
            2 <= num_sym <= 256,
            total == 2 * num_sym,
            left@.len() == total,
            right@.len() == total,
            act_f@.len() == act_id@.len(),
            act_f@.len() == cnt.len(),
            act_f@.len() >= 1,
            next_node + act_f@.len() == total,
            num_sym <= next_node,
            seq_sum(cnt) == num_sym,
            forall|j: int| 0 <= j < act_f@.len() ==> #[trigger] act_id@[j] < next_node,
            forall|j: int| 0 <= j < act_f@.len() ==> #[trigger] act_f@[j] <= cnt[j] * 0xFFFF_FFFF,
            forall|p: int| num_sym <= p < next_node ==> #[trigger] left@[p] < p && right@[p] < p,
            forall|j: int| 0 <= j < next_node ==> (exists|a: int| 0 <= a < act_id@.len() && act_id@[a] == j) || has_parent(left@, right@, num_sym as int, next_node as int, j),
            act_f@.len() == 1 && next_node > num_sym ==> act_id@[0] == next_node - 1,
            merges(act_f@, act_id@, next_node as nat, left@, right@) == tree,
            forall|a: int, b: int| 0 <= a < b < act_id@.len() ==> act_id@[a] != act_id@[b],
        decreases act_f@.len(),
    {
        let ghost id0 = act_id@;
        let ghost f0 = act_f@;
        let ghost cnt0 = cnt;
        let k1 = min_pair(&act_f, &act_id);
        let f1 = act_f.remove(k1);
        let i1 = act_id.remove(k1);
        let ghost c1 = cnt[k1 as int];
        proof {
            lemma_seq_sum_remove(cnt, k1 as int);
            cnt = cnt.remove(k1 as int);
        }
        let ghost id1 = act_id@;
        let ghost f1s = act_f@;
        proof {
            assert(id1 == id0.remove(k1 as int));
            assert forall|a: int, b: int| 0 <= a < b < id1.len() implies id1[a] != id1[b] by {
                let a0 = if a < k1 { a } else { a + 1 };
                let b0 = if b < k1 { b } else { b + 1 };
                assert(id1[a] == id0[a0] && id1[b] == id0[b0]);
            }
        }
        let k2 = min_pair(&act_f, &act_id);
        let f2 = act_f.remove(k2);
        let i2 = act_id.remove(k2);
        let ghost c2 = cnt[k2 as int];
        proof {
            lemma_seq_sum_remove(cnt, k2 as int);
            cnt = cnt.remove(k2 as int);
            assert(c1 + c2 <= 256);
            assert(f1 + f2 <= (c1 + c2) * 0xFFFF_FFFF) by (nonlinear_arith)
                requires f1 <= c1 * 0xFFFF_FFFF, f2 <= c2 * 0xFFFF_FFFF;
            assert((c1 + c2) * 0xFFFF_FFFF <= 256 * 0xFFFF_FFFF) by (nonlinear_arith)
                requires c1 + c2 <= 256;
        }
        let parent = next_node;
        proof {
            assert(id0[k1 as int] < next_node);
            assert(id1[k2 as int] < next_node);
        }
        let ghost l0 = left@;
        let ghost r0 = right@;
        left.set(parent, i1);
        right.set(parent, i2);
        act_f.push(f1 + f2);
        act_id.push(parent);
        proof {
            cnt = cnt.push(c1 + c2);
            assert(cnt.drop_last() =~= cnt0.remove(k1 as int).remove(k2 as int));
        }
        next_node = next_node + 1;
        proof {
            lemma_merge_step(f0, id0, parent as nat, l0, r0, k1 as int, k2 as int);
            assert forall|q: int| num_sym <= q < next_node implies #[trigger] left@[q] < q && right@[q] < q by {
                if q < parent {
                    assert(left@[q] == l0[q] && right@[q] == r0[q]);
                }
            }
            assert(act_f@ == f1s.remove(k2 as int).push((f1 + f2) as u64));
            assert(act_id@ == id1.remove(k2 as int).push(parent));
            assert forall|j: int| 0 <= j < next_node implies (exists|a: int| 0 <= a < act_id@.len() && act_id@[a] == j) || has_parent(left@, right@, num_sym as int, next_node as int, j) by {
                if j == parent {
                    assert(act_id@[act_id@.len() - 1] == j);
                } else if j == i1 || j == i2 {
                    assert(left@[parent as int] == i1 && right@[parent as int] == i2);
                } else if exists|a: int| 0 <= a < id0.len() && id0[a] == j {
                    let a = choose|a: int| 0 <= a < id0.len() && id0[a] == j;
                    let a1 = if a < k1 { a } else { a - 1 };
                    assert(a != k1);
                    assert(id1[a1] == j);
                    let a2 = if a1 < k2 { a1 } else { a1 - 1 };
                    assert(a1 != k2);
                    assert(act_id@[a2] == j);
                } else {
                    assert(has_parent(l0, r0, num_sym as int, parent as int, j));
                    let p = choose|p: int| num_sym <= p < parent && p > j && (l0[p] == j || r0[p] == j);
                    assert(left@[p] == l0[p] && right@[p] == r0[p]);
                }
            }
        }
    }
    let root = next_node - 1;
    proof {
        assert(act_id@[0] == root);
        assert forall|j: int| 0 <= j < root implies has_parent(left@, right@, num_sym as int, next_node as int, j) by {
            if exists|a: int| 0 <= a < act_id@.len() && act_id@[a] == j {
                let a = choose|a: int| 0 <= a < act_id@.len() && act_id@[a] == j;
                assert(a == 0);
            }
        }
    }
    // Depths, from the root down: a parent's index is above its children's.
    let mut depth: Vec<usize> = vec![0usize; total];
    let ghost depths = depths_from(left@, right@, num_sym as nat, (root + 1) as nat, zeros);
    proof {
        assert(left@ == tree.0 && right@ == tree.1);
        assert(depth@ =~= zeros);
    }
    let mut p: usize = root + 1;
    while p > num_sym
        invariant
            2 <= num_sym <= 256,
            total == 2 * num_sym,
            root == total - 2,
            num_sym <= p <= root + 1,
            left@.len() == total,
            right@.len() == total,
            depth@.len() == total,
            forall|q: int| num_sym <= q <= root ==> #[trigger] left@[q] < q && right@[q] < q,
            forall|j: int| 0 <= j < total ==> #[trigger] depth@[j] <= root,
            forall|j: int| 0 <= j <= root ==> #[trigger] depth@[j] + j <= root,
            forall|q: int| p <= q <= root ==> depth@[#[trigger] left@[q] as int] >= 1 && depth@[right@[q] as int] >= 1,
            depths_from(left@, right@, num_sym as nat, p as nat, depth@) == depths,
        decreases p,
    {
        p -= 1;
        let d = depth[p] + 1;
        let l = left[p];
        let r = right[p];
        let ghost d0 = depth@;
        depth.set(l, d);
        depth.set(r, d);
        proof {
            assert forall|q: int| p <= q <= root implies depth@[#[trigger] left@[q] as int] >= 1 && depth@[right@[q] as int] >= 1 by {
                if q > p {
                    assert(d0[left@[q] as int] >= 1 && d0[right@[q] as int] >= 1);
                }
            }
        }
    }
    proof {
        assert forall|j: int| 0 <= j < root implies #[trigger] depth@[j] >= 1 by {
            assert(has_parent(left@, right@, num_sym as int, next_node as int, j));
            let q = choose|q: int| num_sym <= q < next_node && q > j && (left@[q] == j || right@[q] == j);
            assert(depth@[left@[q] as int] >= 1 && depth@[right@[q] as int] >= 1);
        }
    }
    let mut i: usize = 0;
    while i < num_sym
        invariant
            2 <= num_sym <= 256,
            num_sym == leaf_sym@.len(),
            total == 2 * num_sym,
            root == total - 2,
            1 <= max_len <= 11,
            i <= num_sym,
            depth@.len() == total,
            forall|j: int| 0 <= j < root ==> #[trigger] depth@[j] >= 1,
            forall|k: int| 0 <= k < leaf_sym@.len() ==> #[trigger] leaf_sym@[k] < 256 && present(freqs@, leaf_sym@[k] as int),
            forall|k1: int, k2: int| 0 <= k1 < k2 < leaf_sym@.len() ==> leaf_sym@[k1] < leaf_sym@[k2],
            forall|k: int| 0 <= k < i ==> 1 <= #[trigger] lengths@[leaf_sym@[k] as int] <= max_len,
            forall|s: int| 0 <= s < 256 && lengths@[s] > 0 ==> exists|k: int| 0 <= k < i && leaf_sym@[k] == s,
            forall|s: int| 0 <= s < 256 ==> #[trigger] lengths@[s] <= max_len,
            lengths@ == assign_lengths(leaf_sym@, depth@, max_len, i as nat),
        decreases num_sym - i,
    {
        let d = depth[i];
        let len: u8 = if d > max_len as usize { max_len } else { d as u8 };
        lengths[leaf_sym[i]] = len;
        i += 1;
    }
    proof {
        assert forall|s: int| 0 <= s < 256 implies (#[trigger] lengths@[s] > 0 <==> present(freqs@, s)) && lengths@[s] <= max_len by {
            if present(freqs@, s) {
                let k = choose|k: int| 0 <= k < leaf_sym@.len() && leaf_sym@[k] == s;
                assert(lengths@[leaf_sym@[k] as int] >= 1);
            }
            if lengths@[s] > 0 {
                let k = choose|k: int| 0 <= k < num_sym && leaf_sym@[k] == s;
            }
        }
        assert forall|s: int| present(freqs@, s) && (forall|t: int| present(freqs@, t) ==> t == s) implies #[trigger] lengths@[s] == 1 by {
            assert(present(freqs@, leaf_sym@[0] as int));
            assert(present(freqs@, leaf_sym@[1] as int));
        }
        assert(present(freqs@, leaf_sym@[0] as int));
    }
    let ghost assigned = lengths@;
    limit_lengths_exec(&mut lengths, max_len);
    proof {
        lemma_room_bound(assigned, max_len, 256);
        assert(256 * max_len <= 4096) by (nonlinear_arith)
            requires max_len <= 11;
        lemma_limit(assigned, max_len, 4096);
        assert forall|s: int| present(freqs@, s) && (forall|t: int| present(freqs@, t) ==> t == s) implies #[trigger] lengths@[s] == 1 by {
            assert(present(freqs@, leaf_sym@[0] as int));
            assert(present(freqs@, leaf_sym@[1] as int));
        }
    }
    Ok(lengths)
}

/// The longest of the first `k` code lengths, and at least 1.
pub open spec fn longest(lengths: Seq<u8>, k: nat) -> u8
    decreases k,
{
    if k == 0 {
        1
    } else {
        let m = longest(lengths, (k - 1) as nat);
        if lengths[k - 1] > m {
            lengths[k - 1]
        } else {
            m
        }
    }
}

/// What [`HuffmanTable::from_frequencies`] returns: the Huffman lengths
/// of [`spec_build_lengths`] capped at `MAX_CODE_LEN`, their canonical
/// codes, and the longest length (at least 1).
pub open spec fn spec_from_frequencies(freqs: Seq<u32>) -> Result<(Seq<u8>, Seq<u16>, u8)> {
    if !(exists|s: int| present(freqs, s)) {
        Err(ZstdError::HuffmanError("all frequencies are zero"))
    } else {
        match spec_build_lengths(freqs, MAX_CODE_LEN) {
            Err(e) => Err(e),
            Ok(l) => match spec_canonical_codes(l, longest(l, 256) as nat) {
                Ok(c) => Ok((l, c, longest(l, 256))),
                Err(e) => Err(e),
            },
        }
    }
}

impl HuffmanTable {
    /// Build a Huffman table from symbol frequencies (the first 256 count).
    pub fn from_frequencies(freqs: &[u32]) -> (r: Result<Self>)
        ensures
            r matches Ok(t) ==> spec_from_frequencies(freqs@) == Ok::<(Seq<u8>, Seq<u16>, u8), ZstdError>((t.lengths@, t.codes@, t.max_bits)),
            r matches Err(e) ==> spec_from_frequencies(freqs@) == Err::<(Seq<u8>, Seq<u16>, u8), ZstdError>(e),
            r matches Ok(t) ==> t.wf() && lengths_for(t.lengths@, freqs@, MAX_CODE_LEN as nat)
                && (forall|s: int| 0 <= s < 256 ==> #[trigger] t.lengths@[s] <= t.max_bits)
                && (t.max_bits == 1 || exists|s: int| 0 <= s < 256 && #[trigger] t.lengths@[s] == t.max_bits)
                && spec_canonical_codes(t.lengths@, t.max_bits as nat) == Ok::<Seq<u16>, ZstdError>(t.codes@),
            r matches Err(e) ==> if exists|s: int| present(freqs@, s) {
                e == ZstdError::HuffmanError("code space overflow")
            } else {
                e == ZstdError::HuffmanError("all frequencies are zero")
            },
    {
        let n = if freqs.len() < MAX_SYMBOLS { freqs.len() } else { MAX_SYMBOLS };
        let mut any = false;
        let mut i: usize = 0;
        while i < n
            invariant
                i <= n,
                n <= 256,
                n <= freqs@.len(),
                n == freqs@.len() || n == 256,
                any <==> exists|s: int| 0 <= s < i && present(freqs@, s),
            decreases n - i,
        {
            if freqs[i] != 0 {
                any = true;
                proof {
                    assert(present(freqs@, i as int));
                }
            }
            i += 1;
        }
        if !any {
            return Err(ZstdError::HuffmanError("all frequencies are zero"));
        }
        let lengths = match build_lengths(freqs, MAX_CODE_LEN) {
            Ok(l) => l,
            Err(e) => {
                return Err(e);
            },
        };
        let mut max_bits: u8 = 1;
        let mut s: usize = 0;
        while s < MAX_SYMBOLS
            invariant
                s <= 256,
                1 <= max_bits <= 11,
                forall|j: int| 0 <= j < 256 ==> #[trigger] lengths@[j] <= 11,
                forall|j: int| 0 <= j < s ==> #[trigger] lengths@[j] <= max_bits,
                max_bits == 1 || exists|j: int| 0 <= j < 256 && #[trigger] lengths@[j] == max_bits,
                max_bits == longest(lengths@, s as nat),
            decreases 256 - s,
        {
            if lengths[s] > max_bits {
                max_bits = lengths[s];
            }
            s += 1;
        }
        let codes = match canonical_codes(&lengths, max_bits) {
            Ok(c) => c,
            Err(e) => {
                proof {
                    assert(!(exists|j: int| 0 <= j < 256 && #[trigger] lengths@[j] > max_bits));
                }
                return Err(e);
            },
        };
        Ok(HuffmanTable { lengths, codes, max_bits })
    }
}

} // verus!
