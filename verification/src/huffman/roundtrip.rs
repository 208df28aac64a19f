//! What decoding gives back of what was encoded: canonical codes never
//! share a prefix, so reading an encoded stream symbol by symbol finds each
//! symbol where it was written.
use vstd::prelude::*;
use vstd::arithmetic::power2::*;
use crate::error::ZstdError;
use crate::fse::field_bits;
use super::{
    canonical_code, code_bits, code_prefixes, codes_fit, count_len, first_code, fwd_bit, fwd_peek,
    huff_loop, lemma_div_window, lemma_fwd_peek_bound, lemma_pack_forward_bits, lookup_upto,
    pack_forward, spec_canonical_codes, spec_huff_decode, HuffmanTable, ceil_log2, lengths_from_weights,
    spec_from_weights, weight_sum, direct_weights, spec_read_huffman_header, spec_to_weights,
    spec_write_header, trim_zeros,
};

verus! {

proof fn lemma_count_len_mono(lengths: Seq<u8>, k1: int, k2: int, l: nat)
    requires
        0 <= k1 <= k2,
    ensures
        count_len(lengths, k1, l) <= count_len(lengths, k2, l),
    decreases k2 - k1,
{
    if k1 < k2 {
        lemma_count_len_mono(lengths, k1, k2 - 1, l);
    }
}

/// A symbol of length `l` comes before every later symbol of that length.
proof fn lemma_count_len_strict(lengths: Seq<u8>, s: int, k: int)
    requires
        0 <= s < k,
        lengths[s] > 0,
    ensures
        count_len(lengths, s, lengths[s] as nat) < count_len(lengths, k, lengths[s] as nat),
{
    lemma_count_len_mono(lengths, s + 1, k, lengths[s] as nat);
}

proof fn lemma_first_code_nonneg(lengths: Seq<u8>, l: nat)
    ensures
        first_code(lengths, l) >= 0,
    decreases l,
{
    if l > 1 {
        lemma_first_code_nonneg(lengths, (l - 1) as nat);
    }
}

/// The codes of one length end, in a window of `mb` bits, no later than
/// where the codes of any longer length begin.
proof fn lemma_first_code_spread(lengths: Seq<u8>, mb: nat, l: nat, l2: nat)
    requires
        1 <= l < l2 <= mb,
    ensures
        (first_code(lengths, l) + count_len(lengths, 256, l)) * pow2((mb - l) as nat)
            <= first_code(lengths, l2) * pow2((mb - l2) as nat),
    decreases l2 - l,
{
    let b = first_code(lengths, (l2 - 1) as nat);
    let cb = count_len(lengths, 256, (l2 - 1) as nat) as int;
    let p = pow2((mb - l2) as nat) as int;
    lemma_pow2_unfold((mb - l2 + 1) as nat);
    assert(pow2((mb - (l2 - 1)) as nat) == 2 * p);
    assert(first_code(lengths, l2) == (b + cb) * 2);
    assert((b + cb) * (2 * p) == ((b + cb) * 2) * p) by (nonlinear_arith);
    if l2 == l + 1 {
    } else {
        lemma_first_code_spread(lengths, mb, l, (l2 - 1) as nat);
        lemma_pow2_pos((mb - l2) as nat);
        assert(b * (2 * p) <= (b + cb) * (2 * p)) by (nonlinear_arith)
            requires
                cb >= 0,
                p > 0,
        ;
    }
}

/// The code of a present symbol, as `canonical_codes` assigns it.
proof fn lemma_canonical_code_of(lengths: Seq<u8>, codes: Seq<u16>, mb: nat, s: int)
    requires
        spec_canonical_codes(lengths, mb) == Ok::<Seq<u16>, ZstdError>(codes),
        0 <= s < 256,
        lengths[s] > 0,
    ensures
        codes[s] == canonical_code(lengths, s),
        codes[s] >= first_code(lengths, lengths[s] as nat),
        codes[s] + 1 <= first_code(lengths, lengths[s] as nat) + count_len(lengths, 256, lengths[s] as nat),
{
    lemma_first_code_nonneg(lengths, lengths[s] as nat);
    lemma_count_len_strict(lengths, s, 256);
    assert(canonical_code(lengths, s) < 0xFFFF);
}

proof fn lemma_prefix_order(lengths: Seq<u8>, codes: Seq<u16>, mb: nat, s: int, s2: int, idx: nat)
    requires
        forall|j: int| 0 <= j < 256 ==> #[trigger] lengths[j] <= mb,
        spec_canonical_codes(lengths, mb) == Ok::<Seq<u16>, ZstdError>(codes),
        0 <= s < 256,
        0 <= s2 < 256,
        s != s2,
        lengths[s] <= lengths[s2],
    ensures
        !(code_prefixes(lengths, codes, mb, s, idx) && code_prefixes(lengths, codes, mb, s2, idx)),
{
    if code_prefixes(lengths, codes, mb, s, idx) && code_prefixes(lengths, codes, mb, s2, idx) {
        let l = lengths[s] as nat;
        let l2 = lengths[s2] as nat;
        assert(l <= mb && l2 <= mb);
        let d = pow2((mb - l) as nat);
        let d2 = pow2((mb - l2) as nat);
        lemma_pow2_pos((mb - l) as nat);
        lemma_pow2_pos((mb - l2) as nat);
        lemma_canonical_code_of(lengths, codes, mb, s);
        lemma_canonical_code_of(lengths, codes, mb, s2);
        let c = codes[s] as nat;
        let c2 = codes[s2] as nat;
        lemma_div_window(idx, c, d);
        lemma_div_window(idx, c2, d2);
        if l == l2 {
            assert(c == c2);
            if s < s2 {
                lemma_count_len_strict(lengths, s, s2);
            } else {
                lemma_count_len_strict(lengths, s2, s);
            }
        } else {
            let fc = first_code(lengths, l);
            let cnt = count_len(lengths, 256, l) as int;
            let fc2 = first_code(lengths, l2);
            lemma_first_code_spread(lengths, mb, l, l2);
            assert((c + 1) * d <= (fc + cnt) * d) by (nonlinear_arith)
                requires
                    c + 1 <= fc + cnt,
                    d > 0,
            ;
            assert(fc2 * d2 <= c2 * d2) by (nonlinear_arith)
                requires
                    fc2 <= c2,
                    d2 > 0,
            ;
            assert((c + 1) * d == c * d + d) by (nonlinear_arith);
        }
    }
}

/// Canonical codes are prefix free: at most one symbol's code starts any
/// window of `mb` bits.
pub proof fn lemma_canonical_prefix_free(lengths: Seq<u8>, codes: Seq<u16>, mb: nat, s: int, s2: int, idx: nat)
    requires
        forall|j: int| 0 <= j < 256 ==> #[trigger] lengths[j] <= mb,
        spec_canonical_codes(lengths, mb) == Ok::<Seq<u16>, ZstdError>(codes),
        0 <= s < 256,
        0 <= s2 < 256,
        code_prefixes(lengths, codes, mb, s, idx),
        code_prefixes(lengths, codes, mb, s2, idx),
    ensures
        s == s2,
{
    if s != s2 {
        if lengths[s] <= lengths[s2] {
            lemma_prefix_order(lengths, codes, mb, s, s2, idx);
        } else {
            lemma_prefix_order(lengths, codes, mb, s2, s, idx);
        }
    }
}

/// The lookup finds the one symbol whose code starts the window.
proof fn lemma_lookup_unique(lengths: Seq<u8>, codes: Seq<u16>, mb: nat, k: int, s0: int, idx: nat)
    requires
        0 <= s0 < k <= 256,
        code_prefixes(lengths, codes, mb, s0, idx),
        forall|s: int| 0 <= s < k && #[trigger] code_prefixes(lengths, codes, mb, s, idx) ==> s == s0,
    ensures
        lookup_upto(lengths, codes, mb, k, idx) == (s0 as u8, lengths[s0]),
    decreases k,
{
    if k - 1 != s0 {
        lemma_lookup_unique(lengths, codes, mb, k - 1, s0, idx);
    }
}

/// Reading `l + m` bits is reading `l` bits, then `m` more.
proof fn lemma_fwd_peek_split(data: Seq<u8>, c: nat, l: nat, m: nat)
    ensures
        fwd_peek(data, c, l + m) == fwd_peek(data, c, l) * pow2(m) + fwd_peek(data, c + l, m),
    decreases m,
{
    if m == 0 {
        lemma2_to64();
        assert(l + m == l);
    } else {
        lemma_fwd_peek_split(data, c, l, (m - 1) as nat);
        lemma_pow2_unfold(m);
        let p = fwd_peek(data, c, l);
        let q = fwd_peek(data, c + l, (m - 1) as nat);
        let pm = pow2((m - 1) as nat);
        assert(((l + m) - 1) as nat == l + (m - 1) as nat);
        assert(2 * (p * pm + q) == p * (2 * pm) + 2 * q) by (nonlinear_arith);
    }
}

proof fn lemma_shr_step(v: u64, k: u64)
    by (bit_vector)
    requires
        k < 63,
    ensures
        v >> k == 2 * (v >> (k + 1)) + ((v >> k) & 1),
        (v >> k) & 1 == 0 || (v >> k) & 1 == 1,
{
}

proof fn lemma_shr_all(v: u64, l: u64)
    by (bit_vector)
    requires
        l < 64,
        v < (1u64 << l),
    ensures
        v >> l == 0,
{
}

/// Bits laid out as `field_bits(v, l)` read back as `v`: after `n` of them,
/// the value read is `v` without its `l - n` low bits.
proof fn lemma_fwd_peek_field(data: Seq<u8>, c: nat, v: u64, l: nat, n: nat)
    requires
        n <= l < 63,
        v < pow2(l),
        forall|i: int| 0 <= i < n ==> fwd_bit(data, c + i) == #[trigger] field_bits(v, l)[i],
    ensures
        fwd_peek(data, c, n) == (v >> ((l - n) as u64)) as nat,
    decreases n,
{
    if n == 0 {
        vstd::bits::lemma_u64_pow2_no_overflow(l);
        vstd::bits::lemma_u64_shl_is_mul(1, l as u64);
        lemma_shr_all(v, l as u64);
    } else {
        lemma_fwd_peek_field(data, c, v, l, (n - 1) as nat);
        lemma_shr_step(v, (l - n) as u64);
        assert(fwd_bit(data, c + (n - 1)) == field_bits(v, l)[n - 1]);
        assert(((l - (n - 1)) as u64) == ((l - n) as u64) + 1);
        assert((l - 1 - (n - 1)) as u64 == (l - n) as u64);
    }
}

/// The codes of the first `j` symbols are a prefix of the codes of all.
proof fn lemma_code_bits_prefix(lengths: Seq<u8>, codes: Seq<u16>, data: Seq<u8>, j: int)
    requires
        0 <= j <= data.len(),
        code_bits(lengths, codes, data) is Ok,
    ensures
        code_bits(lengths, codes, data.take(j)) is Ok,
        (code_bits(lengths, codes, data.take(j))->Ok_0).len() <= (code_bits(lengths, codes, data)->Ok_0).len(),
        (code_bits(lengths, codes, data)->Ok_0).take((code_bits(lengths, codes, data.take(j))->Ok_0).len() as int)
            == code_bits(lengths, codes, data.take(j))->Ok_0,
    decreases data.len(),
{
    if j == data.len() {
        assert(data.take(j) =~= data);
        let b = code_bits(lengths, codes, data)->Ok_0;
        assert(b.take(b.len() as int) =~= b);
    } else {
        let d = data.drop_last();
        lemma_code_bits_prefix(lengths, codes, d, j);
        assert(d.take(j) =~= data.take(j));
        let b = code_bits(lengths, codes, d)->Ok_0;
        let bj = code_bits(lengths, codes, data.take(j))->Ok_0;
        let sym = data.last();
        let f = field_bits(codes[sym as int] as u64, lengths[sym as int] as nat);
        assert(code_bits(lengths, codes, data)->Ok_0 == b + f);
        assert((b + f).take(bj.len() as int) =~= b.take(bj.len() as int));
    }
}

proof fn lemma_shr_none(v: u64)
    by (bit_vector)
    ensures
        v >> 0u64 == v,
{
}

/// Decoding from where the codes of the first `i` symbols end reads the
/// remaining symbols back.
proof fn lemma_decode_from(lengths: Seq<u8>, codes: Seq<u16>, mb: nat, data: Seq<u8>, bit_count: nat, i: nat)
    requires
        1 <= mb <= 11,
        forall|j: int| 0 <= j < 256 ==> #[trigger] lengths[j] <= mb,
        spec_canonical_codes(lengths, mb) == Ok::<Seq<u16>, ZstdError>(codes),
        codes_fit(lengths, codes),
        code_bits(lengths, codes, data) is Ok,
        (code_bits(lengths, codes, data)->Ok_0).len() <= bit_count,
        i <= data.len(),
    ensures
        ({
            let bits = code_bits(lengths, codes, data)->Ok_0;
            huff_loop(lengths, codes, mb, pack_forward(bits), bit_count, data.len(),
                (code_bits(lengths, codes, data.take(i as int))->Ok_0).len(), data.take(i as int))
                == Ok::<Seq<u8>, ZstdError>(data)
        }),
    decreases data.len() - i,
{
    let bits = code_bits(lengths, codes, data)->Ok_0;
    let dd = pack_forward(bits);
    lemma_code_bits_prefix(lengths, codes, data, i as int);
    let bi = code_bits(lengths, codes, data.take(i as int))->Ok_0;
    let c = bi.len();
    if i == data.len() {
        assert(data.take(i as int) =~= data);
        assert(bi =~= bits);
    } else {
        lemma_code_bits_prefix(lengths, codes, data, i + 1int);
        let sym = data[i as int];
        let l = lengths[sym as int] as nat;
        let code = codes[sym as int];
        assert(data.take(i + 1int).drop_last() =~= data.take(i as int));
        assert(data.take(i + 1int).last() == sym);
        let bi1 = code_bits(lengths, codes, data.take(i + 1int))->Ok_0;
        assert(l > 0);
        assert(bi1 == bi + field_bits(code as u64, l));
        assert(code < pow2(l));
        assert forall|t: int| 0 <= t < l implies fwd_bit(dd, c + t) == #[trigger] field_bits(code as u64, l)[t] by {
            lemma_pack_forward_bits(bits, c + t);
            assert(bits.take(bi1.len() as int)[c + t] == bi1[c + t]);
        }
        lemma_fwd_peek_field(dd, c, code as u64, l, l);
        lemma_shr_none(code as u64);
        assert(fwd_peek(dd, c, l) == code);
        let rest_bits = (mb - l) as nat;
        lemma_fwd_peek_split(dd, c, l, rest_bits);
        lemma_fwd_peek_bound(dd, c + l, rest_bits);
        assert(l + rest_bits == mb);
        let window = fwd_peek(dd, c, mb);
        lemma_pow2_pos(rest_bits);
        lemma_div_window(window, code as nat, pow2(rest_bits));
        assert(code_prefixes(lengths, codes, mb, sym as int, window));
        assert forall|s: int| 0 <= s < 256 && #[trigger] code_prefixes(lengths, codes, mb, s, window) implies s == sym by {
            lemma_canonical_prefix_free(lengths, codes, mb, s, sym as int, window);
        }
        lemma_lookup_unique(lengths, codes, mb, 256, sym as int, window);
        lemma_decode_from(lengths, codes, mb, data, bit_count, i + 1);
        assert(data.take(i as int).push(sym) =~= data.take(i + 1int));
    }
}

/// Law: decoding the bits that [`HuffmanTable::encode`] writes for `data`,
/// with a bit budget of at least their number and the length of `data` as
/// the symbol budget, gives `data` back, for every table whose codes are
/// the canonical codes of its lengths and fit those lengths.
pub proof fn lemma_huffman_roundtrip(t: HuffmanTable, data: Seq<u8>, bit_count: nat)
    requires
        t.wf(),
        spec_canonical_codes(t.lengths@, t.max_bits as nat) == Ok::<Seq<u16>, ZstdError>(t.codes@),
        codes_fit(t.lengths@, t.codes@),
        code_bits(t.lengths@, t.codes@, data) is Ok,
        (code_bits(t.lengths@, t.codes@, data)->Ok_0).len() <= bit_count,
    ensures
        spec_huff_decode(t.lengths@, t.codes@, t.max_bits as nat, pack_forward(code_bits(t.lengths@, t.codes@, data)->Ok_0),
            bit_count, data.len()) == Ok::<Seq<u8>, ZstdError>(data),
{
    lemma_decode_from(t.lengths@, t.codes@, t.max_bits as nat, data, bit_count, 0);
    assert(data.take(0) =~= Seq::<u8>::empty());
}

// ---------------------------------------------------------------------------
// Codes that fit their lengths
// ---------------------------------------------------------------------------

/// Sum of `2^(mb - length)` over the present symbols among the first `k`:
/// how much of a window of `mb` bits their codes cover.
pub open spec fn kraft_sum(lengths: Seq<u8>, mb: nat, k: int) -> nat
    decreases k,
{
    if k <= 0 {
        0
    } else {
        kraft_sum(lengths, mb, k - 1) + if lengths[k - 1] > 0 { pow2((mb - lengths[k - 1]) as nat) } else { 0nat }
    }
}

/// The same cover counted length by length, for the lengths `1..=l`.
spec fn level_sum(lengths: Seq<u8>, mb: nat, k: int, l: nat) -> nat
    decreases l,
{
    if l == 0 {
        0
    } else {
        level_sum(lengths, mb, k, (l - 1) as nat) + count_len(lengths, k, l) * pow2((mb - l) as nat)
    }
}

/// The codes of lengths up to `l` end where the cover of those lengths ends.
proof fn lemma_first_code_cover(lengths: Seq<u8>, mb: nat, l: nat)
    requires
        1 <= l <= mb,
    ensures
        (first_code(lengths, l) + count_len(lengths, 256, l)) * pow2((mb - l) as nat) == level_sum(lengths, mb, 256, l),
    decreases l,
{
    let cnt = count_len(lengths, 256, l) as int;
    let p = pow2((mb - l) as nat) as int;
    let fc = first_code(lengths, l);
    assert((fc + cnt) * p == fc * p + cnt * p) by (nonlinear_arith);
    assert(level_sum(lengths, mb, 256, l) == level_sum(lengths, mb, 256, (l - 1) as nat) + cnt * p);
    if l > 1 {
        let lp = (l - 1) as nat;
        lemma_first_code_cover(lengths, mb, lp);
        let a = first_code(lengths, lp) + count_len(lengths, 256, lp);
        let e = (mb - lp) as nat;
        lemma_pow2_unfold(e);
        assert(e - 1 == mb - l);
        assert(pow2(e) == 2 * p);
        assert(a * pow2(e) == level_sum(lengths, mb, 256, lp));
        assert(fc == a * 2);
        assert((a * 2) * p == a * (2 * p)) by (nonlinear_arith);
    } else {
        assert(fc == 0);
        assert(level_sum(lengths, mb, 256, 0) == 0);
    }
}

/// Adding symbol `k - 1` to the count adds its share to the cover.
proof fn lemma_level_sum_step(lengths: Seq<u8>, mb: nat, k: int, l: nat)
    requires
        k >= 1,
    ensures
        level_sum(lengths, mb, k, l) == level_sum(lengths, mb, k - 1, l)
            + if 1 <= lengths[k - 1] <= l { pow2((mb - lengths[k - 1]) as nat) } else { 0nat },
    decreases l,
{
    if l > 0 {
        lemma_level_sum_step(lengths, mb, k, (l - 1) as nat);
        let p = pow2((mb - l) as nat) as int;
        let c0 = count_len(lengths, k - 1, l) as int;
        assert((c0 + 1) * p == c0 * p + p) by (nonlinear_arith);
    }
}

proof fn lemma_level_sum_is_kraft(lengths: Seq<u8>, mb: nat, k: int)
    requires
        0 <= k <= 256,
        forall|j: int| 0 <= j < 256 ==> #[trigger] lengths[j] <= mb,
    ensures
        level_sum(lengths, mb, k, mb) == kraft_sum(lengths, mb, k),
    decreases k,
{
    if k > 0 {
        lemma_level_sum_is_kraft(lengths, mb, k - 1);
        lemma_level_sum_step(lengths, mb, k, mb);
        assert(lengths[k - 1] <= mb);
    } else {
        lemma_level_sum_zero(lengths, mb, mb);
    }
}

proof fn lemma_level_sum_zero(lengths: Seq<u8>, mb: nat, l: nat)
    ensures
        level_sum(lengths, mb, 0, l) == 0,
    decreases l,
{
    if l > 0 {
        lemma_level_sum_zero(lengths, mb, (l - 1) as nat);
        assert(count_len(lengths, 0, l) == 0);
        assert(level_sum(lengths, mb, 0, l) == level_sum(lengths, mb, 0, (l - 1) as nat) + 0 * pow2((mb - l) as nat));
    }
}

proof fn lemma_level_sum_mono(lengths: Seq<u8>, mb: nat, l: nat, l2: nat)
    requires
        l <= l2,
    ensures
        level_sum(lengths, mb, 256, l) <= level_sum(lengths, mb, 256, l2),
    decreases l2 - l,
{
    if l < l2 {
        lemma_level_sum_mono(lengths, mb, l, (l2 - 1) as nat);
    }
}

/// Canonical codes fit their lengths when the lengths cover no more than a
/// window of `mb` bits.
pub proof fn lemma_canonical_codes_fit(lengths: Seq<u8>, codes: Seq<u16>, mb: nat)
    requires
        forall|j: int| 0 <= j < 256 ==> #[trigger] lengths[j] <= mb,
        spec_canonical_codes(lengths, mb) == Ok::<Seq<u16>, ZstdError>(codes),
        kraft_sum(lengths, mb, 256) <= pow2(mb),
    ensures
        codes_fit(lengths, codes),
{
    assert forall|s: int| 0 <= s < 256 && lengths[s] > 0 implies #[trigger] codes[s] < pow2(lengths[s] as nat) by {
        let l = lengths[s] as nat;
        let d = pow2((mb - l) as nat);
        lemma_canonical_code_of(lengths, codes, mb, s);
        lemma_first_code_cover(lengths, mb, l);
        lemma_level_sum_mono(lengths, mb, l, mb);
        lemma_level_sum_is_kraft(lengths, mb, 256);
        lemma_pow2_adds(l, (mb - l) as nat);
        assert(l + (mb - l) as nat == mb);
        lemma_pow2_pos((mb - l) as nat);
        let fc = first_code(lengths, l);
        let cnt = count_len(lengths, 256, l) as int;
        let c = codes[s] as int;
        let pl = pow2(l) as int;
        assert((c + 1) * d <= (fc + cnt) * d) by (nonlinear_arith)
            requires
                c + 1 <= fc + cnt,
                d > 0,
        ;
        assert(c + 1 <= pl) by (nonlinear_arith)
            requires
                (c + 1) * d <= pl * d,
                d > 0,
        ;
    }
}

proof fn lemma_ceil_log2_covers(x: nat)
    requires
        x >= 1,
    ensures
        x <= pow2(ceil_log2(x)),
    decreases x,
{
    if x <= 1 {
        lemma2_to64();
    } else {
        lemma_ceil_log2_covers(((x + 1) / 2) as nat);
        lemma_pow2_unfold(ceil_log2(x));
    }
}

proof fn lemma_weights_kraft(w: Seq<u8>, mb: nat, k: int)
    requires
        0 <= k <= 256,
        w.len() <= 256,
        forall|i: int| 0 <= i < w.len() ==> #[trigger] w[i] <= mb,
        mb <= 11,
    ensures
        kraft_sum(lengths_from_weights(w, mb), mb, k) == weight_sum(w, if k < w.len() { k } else { w.len() as int }),
    decreases k,
{
    if k > 0 {
        lemma_weights_kraft(w, mb, k - 1);
        let ls = lengths_from_weights(w, mb);
        if k - 1 < w.len() && w[k - 1] > 0 {
            assert(w[k - 1] <= mb);
            assert(ls[k - 1] == mb - w[k - 1] + 1);
            assert((mb - ls[k - 1]) as nat == (w[k - 1] - 1) as nat);
        }
    }
}

/// Law: the codes of every table that [`HuffmanTable::from_weights`] builds
/// fit their lengths.
pub proof fn lemma_from_weights_codes_fit(w: Seq<u8>)
    requires
        spec_from_weights(w) is Ok,
    ensures
        codes_fit((spec_from_weights(w)->Ok_0).0, (spec_from_weights(w)->Ok_0).1),
        1 <= (spec_from_weights(w)->Ok_0).2 <= 11,
        forall|j: int| 0 <= j < 256 ==> #[trigger] (spec_from_weights(w)->Ok_0).0[j] <= (spec_from_weights(w)->Ok_0).2,
{
    let sum = weight_sum(w, w.len() as int);
    let mb = ceil_log2(sum);
    let ls = lengths_from_weights(w, mb);
    assert forall|j: int| 0 <= j < 256 implies #[trigger] ls[j] <= mb by {
        if j < w.len() && w[j] > 0 {
            assert(w[j] <= mb);
        }
    }
    lemma_weights_kraft(w, mb, 256);
    lemma_ceil_log2_covers(sum);
    lemma_canonical_codes_fit(ls, (spec_from_weights(w)->Ok_0).1, mb);
}

/// Law: for a table built by [`HuffmanTable::from_weights`], decoding what
/// [`HuffmanTable::encode`] writes for `data`, with a bit budget of at least
/// the number of bits written, gives `data` back.
pub proof fn lemma_from_weights_roundtrip(w: Seq<u8>, t: HuffmanTable, data: Seq<u8>, bit_count: nat)
    requires
        spec_from_weights(w) == Ok::<(Seq<u8>, Seq<u16>, u8), ZstdError>((t.lengths@, t.codes@, t.max_bits)),
        code_bits(t.lengths@, t.codes@, data) is Ok,
        (code_bits(t.lengths@, t.codes@, data)->Ok_0).len() <= bit_count,
    ensures
        spec_huff_decode(t.lengths@, t.codes@, t.max_bits as nat, pack_forward(code_bits(t.lengths@, t.codes@, data)->Ok_0),
            bit_count, data.len()) == Ok::<Seq<u8>, ZstdError>(data),
{
    lemma_from_weights_codes_fit(w);
    lemma_huffman_roundtrip(t, data, bit_count);
}

// ---------------------------------------------------------------------------
// Table descriptions
// ---------------------------------------------------------------------------

/// Trimming trailing zeros keeps a prefix and drops only zeros.
proof fn lemma_trim_zeros_parts(s: Seq<u8>)
    ensures
        trim_zeros(s).len() <= s.len(),
        forall|k: int| 0 <= k < trim_zeros(s).len() ==> #[trigger] trim_zeros(s)[k] == s[k],
        forall|k: int| trim_zeros(s).len() <= k < s.len() ==> #[trigger] s[k] == 0,
        trim_zeros(s).len() > 0 ==> trim_zeros(s).last() != 0,
    decreases s.len(),
{
    if s.len() > 0 && s.last() == 0 {
        lemma_trim_zeros_parts(s.drop_last());
        assert forall|k: int| trim_zeros(s).len() <= k < s.len() implies #[trigger] s[k] == 0 by {
            if k < s.len() - 1 {
                assert(s.drop_last()[k] == s[k]);
            }
        }
    }
}

proof fn lemma_weight_sum_trailing_zeros(s: Seq<u8>, k: int)
    requires
        0 <= k <= s.len(),
        forall|j: int| k <= j < s.len() ==> #[trigger] s[j] == 0,
    ensures
        weight_sum(s, s.len() as int) == weight_sum(s, k),
    decreases s.len() - k,
{
    if k < s.len() {
        lemma_weight_sum_trailing_zeros_step(s, k, s.len() as int);
    }
}

proof fn lemma_weight_sum_trailing_zeros_step(s: Seq<u8>, k: int, m: int)
    requires
        0 <= k <= m <= s.len(),
        forall|j: int| k <= j < s.len() ==> #[trigger] s[j] == 0,
    ensures
        weight_sum(s, m) == weight_sum(s, k),
    decreases m - k,
{
    if m > k {
        lemma_weight_sum_trailing_zeros_step(s, k, m - 1);
    }
}

proof fn lemma_weight_sum_prefix(a: Seq<u8>, b: Seq<u8>, k: int)
    requires
        0 <= k <= a.len(),
        k <= b.len(),
        forall|j: int| 0 <= j < k ==> #[trigger] a[j] == b[j],
    ensures
        weight_sum(a, k) == weight_sum(b, k),
    decreases k,
{
    if k > 0 {
        lemma_weight_sum_prefix(a, b, k - 1);
    }
}

/// The weights of a table add up to its cover.
proof fn lemma_full_weights_sum(lengths: Seq<u8>, mb: nat, k: int)
    requires
        0 <= k <= 256,
        1 <= mb <= 11,
        forall|j: int| 0 <= j < 256 ==> #[trigger] lengths[j] <= mb,
    ensures
        weight_sum(Seq::new(256, |s: int| if lengths[s] > 0 { (mb - lengths[s] + 1) as u8 } else { 0u8 }), k)
            == kraft_sum(lengths, mb, k),
    decreases k,
{
    if k > 0 {
        lemma_full_weights_sum(lengths, mb, k - 1);
        assert(lengths[k - 1] <= mb);
    }
}

/// `ceil_log2(x)` is `k` when `x` lies above half of `2^k` and within it.
proof fn lemma_ceil_log2_exact(x: nat, k: nat)
    requires
        k >= 1,
        pow2((k - 1) as nat) < x <= pow2(k),
    ensures
        ceil_log2(x) == k,
    decreases k,
{
    lemma_pow2_unfold(k);
    lemma_pow2_pos((k - 1) as nat);
    if k == 1 {
        lemma2_to64();
        assert(x == 2);
        assert(ceil_log2(1) == 0);
    } else {
        lemma_pow2_unfold((k - 1) as nat);
        lemma_ceil_log2_exact(((x + 1) / 2) as nat, (k - 1) as nat);
    }
}

/// The direct description of weights `w` reads back as `w`, whatever
/// follows it.
proof fn lemma_direct_weights_of_header(w: Seq<u8>, rest: Seq<u8>)
    requires
        1 <= w.len() <= 128,
        forall|i: int| 0 <= i < w.len() ==> #[trigger] w[i] <= 15,
    ensures
        (spec_write_header(w) + rest)[0] == w.len() + 127,
        spec_write_header(w).len() == 1 + (w.len() + 1) / 2,
        direct_weights(spec_write_header(w) + rest, w.len()) == w,
{
    let n = w.len();
    let header = spec_write_header(w) + rest;
    assert forall|i: int| 0 <= i < n implies #[trigger] direct_weights(header, n)[i] == w[i] by {
        let j = i / 2;
        let lo = w[2 * j];
        let hi = if 2 * j + 1 < n { w[2 * j + 1] } else { 0u8 };
        assert(header[1 + j] == spec_write_header(w)[1 + j]);
        assert(header[1 + j] == lo + 16 * hi);
        if i % 2 == 0 {
            assert(i == 2 * j);
            assert((lo + 16 * hi) % 16 == lo);
        } else {
            assert(i == 2 * j + 1);
            assert((lo + 16 * hi) / 16 == hi);
        }
    }
    assert(direct_weights(header, n) =~= w);
}

/// The weights of a table without symbols above 127: what `from_weights`
/// needs to rebuild it.
proof fn lemma_table_weights(t: HuffmanTable)
    requires
        t.wf(),
        0 < kraft_sum(t.lengths@, t.max_bits as nat, 256),
        forall|s: int| 128 <= s < 256 ==> #[trigger] t.lengths@[s] == 0,
    ensures
        ({
            let w = spec_to_weights(t.lengths@, t.max_bits);
            &&& 1 <= w.len() <= 128
            &&& forall|i: int| 0 <= i < w.len() ==> #[trigger] w[i] <= t.max_bits && w[i] <= 15
            &&& weight_sum(w, w.len() as int) == kraft_sum(t.lengths@, t.max_bits as nat, 256)
            &&& lengths_from_weights(w, t.max_bits as nat) == t.lengths@
        }),
{
    let lengths = t.lengths@;
    let mb = t.max_bits as nat;
    let full = Seq::new(256, |s: int| if lengths[s] > 0 { (mb - lengths[s] + 1) as u8 } else { 0u8 });
    let w = spec_to_weights(lengths, t.max_bits);
    assert(w == trim_zeros(full));
    lemma_trim_zeros_parts(full);
    let n = w.len();
    assert(n <= 128) by {
        if n > 128 {
            assert(w[n - 1] != 0);
            assert(w[n - 1] == full[n - 1]);
            assert(lengths[n - 1] == 0);
        }
    }
    lemma_full_weights_sum(lengths, mb, 256);
    lemma_weight_sum_trailing_zeros(full, n as int);
    lemma_weight_sum_prefix(w, full, n as int);
    assert(n > 0) by {
        if n == 0 {
            assert(weight_sum(w, 0) == 0);
        }
    }
    assert forall|i: int| 0 <= i < n implies #[trigger] w[i] <= mb && w[i] <= 15 by {
        assert(w[i] == full[i]);
    }
    assert(lengths_from_weights(w, mb) =~= lengths) by {
        assert forall|s: int| 0 <= s < 256 implies #[trigger] lengths_from_weights(w, mb)[s] == lengths[s] by {
            if s < n {
                assert(w[s] == full[s]);
            } else {
                assert(full[s] == 0);
            }
        }
    }
}

/// Law: reading back the direct description written for a table, whatever
/// follows it, gives the same table and uses every byte written, for every
/// table whose codes are canonical, whose longest code is as short as its
/// lengths allow (they cover more than half of a window of `max_bits` bits
/// and no more than the whole) and which has no symbol above 127.
pub proof fn lemma_header_roundtrip(t: HuffmanTable, rest: Seq<u8>)
    requires
        t.wf(),
        spec_canonical_codes(t.lengths@, t.max_bits as nat) == Ok::<Seq<u16>, ZstdError>(t.codes@),
        pow2((t.max_bits - 1) as nat) < kraft_sum(t.lengths@, t.max_bits as nat, 256) <= pow2(t.max_bits as nat),
        forall|s: int| 128 <= s < 256 ==> #[trigger] t.lengths@[s] == 0,
    ensures
        ({
            let header = spec_write_header(spec_to_weights(t.lengths@, t.max_bits));
            spec_read_huffman_header(header + rest)
                == Ok::<((Seq<u8>, Seq<u16>, u8), nat), ZstdError>(((t.lengths@, t.codes@, t.max_bits), header.len()))
        }),
{
    let mb = t.max_bits as nat;
    let w = spec_to_weights(t.lengths@, t.max_bits);
    lemma_pow2_pos((mb - 1) as nat);
    lemma_table_weights(t);
    lemma_direct_weights_of_header(w, rest);
    let sum = weight_sum(w, w.len() as int);
    lemma2_to64();
    lemma_pow2_strictly_increases(mb, 12);
    lemma_ceil_log2_exact(sum, mb);
    assert(!(exists|i: int| 0 <= i < w.len() && #[trigger] w[i] > 32));
    assert(!(exists|i: int| 0 <= i < w.len() && #[trigger] w[i] > mb));
    assert(spec_from_weights(w) == Ok::<(Seq<u8>, Seq<u16>, u8), ZstdError>((t.lengths@, t.codes@, t.max_bits)));
}

proof fn lemma_ceil_log2_tight(x: nat)
    requires
        x >= 2,
    ensures
        ceil_log2(x) >= 1,
        pow2((ceil_log2(x) - 1) as nat) < x,
    decreases x,
{
    let y = ((x + 1) / 2) as nat;
    if y <= 1 {
        lemma2_to64();
    } else {
        lemma_ceil_log2_tight(y);
        lemma_pow2_unfold(ceil_log2(y));
    }
}

/// Law: reading back the direct description written for a table that
/// [`HuffmanTable::from_weights`] built, whatever follows it, gives the same
/// table and uses every byte written, when no symbol above 127 has a weight.
pub proof fn lemma_from_weights_header_roundtrip(w: Seq<u8>, t: HuffmanTable, rest: Seq<u8>)
    requires
        spec_from_weights(w) == Ok::<(Seq<u8>, Seq<u16>, u8), ZstdError>((t.lengths@, t.codes@, t.max_bits)),
        forall|s: int| 128 <= s < w.len() ==> #[trigger] w[s] == 0,
    ensures
        ({
            let header = spec_write_header(spec_to_weights(t.lengths@, t.max_bits));
            spec_read_huffman_header(header + rest)
                == Ok::<((Seq<u8>, Seq<u16>, u8), nat), ZstdError>(((t.lengths@, t.codes@, t.max_bits), header.len()))
        }),
{
    lemma_from_weights_codes_fit(w);
    let sum = weight_sum(w, w.len() as int);
    let mb = t.max_bits as nat;
    lemma_weights_kraft(w, mb, 256);
    lemma_ceil_log2_covers(sum);
    lemma_ceil_log2_tight(sum);
    assert forall|s: int| 128 <= s < 256 implies #[trigger] t.lengths@[s] == 0 by {
        assert(t.lengths@ == lengths_from_weights(w, mb));
        if s < w.len() {
            assert(w[s] == 0);
        }
    }
    lemma_header_roundtrip(t, rest);
}

} // verus!
