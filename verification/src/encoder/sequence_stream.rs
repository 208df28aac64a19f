//! The bitstream of a sequences section as the block encoder writes it
//! with the predefined tables, and what a decoder reads back from it.
use vstd::prelude::*;
use vstd::arithmetic::power2::*;
use crate::error::{Result, ZstdError};
use crate::decoder::sequences::{
    decode_seq_loop, seq_step, spec_decode_bitstream, spec_decode_sequences, update_offsets, Sequence,
};
use crate::encoder::block::{count_bytes, inverse_step, lemma_sequence_count_roundtrip, EncodedSequence};
use crate::fse::{
    backward_stream, bits_below, field_bits, lemma_backward_stream_roundtrip, sentinel_pos, spec_decode_table, stream_bit,
    take_bits, FseDecodeEntry,
};
use crate::tables::sequences::{
    LITERALS_LENGTH_DEFAULT_ACCURACY, LITERALS_LENGTH_DEFAULT_NORM, LITERALS_LENGTH_EXTRA, MATCH_LENGTH_DEFAULT_ACCURACY,
    MATCH_LENGTH_DEFAULT_NORM, MATCH_LENGTH_EXTRA, OFFSET_DEFAULT_ACCURACY, OFFSET_DEFAULT_NORM,
};

verus! {

/// Whether the codes of `sq` are in range and its extra values fit the bits
/// its codes give them.
pub open spec fn coded_fits(sq: EncodedSequence) -> bool {
    &&& sq.ll_code < 36
    &&& sq.ml_code < 53
    &&& sq.of_code < 32
    &&& sq.ll_extra < pow2(LITERALS_LENGTH_EXTRA@[sq.ll_code as int].1 as nat)
    &&& sq.ml_extra < pow2(MATCH_LENGTH_EXTRA@[sq.ml_code as int].1 as nat)
    &&& sq.of_extra < pow2(sq.of_code as nat)
}

/// The sequences that coded sequences `k..` stand for, after repeat offsets
/// `rep`, appended to `acc`; with the repeat offsets where it stops.
pub open spec fn coded_sequences(seqs: Seq<EncodedSequence>, k: nat, rep: Seq<usize>, acc: Seq<Sequence>) -> (Result<Seq<Sequence>>, Seq<usize>)
    decreases seqs.len() - k,
{
    if k >= seqs.len() {
        (Ok(acc), rep)
    } else {
        let sq = seqs[k as int];
        match update_offsets((pow2(sq.of_code as nat) + sq.of_extra) as nat, sq.ll_code as u8, rep) {
            None => (Err(ZstdError::CorruptData("zero repeat offset")), rep),
            Some((offset, rep1)) => coded_sequences(seqs, k + 1, rep1, acc.push(Sequence {
                literal_length: (LITERALS_LENGTH_EXTRA@[sq.ll_code as int].0 + sq.ll_extra) as usize,
                match_length: (MATCH_LENGTH_EXTRA@[sq.ml_code as int].0 + sq.ml_extra) as usize,
                offset,
            })),
        }
    }
}

/// The extra bits of a sequence: offset, match length, literal length.
pub open spec fn extra_bits(sq: EncodedSequence) -> Seq<bool> {
    field_bits(sq.of_extra as u64, sq.of_code as nat)
        + field_bits(sq.ml_extra as u64, MATCH_LENGTH_EXTRA@[sq.ml_code as int].1 as nat)
        + field_bits(sq.ll_extra as u64, LITERALS_LENGTH_EXTRA@[sq.ll_code as int].1 as nat)
}

/// The bits of the state transitions: literal length, match length, offset.
pub open spec fn transition_bits(ll: (u16, u8), ml: (u16, u8), of: (u16, u8)) -> Seq<bool> {
    field_bits(ll.0 as u64, ll.1 as nat) + field_bits(ml.0 as u64, ml.1 as nat) + field_bits(of.0 as u64, of.1 as nat)
}

/// The bits of sequences `k..`: each one's extra bits, then, but for the
/// last, the transitions to the next states, found at index `n - 2 - k`
/// of the transition lists.
pub open spec fn body_bits(seqs: Seq<EncodedSequence>, llb: Seq<(u16, u8)>, mlb: Seq<(u16, u8)>, ofb: Seq<(u16, u8)>, k: nat) -> Seq<bool>
    decreases seqs.len() - k,
{
    if k >= seqs.len() {
        Seq::empty()
    } else {
        let j = seqs.len() - 2 - k;
        extra_bits(seqs[k as int])
            + (if k + 1 < seqs.len() { transition_bits(llb[j], mlb[j], ofb[j]) } else { Seq::empty() })
            + body_bits(seqs, llb, mlb, ofb, k + 1)
    }
}

proof fn lemma_shr_step(v: u64, k: u64)
    by (bit_vector)
    requires
        k < 63,
    ensures
        v >> k == 2 * (v >> (k + 1)) + ((v >> k) & 1),
        (v >> k) & 1 == 0 || (v >> k) & 1 == 1,
{
}

proof fn lemma_shr_all(v: u64, l: u64)
    by (bit_vector)
    requires
        l < 64,
        v < (1u64 << l),
    ensures
        v >> l == 0,
{
}

proof fn lemma_shr_none(v: u64)
    by (bit_vector)
    ensures
        v >> 0u64 == v,
{
}

/// Reading below bit `w.len() - m` of the stream of `w` reads `w` from
/// index `m` on: after `j` of the `c` bits of `field_bits(v, c)`, the value
/// read is `v` without its `c - j` low bits.
proof fn lemma_read_field_bits(w: Seq<bool>, m: nat, v: u64, c: nat, j: nat)
    requires
        j <= c < 63,
        m + c <= w.len(),
        v < pow2(c),
        w.subrange(m as int, (m + c) as int) == field_bits(v, c),
    ensures
        bits_below(backward_stream(w), w.len() - m, j) == (v >> ((c - j) as u64)) as nat,
    decreases j,
{
    if j == 0 {
        vstd::bits::lemma_u64_pow2_no_overflow(c);
        vstd::bits::lemma_u64_shl_is_mul(1, c as u64);
        lemma_shr_all(v, c as u64);
    } else {
        lemma_read_field_bits(w, m, v, c, (j - 1) as nat);
        lemma_shr_step(v, (c - j) as u64);
        lemma_backward_stream_roundtrip(w);
        let k = m + j - 1;
        assert(stream_bit(backward_stream(w), w.len() - 1 - k) == w[k as int]);
        assert(w[k as int] == w.subrange(m as int, (m + c) as int)[j - 1]);
        assert(((c - (j - 1)) as u64) == ((c - j) as u64) + 1);
        assert((c - 1 - (j - 1)) as u64 == (c - j) as u64);
        assert((w.len() - m) - j == w.len() - 1 - k);
    }
}

/// Taking `c` bits at `w.len() - m` gives `v` when `w` holds
/// `field_bits(v, c)` from index `m` on.
pub proof fn lemma_take_field_bits(w: Seq<bool>, m: nat, v: u64, c: nat)
    requires
        c < 63,
        m + c <= w.len(),
        v < pow2(c),
        w.subrange(m as int, (m + c) as int) == field_bits(v, c),
    ensures
        take_bits(backward_stream(w), (w.len() - m) as nat, c) == Some::<(nat, nat)>((v as nat, (w.len() - m - c) as nat)),
{
    lemma_read_field_bits(w, m, v, c, c);
    lemma_shr_none(v);
}

/// The states a decoder walks through for one of the three codes: `st[k]`
/// decodes to `codes[k]`, and, but for the last, reading the bits at index
/// `n - 2 - k` of `tb` moves it to `st[k + 1]`.
#[verifier::opaque]
pub open spec fn chain_ok(t: Seq<FseDecodeEntry>, codes: Seq<usize>, st: Seq<u16>, tb: Seq<(u16, u8)>) -> bool {
    let n = codes.len();
    &&& n >= 1
    &&& st.len() == n
    &&& tb.len() == n - 1
    &&& st[n - 1] < t.len()
    &&& t[st[n - 1] as int].symbol == codes[n - 1]
    &&& forall|k: int| 0 <= k < n - 1 ==> #[trigger] tb[k].1 <= 12
    &&& forall|k: int| #![trigger st[k]] 0 <= k < n - 1 ==>
        inverse_step(t, codes[k] as int, st[k + 1] as int, st[k] as int, tb[n - 2 - k].0 as int, tb[n - 2 - k].1 as int)
}

pub open spec fn ll_codes(seqs: Seq<EncodedSequence>) -> Seq<usize> {
    seqs.map_values(|s: EncodedSequence| s.ll_code)
}

pub open spec fn ml_codes(seqs: Seq<EncodedSequence>) -> Seq<usize> {
    seqs.map_values(|s: EncodedSequence| s.ml_code)
}

pub open spec fn of_codes(seqs: Seq<EncodedSequence>) -> Seq<usize> {
    seqs.map_values(|s: EncodedSequence| s.of_code)
}

/// A sequence of bits `a + b + c` found at the end of `w`: where `a`, `b`
/// and `c` stand in `w`.
proof fn lemma_split3(w: Seq<bool>, a: Seq<bool>, b: Seq<bool>, c: Seq<bool>)
    requires
        a.len() + b.len() + c.len() <= w.len(),
        w.subrange(w.len() - (a + b + c).len(), w.len() as int) == a + b + c,
    ensures
        ({
            let m = w.len() - (a + b + c).len();
            &&& w.subrange(m, m + a.len()) == a
            &&& w.subrange(m + a.len(), m + a.len() + b.len()) == b
            &&& w.subrange(w.len() - c.len(), w.len() as int) == c
        }),
{
    let m = w.len() - (a + b + c).len();
    let t = a + b + c;
    assert(w.subrange(m, m + a.len()) =~= t.subrange(0, a.len() as int));
    assert(t.subrange(0, a.len() as int) =~= a);
    assert(w.subrange(m + a.len(), m + a.len() + b.len()) =~= t.subrange(a.len() as int, (a.len() + b.len()) as int));
    assert(t.subrange(a.len() as int, (a.len() + b.len()) as int) =~= b);
    assert(w.subrange(w.len() - c.len(), w.len() as int) =~= t.subrange((a.len() + b.len()) as int, t.len() as int));
    assert(t.subrange((a.len() + b.len()) as int, t.len() as int) =~= c);
}

/// Reading three fields one after the other, from where they begin in `w`.
#[verifier::rlimit(40)]
proof fn lemma_read3(w: Seq<bool>, m: nat, v1: u64, c1: nat, v2: u64, c2: nat, v3: u64, c3: nat)
    requires
        c1 < 63,
        c2 < 63,
        c3 < 63,
        v1 < pow2(c1),
        v2 < pow2(c2),
        v3 < pow2(c3),
        m + c1 + c2 + c3 <= w.len(),
        w.subrange(m as int, (m + c1 + c2 + c3) as int) == field_bits(v1, c1) + field_bits(v2, c2) + field_bits(v3, c3),
    ensures
        ({
            let d = backward_stream(w);
            let p = (w.len() - m) as nat;
            &&& take_bits(d, p, c1) == Some::<(nat, nat)>((v1 as nat, (p - c1) as nat))
            &&& take_bits(d, (p - c1) as nat, c2) == Some::<(nat, nat)>((v2 as nat, (p - c1 - c2) as nat))
            &&& take_bits(d, (p - c1 - c2) as nat, c3) == Some::<(nat, nat)>((v3 as nat, (p - c1 - c2 - c3) as nat))
        }),
{
    let f1 = field_bits(v1, c1);
    let f2 = field_bits(v2, c2);
    let f3 = field_bits(v3, c3);
    let t = f1 + f2 + f3;
    assert(w.subrange(m as int, (m + c1) as int) =~= t.subrange(0, c1 as int));
    assert(t.subrange(0, c1 as int) =~= f1);
    lemma_take_field_bits(w, m, v1, c1);
    assert(w.subrange((m + c1) as int, (m + c1 + c2) as int) =~= t.subrange(c1 as int, (c1 + c2) as int));
    assert(t.subrange(c1 as int, (c1 + c2) as int) =~= f2);
    lemma_take_field_bits(w, m + c1, v2, c2);
    assert(w.subrange((m + c1 + c2) as int, (m + c1 + c2 + c3) as int) =~= t.subrange((c1 + c2) as int, (c1 + c2 + c3) as int));
    assert(t.subrange((c1 + c2) as int, (c1 + c2 + c3) as int) =~= f3);
    lemma_take_field_bits(w, m + c1 + c2, v3, c3);
}

/// The transition bits of a chain are no wider than 12 bits.
pub proof fn lemma_chain_bits(t: Seq<FseDecodeEntry>, codes: Seq<usize>, st: Seq<u16>, tb: Seq<(u16, u8)>)
    requires
        chain_ok(t, codes, st, tb),
    ensures
        codes.len() >= 1,
        st.len() == codes.len(),
        tb.len() == codes.len() - 1,
        forall|k: int| 0 <= k < tb.len() ==> #[trigger] tb[k].1 <= 12,
{
    reveal(chain_ok);
}

/// What [`chain_ok`] says of the lengths.
proof fn lemma_chain_len(t: Seq<FseDecodeEntry>, codes: Seq<usize>, st: Seq<u16>, tb: Seq<(u16, u8)>)
    requires
        chain_ok(t, codes, st, tb),
    ensures
        codes.len() >= 1,
        st.len() == codes.len(),
        tb.len() == codes.len() - 1,
{
    reveal(chain_ok);
}

/// What [`chain_ok`] says of state `k`.
proof fn lemma_chain_at(t: Seq<FseDecodeEntry>, codes: Seq<usize>, st: Seq<u16>, tb: Seq<(u16, u8)>, k: int)
    requires
        chain_ok(t, codes, st, tb),
        0 <= k < codes.len(),
    ensures
        st.len() == codes.len(),
        tb.len() == codes.len() - 1,
        st[k] < t.len(),
        t[st[k] as int].symbol == codes[k],
        k + 1 < codes.len() ==> {
            let b = tb[codes.len() - 2 - k];
            &&& b.1 <= 12
            &&& t[st[k] as int].num_bits == b.1
            &&& b.0 < pow2(b.1 as nat)
            &&& t[st[k] as int].base_line + b.0 == st[k + 1]
        },
{
    reveal(chain_ok);
    if k + 1 < codes.len() {
        assert(st[k] == st[k]);
        assert(tb[codes.len() - 2 - k].1 <= 12);
    }
}

/// One step of decoding, from the facts it depends on.
proof fn lemma_seq_step_reads(
    d: Seq<u8>,
    llt: Seq<FseDecodeEntry>,
    oft: Seq<FseDecodeEntry>,
    mlt: Seq<FseDecodeEntry>,
    last: bool,
    p: nat,
    ls: nat,
    os: nat,
    ms: nat,
    rep: Seq<usize>,
    sq: EncodedSequence,
    lt: (u16, u8),
    mt: (u16, u8),
    ot: (u16, u8),
)
    requires
        ls < llt.len(),
        os < oft.len(),
        ms < mlt.len(),
        llt[ls as int].symbol == sq.ll_code,
        mlt[ms as int].symbol == sq.ml_code,
        oft[os as int].symbol == sq.of_code,
        coded_fits(sq),
        ({
            let c1 = sq.of_code as nat;
            let c2 = MATCH_LENGTH_EXTRA@[sq.ml_code as int].1 as nat;
            let c3 = LITERALS_LENGTH_EXTRA@[sq.ll_code as int].1 as nat;
            &&& p >= c1 + c2 + c3
            &&& take_bits(d, p, c1) == Some::<(nat, nat)>((sq.of_extra as nat, (p - c1) as nat))
            &&& take_bits(d, (p - c1) as nat, c2) == Some::<(nat, nat)>((sq.ml_extra as nat, (p - c1 - c2) as nat))
            &&& take_bits(d, (p - c1 - c2) as nat, c3) == Some::<(nat, nat)>((sq.ll_extra as nat, (p - c1 - c2 - c3) as nat))
            &&& !last ==> {
                let q = (p - c1 - c2 - c3) as nat;
                &&& llt[ls as int].num_bits == lt.1
                &&& mlt[ms as int].num_bits == mt.1
                &&& oft[os as int].num_bits == ot.1
                &&& q >= lt.1 + mt.1 + ot.1
                &&& take_bits(d, q, lt.1 as nat) == Some::<(nat, nat)>((lt.0 as nat, (q - lt.1) as nat))
                &&& take_bits(d, (q - lt.1) as nat, mt.1 as nat) == Some::<(nat, nat)>((mt.0 as nat, (q - lt.1 - mt.1) as nat))
                &&& take_bits(d, (q - lt.1 - mt.1) as nat, ot.1 as nat) == Some::<(nat, nat)>((ot.0 as nat, (q - lt.1 - mt.1 - ot.1) as nat))
            }
        }),
    ensures
        ({
            let step = seq_step(d, llt, oft, mlt, last, p, ls, os, ms, rep);
            let c = sq.of_code + MATCH_LENGTH_EXTRA@[sq.ml_code as int].1 + LITERALS_LENGTH_EXTRA@[sq.ll_code as int].1;
            match update_offsets((pow2(sq.of_code as nat) + sq.of_extra) as nat, sq.ll_code as u8, rep) {
                None => step == (Err::<(Sequence, nat, nat, nat, nat), ZstdError>(ZstdError::CorruptData("zero repeat offset")), rep),
                Some((offset, rep1)) => {
                    &&& step.1 == rep1
                    &&& step.0 is Ok
                    &&& (step.0->Ok_0).0 == Sequence {
                        literal_length: (LITERALS_LENGTH_EXTRA@[sq.ll_code as int].0 + sq.ll_extra) as usize,
                        match_length: (MATCH_LENGTH_EXTRA@[sq.ml_code as int].0 + sq.ml_extra) as usize,
                        offset,
                    }
                    &&& !last ==> (step.0->Ok_0).1 == p - c - lt.1 - mt.1 - ot.1
                        && (step.0->Ok_0).2 == llt[ls as int].base_line + lt.0
                        && (step.0->Ok_0).3 == oft[os as int].base_line + ot.0
                        && (step.0->Ok_0).4 == mlt[ms as int].base_line + mt.0
                },
            }
        }),
{
}

/// One step of decoding: sequence `k` read from where its bits begin.
#[verifier::rlimit(100)]
proof fn lemma_decode_step(
    seqs: Seq<EncodedSequence>,
    llt: Seq<FseDecodeEntry>,
    oft: Seq<FseDecodeEntry>,
    mlt: Seq<FseDecodeEntry>,
    ls: Seq<u16>,
    os: Seq<u16>,
    ms: Seq<u16>,
    llb: Seq<(u16, u8)>,
    mlb: Seq<(u16, u8)>,
    ofb: Seq<(u16, u8)>,
    w: Seq<bool>,
    k: nat,
    rep: Seq<usize>,
)
    requires
        chain_ok(llt, ll_codes(seqs), ls, llb),
        chain_ok(mlt, ml_codes(seqs), ms, mlb),
        chain_ok(oft, of_codes(seqs), os, ofb),
        k < seqs.len(),
        coded_fits(seqs[k as int]),
        body_bits(seqs, llb, mlb, ofb, k).len() <= w.len(),
        w.subrange(w.len() - body_bits(seqs, llb, mlb, ofb, k).len(), w.len() as int) == body_bits(seqs, llb, mlb, ofb, k),
    ensures
        w.subrange(w.len() - body_bits(seqs, llb, mlb, ofb, k + 1).len(), w.len() as int) == body_bits(seqs, llb, mlb, ofb, k + 1),
        ({
            let sq = seqs[k as int];
            let step = seq_step(backward_stream(w), llt, oft, mlt, k + 1 >= seqs.len(), body_bits(seqs, llb, mlb, ofb, k).len(),
                ls[k as int] as nat, os[k as int] as nat, ms[k as int] as nat, rep);
            match update_offsets((pow2(sq.of_code as nat) + sq.of_extra) as nat, sq.ll_code as u8, rep) {
                None => step == (Err::<(Sequence, nat, nat, nat, nat), ZstdError>(ZstdError::CorruptData("zero repeat offset")), rep),
                Some((offset, rep1)) => {
                    &&& step.1 == rep1
                    &&& step.0 is Ok
                    &&& (step.0->Ok_0).0 == Sequence {
                        literal_length: (LITERALS_LENGTH_EXTRA@[sq.ll_code as int].0 + sq.ll_extra) as usize,
                        match_length: (MATCH_LENGTH_EXTRA@[sq.ml_code as int].0 + sq.ml_extra) as usize,
                        offset,
                    }
                    &&& k + 1 < seqs.len() ==> (step.0->Ok_0).1 == body_bits(seqs, llb, mlb, ofb, k + 1).len()
                        && (step.0->Ok_0).2 == ls[k + 1int] && (step.0->Ok_0).3 == os[k + 1int] && (step.0->Ok_0).4 == ms[k + 1int]
                },
            }
        }),
{
    let n = seqs.len();
    let sq = seqs[k as int];
    let body = body_bits(seqs, llb, mlb, ofb, k);
    let next = body_bits(seqs, llb, mlb, ofb, k + 1);
    let mlx = MATCH_LENGTH_EXTRA@[sq.ml_code as int].1 as nat;
    let llx = LITERALS_LENGTH_EXTRA@[sq.ll_code as int].1 as nat;
    let ex = extra_bits(sq);
    let j = n - 2 - k;
    let tr = if k + 1 < n { transition_bits(llb[j], mlb[j], ofb[j]) } else { Seq::<bool>::empty() };
    assert(body == ex + tr + next);
    lemma_split3(w, ex, tr, next);
    crate::encoder::block::lemma_tables_small();
    assert(mlx <= 16 && llx <= 16);
    let m = (w.len() - body.len()) as nat;
    lemma_read3(w, m, sq.of_extra as u64, sq.of_code as nat, sq.ml_extra as u64, mlx, sq.ll_extra as u64, llx);
    assert(ll_codes(seqs)[k as int] == sq.ll_code);
    assert(ml_codes(seqs)[k as int] == sq.ml_code);
    assert(of_codes(seqs)[k as int] == sq.of_code);
    lemma_chain_at(llt, ll_codes(seqs), ls, llb, k as int);
    lemma_chain_at(mlt, ml_codes(seqs), ms, mlb, k as int);
    lemma_chain_at(oft, of_codes(seqs), os, ofb, k as int);
    let p = body.len();
    if k + 1 < n {
        let lt = llb[j];
        let mt = mlb[j];
        let ot = ofb[j];
        lemma_read3(w, m + ex.len(), lt.0 as u64, lt.1 as nat, mt.0 as u64, mt.1 as nat, ot.0 as u64, ot.1 as nat);
        lemma_seq_step_reads(backward_stream(w), llt, oft, mlt, false, p, ls[k as int] as nat, os[k as int] as nat,
            ms[k as int] as nat, rep, sq, lt, mt, ot);
    } else {
        lemma_seq_step_reads(backward_stream(w), llt, oft, mlt, true, p, ls[k as int] as nat, os[k as int] as nat,
            ms[k as int] as nat, rep, sq, (0u16, 0u8), (0u16, 0u8), (0u16, 0u8));
    }
}

/// Decoding sequences `k..` from where their bits begin, with the states
/// the encoder chose, gives the sequences they stand for.
proof fn lemma_decode_body(
    seqs: Seq<EncodedSequence>,
    llt: Seq<FseDecodeEntry>,
    oft: Seq<FseDecodeEntry>,
    mlt: Seq<FseDecodeEntry>,
    ls: Seq<u16>,
    os: Seq<u16>,
    ms: Seq<u16>,
    llb: Seq<(u16, u8)>,
    mlb: Seq<(u16, u8)>,
    ofb: Seq<(u16, u8)>,
    w: Seq<bool>,
    k: nat,
    rep: Seq<usize>,
    acc: Seq<Sequence>,
)
    requires
        chain_ok(llt, ll_codes(seqs), ls, llb),
        chain_ok(mlt, ml_codes(seqs), ms, mlb),
        chain_ok(oft, of_codes(seqs), os, ofb),
        forall|i: int| 0 <= i < seqs.len() ==> coded_fits(#[trigger] seqs[i]),
        k <= seqs.len(),
        body_bits(seqs, llb, mlb, ofb, k).len() <= w.len(),
        w.subrange(w.len() - body_bits(seqs, llb, mlb, ofb, k).len(), w.len() as int) == body_bits(seqs, llb, mlb, ofb, k),
    ensures
        decode_seq_loop(backward_stream(w), llt, oft, mlt, seqs.len(), k, body_bits(seqs, llb, mlb, ofb, k).len(),
            ls[k as int] as nat, os[k as int] as nat, ms[k as int] as nat, rep, acc) == coded_sequences(seqs, k, rep, acc),
    decreases seqs.len() - k,
{
    if k < seqs.len() {
        let sq = seqs[k as int];
        assert(coded_fits(sq));
        lemma_decode_step(seqs, llt, oft, mlt, ls, os, ms, llb, mlb, ofb, w, k, rep);
        match update_offsets((pow2(sq.of_code as nat) + sq.of_extra) as nat, sq.ll_code as u8, rep) {
            None => {},
            Some((offset, rep1)) => {
                let s = Sequence {
                    literal_length: (LITERALS_LENGTH_EXTRA@[sq.ll_code as int].0 + sq.ll_extra) as usize,
                    match_length: (MATCH_LENGTH_EXTRA@[sq.ml_code as int].0 + sq.ml_extra) as usize,
                    offset,
                };
                let d = backward_stream(w);
                let step = seq_step(d, llt, oft, mlt, k + 1 >= seqs.len(), body_bits(seqs, llb, mlb, ofb, k).len(),
                    ls[k as int] as nat, os[k as int] as nat, ms[k as int] as nat, rep);
                let r = step.0->Ok_0;
                assert(r.0 == s);
                assert(decode_seq_loop(d, llt, oft, mlt, seqs.len(), k, body_bits(seqs, llb, mlb, ofb, k).len(),
                    ls[k as int] as nat, os[k as int] as nat, ms[k as int] as nat, rep, acc)
                    == decode_seq_loop(d, llt, oft, mlt, seqs.len(), k + 1, r.1, r.2, r.3, r.4, rep1, acc.push(s)));
                if k + 1 < seqs.len() {
                    lemma_decode_body(seqs, llt, oft, mlt, ls, os, ms, llb, mlb, ofb, w, k + 1, rep1, acc.push(s));
                } else {
                    assert(decode_seq_loop(d, llt, oft, mlt, seqs.len(), k + 1, r.1, r.2, r.3, r.4, rep1, acc.push(s))
                        == (Ok::<Seq<Sequence>, ZstdError>(acc.push(s)), rep1));
                    assert(coded_sequences(seqs, k + 1, rep1, acc.push(s)) == (Ok::<Seq<Sequence>, ZstdError>(acc.push(s)), rep1));
                }
            },
        }
    }
}

/// The whole bitstream: the initial states (literal length, offset, match
/// length) in their tables' accuracy logs, then the sequences.
pub open spec fn stream_bits(
    seqs: Seq<EncodedSequence>,
    llb: Seq<(u16, u8)>,
    mlb: Seq<(u16, u8)>,
    ofb: Seq<(u16, u8)>,
    ls0: u16,
    os0: u16,
    ms0: u16,
) -> Seq<bool> {
    field_bits(ls0 as u64, LITERALS_LENGTH_DEFAULT_ACCURACY as nat) + field_bits(os0 as u64, OFFSET_DEFAULT_ACCURACY as nat)
        + field_bits(ms0 as u64, MATCH_LENGTH_DEFAULT_ACCURACY as nat) + body_bits(seqs, llb, mlb, ofb, 0)
}

/// What decoding the sequences section of coded sequences gives: the
/// sequences they stand for and `len` bytes consumed, or the error, with
/// the repeat offsets after.
pub open spec fn coded_section(seqs: Seq<EncodedSequence>, rep: Seq<usize>, len: nat) -> (Result<(Seq<Sequence>, nat)>, Seq<usize>) {
    match coded_sequences(seqs, 0, rep, Seq::empty()) {
        (Ok(s), r) => (Ok((s, len)), r),
        (Err(e), r) => (Err(e), r),
    }
}

/// The bitstream of coded sequences decodes to the sequences they stand
/// for, with the predefined tables.
proof fn lemma_decode_stream(
    seqs: Seq<EncodedSequence>,
    llt: Seq<FseDecodeEntry>,
    oft: Seq<FseDecodeEntry>,
    mlt: Seq<FseDecodeEntry>,
    ls: Seq<u16>,
    os: Seq<u16>,
    ms: Seq<u16>,
    llb: Seq<(u16, u8)>,
    mlb: Seq<(u16, u8)>,
    ofb: Seq<(u16, u8)>,
    rep: Seq<usize>,
)
    requires
        chain_ok(llt, ll_codes(seqs), ls, llb),
        chain_ok(mlt, ml_codes(seqs), ms, mlb),
        chain_ok(oft, of_codes(seqs), os, ofb),
        forall|i: int| 0 <= i < seqs.len() ==> coded_fits(#[trigger] seqs[i]),
        ls[0] < pow2(LITERALS_LENGTH_DEFAULT_ACCURACY as nat),
        os[0] < pow2(OFFSET_DEFAULT_ACCURACY as nat),
        ms[0] < pow2(MATCH_LENGTH_DEFAULT_ACCURACY as nat),
    ensures
        spec_decode_bitstream(backward_stream(stream_bits(seqs, llb, mlb, ofb, ls[0], os[0], ms[0])), seqs.len(),
            (LITERALS_LENGTH_DEFAULT_ACCURACY, llt), (OFFSET_DEFAULT_ACCURACY, oft), (MATCH_LENGTH_DEFAULT_ACCURACY, mlt), rep)
            == coded_sequences(seqs, 0, rep, Seq::empty()),
{
    let w = stream_bits(seqs, llb, mlb, ofb, ls[0], os[0], ms[0]);
    let body = body_bits(seqs, llb, mlb, ofb, 0);
    lemma_backward_stream_roundtrip(w);
    assert(sentinel_pos(backward_stream(w)) == w.len());
    assert(w.subrange(0, 17) =~= field_bits(ls[0] as u64, 6) + field_bits(os[0] as u64, 5) + field_bits(ms[0] as u64, 6));
    lemma_read3(w, 0, ls[0] as u64, 6, os[0] as u64, 5, ms[0] as u64, 6);
    assert(w.subrange(w.len() - body.len(), w.len() as int) =~= body);
    lemma_decode_body(seqs, llt, oft, mlt, ls, os, ms, llb, mlb, ofb, w, 0, rep, Seq::empty());
}

/// The sequences section of coded sequences, written with the predefined
/// tables, decodes to the sequences they stand for and is read to its end.
/// A sequences section of `n >= 1` sequences with mode byte 0 decodes as
/// its bitstream does with the predefined tables.
#[verifier::rlimit(50)]
proof fn lemma_section_frame(n: nat, stream: Seq<u8>, llt: Seq<FseDecodeEntry>, oft: Seq<FseDecodeEntry>, mlt: Seq<FseDecodeEntry>, rep: Seq<usize>)
    requires
        1 <= n < 0x17F00,
        spec_decode_table(LITERALS_LENGTH_DEFAULT_NORM@, LITERALS_LENGTH_DEFAULT_ACCURACY) == Ok::<Seq<FseDecodeEntry>, ZstdError>(llt),
        spec_decode_table(OFFSET_DEFAULT_NORM@, OFFSET_DEFAULT_ACCURACY) == Ok::<Seq<FseDecodeEntry>, ZstdError>(oft),
        spec_decode_table(MATCH_LENGTH_DEFAULT_NORM@, MATCH_LENGTH_DEFAULT_ACCURACY) == Ok::<Seq<FseDecodeEntry>, ZstdError>(mlt),
    ensures
        ({
            let out = count_bytes(n) + seq![0u8] + stream;
            spec_decode_sequences(out, rep) == match spec_decode_bitstream(stream, n, (LITERALS_LENGTH_DEFAULT_ACCURACY, llt),
                (OFFSET_DEFAULT_ACCURACY, oft), (MATCH_LENGTH_DEFAULT_ACCURACY, mlt), rep) {
                (Err(e), r) => (Err::<(Seq<Sequence>, nat), ZstdError>(e), r),
                (Ok(sqs), r) => (Ok::<(Seq<Sequence>, nat), ZstdError>((sqs, out.len())), r),
            }
        }),
{
    let cb = count_bytes(n);
    let out = cb + seq![0u8] + stream;
    assert(out == cb + (seq![0u8] + stream));
    lemma_sequence_count_roundtrip(n, seq![0u8] + stream);
    let off = cb.len();
    assert(out[off as int] == 0);
    let data = out.skip((off + 1) as int);
    assert(data =~= stream);
    lemma_predefined_tables(data, llt, oft, mlt);
    assert(data.skip(0) =~= stream);
}

/// The sequences section of coded sequences, written with the predefined
/// tables, decodes to the sequences they stand for and is read to its end.
pub proof fn lemma_decode_section(
    seqs: Seq<EncodedSequence>,
    llt: Seq<FseDecodeEntry>,
    oft: Seq<FseDecodeEntry>,
    mlt: Seq<FseDecodeEntry>,
    ls: Seq<u16>,
    os: Seq<u16>,
    ms: Seq<u16>,
    llb: Seq<(u16, u8)>,
    mlb: Seq<(u16, u8)>,
    ofb: Seq<(u16, u8)>,
    rep: Seq<usize>,
)
    requires
        spec_decode_table(LITERALS_LENGTH_DEFAULT_NORM@, LITERALS_LENGTH_DEFAULT_ACCURACY) == Ok::<Seq<FseDecodeEntry>, ZstdError>(llt),
        spec_decode_table(OFFSET_DEFAULT_NORM@, OFFSET_DEFAULT_ACCURACY) == Ok::<Seq<FseDecodeEntry>, ZstdError>(oft),
        spec_decode_table(MATCH_LENGTH_DEFAULT_NORM@, MATCH_LENGTH_DEFAULT_ACCURACY) == Ok::<Seq<FseDecodeEntry>, ZstdError>(mlt),
        chain_ok(llt, ll_codes(seqs), ls, llb),
        chain_ok(mlt, ml_codes(seqs), ms, mlb),
        chain_ok(oft, of_codes(seqs), os, ofb),
        forall|i: int| 0 <= i < seqs.len() ==> coded_fits(#[trigger] seqs[i]),
        seqs.len() < 0x17F00,
        ls[0] < pow2(LITERALS_LENGTH_DEFAULT_ACCURACY as nat),
        os[0] < pow2(OFFSET_DEFAULT_ACCURACY as nat),
        ms[0] < pow2(MATCH_LENGTH_DEFAULT_ACCURACY as nat),
    ensures
        ({
            let out = count_bytes(seqs.len()) + seq![0u8] + backward_stream(stream_bits(seqs, llb, mlb, ofb, ls[0], os[0], ms[0]));
            spec_decode_sequences(out, rep) == coded_section(seqs, rep, out.len())
        }),
{
    lemma_chain_len(llt, ll_codes(seqs), ls, llb);
    assert(ll_codes(seqs).len() == seqs.len());
    let stream = backward_stream(stream_bits(seqs, llb, mlb, ofb, ls[0], os[0], ms[0]));
    lemma_section_frame(seqs.len(), stream, llt, oft, mlt, rep);
    lemma_decode_stream(seqs, llt, oft, mlt, ls, os, ms, llb, mlb, ofb, rep);
}

/// Mode byte 0 selects the three predefined tables and reads no bytes.
proof fn lemma_predefined_tables(data: Seq<u8>, llt: Seq<FseDecodeEntry>, oft: Seq<FseDecodeEntry>, mlt: Seq<FseDecodeEntry>)
    requires
        spec_decode_table(LITERALS_LENGTH_DEFAULT_NORM@, LITERALS_LENGTH_DEFAULT_ACCURACY) == Ok::<Seq<FseDecodeEntry>, ZstdError>(llt),
        spec_decode_table(OFFSET_DEFAULT_NORM@, OFFSET_DEFAULT_ACCURACY) == Ok::<Seq<FseDecodeEntry>, ZstdError>(oft),
        spec_decode_table(MATCH_LENGTH_DEFAULT_NORM@, MATCH_LENGTH_DEFAULT_ACCURACY) == Ok::<Seq<FseDecodeEntry>, ZstdError>(mlt),
    ensures
        crate::decoder::sequences::spec_sequence_tables(data, 0, 0, 0)
            == Ok::<((u8, Seq<FseDecodeEntry>), (u8, Seq<FseDecodeEntry>), (u8, Seq<FseDecodeEntry>), nat), ZstdError>(
            ((LITERALS_LENGTH_DEFAULT_ACCURACY, llt), (OFFSET_DEFAULT_ACCURACY, oft), (MATCH_LENGTH_DEFAULT_ACCURACY, mlt), 0)),
{
    assert(data.skip(0) =~= data);
}

} // verus!
