//! Compressed block encoder.
//!
//! A compressed block is a literals section (raw, RLE or Huffman-coded
//! literal bytes) followed by a sequences section (FSE-coded sequence
//! commands, with the predefined tables for literal lengths, match lengths
//! and offsets).  Every block is checked by decoding it before it is
//! returned; a block that does not decode back to its input is replaced by
//! one that holds the input as raw literals.
use vstd::prelude::*;
use vstd::arithmetic::power2::*;
use crate::decoder::literals::raw_header;
use crate::decoder::raw_block;
use crate::decoder::sequences::{spec_sequence_count, Sequence};
use crate::fse::{FseDecodeEntry, FseDecodeTable};
use crate::encoder::lz77::{bit_len, events_within, parse_model, parse_ranges_events, Event, MatchFinder};
use crate::tables::sequences::{LITERALS_LENGTH_EXTRA, MATCH_LENGTH_EXTRA};

verus! {

/// A sequence as codes and extra bits, ready for entropy coding.
#[derive(Debug, Clone, Copy)]
pub struct EncodedSequence {
    pub ll_code: usize,
    pub ll_extra: u32,
    pub ml_code: usize,
    pub ml_extra: u32,
    pub of_code: usize,
    pub of_extra: u32,
}

// ---------------------------------------------------------------------------
// Length and offset codes
// ---------------------------------------------------------------------------

/// The largest value a length-code table covers.
pub open spec fn max_value(t: Seq<(u32, u8)>, k: int) -> nat
    decreases k,
{
    if k <= 0 {
        0
    } else {
        let v = (t[k - 1].0 + pow2(t[k - 1].1 as nat) - 1) as nat;
        let m = max_value(t, k - 1);
        if v > m { v } else { m }
    }
}

/// The last code among the first `k` whose range holds `v`, with the extra
/// value; `(0, 0)` when none does.
pub open spec fn code_lookup(t: Seq<(u32, u8)>, v: nat, k: int) -> (usize, u32)
    decreases k,
{
    if k <= 0 {
        (0, 0)
    } else if t[k - 1].0 <= v < t[k - 1].0 + pow2(t[k - 1].1 as nat) {
        ((k - 1) as usize, (v - t[k - 1].0) as u32)
    } else {
        code_lookup(t, v, k - 1)
    }
}

/// The code and extra value of length `v` in table `t`, or `None` past
/// the largest value the table covers.
pub open spec fn spec_length_code(t: Seq<(u32, u8)>, v: nat) -> Option<(usize, u32)> {
    if v > max_value(t, t.len() as int) {
        None
    } else {
        Some(code_lookup(t, v, t.len() as int))
    }
}

/// Tables whose extra bits and bases are small: those of the format.
pub open spec fn small_table(t: Seq<(u32, u8)>) -> bool {
    &&& t.len() <= 64
    &&& forall|k: int| 0 <= k < t.len() ==> #[trigger] t[k].1 <= 16 && t[k].0 <= 0x10004
}

proof fn lemma_code_lookup_bound(t: Seq<(u32, u8)>, v: nat, k: int)
    requires
        small_table(t),
        k <= t.len(),
    ensures
        code_lookup(t, v, k).0 < 64,
        code_lookup(t, v, k).0 != 0 ==> code_lookup(t, v, k).0 < k,
        code_lookup(t, v, k).1 < pow2(t[code_lookup(t, v, k).0 as int].1 as nat) || code_lookup(t, v, k) == (0usize, 0u32),
    decreases k,
{
    if k > 0 {
        lemma_code_lookup_bound(t, v, k - 1);
    }
}

fn lookup_length_code(value: usize, table: &[(u32, u8)]) -> (r: Option<(usize, u32)>)
    requires
        small_table(table@),
    ensures
        r == spec_length_code(table@, value as nat),
{
    let n = table.len();
    let mut maxv: usize = 0;
    let mut k: usize = 0;
    proof {
        lemma2_to64();
    }
    while k < n
        invariant
            n == table@.len(),
            small_table(table@),
            k <= n,
            maxv == max_value(table@, k as int),
            maxv <= 0x20004,
        decreases n - k,
    {
        let (b, e) = table[k];
        proof {
            assert(table@[k as int].1 <= 16);
            lemma2_to64();
            if e < 16 {
                lemma_pow2_strictly_increases(e as nat, 16);
            }
            vstd::bits::lemma_usize_shl_is_mul(1, e as usize);
        }
        let v = b as usize + (1usize << e) - 1;
        if v > maxv {
            maxv = v;
        }
        k += 1;
    }
    if value > maxv {
        return None;
    }
    let mut k: usize = n;
    while k > 0
        invariant
            n == table@.len(),
            small_table(table@),
            k <= n,
            value <= maxv,
            maxv == max_value(table@, n as int),
            code_lookup(table@, value as nat, n as int) == code_lookup(table@, value as nat, k as int),
        decreases k,
    {
        let (b, e) = table[k - 1];
        proof {
            assert(table@[k - 1].1 <= 16);
            lemma2_to64();
            if e < 16 {
                lemma_pow2_strictly_increases(e as nat, 16);
            }
            vstd::bits::lemma_usize_shl_is_mul(1, e as usize);
        }
        if b as usize <= value && value < b as usize + (1usize << e) {
            return Some((k - 1, (value - b as usize) as u32));
        }
        k -= 1;
    }
    Some((0, 0))
}

pub(crate) proof fn lemma_tables_small()
    ensures
        small_table(LITERALS_LENGTH_EXTRA@),
        small_table(MATCH_LENGTH_EXTRA@),
{
}

/// The literal-length code of `value`.
fn literal_length_code(value: usize) -> (r: Option<(usize, u32)>)
    ensures
        r == spec_length_code(LITERALS_LENGTH_EXTRA@, value as nat),
{
    proof {
        lemma_tables_small();
    }
    lookup_length_code(value, &LITERALS_LENGTH_EXTRA)
}

/// The match-length code of `value`.
fn match_length_code(value: usize) -> (r: Option<(usize, u32)>)
    ensures
        r == spec_length_code(MATCH_LENGTH_EXTRA@, value as nat),
{
    proof {
        lemma_tables_small();
    }
    lookup_length_code(value, &MATCH_LENGTH_EXTRA)
}

/// The offset code of a non-repeat offset: `offset + 3` is sent as its
/// highest bit's position and the bits below; `None` for 0 and for offsets
/// beyond the predefined table's 29 codes.
pub open spec fn spec_offset_code(offset: nat) -> Option<(usize, u32)> {
    if offset == 0 {
        None
    } else {
        let raw = offset + 3;
        let code = (bit_len(raw) - 1) as nat;
        if code >= 29 {
            None
        } else {
            Some((code as usize, (raw - pow2(code)) as u32))
        }
    }
}

proof fn lemma_bit_len_pow2(x: nat)
    requires
        x >= 1,
    ensures
        bit_len(x) >= 1,
        pow2((bit_len(x) - 1) as nat) <= x < pow2(bit_len(x)),
    decreases x,
{
    if x == 1 {
        lemma2_to64();
        assert(bit_len(0) == 0);
    } else {
        lemma_bit_len_pow2(x / 2);
        lemma_pow2_unfold(bit_len(x));
        lemma_pow2_unfold((bit_len(x) - 1) as nat);
    }
}

fn offset_code(offset: usize) -> (r: Option<(usize, u32)>)
    requires
        offset <= usize::MAX - 3,
    ensures
        r == spec_offset_code(offset as nat),
        r matches Some((c, x)) ==> c < 29 && x < pow2(c as nat),
{
    if offset == 0 {
        return None;
    }
    let raw = offset + 3;
    let mut x = raw;
    let mut n: usize = 0;
    proof {
        lemma2_to64();
        crate::encoder::lz77::lemma_bit_len_bound(raw as nat, 64);
    }
    while x > 0
        invariant
            n + bit_len(x as nat) == bit_len(raw as nat),
            bit_len(raw as nat) <= 64,
        decreases x,
    {
        x = x / 2;
        n += 1;
    }
    proof {
        lemma_bit_len_pow2(raw as nat);
    }
    let code = n - 1;
    if code >= 29 {
        return None;
    }
    proof {
        lemma_pow2_strictly_increases(code as nat, 29);
        vstd::bits::lemma_usize_shl_is_mul(1, code);
        lemma_pow2_unfold(n as nat);
    }
    Some((code, (raw - (1usize << code)) as u32))
}

// ---------------------------------------------------------------------------
// From events to sequences
// ---------------------------------------------------------------------------

/// Literal bytes and coded sequences from events `k` on: literal runs are
/// gathered, each match becomes a sequence whose literal length is the run
/// since the previous match; `None` when a length or an offset has no code.
pub open spec fn collect_loop(events: Seq<Event>, data: Seq<u8>, k: nat, lits: Seq<u8>, seqs: Seq<EncodedSequence>, pending: nat)
    -> Option<(Seq<u8>, Seq<EncodedSequence>)>
    decreases events.len() - k,
{
    if k >= events.len() {
        Some((lits, seqs))
    } else {
        match events[k as int] {
            Event::Literals(s, e) => collect_loop(events, data, k + 1, lits + data.subrange(s as int, e as int), seqs, (pending + e - s) as nat),
            Event::Match { pos, offset, length } => match (spec_length_code(LITERALS_LENGTH_EXTRA@, pending), spec_length_code(MATCH_LENGTH_EXTRA@, length as nat), spec_offset_code(offset as nat)) {
                (Some((llc, llx)), Some((mlc, mlx)), Some((ofc, ofx))) => collect_loop(events, data, k + 1, lits,
                    seqs.push(EncodedSequence { ll_code: llc, ll_extra: llx, ml_code: mlc, ml_extra: mlx, of_code: ofc, of_extra: ofx }), 0),
                _ => None,
            },
        }
    }
}

fn sequences_from_events(events: &Vec<Event>, data: &[u8]) -> (r: Option<(Vec<u8>, Vec<EncodedSequence>)>)
    requires
        events_within(events@, data@.len(), 0x4000_0000),
    ensures
        r matches Some((l, s)) ==> collect_loop(events@, data@, 0, Seq::empty(), Seq::empty(), 0) == Some((l@, s@)),
        r is None ==> collect_loop(events@, data@, 0, Seq::empty(), Seq::empty(), 0) is None,
{
    let mut lits: Vec<u8> = Vec::new();
    let mut seqs: Vec<EncodedSequence> = Vec::new();
    let mut pending: usize = 0;
    let mut k: usize = 0;
    while k < events.len()
        invariant
            k <= events@.len(),
            events_within(events@, data@.len(), 0x4000_0000),
            pending <= lits@.len(),
            collect_loop(events@, data@, 0, Seq::empty(), Seq::empty(), 0) == collect_loop(events@, data@, k as nat, lits@, seqs@, pending as nat),
        decreases events@.len() - k,
    {
        assert(events_within(events@, data@.len(), 0x4000_0000));
        let ev = events[k];
        match ev {
            Event::Literals(s, e) => {
                assert(s <= e <= data@.len());
                crate::decoder::sequences::append_slice(&mut lits, &data[s..e]);
                let _total = lits.len();
                pending = pending + (e - s);
            },
            Event::Match { pos, offset, length } => {
                let llc = literal_length_code(pending);
                let mlc = match_length_code(length);
                let ofc = offset_code(offset);
                match (llc, mlc, ofc) {
                    (Some((ll_code, ll_extra)), Some((ml_code, ml_extra)), Some((of_code, of_extra))) => {
                        seqs.push(EncodedSequence { ll_code, ll_extra, ml_code, ml_extra, of_code, of_extra });
                        pending = 0;
                    },
                    _ => {
                        return None;
                    },
                }
            },
        }
        k += 1;
    }
    Some((lits, seqs))
}

/// The literals and sequences of `full_data[start..end]`, with the block's
/// bytes as its literals and no sequences when a sequence has no code.
/// The literals and sequences of a block's parse events: what the events
/// give, or, when they cannot be coded, the block's bytes as literals and
/// no sequences.
pub open spec fn collected(events: Seq<Event>, data: Seq<u8>, start: nat, end: nat) -> (Seq<u8>, Seq<EncodedSequence>) {
    match collect_loop(events, data, 0, Seq::empty(), Seq::empty(), 0) {
        Some(p) => p,
        None => (data.subrange(start as int, end as int), Seq::empty()),
    }
}

fn collect_sequences(full_data: &[u8], start: usize, end: usize, finder: &mut MatchFinder) -> (r: (Vec<u8>, Vec<EncodedSequence>))
    requires
        old(finder).wf(),
        start <= end <= full_data@.len(),
    ensures
        final(finder).wf(),
        final(finder).config() == old(finder).config(),
        final(finder).window() == old(finder).window(),
        ({
            let pm = parse_model(old(finder).config(), old(finder).window(), full_data@.subrange(0, end as int), start as nat,
                (old(finder).hashes(), old(finder).links()));
            &&& (final(finder).hashes(), final(finder).links()) == pm.1
            &&& (r.0@, r.1@) == collected(pm.0, full_data@, start as nat, end as nat)
        }),
{
    let events = parse_ranges_events(full_data, start, end, finder);
    proof {
        crate::encoder::lz77::lemma_window_bound(*finder);
        crate::encoder::lz77::lemma_tiles_within(events@, full_data@.subrange(0, end as int), finder.window(), start as nat, full_data@.len(), 0x4000_0000);
    }
    match sequences_from_events(&events, full_data) {
        Some(p) => p,
        None => {
            let mut lits: Vec<u8> = Vec::new();
            crate::decoder::sequences::append_slice(&mut lits, &full_data[start..end]);
            (lits, Vec::new())
        },
    }
}

// ---------------------------------------------------------------------------
// Sequence count
// ---------------------------------------------------------------------------

/// The bytes of a sequence count.
pub open spec fn count_bytes(count: nat) -> Seq<u8> {
    if count < 128 {
        seq![count as u8]
    } else if count < 0x7F00 {
        seq![(128 + count / 256) as u8, (count % 256) as u8]
    } else {
        let adj = (count - 0x7F00) as nat;
        seq![255u8, (adj % 256) as u8, ((adj / 256) % 256) as u8]
    }
}

fn write_sequence_count(out: &mut Vec<u8>, count: usize)
    ensures
        final(out)@ == old(out)@ + count_bytes(count as nat),
{
    if count < 128 {
        out.push(count as u8);
    } else if count < 0x7F00 {
        out.push((128 + count / 256) as u8);
        out.push((count % 256) as u8);
    } else {
        let adjusted = count - 0x7F00;
        out.push(255);
        out.push((adjusted % 256) as u8);
        out.push((adjusted / 256 % 256) as u8);
    }
    proof {
        assert(final(out)@ =~= old(out)@ + count_bytes(count as nat));
    }
}

/// Law: a written sequence count reads back as the same count, followed by
/// whatever comes next, for every count below `0x7F00 + 0x10000`.
pub proof fn lemma_sequence_count_roundtrip(count: nat, rest: Seq<u8>)
    requires
        count < 0x7F00 + 0x10000,
    ensures
        spec_sequence_count(count_bytes(count) + rest) == Ok::<(nat, nat), crate::error::ZstdError>((count, count_bytes(count).len())),
{
    let b = count_bytes(count) + rest;
    if count < 128 {
        assert(b[0] == count);
    } else if count < 0x7F00 {
        assert(b[0] == 128 + count / 256);
        assert(b[1] == count % 256);
    } else {
        assert(b[1] == (count - 0x7F00) % 256);
        assert(b[2] == (count - 0x7F00) / 256 % 256);
    }
}

// ---------------------------------------------------------------------------
// Literals sections
// ---------------------------------------------------------------------------

fn push_raw_header(out: &mut Vec<u8>, ty: u8, n: usize)
    requires
        ty < 2,
        n < 0x100000,
    ensures
        final(out)@ == old(out)@ + raw_header(ty, n as nat),
{
    if n < 32 {
        out.push(ty + 8 * n as u8);
    } else if n < 4096 {
        out.push(ty + 4 + 16 * (n % 16) as u8);
        out.push((n / 16) as u8);
    } else {
        out.push(ty + 12 + 16 * (n % 16) as u8);
        out.push((n / 16 % 256) as u8);
        out.push((n / 4096 % 256) as u8);
    }
    proof {
        assert(final(out)@ =~= old(out)@ + raw_header(ty, n as nat));
    }
}

/// Raw literals: a header and the bytes.
fn encode_raw(data: &[u8]) -> (out: Vec<u8>)
    requires
        data@.len() < 0x100000,
    ensures
        out@ == raw_header(0, data@.len()) + data@,
        forall|rest: Seq<u8>| crate::decoder::literals::spec_decode_literals(#[trigger] (out@ + rest))
            == Ok::<(Seq<u8>, nat), crate::error::ZstdError>((data@, out@.len())),
{
    let mut out: Vec<u8> = Vec::new();
    push_raw_header(&mut out, 0, data.len());
    crate::decoder::sequences::append_slice(&mut out, data);
    proof {
        assert forall|rest: Seq<u8>| crate::decoder::literals::spec_decode_literals(#[trigger] (out@ + rest))
            == Ok::<(Seq<u8>, nat), crate::error::ZstdError>((data@, out@.len())) by {
            crate::decoder::literals::lemma_raw_literals_roundtrip(data@, rest);
        }
    }
    out
}

/// RLE literals: a header and the repeated byte.
fn encode_rle(sym: u8, count: usize) -> (out: Vec<u8>)
    requires
        count < 0x100000,
    ensures
        out@ == raw_header(1, count as nat) + seq![sym],
{
    let mut out: Vec<u8> = Vec::new();
    push_raw_header(&mut out, 1, count);
    out.push(sym);
    out
}

/// The header of a Huffman literals section (single stream): four bytes
/// when both sizes are below `2^14`, five otherwise.
pub open spec fn compressed_header(regen: nat, comp: nat) -> Seq<u8> {
    if regen < 0x4000 && comp < 0x4000 {
        seq![(10 + 16 * (regen % 16)) as u8, ((regen / 16) % 256) as u8, ((regen / 4096) % 4 + 4 * (comp % 64)) as u8, ((comp / 64) % 256) as u8]
    } else {
        seq![(14 + 16 * (regen % 16)) as u8, ((regen / 16) % 256) as u8, ((regen / 4096) % 64 + 64 * (comp % 4)) as u8,
            ((comp / 4) % 256) as u8, ((comp / 1024) % 256) as u8]
    }
}

/// Huffman literals: a header, the table description and the coded bits.
fn encode_compressed(regen: usize, huff_header: &[u8], encoded: &[u8]) -> (out: Vec<u8>)
    requires
        regen < 0x40000,
        huff_header@.len() + encoded@.len() < 0x40000,
    ensures
        out@ == compressed_header(regen as nat, (huff_header@.len() + encoded@.len()) as nat) + huff_header@ + encoded@,
{
    let comp = huff_header.len() + encoded.len();
    let mut out: Vec<u8> = Vec::new();
    if regen < 0x4000 && comp < 0x4000 {
        out.push((10 + 16 * (regen % 16)) as u8);
        out.push((regen / 16 % 256) as u8);
        out.push((regen / 4096 % 4 + 4 * (comp % 64)) as u8);
        out.push((comp / 64 % 256) as u8);
    } else {
        out.push((14 + 16 * (regen % 16)) as u8);
        out.push((regen / 16 % 256) as u8);
        out.push((regen / 4096 % 64 + 64 * (comp % 4)) as u8);
        out.push((comp / 4 % 256) as u8);
        out.push((comp / 1024 % 256) as u8);
    }
    proof {
        assert(out@ =~= compressed_header(regen as nat, comp as nat));
    }
    crate::decoder::sequences::append_slice(&mut out, huff_header);
    crate::decoder::sequences::append_slice(&mut out, encoded);
    out
}

/// A Huffman literals header reads back as its sizes, whatever follows it.
proof fn lemma_compressed_header_sizes(regen: nat, comp: nat, rest: Seq<u8>)
    requires
        regen < 0x40000,
        comp < 0x40000,
    ensures
        (compressed_header(regen, comp) + rest)[0] % 4 == 2,
        (compressed_header(regen, comp) + rest)[0] / 4 % 4 >= 2,
        crate::decoder::literals::spec_size_compressed(compressed_header(regen, comp) + rest,
            ((compressed_header(regen, comp) + rest)[0] / 4 % 4) as u8)
            == Ok::<(nat, nat, nat), crate::error::ZstdError>((regen, comp, compressed_header(regen, comp).len())),
{
    let b = compressed_header(regen, comp) + rest;
    let h = compressed_header(regen, comp);
    assert(forall|i: int| 0 <= i < h.len() ==> b[i] == h[i]);
    if regen < 0x4000 && comp < 0x4000 {
        assert(b[0] == 10 + 16 * (regen % 16));
        assert(b[1] == (regen / 16) % 256);
        assert(b[2] == (regen / 4096) % 4 + 4 * (comp % 64));
        assert(b[3] == (comp / 64) % 256);
        assert((10 + 16 * (regen % 16)) % 4 == 2 && (10 + 16 * (regen % 16)) / 4 % 4 == 2
            && (10 + 16 * (regen % 16)) / 16 == regen % 16) by (nonlinear_arith);
        assert(((regen / 4096) % 4 + 4 * (comp % 64)) % 4 == (regen / 4096) % 4
            && ((regen / 4096) % 4 + 4 * (comp % 64)) / 4 == comp % 64) by (nonlinear_arith);
        assert(regen % 16 + 16 * ((regen / 16) % 256) + 4096 * ((regen / 4096) % 4) == regen) by (nonlinear_arith)
            requires regen < 0x4000;
        assert(comp % 64 + 64 * ((comp / 64) % 256) == comp) by (nonlinear_arith)
            requires comp < 0x4000;
    } else {
        assert(b[0] == 14 + 16 * (regen % 16));
        assert(b[1] == (regen / 16) % 256);
        assert(b[2] == (regen / 4096) % 64 + 64 * (comp % 4));
        assert(b[3] == (comp / 4) % 256);
        assert(b[4] == (comp / 1024) % 256);
        assert((14 + 16 * (regen % 16)) % 4 == 2 && (14 + 16 * (regen % 16)) / 4 % 4 == 3
            && (14 + 16 * (regen % 16)) / 16 == regen % 16) by (nonlinear_arith);
        assert(((regen / 4096) % 64 + 64 * (comp % 4)) % 64 == (regen / 4096) % 64
            && ((regen / 4096) % 64 + 64 * (comp % 4)) / 64 == comp % 4) by (nonlinear_arith);
        assert(regen % 16 + 16 * ((regen / 16) % 256) + 4096 * ((regen / 4096) % 64) == regen) by (nonlinear_arith)
            requires regen < 0x40000;
        assert(comp % 4 + 4 * ((comp / 4) % 256) + 1024 * ((comp / 1024) % 256) == comp) by (nonlinear_arith)
            requires comp < 0x40000;
    }
}

/// Law: a Huffman literals section, written with a table that
/// [`HuffmanTable::from_weights`](crate::huffman::HuffmanTable::from_weights)
/// built from at most 128 weights, its description and the coded bits of
/// `data`, decodes to `data` and is read to its end, whatever follows it.
#[verifier::spinoff_prover]
#[verifier::rlimit(40)]
pub proof fn lemma_compressed_literals_roundtrip(w: Seq<u8>, t: crate::huffman::HuffmanTable, data: Seq<u8>, rest: Seq<u8>)
    requires
        crate::huffman::spec_from_weights(w) == Ok::<(Seq<u8>, Seq<u16>, u8), crate::error::ZstdError>((t.lengths@, t.codes@, t.max_bits)),
        w.len() <= 128,
        crate::huffman::code_bits(t.lengths@, t.codes@, data) is Ok,
        data.len() < 0x40000,
        ({
            let hdr = crate::huffman::spec_write_header(crate::huffman::spec_to_weights(t.lengths@, t.max_bits));
            let enc = crate::huffman::pack_forward(crate::huffman::code_bits(t.lengths@, t.codes@, data)->Ok_0);
            hdr.len() + enc.len() < 0x40000
        }),
    ensures
        ({
            let hdr = crate::huffman::spec_write_header(crate::huffman::spec_to_weights(t.lengths@, t.max_bits));
            let enc = crate::huffman::pack_forward(crate::huffman::code_bits(t.lengths@, t.codes@, data)->Ok_0);
            let section = compressed_header(data.len(), hdr.len() + enc.len()) + hdr + enc;
            crate::decoder::literals::spec_decode_literals(section + rest)
                == Ok::<(Seq<u8>, nat), crate::error::ZstdError>((data, section.len()))
        }),
{
    let hdr = crate::huffman::spec_write_header(crate::huffman::spec_to_weights(t.lengths@, t.max_bits));
    let bits = crate::huffman::code_bits(t.lengths@, t.codes@, data)->Ok_0;
    let enc = crate::huffman::pack_forward(bits);
    let comp = hdr.len() + enc.len();
    let h = compressed_header(data.len(), comp);
    let section = h + hdr + enc;
    let all = section + rest;
    assert(all =~= h + (hdr + enc + rest));
    lemma_compressed_header_sizes(data.len(), comp, hdr + enc + rest);
    let compressed = all.subrange(h.len() as int, (h.len() + comp) as int);
    assert(compressed =~= hdr + enc);
    crate::huffman::roundtrip::lemma_from_weights_header_roundtrip(w, t, enc);
    assert(compressed.subrange(hdr.len() as int, compressed.len() as int) =~= enc);
    crate::huffman::roundtrip::lemma_from_weights_roundtrip(w, t, data, 8 * enc.len());
}

// ---------------------------------------------------------------------------
// FSE encoding with the predefined tables
// ---------------------------------------------------------------------------

/// An FSE encoder derived from a decode table: for each symbol a state
/// that decodes to it, and for each symbol and next state the state that
/// decodes to the symbol and reaches that next state, with the bits to write.
struct PredefinedFseEncoder {
    accuracy_log: u8,
    initial_state_by_symbol: Vec<u16>,
    trans_ok: Vec<bool>,
    trans_state: Vec<u16>,
    trans_bits: Vec<u16>,
    trans_nb: Vec<u8>,
    table_size: usize,
    symbol_count: usize,
}

/// Whether decoding from state `idx` of `t` gives symbol `sym` and, after
/// reading `bits` (`nb` of them), moves to state `next`.
pub open spec fn inverse_step(t: Seq<FseDecodeEntry>, sym: int, next: int, idx: int, bits: int, nb: int) -> bool {
    &&& 0 <= idx < t.len()
    &&& t[idx].symbol == sym
    &&& t[idx].num_bits == nb
    &&& 0 <= bits < pow2(nb as nat)
    &&& t[idx].base_line + bits == next
}

/// The first of the first `k` states of `t` that decodes to `sym`.
pub open spec fn first_state(t: Seq<FseDecodeEntry>, sym: int, k: nat) -> Option<nat>
    decreases k,
{
    if k == 0 {
        None
    } else {
        match first_state(t, sym, (k - 1) as nat) {
            Some(x) => Some(x),
            None => if t[k - 1].symbol == sym {
                Some((k - 1) as nat)
            } else {
                None
            },
        }
    }
}

/// Whether state `idx` of `t` decodes to `sym` and can move to `next`.
pub open spec fn state_reaches(t: Seq<FseDecodeEntry>, idx: int, sym: int, next: int) -> bool {
    t[idx].symbol == sym && t[idx].base_line <= next < t[idx].base_line + pow2(t[idx].num_bits as nat)
}

/// The last of the first `k` states of `t` that decodes to `sym` and can
/// move to `next`.
pub open spec fn last_state_to(t: Seq<FseDecodeEntry>, sym: int, next: int, k: nat) -> Option<nat>
    decreases k,
{
    if k == 0 {
        None
    } else if state_reaches(t, k - 1, sym, next) {
        Some((k - 1) as nat)
    } else {
        last_state_to(t, sym, next, (k - 1) as nat)
    }
}

/// Whether an encoder for `count` symbols can be built from `t`: every
/// state decodes to one of them and moves only to states of the table.
pub open spec fn encoder_builds(t: Seq<FseDecodeEntry>, count: nat) -> bool {
    forall|idx: int| 0 <= idx < t.len() ==> #[trigger] t[idx].symbol < count && t[idx].base_line + pow2(t[idx].num_bits as nat) <= t.len()
}

proof fn lemma_first_state_bound(t: Seq<FseDecodeEntry>, sym: int, k: nat)
    ensures
        first_state(t, sym, k) matches Some(x) ==> x < k,
    decreases k,
{
    if k > 0 {
        lemma_first_state_bound(t, sym, (k - 1) as nat);
    }
}

/// Two numbers below `d * m` with the same quotient and remainder by `d`
/// are equal.
proof fn lemma_div_mod_unique(a: int, b: int, d: int)
    requires
        a >= 0,
        b >= 0,
        d > 0,
        a / d == b / d,
        a % d == b % d,
    ensures
        a == b,
{
    vstd::arithmetic::div_mod::lemma_fundamental_div_mod(a, d);
    vstd::arithmetic::div_mod::lemma_fundamental_div_mod(b, d);
}

/// The state kept for a symbol: the first that decodes to it, if any.
pub open spec fn kept_initial(t: Seq<FseDecodeEntry>, sym: int, k: nat) -> u16 {
    match first_state(t, sym, k) {
        Some(x) => x as u16,
        None => u16::MAX,
    }
}

/// The state an encoder built from `t` for `count` symbols starts the
/// last sequence from: the first that decodes to `sym`.
pub open spec fn spec_initial(t: Seq<FseDecodeEntry>, count: nat, sym: int) -> Option<u16> {
    if sym >= count {
        None
    } else {
        match first_state(t, sym, t.len()) {
            Some(x) => Some(x as u16),
            None => None,
        }
    }
}

/// The state an encoder built from `t` for `count` symbols writes for
/// `sym` ahead of state `next`, with the bits that move it there: the last
/// state that decodes to `sym` and can move to `next`.
pub open spec fn spec_transition(t: Seq<FseDecodeEntry>, count: nat, sym: int, next: int) -> Option<(u16, u16, u8)> {
    if sym >= count || next >= t.len() {
        None
    } else {
        match last_state_to(t, sym, next, t.len()) {
            Some(x) => Some((x as u16, (next - t[x as int].base_line) as u16, t[x as int].num_bits)),
            None => None,
        }
    }
}

/// The states chosen for the first `i` codes, from code `i - 1` back,
/// ahead of `state`, with the transition bits gathered in `tb`.
pub open spec fn chain_from(t: Seq<FseDecodeEntry>, count: nat, codes: Seq<usize>, i: nat, state: u16, tb: Seq<(u16, u8)>)
    -> Option<(u16, Seq<(u16, u8)>)>
    decreases i,
{
    if i == 0 {
        Some((state, tb))
    } else {
        match spec_transition(t, count, codes[i - 1] as int, state as int) {
            None => None,
            Some((s, b, nb)) => chain_from(t, count, codes, (i - 1) as nat, s, tb.push((b, nb))),
        }
    }
}

/// The first state and the transition bits (the last transition first)
/// with which an encoder built from `t` writes `codes`.
pub open spec fn spec_states(t: Seq<FseDecodeEntry>, count: nat, codes: Seq<usize>) -> Option<(u16, Seq<(u16, u8)>)> {
    match spec_initial(t, count, codes.last() as int) {
        None => None,
        Some(s) => chain_from(t, count, codes, (codes.len() - 1) as nat, s, Seq::empty()),
    }
}

/// The decode table of a predefined distribution, when an encoder for
/// `count` symbols can be built from it.
pub open spec fn spec_encoder_table(norm: Seq<i16>, accuracy_log: u8, count: nat) -> Option<Seq<FseDecodeEntry>> {
    match crate::fse::spec_decode_table(norm, accuracy_log) {
        Ok(t) => if encoder_builds(t, count) {
            Some(t)
        } else {
            None
        },
        Err(_) => None,
    }
}

impl PredefinedFseEncoder {
    /// The encoder holds, for each symbol, the first state of `t` that
    /// decodes to it, and for each symbol and next state the last state of
    /// `t` that decodes to the symbol and can move there.
    spec fn built_from(&self, t: Seq<FseDecodeEntry>) -> bool {
        &&& forall|s: int| 0 <= s < self.symbol_count ==> #[trigger] self.initial_state_by_symbol@[s] == kept_initial(t, s, t.len())
        &&& forall|j: int| 0 <= j < self.symbol_count * self.table_size ==>
            (#[trigger] self.trans_ok@[j] <==> last_state_to(t, j / self.table_size as int, j % self.table_size as int, t.len()) is Some)
        &&& forall|j: int| 0 <= j < self.symbol_count * self.table_size && #[trigger] self.trans_ok@[j] ==>
            self.trans_state@[j] == last_state_to(t, j / self.table_size as int, j % self.table_size as int, t.len()).unwrap()
    }

    /// Sizes that agree with table `t`, and entries that invert it.
    spec fn wf(&self, t: Seq<FseDecodeEntry>) -> bool {
        &&& self.table_size == t.len()
        &&& 1 <= self.table_size <= 4096
        &&& self.table_size == pow2(self.accuracy_log as nat)
        &&& self.accuracy_log <= 12
        &&& crate::fse::table_reads_fit(t)
        &&& self.symbol_count <= 64
        &&& self.initial_state_by_symbol@.len() == self.symbol_count
        &&& self.trans_ok@.len() == self.symbol_count * self.table_size
        &&& self.trans_state@.len() == self.symbol_count * self.table_size
        &&& self.trans_bits@.len() == self.symbol_count * self.table_size
        &&& self.trans_nb@.len() == self.symbol_count * self.table_size
        &&& forall|s: int| 0 <= s < self.symbol_count && #[trigger] self.initial_state_by_symbol@[s] != u16::MAX ==>
            self.initial_state_by_symbol@[s] < self.table_size && t[self.initial_state_by_symbol@[s] as int].symbol == s
        &&& forall|j: int| 0 <= j < self.symbol_count * self.table_size && #[trigger] self.trans_ok@[j] ==>
            inverse_step(t, j / self.table_size as int, j % self.table_size as int, self.trans_state@[j] as int, self.trans_bits@[j] as int, self.trans_nb@[j] as int)
    }

    /// Build the encoder of decode table `table`; `None` when an entry names
    /// a symbol at or past `symbol_count` or a state past the table.
    fn from_decode_table(table: &FseDecodeTable, symbol_count: usize) -> (r: Option<Self>)
        requires
            symbol_count <= 64,
            table.table@.len() == pow2(table.accuracy_log as nat),
            table.accuracy_log <= 12,
            crate::fse::table_reads_fit(table.table@),
        ensures
            r matches Some(e) ==> e.wf(table.table@) && e.symbol_count == symbol_count && e.accuracy_log == table.accuracy_log
                && e.built_from(table.table@),
            r is Some <==> encoder_builds(table.table@, symbol_count as nat),
    {
        let table_size = table.table.len();
        proof {
            lemma2_to64();
            lemma_pow2_pos(table.accuracy_log as nat);
            if table.accuracy_log < 12 {
                lemma_pow2_strictly_increases(table.accuracy_log as nat, 12);
            }
        }
        assert(symbol_count * table_size <= 64 * 4096) by (nonlinear_arith)
            requires symbol_count <= 64, table_size <= 4096;
        let n = symbol_count * table_size;
        let mut initial: Vec<u16> = vec![u16::MAX; symbol_count];
        let mut ok: Vec<bool> = vec![false; n];
        let mut st: Vec<u16> = vec![0u16; n];
        let mut bt: Vec<u16> = vec![0u16; n];
        let mut nbv: Vec<u8> = vec![0u8; n];
        let ghost t = table.table@;
        proof {
            assert forall|j: int| 0 <= j < n && #[trigger] ok@[j] implies inverse_step(t, j / table_size as int, j % table_size as int, st@[j] as int, bt@[j] as int, nbv@[j] as int) by {}
        }
        let mut idx: usize = 0;
        while idx < table_size
            invariant
                t == table.table@,
                table_size == t.len(),
                1 <= table_size <= 4096,
                symbol_count <= 64,
                n == symbol_count * table_size,
                crate::fse::table_reads_fit(t),
                initial@.len() == symbol_count,
                ok@.len() == n,
                st@.len() == n,
                bt@.len() == n,
                nbv@.len() == n,
                forall|s: int| 0 <= s < symbol_count && #[trigger] initial@[s] != u16::MAX ==>
                    initial@[s] < table_size && t[initial@[s] as int].symbol == s,
                forall|j: int| 0 <= j < n && #[trigger] ok@[j] ==>
                    inverse_step(t, j / table_size as int, j % table_size as int, st@[j] as int, bt@[j] as int, nbv@[j] as int),
                idx <= table_size,
                forall|s: int| 0 <= s < symbol_count ==> #[trigger] initial@[s] == kept_initial(t, s, idx as nat),
                forall|j: int| 0 <= j < n ==> (#[trigger] ok@[j] <==> last_state_to(t, j / table_size as int, j % table_size as int, idx as nat) is Some),
                forall|j: int| 0 <= j < n && #[trigger] ok@[j] ==> st@[j] == last_state_to(t, j / table_size as int, j % table_size as int, idx as nat).unwrap(),
                forall|i: int| 0 <= i < idx ==> #[trigger] t[i].symbol < symbol_count && t[i].base_line + pow2(t[i].num_bits as nat) <= table_size,
            decreases table_size - idx,
        {
            let entry = table.table[idx];
            let symbol = entry.symbol as usize;
            if symbol >= symbol_count {
                proof {
                    assert(!(t[idx as int].symbol < symbol_count));
                }
                return None;
            }
            let ghost init0 = initial@;
            if initial[symbol] == u16::MAX {
                initial.set(symbol, idx as u16);
            }
            proof {
                assert forall|s: int| 0 <= s < symbol_count implies #[trigger] initial@[s] == kept_initial(t, s, (idx + 1) as nat) by {
                    lemma_first_state_bound(t, s, idx as nat);
                    assert(init0[s] == kept_initial(t, s, idx as nat));
                }
            }
            let base = entry.base_line as usize;
            let nb = entry.num_bits;
            proof {
                assert(t[idx as int].num_bits <= 12);
                lemma2_to64();
                if nb < 12 {
                    lemma_pow2_strictly_increases(nb as nat, 12);
                }
                vstd::bits::lemma_usize_shl_is_mul(1, nb as usize);
            }
            let span: usize = 1usize << nb;
            let mut bits: usize = 0;
            while bits < span
                invariant
                    t == table.table@,
                    table_size == t.len(),
                    1 <= table_size <= 4096,
                    symbol_count <= 64,
                    n == symbol_count * table_size,
                    idx < table_size,
                    symbol < symbol_count,
                    t[idx as int].symbol == symbol,
                    t[idx as int].num_bits == nb,
                    t[idx as int].base_line == base,
                    span == pow2(nb as nat),
                    span <= 4096,
                    ok@.len() == n,
                    st@.len() == n,
                    bt@.len() == n,
                    nbv@.len() == n,
                    forall|j: int| 0 <= j < n && #[trigger] ok@[j] ==>
                        inverse_step(t, j / table_size as int, j % table_size as int, st@[j] as int, bt@[j] as int, nbv@[j] as int),
                    bits <= span,
                    bits == 0 || base + bits <= table_size,
                    forall|j: int| 0 <= j < n ==> (#[trigger] ok@[j] <==> (last_state_to(t, j / table_size as int, j % table_size as int, idx as nat) is Some
                        || (j / table_size as int == symbol && base <= j % table_size as int && (j % table_size as int) < base + bits))),
                    forall|j: int| 0 <= j < n && #[trigger] ok@[j] ==> st@[j] == if j / table_size as int == symbol && base <= j % table_size as int
                        && (j % table_size as int) < base + bits { idx as nat } else { last_state_to(t, j / table_size as int, j % table_size as int, idx as nat).unwrap() },
                decreases span - bits,
            {
                let next_state = base + bits;
                if next_state >= table_size {
                    proof {
                        assert(!(t[idx as int].base_line + pow2(t[idx as int].num_bits as nat) <= table_size));
                    }
                    return None;
                }
                let ghost ok0 = ok@;
                let ghost st0 = st@;
                assert(symbol * table_size + next_state < symbol_count * table_size) by (nonlinear_arith)
                    requires symbol < symbol_count, next_state < table_size;
                let j = symbol * table_size + next_state;
                proof {
                    assert(j as int / table_size as int == symbol && j as int % table_size as int == next_state) by (nonlinear_arith)
                        requires j == symbol * table_size + next_state, next_state < table_size, table_size >= 1;
                }
                ok.set(j, true);
                st.set(j, idx as u16);
                bt.set(j, bits as u16);
                nbv.set(j, nb);
                proof {
                    assert(inverse_step(t, j as int / table_size as int, j as int % table_size as int, st@[j as int] as int, bt@[j as int] as int, nbv@[j as int] as int));
                    assert forall|j2: int| 0 <= j2 < n implies (#[trigger] ok@[j2] <==> (last_state_to(t, j2 / table_size as int, j2 % table_size as int, idx as nat) is Some
                        || (j2 / table_size as int == symbol && base <= j2 % table_size as int && (j2 % table_size as int) < base + bits + 1)))
                        && (ok@[j2] ==> st@[j2] == if j2 / table_size as int == symbol && base <= j2 % table_size as int
                        && (j2 % table_size as int) < base + bits + 1 { idx as nat } else { last_state_to(t, j2 / table_size as int, j2 % table_size as int, idx as nat).unwrap() }) by {
                        if j2 != j && j2 / table_size as int == symbol && j2 % table_size as int == next_state {
                            lemma_div_mod_unique(j2, j as int, table_size as int);
                        }
                        assert(ok0[j2] == ok0[j2]);
                    }
                }
                bits += 1;
            }
            proof {
                assert forall|j: int| 0 <= j < n implies (#[trigger] ok@[j] <==> last_state_to(t, j / table_size as int, j % table_size as int, (idx + 1) as nat) is Some)
                    && (ok@[j] ==> st@[j] == last_state_to(t, j / table_size as int, j % table_size as int, (idx + 1) as nat).unwrap()) by {
                    assert(state_reaches(t, idx as int, j / table_size as int, j % table_size as int) <==> (j / table_size as int == symbol
                        && base <= j % table_size as int && (j % table_size as int) < base + bits));
                }
            }
            idx += 1;
        }
        Some(PredefinedFseEncoder {
            accuracy_log: table.accuracy_log,
            initial_state_by_symbol: initial,
            trans_ok: ok,
            trans_state: st,
            trans_bits: bt,
            trans_nb: nbv,
            table_size,
            symbol_count,
        })
    }

    /// A state that decodes to `symbol`, if the table has one.
    fn initial_state(&self, symbol: usize, Ghost(t): Ghost<Seq<FseDecodeEntry>>) -> (r: Option<u16>)
        requires
            self.wf(t),
            self.built_from(t),
        ensures
            r matches Some(s) ==> s < self.table_size && t[s as int].symbol == symbol,
            r == spec_initial(t, self.symbol_count as nat, symbol as int),
    {
        if symbol >= self.symbol_count {
            return None;
        }
        let s = self.initial_state_by_symbol[symbol];
        proof {
            lemma_first_state_bound(t, symbol as int, t.len());
        }
        if s == u16::MAX {
            None
        } else {
            Some(s)
        }
    }

    /// The state that decodes to `symbol` and moves to `next_state`, with
    /// the bits that make it move there.
    fn transition(&self, symbol: usize, next_state: u16, Ghost(t): Ghost<Seq<FseDecodeEntry>>) -> (r: Option<(u16, u16, u8)>)
        requires
            self.wf(t),
            self.built_from(t),
        ensures
            r matches Some((s, b, nb)) ==> inverse_step(t, symbol as int, next_state as int, s as int, b as int, nb as int),
            r == spec_transition(t, self.symbol_count as nat, symbol as int, next_state as int),
    {
        if symbol >= self.symbol_count || next_state as usize >= self.table_size {
            return None;
        }
        let ts = self.table_size;
        assert(symbol * ts + next_state < self.symbol_count * ts) by (nonlinear_arith)
            requires symbol < self.symbol_count, next_state < ts;
        assert(self.symbol_count * ts <= 64 * 4096) by (nonlinear_arith)
            requires self.symbol_count <= 64, ts <= 4096;
        let j = symbol * ts + next_state as usize;
        proof {
            assert(j as int / ts as int == symbol && j as int % ts as int == next_state) by (nonlinear_arith)
                requires j == symbol * ts + next_state, next_state < ts, ts >= 1;
        }
        if self.trans_ok[j] {
            Some((self.trans_state[j], self.trans_bits[j], self.trans_nb[j]))
        } else {
            None
        }
    }
}

/// An encoder for one of the predefined distributions.
fn predefined_encoder(norm: &[i16], accuracy_log: u8, symbol_count: usize) -> (r: Option<(PredefinedFseEncoder, Ghost<Seq<FseDecodeEntry>>)>)
    requires
        symbol_count <= 64,
    ensures
        r matches Some((e, t)) ==> e.built_from(t@) && spec_encoder_table(norm@, accuracy_log, symbol_count as nat) == Some(t@),
        r is None ==> spec_encoder_table(norm@, accuracy_log, symbol_count as nat) is None,
        r matches Some((e, t)) ==> e.wf(t@) && e.symbol_count == symbol_count && e.accuracy_log == accuracy_log
            && crate::fse::spec_decode_table(norm@, accuracy_log) == Ok::<Seq<FseDecodeEntry>, crate::error::ZstdError>(t@),
{
    match crate::fse::build_decode_table(norm, accuracy_log) {
        Ok(table) => match PredefinedFseEncoder::from_decode_table(&table, symbol_count) {
            Some(e) => Some((e, Ghost(table.table@))),
            None => None,
        },
        Err(_) => None,
    }
}

/// The states each sequence is decoded from, for one of the three codes
/// (`code` picks it: 0 literal length, 1 match length, 2 offset), chosen
/// from the last sequence back, and the transition bits between them, the
/// last transition first.  `None` when a code has no state that reaches
/// the next one.
fn encoder_states(sequences: &Vec<EncodedSequence>, table: &PredefinedFseEncoder, Ghost(t): Ghost<Seq<FseDecodeEntry>>, code: u8)
    -> (r: Option<(u16, Vec<(u16, u8)>, Ghost<Seq<u16>>)>)
    requires
        table.wf(t),
        table.built_from(t),
        sequences@.len() >= 1,
        code < 3,
    ensures
        r matches Some((first, tb, st)) ==> crate::encoder::sequence_stream::chain_ok(t, seq_codes(sequences@, code), st@, tb@)
            && first == st@[0] && first < pow2(table.accuracy_log as nat),
        r matches Some((first, tb, _)) ==> spec_states(t, table.symbol_count as nat, seq_codes(sequences@, code)) == Some((first, tb@)),
        r is None ==> spec_states(t, table.symbol_count as nat, seq_codes(sequences@, code)) is None,
{
    let n = sequences.len();
    let last = sequences[n - 1];
    let mut state = match table.initial_state(pick_code(last, code), Ghost(t)) { Some(s) => s, None => { return None; } };
    let ghost whole = spec_states(t, table.symbol_count as nat, seq_codes(sequences@, code));
    proof {
        assert(seq_codes(sequences@, code).last() == spec_pick_code(last, code));
    }
    let mut tb: Vec<(u16, u8)> = Vec::new();
    let ghost mut st: Seq<u16> = Seq::new(n as nat, |j: int| state);
    let ghost codes = seq_codes(sequences@, code);
    let mut i = n - 1;
    while i > 0
        invariant
            n == sequences@.len(),
            i < n,
            table.wf(t),
            code < 3,
            codes == seq_codes(sequences@, code),
            codes.len() == n,
            tb@.len() == n - 1 - i,
            forall|k: int| 0 <= k < tb@.len() ==> #[trigger] tb@[k].1 <= 12,
            st.len() == n,
            st[i as int] == state,
            state < table.table_size,
            st[n - 1] < t.len() && t[st[n - 1] as int].symbol == codes[n - 1],
            forall|k: int| #![trigger st[k]] i <= k < n - 1 ==> inverse_step(t, codes[k] as int, st[k + 1] as int,
                st[k] as int, tb@[n - 2 - k].0 as int, tb@[n - 2 - k].1 as int),
            table.built_from(t),
            chain_from(t, table.symbol_count as nat, codes, i as nat, state, tb@) == whole,
            whole == spec_states(t, table.symbol_count as nat, seq_codes(sequences@, code)),
        decreases i,
    {
        let sq = sequences[i - 1];
        proof {
            assert(codes[i - 1] == spec_pick_code(sq, code));
        }
        let tr = table.transition(pick_code(sq, code), state, Ghost(t));
        let (s, b, nb) = match tr {
            Some(x) => x,
            None => {
                proof {
                    assert(chain_from(t, table.symbol_count as nat, codes, i as nat, state, tb@) is None);
                }
                return None;
            },
        };
        proof {
            assert(t[s as int].num_bits <= 12);
        }
        tb.push((b, nb));
        proof {
            st = st.update(i - 1, s);
        }
        state = s;
        i -= 1;
    }
    proof {
        reveal(crate::encoder::sequence_stream::chain_ok);
    }
    Some((state, tb, Ghost(st)))
}

/// Code `code` of a sequence: 0 literal length, 1 match length, 2 offset.
fn pick_code(sq: EncodedSequence, code: u8) -> (r: usize)
    ensures
        r == spec_pick_code(sq, code),
{
    if code == 0 {
        sq.ll_code
    } else if code == 1 {
        sq.ml_code
    } else {
        sq.of_code
    }
}

pub open spec fn spec_pick_code(sq: EncodedSequence, code: u8) -> usize {
    if code == 0 {
        sq.ll_code
    } else if code == 1 {
        sq.ml_code
    } else {
        sq.of_code
    }
}

pub open spec fn seq_codes(seqs: Seq<EncodedSequence>, code: u8) -> Seq<usize> {
    seqs.map_values(|s: EncodedSequence| spec_pick_code(s, code))
}

/// The bitstream of the sequences: the initial states, then for each
/// sequence its extra bits and, but for the last, its transition bits.
fn write_sequence_stream(
    sequences: &Vec<EncodedSequence>,
    ll_state: u16,
    of_state: u16,
    ml_state: u16,
    ll_bits: &Vec<(u16, u8)>,
    ml_bits: &Vec<(u16, u8)>,
    of_bits: &Vec<(u16, u8)>,
) -> (out: Vec<u8>)
    requires
        1 <= sequences@.len() <= 0x100000,
        forall|i: int| 0 <= i < sequences@.len() ==> (#[trigger] sequences@[i]).of_code < 32 && sequences@[i].ll_code < 36 && sequences@[i].ml_code < 53,
        ll_bits@.len() == sequences@.len() - 1,
        ml_bits@.len() == sequences@.len() - 1,
        of_bits@.len() == sequences@.len() - 1,
        forall|k: int| 0 <= k < ll_bits@.len() ==> #[trigger] ll_bits@[k].1 <= 12,
        forall|k: int| 0 <= k < ml_bits@.len() ==> #[trigger] ml_bits@[k].1 <= 12,
        forall|k: int| 0 <= k < of_bits@.len() ==> #[trigger] of_bits@[k].1 <= 12,
    ensures
        out@ == crate::fse::backward_stream(crate::encoder::sequence_stream::stream_bits(sequences@, ll_bits@, ml_bits@, of_bits@,
            ll_state, of_state, ml_state)),
{
    let n = sequences.len();
    let mut bits = crate::fse::BitWriter::new();
    bits.write_bits(ll_state as u64, crate::tables::sequences::LITERALS_LENGTH_DEFAULT_ACCURACY as u32);
    bits.write_bits(of_state as u64, crate::tables::sequences::OFFSET_DEFAULT_ACCURACY as u32);
    bits.write_bits(ml_state as u64, crate::tables::sequences::MATCH_LENGTH_DEFAULT_ACCURACY as u32);
    let ghost lbv = ll_bits@;
    let ghost mbv = ml_bits@;
    let ghost obv = of_bits@;
    let ghost whole = crate::encoder::sequence_stream::stream_bits(sequences@, lbv, mbv, obv, ll_state, of_state, ml_state);
    proof {
        assert(bits@ + crate::encoder::sequence_stream::body_bits(sequences@, lbv, mbv, obv, 0) =~= whole);
    }
    let mut k: usize = 0;
    while k < n
        invariant
            n == sequences@.len(),
            n <= 0x100000,
            k <= n,
            ll_bits@ == lbv,
            ml_bits@ == mbv,
            of_bits@ == obv,
            ll_bits@.len() == n - 1,
            ml_bits@.len() == n - 1,
            of_bits@.len() == n - 1,
            forall|i: int| 0 <= i < sequences@.len() ==> (#[trigger] sequences@[i]).of_code < 32 && sequences@[i].ll_code < 36 && sequences@[i].ml_code < 53,
            forall|k: int| 0 <= k < ll_bits@.len() ==> #[trigger] ll_bits@[k].1 <= 12,
            forall|k: int| 0 <= k < ml_bits@.len() ==> #[trigger] ml_bits@[k].1 <= 12,
            forall|k: int| 0 <= k < of_bits@.len() ==> #[trigger] of_bits@[k].1 <= 12,
            bits@.len() <= 36 + k * 100,
            bits@ + crate::encoder::sequence_stream::body_bits(sequences@, lbv, mbv, obv, k as nat) == whole,
        decreases n - k,
    {
        let sq = sequences[k];
        let ghost before = bits@;
        bits.write_bits(sq.of_extra as u64, sq.of_code as u32);
        bits.write_bits(sq.ml_extra as u64, MATCH_LENGTH_EXTRA[sq.ml_code].1 as u32);
        bits.write_bits(sq.ll_extra as u64, LITERALS_LENGTH_EXTRA[sq.ll_code].1 as u32);
        proof {
            assert(bits@ =~= before + crate::encoder::sequence_stream::extra_bits(sq));
        }
        let ghost mid = bits@;
        if k + 1 < n {
            let j = n - 2 - k;
            bits.write_bits(ll_bits[j].0 as u64, ll_bits[j].1 as u32);
            bits.write_bits(ml_bits[j].0 as u64, ml_bits[j].1 as u32);
            bits.write_bits(of_bits[j].0 as u64, of_bits[j].1 as u32);
            proof {
                assert(bits@ =~= mid + crate::encoder::sequence_stream::transition_bits(lbv[j as int], mbv[j as int], obv[j as int]));
            }
        }
        proof {
            let body = crate::encoder::sequence_stream::body_bits(sequences@, lbv, mbv, obv, k as nat);
            let next = crate::encoder::sequence_stream::body_bits(sequences@, lbv, mbv, obv, (k + 1) as nat);
            assert(bits@ + next =~= before + body);
            assert(bits@.len() <= 36 + (k + 1) * 100) by (nonlinear_arith)
                requires bits@.len() <= 36 + k * 100 + 100;
        }
        k += 1;
    }
    proof {
        assert(bits@ =~= whole);
    }
    bits.finish()
}

/// The sequences section [`encode_sequences`] writes: a lone zero byte for
/// no sequences; else, when every code has a symbol in its predefined
/// table and the predefined encoders give states for all of them, the
/// sequence count, the predefined-modes byte and the bitstream of the
/// states and extra bits; `None` otherwise.
pub open spec fn spec_encode_sequences(seqs: Seq<EncodedSequence>) -> Option<Seq<u8>> {
    let n = seqs.len();
    if n == 0 {
        Some(seq![0u8])
    } else if exists|i: int| 0 <= i < n && !((#[trigger] seqs[i]).of_code < 32 && seqs[i].ll_code < 36 && seqs[i].ml_code < 53) {
        None
    } else {
        match (spec_encoder_table(crate::tables::sequences::LITERALS_LENGTH_DEFAULT_NORM@, crate::tables::sequences::LITERALS_LENGTH_DEFAULT_ACCURACY, 36),
            spec_encoder_table(crate::tables::sequences::OFFSET_DEFAULT_NORM@, crate::tables::sequences::OFFSET_DEFAULT_ACCURACY, 29),
            spec_encoder_table(crate::tables::sequences::MATCH_LENGTH_DEFAULT_NORM@, crate::tables::sequences::MATCH_LENGTH_DEFAULT_ACCURACY, 53)) {
            (Some(llt), Some(oft), Some(mlt)) => match (spec_states(llt, 36, seq_codes(seqs, 0)), spec_states(mlt, 53, seq_codes(seqs, 1)),
                spec_states(oft, 29, seq_codes(seqs, 2))) {
                (Some((ls, lb)), Some((ms, mb)), Some((os, ob))) => Some(count_bytes(n) + seq![0u8]
                    + crate::fse::backward_stream(crate::encoder::sequence_stream::stream_bits(seqs, lb, mb, ob, ls, os, ms))),
                _ => None,
            },
            _ => None,
        }
    }
}

/// The sequences section for `sequences`: the count, the mode byte of the
/// predefined tables, and the bitstream.  The bitstream holds the initial
/// states (literal length, offset, match length), then for each sequence
/// its extra bits (offset, match length, literal length) and, but for the
/// last, the bits of its state transitions (literal length, match length,
/// offset), in the order a decoder reads them.  `None` when a code has no
/// state in its table.
fn encode_sequences(sequences: &Vec<EncodedSequence>) -> (r: Option<Vec<u8>>)
    requires
        sequences@.len() <= 0x100000,
    ensures
        r matches Some(out) ==> spec_encode_sequences(sequences@) == Some(out@),
        r is None ==> spec_encode_sequences(sequences@) is None,
        sequences@.len() == 0 ==> (r matches Some(out) && out@ == seq![0u8]),
        r matches Some(out) ==> sequences@.len() > 0 ==> out@.take(count_bytes(sequences@.len()).len() + 1int) == count_bytes(sequences@.len()) + seq![0u8],
        r matches Some(out) ==> sequences@.len() < 0x17F00
            && (forall|i: int| 0 <= i < sequences@.len() ==> crate::encoder::sequence_stream::coded_fits(#[trigger] sequences@[i]))
            ==> forall|rep: Seq<usize>| #[trigger] crate::decoder::sequences::spec_decode_sequences(out@, rep)
                == crate::encoder::sequence_stream::coded_section(sequences@, rep, out@.len()),
{
    let n = sequences.len();
    if n == 0 {
        let mut out: Vec<u8> = Vec::new();
        out.push(0);
        proof {
            assert(out@ =~= seq![0u8]);
        }
        return Some(out);
    }
    let mut c: usize = 0;
    while c < n
        invariant
            n == sequences@.len(),
            c <= n,
            forall|i: int| 0 <= i < c ==> (#[trigger] sequences@[i]).of_code < 32 && sequences@[i].ll_code < 36 && sequences@[i].ml_code < 53,
        decreases n - c,
    {
        let sq = sequences[c];
        if sq.of_code >= 32 || sq.ll_code >= 36 || sq.ml_code >= 53 {
            return None;
        }
        c += 1;
    }
    let (ll_table, Ghost(llt)) = match predefined_encoder(&crate::tables::sequences::LITERALS_LENGTH_DEFAULT_NORM, crate::tables::sequences::LITERALS_LENGTH_DEFAULT_ACCURACY, 36) {
        Some(p) => p,
        None => { return None; },
    };
    let (of_table, Ghost(oft)) = match predefined_encoder(&crate::tables::sequences::OFFSET_DEFAULT_NORM, crate::tables::sequences::OFFSET_DEFAULT_ACCURACY, 29) {
        Some(p) => p,
        None => { return None; },
    };
    let (ml_table, Ghost(mlt)) = match predefined_encoder(&crate::tables::sequences::MATCH_LENGTH_DEFAULT_NORM, crate::tables::sequences::MATCH_LENGTH_DEFAULT_ACCURACY, 53) {
        Some(p) => p,
        None => { return None; },
    };
    // States, computed from the last sequence back to the first.
    let (ll_state, ll_bits, Ghost(gls)) = match encoder_states(sequences, &ll_table, Ghost(llt), 0) { Some(x) => x, None => { return None; } };
    let (ml_state, ml_bits, Ghost(gms)) = match encoder_states(sequences, &ml_table, Ghost(mlt), 1) { Some(x) => x, None => { return None; } };
    let (of_state, of_bits, Ghost(gos)) = match encoder_states(sequences, &of_table, Ghost(oft), 2) { Some(x) => x, None => { return None; } };
    proof {
        crate::encoder::sequence_stream::lemma_chain_bits(llt, seq_codes(sequences@, 0), gls, ll_bits@);
        crate::encoder::sequence_stream::lemma_chain_bits(mlt, seq_codes(sequences@, 1), gms, ml_bits@);
        crate::encoder::sequence_stream::lemma_chain_bits(oft, seq_codes(sequences@, 2), gos, of_bits@);
    }
    let mut out: Vec<u8> = Vec::new();
    write_sequence_count(&mut out, n);
    out.push(0x00);
    let ghost prefix = out@;
    proof {
        assert(prefix =~= count_bytes(n as nat) + seq![0u8]);
    }
    let stream = write_sequence_stream(sequences, ll_state, of_state, ml_state, &ll_bits, &ml_bits, &of_bits);
    crate::decoder::sequences::append_slice(&mut out, stream.as_slice());
    proof {
        assert(out@.take(prefix.len() as int) =~= prefix);
        if n < 0x17F00 && (forall|i: int| 0 <= i < n ==> crate::encoder::sequence_stream::coded_fits(#[trigger] sequences@[i])) {
            assert(seq_codes(sequences@, 0) =~= crate::encoder::sequence_stream::ll_codes(sequences@));
            assert(seq_codes(sequences@, 1) =~= crate::encoder::sequence_stream::ml_codes(sequences@));
            assert(seq_codes(sequences@, 2) =~= crate::encoder::sequence_stream::of_codes(sequences@));
            assert forall|rep: Seq<usize>| #[trigger] crate::decoder::sequences::spec_decode_sequences(out@, rep)
                == crate::encoder::sequence_stream::coded_section(sequences@, rep, out@.len()) by {
                crate::encoder::sequence_stream::lemma_decode_section(sequences@, llt, oft, mlt, gls, gos, gms, ll_bits@, ml_bits@, of_bits@, rep);
            }
        }
    }
    Some(out)
}

// ---------------------------------------------------------------------------
// The literals section
// ---------------------------------------------------------------------------

/// Whether `data` holds one byte value only.
fn single_value(data: &[u8]) -> (r: bool)
    ensures
        r <==> data@.len() > 0 && forall|i: int| 0 <= i < data@.len() ==> #[trigger] data@[i] == data@[0],
{
    if data.len() == 0 {
        return false;
    }
    let first = data[0];
    let mut i: usize = 1;
    while i < data.len()
        invariant
            1 <= i <= data@.len(),
            first == data@[0],
            forall|k: int| 0 <= k < i ==> #[trigger] data@[k] == first,
        decreases data@.len() - i,
    {
        if data[i] != first {
            return false;
        }
        i += 1;
    }
    true
}

/// How often byte value `b` occurs in `data`.
pub open spec fn byte_count(data: Seq<u8>, b: int) -> nat
    decreases data.len(),
{
    if data.len() == 0 {
        0
    } else {
        byte_count(data.drop_last(), b) + if data.last() == b { 1nat } else { 0nat }
    }
}

/// The frequency of each byte value in `data`.
pub open spec fn literal_freqs(data: Seq<u8>) -> Seq<u32> {
    Seq::new(256, |b: int| byte_count(data, b) as u32)
}

/// The literals section [`encode_literals`] writes: RLE when the bytes hold
/// one value; else, with the Huffman table built from their frequencies,
/// described by its weights (at most 128 of them) and rebuilt from them,
/// the coded section when the description and the coded bits together are
/// shorter than the bytes; else the raw bytes.
pub open spec fn spec_encode_literals(data: Seq<u8>) -> Seq<u8> {
    let n = data.len();
    let raw = raw_header(0, n) + data;
    if n > 0 && forall|i: int| 0 <= i < n ==> #[trigger] data[i] == data[0] {
        raw_header(1, n) + seq![data[0]]
    } else {
        match crate::huffman::spec_from_frequencies(literal_freqs(data)) {
            Err(_) => raw,
            Ok((l, _c, mb)) => {
                let w = crate::huffman::spec_to_weights(l, mb);
                if w.len() > 128 {
                    raw
                } else {
                    match crate::huffman::spec_from_weights(w) {
                        Err(_) => raw,
                        Ok((l2, c2, mb2)) => match crate::huffman::code_bits(l2, c2, data) {
                            Err(_) => raw,
                            Ok(bits) => {
                                let hdr = crate::huffman::spec_write_header(crate::huffman::spec_to_weights(l2, mb2));
                                let enc = crate::huffman::pack_forward(bits);
                                if hdr.len() + enc.len() >= n {
                                    raw
                                } else {
                                    compressed_header(n, hdr.len() + enc.len()) + hdr + enc
                                }
                            },
                        },
                    }
                }
            },
        }
    }
}

/// Encode the literals section: RLE when the bytes hold one value, else
/// Huffman-coded when that is smaller than the bytes, else raw.  Whichever
/// form it takes, the section decodes back to the bytes, whatever follows
/// it.
pub fn encode_literals(data: &[u8]) -> (out: Vec<u8>)
    requires
        data@.len() <= 0x20000,
    ensures
        out@ == spec_encode_literals(data@),
        (data@.len() > 0 && forall|i: int| 0 <= i < data@.len() ==> #[trigger] data@[i] == data@[0]) ==> out@ == raw_header(1, data@.len()) + seq![data@[0]],
        !(data@.len() > 0 && forall|i: int| 0 <= i < data@.len() ==> #[trigger] data@[i] == data@[0]) ==> {
            ||| out@ == raw_header(0, data@.len()) + data@
            ||| exists|lengths: Seq<u8>, codes: Seq<u16>, mb: u8| {
                let bits = #[trigger] crate::huffman::code_bits(lengths, codes, data@);
                let hdr = crate::huffman::spec_write_header(#[trigger] crate::huffman::spec_to_weights(lengths, mb));
                &&& bits is Ok
                &&& hdr.len() + crate::huffman::pack_forward(bits.unwrap()).len() < data@.len()
                &&& out@ == compressed_header(data@.len(), hdr.len() + crate::huffman::pack_forward(bits.unwrap()).len()) + hdr
                    + crate::huffman::pack_forward(bits.unwrap())
            }
        },
        forall|rest: Seq<u8>| crate::decoder::literals::spec_decode_literals(#[trigger] (out@ + rest))
            == Ok::<(Seq<u8>, nat), crate::error::ZstdError>((data@, out@.len())),
{
    let n = data.len();
    if single_value(data) {
        let out = encode_rle(data[0], n);
        proof {
            assert forall|rest: Seq<u8>| crate::decoder::literals::spec_decode_literals(#[trigger] (out@ + rest))
                == Ok::<(Seq<u8>, nat), crate::error::ZstdError>((data@, out@.len())) by {
                crate::decoder::literals::lemma_rle_literals_roundtrip(data@[0], n as nat, rest);
                let d = crate::decoder::literals::spec_decode_literals(out@ + rest)->Ok_0.0;
                assert(d =~= data@);
            }
        }
        return out;
    }
    let mut freqs: [u32; 256] = [0u32; 256];
    proof {
        assert(freqs@ =~= Seq::new(256, |b: int| 0u32));
    }
    let mut i: usize = 0;
    while i < n
        invariant
            n == data@.len(),
            n <= 0x20000,
            i <= n,
            forall|b: int| 0 <= b < 256 ==> #[trigger] freqs@[b] <= i,
            forall|b: int| 0 <= b < 256 ==> #[trigger] freqs@[b] == byte_count(data@.take(i as int), b),
        decreases n - i,
    {
        let b = data[i] as usize;
        freqs[b] = freqs[b] + 1;
        proof {
            assert(data@.take(i + 1int).drop_last() =~= data@.take(i as int));
        }
        i += 1;
    }
    proof {
        assert(data@.take(n as int) =~= data@);
        assert(freqs@ =~= literal_freqs(data@));
    }
    let table = match crate::huffman::HuffmanTable::from_frequencies(&freqs) {
        Ok(t) => t,
        Err(_) => {
            return encode_raw(data);
        },
    };
    let weights = table.to_weights();
    if weights.len() > 128 {
        return encode_raw(data);
    }
    let table = match crate::huffman::HuffmanTable::from_weights(&weights) {
        Ok(t) => t,
        Err(_) => {
            return encode_raw(data);
        },
    };
    let encoded = match table.encode(data) {
        Ok(e) => e,
        Err(_) => {
            return encode_raw(data);
        },
    };
    let huff_header = crate::huffman::write_huffman_header(&table);
    if encoded.len() >= n || huff_header.len() >= n {
        return encode_raw(data);
    }
    let comp_size = huff_header.len() + encoded.len();
    if comp_size >= n {
        return encode_raw(data);
    }
    let out = encode_compressed(n, huff_header.as_slice(), encoded.as_slice());
    proof {
        let bits = crate::huffman::code_bits(table.lengths@, table.codes@, data@);
        assert(encoded@ == crate::huffman::pack_forward(bits.unwrap()));
        assert forall|rest: Seq<u8>| crate::decoder::literals::spec_decode_literals(#[trigger] (out@ + rest))
            == Ok::<(Seq<u8>, nat), crate::error::ZstdError>((data@, out@.len())) by {
            lemma_compressed_literals_roundtrip(weights@, table, data@, rest);
        }
    }
    out
}

// ---------------------------------------------------------------------------
// Blocks
// ---------------------------------------------------------------------------

fn raw_block_exec(data: &[u8]) -> (out: Vec<u8>)
    requires
        data@.len() < 0x100000,
    ensures
        out@ == raw_block(data@),
{
    let mut out = encode_raw(data);
    out.push(0);
    out
}

/// Whether two byte strings are equal.
fn bytes_equal(a: &[u8], b: &[u8]) -> (r: bool)
    ensures
        r <==> a@ == b@,
{
    if a.len() != b.len() {
        return false;
    }
    let mut i: usize = 0;
    while i < a.len()
        invariant
            a@.len() == b@.len(),
            i <= a@.len(),
            forall|k: int| 0 <= k < i ==> a@[k] == b@[k],
        decreases a@.len() - i,
    {
        if a[i] != b[i] {
            return false;
        }
        i += 1;
    }
    assert(a@ =~= b@);
    true
}

/// Whether the sequences section, decoded from the default repeat offsets
/// and executed with `literals` after `prior`, rebuilds `original`.
#[verifier::spinoff_prover]
#[verifier::rlimit(60)]
/// Whether a sequences section decodes, from the default repeat offsets,
/// to sequences that rebuild `original` from `literals` after `prior`.
pub open spec fn spec_validates(original: Seq<u8>, prior: Seq<u8>, literals: Seq<u8>, seq_section: Seq<u8>) -> bool {
    let d = crate::decoder::sequences::spec_decode_sequences(seq_section, seq![1usize, 4, 8]).0;
    &&& seq_section.len() <= usize::MAX / 16
    &&& d is Ok
    &&& crate::decoder::sequences::spec_execute(d.unwrap().0, literals, prior, Seq::empty()).0 is Ok
    &&& crate::decoder::sequences::spec_execute(d.unwrap().0, literals, prior, Seq::empty()).1 == original
}

fn validate_sequences(original: &[u8], prior: &[u8], literals: &[u8], seq_section: &[u8]) -> (r: bool)
    ensures
        r == spec_validates(original@, prior@, literals@, seq_section@),
        r ==> crate::decoder::sequences::spec_decode_sequences(seq_section@, seq![1usize, 4, 8]).0 is Ok,
        r ==> crate::decoder::sequences::spec_execute(crate::decoder::sequences::spec_decode_sequences(seq_section@, seq![1usize, 4, 8]).0.unwrap().0,
            literals@, prior@, Seq::empty()).1 == original@,
{
    if seq_section.len() > usize::MAX / 16 {
        return false;
    }
    let decoded = match crate::decoder::sequences::decode_sequences(seq_section) {
        Ok((d, _)) => d,
        Err(_) => {
            return false;
        },
    };
    let mut rebuilt: Vec<u8> = Vec::new();
    let ghost empty = rebuilt@;
    match crate::decoder::sequences::execute_sequences(decoded.as_slice(), literals, prior, &mut rebuilt) {
        Ok(_) => {
            bytes_equal(rebuilt.as_slice(), original)
        },
        Err(_) => false,
    }
}

/// The literals and sequences section of a block whose parse gave the
/// literals and sequences `lits0` and `seqs0`: those, when the sequences
/// can be coded and rebuild the block after the window of bytes `prior`
/// before it; else the block's bytes as literals and no sequences.
pub open spec fn spec_block_sections(block: Seq<u8>, prior: Seq<u8>, lits0: Seq<u8>, seqs0: Seq<EncodedSequence>) -> (Seq<u8>, Seq<u8>) {
    if lits0.len() > block.len() || seqs0.len() > 0x100000 {
        (block, seq![0u8])
    } else {
        match spec_encode_sequences(seqs0) {
            Some(sec) => if seqs0.len() > 0 && !spec_validates(block, prior, lits0, sec) {
                (block, seq![0u8])
            } else {
                (lits0, sec)
            },
            None => (block, seq![0u8]),
        }
    }
}

/// The candidate block for `data[start..end]`, parsed by a finder with
/// configuration `cfg`, window `window` and tables `tables`, and the tables
/// after it: two zero bytes for an empty block; else the literals section
/// and the sequences section of [`spec_block_sections`].
#[verifier::opaque]
pub open spec fn spec_candidate(cfg: crate::encoder::lz77::MatchConfig, window: nat, tables: (Seq<u32>, Seq<u32>), data: Seq<u8>, start: nat, end: nat)
    -> (Seq<u8>, (Seq<u32>, Seq<u32>)) {
    if start == end {
        (seq![0u8, 0u8], tables)
    } else {
        let pm = parse_model(cfg, window, data.subrange(0, end as int), start, tables);
        let c = collected(pm.0, data, start, end);
        let prior_start = if start > window { start - window } else { 0 };
        let secs = spec_block_sections(data.subrange(start as int, end as int), data.subrange(prior_start as int, start as int), c.0, c.1);
        (spec_encode_literals(secs.0) + secs.1, pm.1)
    }
}

/// A candidate block for `full_data[start..end]`: its literals and
/// sequences, or, when the sequences do not rebuild the block, the block's
/// bytes as literals and no sequences.
fn build_candidate(full_data: &[u8], start: usize, end: usize, finder: &mut MatchFinder) -> (out: Vec<u8>)
    requires
        old(finder).wf(),
        start <= end <= full_data@.len(),
        end - start <= 0x20000,
    ensures
        final(finder).wf(),
        final(finder).config() == old(finder).config(),
        final(finder).window() == old(finder).window(),
        (out@, (final(finder).hashes(), final(finder).links())) == spec_candidate(old(finder).config(), old(finder).window(),
            (old(finder).hashes(), old(finder).links()), full_data@, start as nat, end as nat),
{
    proof {
        reveal(spec_candidate);
    }
    let block = &full_data[start..end];
    if start == end {
        let mut c: Vec<u8> = Vec::new();
        c.push(0);
        c.push(0);
        c
    } else {
        let (lits0, seqs0) = collect_sequences(full_data, start, end, finder);
        let mut block_bytes: Vec<u8> = Vec::new();
        crate::decoder::sequences::append_slice(&mut block_bytes, block);
        let mut empty_section: Vec<u8> = Vec::new();
        empty_section.push(0);
        let window = finder.window_size();
        let prior_start = if start > window { start - window } else { 0 };
        let (lits, seq_section) = if lits0.len() > end - start || seqs0.len() > 0x100000 {
            (block_bytes, empty_section)
        } else {
            match encode_sequences(&seqs0) {
                Some(sec) => {
                    if seqs0.len() > 0 && !validate_sequences(block, &full_data[prior_start..start], lits0.as_slice(), sec.as_slice()) {
                        (block_bytes, empty_section)
                    } else {
                        (lits0, sec)
                    }
                },
                None => (block_bytes, empty_section),
            }
        };
        proof {
            assert(empty_section@ =~= seq![0u8]);
        }
        let mut c = encode_literals(lits.as_slice());
        crate::decoder::sequences::append_slice(&mut c, seq_section.as_slice());
        c
    }
}

/// Whether a compressed block decodes, after `history` and from repeat
/// offsets `rep`, to `expected`.
#[verifier::opaque]
pub open spec fn decodes_back(block: Seq<u8>, history: Seq<u8>, expected: Seq<u8>, rep: Seq<usize>) -> bool {
    let d = crate::decoder::spec_decode_compressed(block, history, Seq::empty(), rep);
    &&& block.len() <= usize::MAX / 16
    &&& d.0 is Ok
    &&& d.1 == expected
}

/// The repeat offsets after decoding `block`, when it decodes after
/// `history` to `expected`; `None` otherwise.
#[verifier::spinoff_prover]
#[verifier::rlimit(60)]
fn decodes_to(block: &[u8], history: &[u8], expected: &[u8], repeat_offsets: &[usize; 3]) -> (r: Option<[usize; 3]>)
    ensures
        r is Some <==> decodes_back(block@, history@, expected@, repeat_offsets@),
        r matches Some(rep) ==> crate::decoder::spec_decode_compressed(block@, history@, Seq::empty(), repeat_offsets@).0 is Ok
            && crate::decoder::spec_decode_compressed(block@, history@, Seq::empty(), repeat_offsets@).1 == expected@
            && crate::decoder::spec_decode_compressed(block@, history@, Seq::empty(), repeat_offsets@).2 == rep@,
{
    proof {
        reveal(decodes_back);
    }
    if block.len() > usize::MAX / 16 {
        return None;
    }
    let mut rep: [usize; 3] = *repeat_offsets;
    let mut decoded: Vec<u8> = Vec::new();
    let ghost empty = decoded@;
    match crate::decoder::decode_compressed_block(block, history, &mut decoded, &mut rep) {
        Ok(_) => {
            if bytes_equal(decoded.as_slice(), expected) {
                Some(rep)
            } else {
                None
            }
        },
        Err(_) => None,
    }
}

/// Encode `full_data[start..end]` as a compressed block, threading the
/// repeat offsets a decoder would hold before and after it.
///
/// `finder` carries the frame's match history.  The block is decoded
/// against the frame's earlier bytes before it is returned; one that does
/// not decode back to its input is replaced by its raw-literals block.
pub fn encode_block_with_offsets(
    full_data: &[u8],
    start: usize,
    end: usize,
    finder: &mut MatchFinder,
    repeat_offsets: &mut [usize; 3],
) -> (out: Vec<u8>)
    requires
        old(finder).wf(),
        start <= end <= full_data@.len(),
        end - start <= 0x20000,
    ensures
        final(finder).wf(),
        final(finder).config() == old(finder).config(),
        final(finder).window() == old(finder).window(),
        crate::decoder::spec_decode_compressed(out@, full_data@.take(start as int), Seq::empty(), old(repeat_offsets)@).0 is Ok,
        crate::decoder::spec_decode_compressed(out@, full_data@.take(start as int), Seq::empty(), old(repeat_offsets)@).1
            == full_data@.subrange(start as int, end as int),
        crate::decoder::spec_decode_compressed(out@, full_data@.take(start as int), Seq::empty(), old(repeat_offsets)@).2
            == final(repeat_offsets)@,
        ({
            let c = spec_candidate(old(finder).config(), old(finder).window(), (old(finder).hashes(), old(finder).links()), full_data@,
                start as nat, end as nat);
            &&& (final(finder).hashes(), final(finder).links()) == c.1
            &&& out@ == if decodes_back(c.0, full_data@.take(start as int), full_data@.subrange(start as int, end as int), old(repeat_offsets)@) {
                c.0
            } else {
                raw_block(full_data@.subrange(start as int, end as int))
            }
        }),
{
    let block = &full_data[start..end];
    let candidate = build_candidate(full_data, start, end, finder);
    proof {
        assert(full_data@.take(start as int) == full_data@.subrange(0, start as int));
    }
    match decodes_to(candidate.as_slice(), &full_data[0..start], block, repeat_offsets) {
        Some(rep_after) => {
            *repeat_offsets = rep_after;
            candidate
        },
        None => {
            proof {
                crate::decoder::lemma_raw_block_decodes(block@, full_data@.take(start as int), repeat_offsets@);
                assert(full_data@.take(start as int) == full_data@.subrange(0, start as int));
            }
            raw_block_exec(block)
        },
    }
}

/// Encode `full_data[start..end]` as a compressed block, for a decoder that
/// starts from the default repeat offsets (1, 4, 8).
///
/// `full_data` is the whole frame input and `finder` carries its match
/// history, so matches may reach back into earlier blocks.
pub fn encode_block(full_data: &[u8], start: usize, end: usize, finder: &mut MatchFinder) -> (r: crate::error::Result<Vec<u8>>)
    requires
        old(finder).wf(),
        start <= end <= full_data@.len(),
        end - start <= 0x20000,
    ensures
        final(finder).wf(),
        final(finder).config() == old(finder).config(),
        final(finder).window() == old(finder).window(),
        r matches Ok(out) && crate::decoder::spec_decode_compressed(out@, full_data@.take(start as int), Seq::empty(), seq![1usize, 4, 8]).0 is Ok
            && crate::decoder::spec_decode_compressed(out@, full_data@.take(start as int), Seq::empty(), seq![1usize, 4, 8]).1 == full_data@.subrange(start as int, end as int),
        ({
            let c = spec_candidate(old(finder).config(), old(finder).window(), (old(finder).hashes(), old(finder).links()), full_data@,
                start as nat, end as nat);
            &&& (final(finder).hashes(), final(finder).links()) == c.1
            &&& r matches Ok(out) && out@ == if decodes_back(c.0, full_data@.take(start as int), full_data@.subrange(start as int, end as int),
                seq![1usize, 4, 8]) {
                c.0
            } else {
                raw_block(full_data@.subrange(start as int, end as int))
            }
        }),
{
    let mut rep: [usize; 3] = [1usize, 4, 8];
    proof {
        assert(rep@ =~= seq![1usize, 4, 8]);
    }
    Ok(encode_block_with_offsets(full_data, start, end, finder, &mut rep))
}

} // verus!
