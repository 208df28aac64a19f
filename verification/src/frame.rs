//! The zstd frame: header, block loop and content checksum.
//!
//! ```text
//! Magic (4 bytes) | Frame_Header | Block+ | [Checksum (4 bytes)]
//! ```
use vstd::prelude::*;
use vstd::arithmetic::power2::pow2;
use crate::decoder::{decode_block_with_offsets, lemma_history_as_output, raw_block, spec_decode_block, spec_decode_compressed};
use crate::encoder::block::{decodes_back, encode_block_with_offsets, spec_candidate};
use crate::encoder::lz77::{fresh_tables, spec_for_level, word4, MatchConfig, MatchFinder};
use crate::error::{Result, ZstdError};
use crate::xxhash::{lemma_xxh64_is_reference, spec_xxh64, xxh64_reference, xxhash32};

verus! {

/// Magic number identifying a zstd frame.
pub const MAGIC: u32 = 0xFD2F_B528;

/// Maximum block size (128 KiB).
pub const MAX_BLOCK_SIZE: usize = 131072;

/// The little-endian 32-bit value at `i`.
pub open spec fn le32_at(d: Seq<u8>, i: int) -> nat {
    (d[i] + 256 * d[i + 1] + 65536 * d[i + 2] + 16777216 * d[i + 3]) as nat
}

/// Bytes of the dictionary id field for a dictionary flag.
pub open spec fn dict_id_size(flag: nat) -> nat {
    if flag == 0 {
        0
    } else if flag == 1 {
        1
    } else if flag == 2 {
        2
    } else {
        4
    }
}

/// The position after the frame header, and whether a content checksum
/// follows the blocks.
pub open spec fn spec_frame_header(input: Seq<u8>) -> Result<(nat, bool)> {
    if input.len() < 4 {
        Err(ZstdError::UnexpectedEof)
    } else if le32_at(input, 0) != MAGIC {
        Err(ZstdError::InvalidMagic(le32_at(input, 0) as u32))
    } else if input.len() <= 4 {
        Err(ZstdError::UnexpectedEof)
    } else {
        let fhd = input[4];
        let checksum = fhd / 4 % 2 == 1;
        let single = fhd / 32 % 2 == 1;
        let fcs = fhd / 64;
        if !single && input.len() <= 5 {
            Err(ZstdError::UnexpectedEof)
        } else {
            let p = (if single { 5nat } else { 6nat }) + dict_id_size((fhd % 4) as nat);
            let fcs_len: nat = if fcs == 0 {
                if single { 1 } else { 0 }
            } else if fcs == 1 {
                2
            } else if fcs == 2 {
                4
            } else {
                8
            };
            if fcs_len > 0 && p + fcs_len > input.len() {
                Err(ZstdError::UnexpectedEof)
            } else {
                Ok((p + fcs_len, checksum))
            }
        }
    }
}

/// The blocks from position `pos` on, decoded after `out` with repeat
/// offsets `rep`: the output and the position after the last block.
pub open spec fn spec_blocks(input: Seq<u8>, pos: nat, out: Seq<u8>, rep: Seq<usize>) -> Result<(Seq<u8>, nat)>
    decreases input.len() - pos,
{
    if pos + 3 > input.len() {
        Err(ZstdError::UnexpectedEof)
    } else {
        let hv = (input[pos as int] + 256 * input[pos + 1int] + 65536 * input[pos + 2int]) as nat;
        let last = hv % 2 == 1;
        let block_type = (hv / 2 % 4) as u8;
        let block_size = hv / 8;
        let payload = if block_type == 1 { 1 } else { block_size };
        let start = pos + 3;
        if start + payload > input.len() {
            Err(ZstdError::UnexpectedEof)
        } else {
            let (r, out2, rep2) = spec_decode_block(input.subrange(start as int, (start + payload) as int), block_type, block_size, Seq::empty(), out, rep);
            match r {
                Err(e) => Err(e),
                Ok(_) => if last {
                    Ok((out2, start + payload))
                } else {
                    spec_blocks(input, start + payload, out2, rep2)
                },
            }
        }
    }
}

/// What [`decompress`] returns for `input`.
pub open spec fn spec_decompress(input: Seq<u8>) -> Result<Seq<u8>> {
    match spec_frame_header(input) {
        Err(e) => Err(e),
        Ok((pos, checksum)) => match spec_blocks(input, pos, Seq::empty(), seq![1usize, 4, 8]) {
            Err(e) => Err(e),
            Ok((out, q)) => if !checksum {
                Ok(out)
            } else if q + 4 > input.len() {
                Err(ZstdError::UnexpectedEof)
            } else {
                let stored = le32_at(input, q as int) as u32;
                let computed = spec_xxh64(out, 0) as u32;
                if stored != computed {
                    Err(ZstdError::ChecksumMismatch { expected: stored, actual: computed })
                } else {
                    Ok(out)
                }
            },
        },
    }
}

fn read_le32(d: &[u8], i: usize) -> (r: u32)
    requires
        i + 4 <= d@.len(),
    ensures
        r == le32_at(d@, i as int),
{
    d[i] as u32 + 256 * d[i + 1] as u32 + 65536 * d[i + 2] as u32 + 16777216 * d[i + 3] as u32
}

/// Decode the block at `pos`: the position after it and whether it is the
/// last one.
fn decode_one_block(input: &[u8], pos: usize, output: &mut Vec<u8>, repeat_offsets: &mut [usize; 3]) -> (r: Result<(usize, bool)>)
    requires
        pos <= input@.len(),
    ensures
        r matches Err(e) ==> spec_blocks(input@, pos as nat, old(output)@, old(repeat_offsets)@) == Err::<(Seq<u8>, nat), ZstdError>(e),
        r matches Ok((np, last)) ==> pos < np <= input@.len() && if last {
            spec_blocks(input@, pos as nat, old(output)@, old(repeat_offsets)@) == Ok::<(Seq<u8>, nat), ZstdError>((final(output)@, np as nat))
        } else {
            spec_blocks(input@, pos as nat, old(output)@, old(repeat_offsets)@) == spec_blocks(input@, np as nat, final(output)@, final(repeat_offsets)@)
        },
{
    let len = input.len();
    if len - pos < 3 {
        return Err(ZstdError::UnexpectedEof);
    }
    let b0 = input[pos] as usize;
    let b1 = input[pos + 1] as usize;
    let b2 = input[pos + 2] as usize;
    let hv: usize = b0 + 256 * b1 + 65536 * b2;
    let last = hv % 2 == 1;
    let block_type = (hv / 2 % 4) as u8;
    let block_size = hv / 8;
    let payload = if block_type == 1 { 1 } else { block_size };
    let start = pos + 3;
    if payload > len - start {
        return Err(ZstdError::UnexpectedEof);
    }
    let block = &input[start..start + payload];
    assert(block@ == input@.subrange(start as int, (start + payload) as int));
    assert(block_size < 0x200000);
    let none: Vec<u8> = Vec::new();
    assert(none@ == Seq::<u8>::empty());
    decode_block_with_offsets(block, block_type, block_size, none.as_slice(), output, repeat_offsets)?;
    Ok((start + payload, last))
}

/// Decompress a zstd frame.
pub fn decompress(input: &[u8]) -> (r: Result<Vec<u8>>)
    ensures
        r matches Ok(out) ==> spec_decompress(input@) == Ok::<Seq<u8>, ZstdError>(out@),
        r matches Err(e) ==> spec_decompress(input@) == Err::<Seq<u8>, ZstdError>(e),
{
    let len = input.len();
    if len < 4 {
        return Err(ZstdError::UnexpectedEof);
    }
    let magic = read_le32(input, 0);
    if magic != MAGIC {
        return Err(ZstdError::InvalidMagic(magic));
    }
    if len <= 4 {
        return Err(ZstdError::UnexpectedEof);
    }
    let fhd = input[4];
    let checksum = fhd / 4 % 2 == 1;
    let single = fhd / 32 % 2 == 1;
    let fcs = fhd / 64;
    if !single && len <= 5 {
        return Err(ZstdError::UnexpectedEof);
    }
    let dict_flag = fhd % 4;
    let dict_size: usize = if dict_flag == 0 { 0 } else if dict_flag == 1 { 1 } else if dict_flag == 2 { 2 } else { 4 };
    let p: usize = (if single { 5 } else { 6 }) + dict_size;
    let fcs_len: usize = if fcs == 0 {
        if single { 1 } else { 0 }
    } else if fcs == 1 {
        2
    } else if fcs == 2 {
        4
    } else {
        8
    };
    if fcs_len > 0 && p + fcs_len > len {
        return Err(ZstdError::UnexpectedEof);
    }
    if fcs_len == 0 && p > len {
        proof {
            assert(spec_frame_header(input@) == Ok::<(nat, bool), ZstdError>(((p + fcs_len) as nat, checksum)));
            assert(spec_blocks(input@, (p + fcs_len) as nat, Seq::empty(), seq![1usize, 4, 8]) == Err::<(Seq<u8>, nat), ZstdError>(ZstdError::UnexpectedEof));
        }
        return Err(ZstdError::UnexpectedEof);
    }
    let mut pos: usize = p + fcs_len;
    let mut output: Vec<u8> = Vec::new();
    let mut repeat_offsets: [usize; 3] = [1usize, 4, 8];
    proof {
        assert(repeat_offsets@ =~= seq![1usize, 4, 8]);
    }
    let ghost p0 = pos as nat;
    let mut done = false;
    while !done
        invariant
            len == input@.len(),
            pos <= len,
            spec_frame_header(input@) == Ok::<(nat, bool), ZstdError>((p0, checksum)),
            !done ==> spec_blocks(input@, p0, Seq::empty(), seq![1usize, 4, 8]) == spec_blocks(input@, pos as nat, output@, repeat_offsets@),
            done ==> spec_blocks(input@, p0, Seq::empty(), seq![1usize, 4, 8]) == Ok::<(Seq<u8>, nat), ZstdError>((output@, pos as nat)),
        decreases len - pos + (if done { 0int } else { 1int }),
    {
        let (np, last) = decode_one_block(input, pos, &mut output, &mut repeat_offsets)?;
        pos = np;
        if last {
            done = true;
        }
    }
    if checksum {
        if len - pos < 4 {
            return Err(ZstdError::UnexpectedEof);
        }
        let stored = read_le32(input, pos);
        let computed = xxhash32(output.as_slice(), 0);
        if stored != computed {
            return Err(ZstdError::ChecksumMismatch { expected: stored, actual: computed });
        }
    }
    Ok(output)
}

// ---------------------------------------------------------------------------
// Compression
// ---------------------------------------------------------------------------

/// The byte every byte of `data` equals, if there is one.
fn repeated_byte(data: &[u8]) -> (r: Option<u8>)
    ensures
        r matches Some(b) ==> data@.len() > 0 && forall|i: int| 0 <= i < data@.len() ==> #[trigger] data@[i] == b,
        r is None ==> !(data@.len() > 0 && forall|i: int| 0 <= i < data@.len() ==> #[trigger] data@[i] == data@[0]),
{
    if data.len() == 0 {
        return None;
    }
    let first = data[0];
    let mut i: usize = 1;
    while i < data.len()
        invariant
            1 <= i <= data@.len(),
            first == data@[0],
            forall|k: int| 0 <= k < i ==> #[trigger] data@[k] == first,
        decreases data@.len() - i,
    {
        if data[i] != first {
            return None;
        }
        i += 1;
    }
    Some(first)
}

pub const SAMPLE_HASH_PRIME: u64 = 0x9E37_79B1_9E37_79B1;

/// The sample table slot of a 4-byte value.
pub open spec fn sample_hash(v: u32) -> int {
    ((v as u64).wrapping_mul(SAMPLE_HASH_PRIME) >> 55u64) as int
}

/// Whether the samples from `p` to `end` (every 8 bytes) leave fewer than
/// two exact repeats, given the table and the repeats so far.
pub open spec fn sample_loop(d: Seq<u8>, p: nat, end: nat, table: Seq<u32>, repeats: nat) -> bool
    decreases end + 8 - p,
{
    if p > end {
        true
    } else {
        let v = word4(d, p as int);
        let h = sample_hash(v);
        if table[h] == v && repeats + 1 > 1 {
            false
        } else {
            sample_loop(d, p + 8, end, table.update(h, v), if table[h] == v { repeats + 1 } else { repeats })
        }
    }
}

/// Whether a block looks incompressible: at fast levels (search depth at
/// most 8), a block of 8 KiB or more whose first 4 KiB, sampled every
/// 8 bytes, repeats a 4-byte value at most once.
pub open spec fn spec_looks_incompressible(d: Seq<u8>, search_log: nat) -> bool {
    if d.len() < 8192 || vstd::arithmetic::power2::pow2(search_log) > 8 {
        false
    } else {
        let se = if d.len() - 4 < 4096 { (d.len() - 4) as nat } else { 4096nat };
        if se < 64 {
            false
        } else {
            sample_loop(d, 0, se, Seq::new(512, |i: int| u32::MAX), 0)
        }
    }
}

proof fn lemma_sample_hash_bound(v: u32)
    ensures
        0 <= sample_hash(v) < 512,
{
    let x = (v as u64).wrapping_mul(SAMPLE_HASH_PRIME);
    assert(x >> 55u64 < 512) by (bit_vector);
}

fn looks_incompressible(data: &[u8], cfg: &MatchConfig) -> (r: bool)
    requires
        cfg.wf(),
    ensures
        r == spec_looks_incompressible(data@, cfg.search_log as nat),
{
    if data.len() < 8192 || cfg.search_depth() > 8 {
        return false;
    }
    let sample_end = if data.len() - 4 < 4096 { data.len() - 4 } else { 4096 };
    if sample_end < 64 {
        return false;
    }
    let mut table: Vec<u32> = Vec::new();
    let mut k: usize = 0;
    while k < 512
        invariant
            k <= 512,
            table@ == Seq::new(k as nat, |i: int| u32::MAX),
        decreases 512 - k,
    {
        table.push(u32::MAX);
        k += 1;
        proof {
            assert(table@ =~= Seq::new(k as nat, |i: int| u32::MAX));
        }
    }
    let mut exact_repeats: usize = 0;
    let mut pos: usize = 0;
    let ghost d = data@;
    while pos <= sample_end
        invariant
            d == data@,
            data@.len() >= 8192,
            sample_end <= 4096,
            sample_end + 4 <= data@.len(),
            table@.len() == 512,
            exact_repeats <= 1,
            pos <= sample_end + 8,
            spec_looks_incompressible(data@, cfg.search_log as nat) == sample_loop(d, pos as nat, sample_end as nat, table@, exact_repeats as nat),
        decreases sample_end + 8 - pos,
    {
        let v = crate::encoder::lz77::load_u32(data, pos);
        let x = (v as u64).wrapping_mul(SAMPLE_HASH_PRIME);
        proof {
            lemma_sample_hash_bound(v);
            assert(x >> 55u64 < 512) by (bit_vector);
        }
        let h = (x >> 55u64) as usize;
        if table[h] == v {
            exact_repeats += 1;
            if exact_repeats > 1 {
                return false;
            }
        }
        table.set(h, v);
        pos += 8;
    }
    true
}

fn should_attempt_compressed_block(data: &[u8], cfg: &MatchConfig) -> (r: bool)
    requires
        cfg.wf(),
    ensures
        r == !spec_looks_incompressible(data@, cfg.search_log as nat),
{
    !looks_incompressible(data, cfg)
}

/// The three bytes of a block header.
pub open spec fn block_header(last: bool, block_type: u8, block_size: nat) -> Seq<u8> {
    let hv = (if last { 1nat } else { 0nat }) + 2 * block_type + 8 * block_size;
    seq![(hv % 256) as u8, (hv / 256 % 256) as u8, (hv / 65536 % 256) as u8]
}

fn push_block_header(out: &mut Vec<u8>, last: bool, block_type: u8, block_size: usize)
    requires
        block_type < 4,
        block_size < 0x200000,
    ensures
        final(out)@ == old(out)@ + block_header(last, block_type, block_size as nat),
{
    let hv: u32 = (if last { 1u32 } else { 0u32 }) + 2 * block_type as u32 + 8 * block_size as u32;
    out.push((hv % 256) as u8);
    out.push((hv / 256 % 256) as u8);
    out.push((hv / 65536 % 256) as u8);
    proof {
        assert(final(out)@ =~= old(out)@ + block_header(last, block_type, block_size as nat));
    }
}

/// Reading a block header and payload written at `n`.
proof fn lemma_block_step(y: Seq<u8>, n: nat, last: bool, block_type: u8, block_size: nat, payload: Seq<u8>, out: Seq<u8>, rep: Seq<usize>)
    requires
        block_type < 3,
        block_size < 0x200000,
        payload.len() == (if block_type == 1 { 1 } else { block_size }),
        n + 3 + payload.len() <= y.len(),
        y.subrange(n as int, n + 3int) == block_header(last, block_type, block_size),
        y.subrange(n + 3int, n + 3int + payload.len()) == payload,
    ensures
        spec_blocks(y, n, out, rep) == ({
            let (r, o2, r2) = spec_decode_block(payload, block_type, block_size, Seq::empty(), out, rep);
            match r {
                Err(e) => Err(e),
                Ok(_) => if last {
                    Ok((o2, n + 3 + payload.len()))
                } else {
                    spec_blocks(y, n + 3 + payload.len(), o2, r2)
                },
            }
        }),
{
    let hv = (if last { 1nat } else { 0nat }) + 2 * block_type + 8 * block_size;
    let h = block_header(last, block_type, block_size);
    assert(y[n as int] == h[0] && y[n + 1int] == h[1] && y[n + 2int] == h[2]) by {
        assert(y.subrange(n as int, n + 3int)[0] == y[n as int]);
        assert(y.subrange(n as int, n + 3int)[1] == y[n + 1int]);
        assert(y.subrange(n as int, n + 3int)[2] == y[n + 2int]);
    }
    let hv32 = hv as u32;
    assert(hv32 % 256 + 256 * (hv32 / 256 % 256) + 65536 * (hv32 / 65536 % 256) == hv32) by (bit_vector)
        requires hv32 < 0x1000000;
    let lb: nat = if last { 1 } else { 0 };
    assert(hv % 2 == lb && hv / 2 % 4 == block_type && hv / 8 == block_size) by (nonlinear_arith)
        requires hv == lb + 2 * block_type + 8 * block_size, lb < 2, block_type < 4;
}

/// Everything written so far decodes, from the first block, as the input
/// up to `pos` followed by whatever the rest of the buffer holds.
pub open spec fn blocks_prefix_ok(out: Seq<u8>, input: Seq<u8>, pos: nat, rep: Seq<usize>) -> bool {
    forall|y: Seq<u8>| y.len() >= out.len() && #[trigger] y.take(out.len() as int) == out ==>
        spec_blocks(y, 10, Seq::empty(), seq![1usize, 4, 8]) == spec_blocks(y, out.len(), input.take(pos as int), rep)
}

/// Everything written so far decodes, from the first block, as all of the
/// input, ending where the buffer ends.
pub open spec fn blocks_done(out: Seq<u8>, input: Seq<u8>) -> bool {
    forall|y: Seq<u8>| y.len() >= out.len() && #[trigger] y.take(out.len() as int) == out ==>
        spec_blocks(y, 10, Seq::empty(), seq![1usize, 4, 8]) == Ok::<(Seq<u8>, nat), ZstdError>((input, out.len()))
}

/// Append one block and carry the decoding facts over it.
proof fn lemma_append_block(
    out: Seq<u8>,
    input: Seq<u8>,
    pos: nat,
    end: nat,
    rep: Seq<usize>,
    rep2: Seq<usize>,
    last: bool,
    block_type: u8,
    block_size: nat,
    payload: Seq<u8>,
)
    requires
        out.len() >= 10,
        pos <= end <= input.len(),
        blocks_prefix_ok(out, input, pos, rep),
        block_type < 3,
        block_size < 0x200000,
        payload.len() == (if block_type == 1 { 1 } else { block_size }),
        spec_decode_block(payload, block_type, block_size, Seq::empty(), input.take(pos as int), rep).0 is Ok,
        spec_decode_block(payload, block_type, block_size, Seq::empty(), input.take(pos as int), rep).1 == input.take(end as int),
        spec_decode_block(payload, block_type, block_size, Seq::empty(), input.take(pos as int), rep).2 == rep2,
        last ==> end == input.len(),
    ensures
        !last ==> blocks_prefix_ok(out + block_header(last, block_type, block_size) + payload, input, end, rep2),
        last ==> blocks_done(out + block_header(last, block_type, block_size) + payload, input),
{
    let hdr = block_header(last, block_type, block_size);
    let out2 = out + hdr + payload;
    assert forall|y: Seq<u8>| y.len() >= out2.len() && #[trigger] y.take(out2.len() as int) == out2 implies
        spec_blocks(y, 10, Seq::empty(), seq![1usize, 4, 8]) == (if last {
            Ok::<(Seq<u8>, nat), ZstdError>((input, out2.len()))
        } else {
            spec_blocks(y, out2.len(), input.take(end as int), rep2)
        }) by {
        assert(y.take(out.len() as int) =~= out) by {
            assert forall|i: int| 0 <= i < out.len() implies y.take(out.len() as int)[i] == out[i] by {
                assert(y.take(out2.len() as int)[i] == out2[i]);
            }
        }
        assert(y.subrange(out.len() as int, out.len() + 3int) =~= hdr) by {
            assert forall|i: int| 0 <= i < 3 implies y.subrange(out.len() as int, out.len() + 3int)[i] == hdr[i] by {
                assert(y.take(out2.len() as int)[out.len() + i] == out2[out.len() + i]);
            }
        }
        assert(y.subrange(out.len() + 3int, out.len() + 3int + payload.len()) =~= payload) by {
            assert forall|i: int| 0 <= i < payload.len() implies y.subrange(out.len() + 3int, out.len() + 3int + payload.len())[i] == payload[i] by {
                assert(y.take(out2.len() as int)[out.len() + 3int + i] == out2[out.len() + 3int + i]);
            }
        }
        lemma_block_step(y, out.len(), last, block_type, block_size, payload, input.take(pos as int), rep);
        if last {
            assert(input.take(end as int) =~= input);
        }
    }
}

/// The frame header [`compress_with_config`] writes: magic, descriptor
/// (4-byte content size, checksum flag), window descriptor and the content
/// size (its low 32 bits).
pub open spec fn frame_header_bytes(checksum: bool, window_log: nat, content_size: nat) -> Seq<u8> {
    seq![0x28u8, 0xB5u8, 0x2Fu8, 0xFDu8, (if checksum { 0x84u8 } else { 0x80u8 }), (8 * (window_log - 10)) as u8,
        (content_size % 256) as u8, (content_size / 256 % 256) as u8, (content_size / 65536 % 256) as u8, (content_size / 16777216 % 256) as u8]
}

/// Whether `b` holds one byte value only.
pub open spec fn one_value(b: Seq<u8>) -> bool {
    forall|i: int| 0 <= i < b.len() ==> #[trigger] b[i] == b[0]
}

/// The blocks written for `input` from `pos` on, by a finder with tables
/// `tables` and a decoder holding repeat offsets `rep`.  Each block of up
/// to 128 KiB is an RLE block when its bytes hold one value; else, unless
/// it looks incompressible, its compressed candidate (replaced by its raw
/// block when it does not decode back) is written when shorter than the
/// block; else the raw block.
#[verifier::opaque]
pub open spec fn spec_frame_blocks(cfg: MatchConfig, input: Seq<u8>, pos: nat, tables: (Seq<u32>, Seq<u32>), rep: Seq<usize>) -> Seq<u8>
    decreases input.len() - pos,
{
    if pos >= input.len() {
        Seq::empty()
    } else {
        let end: nat = if input.len() - pos > MAX_BLOCK_SIZE { (pos + MAX_BLOCK_SIZE) as nat } else { input.len() };
        let block = input.subrange(pos as int, end as int);
        let last = end == input.len();
        if one_value(block) {
            block_header(last, 1, block.len()) + seq![block[0]] + spec_frame_blocks(cfg, input, end, tables, rep)
        } else if !spec_looks_incompressible(block, cfg.search_log as nat) {
            let c = spec_candidate(cfg, pow2(cfg.window_log as nat), tables, input, pos, end);
            let payload = if decodes_back(c.0, input.take(pos as int), block, rep) { c.0 } else { raw_block(block) };
            if payload.len() < block.len() {
                block_header(last, 2, payload.len()) + payload + spec_frame_blocks(cfg, input, end, c.1,
                    spec_decode_compressed(payload, input.take(pos as int), Seq::empty(), rep).2)
            } else {
                block_header(last, 0, block.len()) + block + spec_frame_blocks(cfg, input, end, c.1, rep)
            }
        } else {
            block_header(last, 0, block.len()) + block + spec_frame_blocks(cfg, input, end, tables, rep)
        }
    }
}

/// [`spec_frame_blocks`] at a position inside the input: the block there
/// and the blocks after it.
proof fn lemma_frame_blocks_unfold(cfg: MatchConfig, input: Seq<u8>, pos: nat, tables: (Seq<u32>, Seq<u32>), rep: Seq<usize>)
    requires
        pos < input.len(),
    ensures
        ({
            let end: nat = if input.len() - pos > MAX_BLOCK_SIZE { (pos + MAX_BLOCK_SIZE) as nat } else { input.len() };
            let block = input.subrange(pos as int, end as int);
            let last = end == input.len();
            let c = spec_candidate(cfg, pow2(cfg.window_log as nat), tables, input, pos, end);
            let payload = if decodes_back(c.0, input.take(pos as int), block, rep) { c.0 } else { raw_block(block) };
            spec_frame_blocks(cfg, input, pos, tables, rep) == if one_value(block) {
                block_header(last, 1, block.len()) + seq![block[0]] + spec_frame_blocks(cfg, input, end, tables, rep)
            } else if !spec_looks_incompressible(block, cfg.search_log as nat) {
                if payload.len() < block.len() {
                    block_header(last, 2, payload.len()) + payload + spec_frame_blocks(cfg, input, end, c.1,
                        spec_decode_compressed(payload, input.take(pos as int), Seq::empty(), rep).2)
                } else {
                    block_header(last, 0, block.len()) + block + spec_frame_blocks(cfg, input, end, c.1, rep)
                }
            } else {
                block_header(last, 0, block.len()) + block + spec_frame_blocks(cfg, input, end, tables, rep)
            }
        }),
{
    reveal(spec_frame_blocks);
}

/// The four little-endian bytes of `c`.
pub open spec fn le32_bytes(c: u32) -> Seq<u8> {
    seq![(c % 256) as u8, (c / 256 % 256) as u8, (c / 65536 % 256) as u8, (c / 16777216 % 256) as u8]
}

/// The frame [`compress_with_config`] writes: the header, the blocks (one
/// empty raw block for empty input), and the low 32 bits of the input's
/// XXHash-64 when a checksum is asked for.
pub open spec fn spec_compress_frame(input: Seq<u8>, cfg: MatchConfig, checksum: bool) -> Seq<u8> {
    frame_header_bytes(checksum, cfg.window_log as nat, input.len())
        + (if input.len() == 0 { block_header(true, 0, 0) } else { spec_frame_blocks(cfg, input, 0, fresh_tables(cfg), seq![1usize, 4, 8]) })
        + (if checksum { le32_bytes(spec_xxh64(input, 0) as u32) } else { Seq::empty() })
}

/// Law: the content size field of a frame that [`compress_with_config`]
/// writes (the four bytes after the window descriptor, little-endian)
/// holds the length of the input the frame decompresses to, for inputs
/// shorter than 4 GiB.
pub proof fn lemma_frame_content_size(input: Seq<u8>, cfg: MatchConfig, checksum: bool)
    requires
        input.len() < 0x1_0000_0000,
    ensures
        spec_compress_frame(input, cfg, checksum).len() >= 10,
        le32_at(spec_compress_frame(input, cfg, checksum), 6) == input.len(),
{
    let f = spec_compress_frame(input, cfg, checksum);
    let h = frame_header_bytes(checksum, cfg.window_log as nat, input.len());
    let rest = (if input.len() == 0 { block_header(true, 0, 0) } else { spec_frame_blocks(cfg, input, 0, fresh_tables(cfg), seq![1usize, 4, 8]) })
        + (if checksum { le32_bytes(spec_xxh64(input, 0) as u32) } else { Seq::empty() });
    assert(f == h + rest);
    assert(f[6] == h[6] && f[7] == h[7] && f[8] == h[8] && f[9] == h[9]);
    let c: u32 = input.len() as u32;
    assert(c == input.len());
    assert((c % 256) + 256 * (c / 256 % 256) + 65536 * (c / 65536 % 256) + 16777216 * (c / 16777216 % 256) == c) by (bit_vector);
}

/// Law: a frame written with a content checksum ends with the low 32 bits
/// of the input's XXH64 (seed 0, as the xxHash specification defines it),
/// little-endian.
pub proof fn lemma_frame_checksum(input: Seq<u8>, cfg: MatchConfig)
    ensures
        spec_compress_frame(input, cfg, true).len() >= 14,
        ({
            let f = spec_compress_frame(input, cfg, true);
            le32_at(f, f.len() - 4) == xxh64_reference(input, 0) as u32
        }),
{
    let f = spec_compress_frame(input, cfg, true);
    let c = spec_xxh64(input, 0) as u32;
    let h = frame_header_bytes(true, cfg.window_log as nat, input.len());
    let blocks = if input.len() == 0 { block_header(true, 0, 0) } else { spec_frame_blocks(cfg, input, 0, fresh_tables(cfg), seq![1usize, 4, 8]) };
    assert(f == h + blocks + le32_bytes(c));
    let q = f.len() - 4;
    assert(f[q] == le32_bytes(c)[0] && f[q + 1] == le32_bytes(c)[1] && f[q + 2] == le32_bytes(c)[2] && f[q + 3] == le32_bytes(c)[3]);
    assert((c % 256) + 256 * (c / 256 % 256) + 65536 * (c / 65536 % 256) + 16777216 * (c / 16777216 % 256) == c) by (bit_vector);
    lemma_xxh64_is_reference(input, 0);
}

/// An upper bound on the size of a frame for `n` input bytes.
pub open spec fn frame_size_bound(n: nat) -> nat {
    n + (n / 128 + 3) * 3 + 22
}

proof fn lemma_header_parses(y: Seq<u8>, checksum: bool, window_log: nat, content_size: nat)
    requires
        10 <= window_log <= 30,
        y.len() >= 10,
        y.take(10) == frame_header_bytes(checksum, window_log, content_size),
    ensures
        spec_frame_header(y) == Ok::<(nat, bool), ZstdError>((10, checksum)),
{
    let h = frame_header_bytes(checksum, window_log, content_size);
    assert forall|i: int| 0 <= i < 10 implies y[i] == h[i] by {
        assert(y.take(10)[i] == y[i]);
    }
    assert(le32_at(y, 0) == MAGIC);
}

/// Write the block of `input` that starts at `pos`: an RLE block when its
/// bytes hold one value; else, unless it looks incompressible, its
/// compressed block when that is shorter; else its raw block.  Gives where
/// the block ends.
#[verifier::spinoff_prover]
#[verifier::rlimit(60)]
fn write_block(input: &[u8], pos: usize, cfg: &MatchConfig, finder: &mut MatchFinder, repeat_offsets: &mut [usize; 3], out: &mut Vec<u8>)
    -> (block_end: usize)
    requires
        old(finder).wf(),
        old(finder).config() == *cfg,
        old(finder).window() == pow2(cfg.window_log as nat),
        cfg.wf(),
        pos < input@.len(),
        old(out)@.len() >= 10,
        blocks_prefix_ok(old(out)@, input@, pos as nat, old(repeat_offsets)@),
    ensures
        block_end == if input@.len() - pos > MAX_BLOCK_SIZE { pos + MAX_BLOCK_SIZE } else { input@.len() as int },
        final(finder).wf(),
        final(finder).config() == *cfg,
        final(finder).window() == old(finder).window(),
        final(out)@.len() <= old(out)@.len() + 3 + (block_end - pos),
        final(out)@.take(old(out)@.len() as int) == old(out)@,
        final(out)@.len() >= old(out)@.len(),
        block_end < input@.len() ==> blocks_prefix_ok(final(out)@, input@, block_end as nat, final(repeat_offsets)@),
        block_end == input@.len() ==> blocks_done(final(out)@, input@),
        final(out)@ + spec_frame_blocks(*cfg, input@, block_end as nat, (final(finder).hashes(), final(finder).links()), final(repeat_offsets)@)
            == old(out)@ + spec_frame_blocks(*cfg, input@, pos as nat, (old(finder).hashes(), old(finder).links()), old(repeat_offsets)@),
{
    let n = input.len();
    let block_end = if n - pos > MAX_BLOCK_SIZE { pos + MAX_BLOCK_SIZE } else { n };
    let block = &input[pos..block_end];
    let is_last = block_end == n;
    let rb = repeated_byte(block);
    let ghost tables0 = (finder.hashes(), finder.links());
    let ghost rep0 = repeat_offsets@;
    let ghost rest0 = spec_frame_blocks(*cfg, input@, pos as nat, tables0, rep0);
    let ghost rest1 = spec_frame_blocks(*cfg, input@, block_end as nat, tables0, rep0);
    proof {
        assert(block@ == input@.subrange(pos as int, block_end as int));
        lemma_frame_blocks_unfold(*cfg, input@, pos as nat, tables0, rep0);
    }
    let mut rep_try: [usize; 3] = *repeat_offsets;
    let ghost cand = spec_candidate(*cfg, pow2(cfg.window_log as nat), tables0, input@, pos as nat, block_end as nat);
    let attempt = rb.is_none() && should_attempt_compressed_block(block, cfg);
    let compressed: Option<Vec<u8>> = if attempt {
        Some(encode_block_with_offsets(input, pos, block_end, finder, &mut rep_try))
    } else {
        None
    };
    let ghost old_out = out@;
    let ghost take_pos = input@.take(pos as int);
    let ghost take_end = input@.take(block_end as int);
    proof {
        assert(take_pos + block@ =~= take_end);
    }
    match rb {
        Some(byte) => {
            push_block_header(out, is_last, 1, block.len());
            out.push(byte);
            proof {
                crate::decoder::lemma_decode_rle_block(byte, block@.len(), Seq::empty(), take_pos, repeat_offsets@);
                assert(Seq::new(block@.len(), |i: int| byte) =~= block@);
                assert(out@ =~= old_out + block_header(is_last, 1, block@.len()) + seq![byte]);
                lemma_append_block(old_out, input@, pos as nat, block_end as nat, repeat_offsets@, repeat_offsets@, is_last, 1, block@.len(), seq![byte]);
                assert(byte == block@[0]);
                assert(one_value(block@));
                assert(rest0 == block_header(is_last, 1, block@.len()) + seq![block@[0]] + rest1);
                assert(out@ + rest1 =~= old_out + rest0);
            }
        },
        None => {
            let use_compressed = match &compressed {
                Some(c) => c.len() < block.len(),
                None => false,
            };
            if use_compressed {
                let c = compressed.unwrap();
                push_block_header(out, is_last, 2, c.len());
                crate::decoder::sequences::append_slice(out, c.as_slice());
                proof {
                    crate::decoder::lemma_decode_compressed_block(c@, c@.len(), Seq::empty(), take_pos, repeat_offsets@);
                    lemma_history_as_output(c@, take_pos, repeat_offsets@);
                    assert(take_pos == input@.take(pos as int));
                    let t = spec_decode_compressed(c@, Seq::empty(), take_pos, repeat_offsets@);
                    assert(t.0 is Ok);
                    assert(t.1 =~= take_end);
                    assert(t.2 == rep_try@);
                    assert(out@ =~= old_out + block_header(is_last, 2, c@.len()) + c@);
                    lemma_append_block(old_out, input@, pos as nat, block_end as nat, repeat_offsets@, rep_try@, is_last, 2, c@.len(), c@);
                    assert(!one_value(block@));
                    assert(rest0 == block_header(is_last, 2, c@.len()) + c@ + spec_frame_blocks(*cfg, input@, block_end as nat, cand.1, rep_try@));
                    assert(out@ + spec_frame_blocks(*cfg, input@, block_end as nat, cand.1, rep_try@) =~= old_out + rest0);
                }
                *repeat_offsets = rep_try;
            } else {
                push_block_header(out, is_last, 0, block.len());
                crate::decoder::sequences::append_slice(out, block);
                proof {
                    crate::decoder::lemma_decode_raw_block(block@, block@.len(), Seq::empty(), take_pos, repeat_offsets@);
                    assert(out@ =~= old_out + block_header(is_last, 0, block@.len()) + block@);
                    lemma_append_block(old_out, input@, pos as nat, block_end as nat, repeat_offsets@, repeat_offsets@, is_last, 0, block@.len(), block@);
                    assert(!one_value(block@));
                    if attempt {
                        assert(rest0 == block_header(is_last, 0, block@.len()) + block@ + spec_frame_blocks(*cfg, input@, block_end as nat, cand.1, rep0));
                        assert(out@ + spec_frame_blocks(*cfg, input@, block_end as nat, cand.1, rep0) =~= old_out + rest0);
                    } else {
                        assert(rest0 == block_header(is_last, 0, block@.len()) + block@ + rest1);
                        assert(out@ + rest1 =~= old_out + rest0);
                    }
                }
            }
        },
    }
    proof {
        assert(out@.take(old_out.len() as int) =~= old_out);
    }
    block_end
}

/// Compress `input` into a zstd frame with an explicit configuration,
/// with or without a content checksum.
#[verifier::spinoff_prover]
#[verifier::rlimit(90)]
pub fn compress_with_config(input: &[u8], cfg: &MatchConfig, content_checksum: bool) -> (r: Result<Vec<u8>>)
    requires
        cfg.wf(),
        cfg.window_log >= 10,
    ensures
        r matches Ok(out) && spec_decompress(out@) == Ok::<Seq<u8>, ZstdError>(input@)
            && out@.len() <= frame_size_bound(input@.len())
            && out@.take(10) == frame_header_bytes(content_checksum, cfg.window_log as nat, input@.len()),
        r matches Ok(out) && out@ == spec_compress_frame(input@, *cfg, content_checksum),
{
    let n = input.len();
    let mut out: Vec<u8> = Vec::new();
    out.push(0x28);
    out.push(0xB5);
    out.push(0x2F);
    out.push(0xFD);
    out.push(if content_checksum { 0x84u8 } else { 0x80u8 });
    out.push((8 * (cfg.window_log - 10)) as u8);
    out.push((n % 256) as u8);
    out.push((n / 256 % 256) as u8);
    out.push((n / 65536 % 256) as u8);
    out.push((n / 16777216 % 256) as u8);
    let ghost header = out@;
    proof {
        assert(header =~= frame_header_bytes(content_checksum, cfg.window_log as nat, n as nat));
        assert forall|y: Seq<u8>| y.len() >= out@.len() && #[trigger] y.take(out@.len() as int) == out@ implies
            spec_blocks(y, 10, Seq::empty(), seq![1usize, 4, 8]) == spec_blocks(y, out@.len(), input@.take(0), seq![1usize, 4, 8]) by {
            assert(input@.take(0) =~= Seq::<u8>::empty());
        }
    }
    let mut finder = MatchFinder::new(cfg);
    let mut repeat_offsets: [usize; 3] = [1usize, 4, 8];
    proof {
        assert(repeat_offsets@ =~= seq![1usize, 4, 8]);
        assert(out@ + Seq::<u8>::empty() =~= out@);
    }
    let mut pos: usize = 0;
    let mut blocks: usize = 0;
    while pos < n
        invariant
            n == input@.len(),
            pos <= n,
            finder.wf(),
            finder.config() == *cfg,
            cfg.wf(),
            out@.len() >= 10,
            out@.take(10) == header,
            out@.len() <= 10 + 3 * blocks + pos,
            pos < n ==> pos == blocks * 131072,
            blocks * 131072 < n + 131072,
            (pos < n || n == 0) ==> blocks_prefix_ok(out@, input@, pos as nat, repeat_offsets@),
            pos == n && n > 0 ==> blocks_done(out@, input@),
            finder.window() == pow2(cfg.window_log as nat),
            out@ + spec_frame_blocks(*cfg, input@, pos as nat, (finder.hashes(), finder.links()), repeat_offsets@)
                == header + spec_frame_blocks(*cfg, input@, 0, fresh_tables(*cfg), seq![1usize, 4, 8]),
        decreases n - pos,
    {
        let ghost out0 = out@;
        let block_end = write_block(input, pos, cfg, &mut finder, &mut repeat_offsets, &mut out);
        proof {
            assert(out@.take(10) =~= out@.take(out0.len() as int).take(10));
        }
        pos = block_end;
        blocks = blocks + 1;
    }
    proof {
        assert(spec_frame_blocks(*cfg, input@, n as nat, (finder.hashes(), finder.links()), repeat_offsets@) == Seq::<u8>::empty()) by {
            reveal(spec_frame_blocks);
        }
        assert(spec_frame_blocks(*cfg, input@, 0, fresh_tables(*cfg), seq![1usize, 4, 8]) == Seq::<u8>::empty() || n > 0) by {
            reveal(spec_frame_blocks);
        }
        assert(out@ =~= header + spec_frame_blocks(*cfg, input@, 0, fresh_tables(*cfg), seq![1usize, 4, 8]));
    }
    if n == 0 {
        let ghost old_out = out@;
        push_block_header(&mut out, true, 0, 0);
        proof {
            let e = Seq::<u8>::empty();
            crate::decoder::lemma_decode_raw_block(e, 0, e, input@.take(0), repeat_offsets@);
            assert(input@.take(0) + e =~= input@.take(0));
            assert(out@ =~= old_out + block_header(true, 0, 0) + e);
            lemma_append_block(old_out, input@, 0, 0, repeat_offsets@, repeat_offsets@, true, 0, 0, e);
            assert(out@.take(10) =~= old_out.take(10));
        }
    }
    let ghost blocks_out = out@;
    if content_checksum {
        let c = xxhash32(input, 0);
        out.push((c % 256) as u8);
        out.push((c / 256 % 256) as u8);
        out.push((c / 65536 % 256) as u8);
        out.push((c / 16777216 % 256) as u8);
        proof {
            assert(out@.take(blocks_out.len() as int) =~= blocks_out);
            assert(out@.take(10) =~= blocks_out.take(10));
            lemma_header_parses(out@, content_checksum, cfg.window_log as nat, n as nat);
            let q = blocks_out.len() as int;
            assert(le32_at(out@, q) == c) by {
                assert(out@[q] == c % 256);
                assert(out@[q + 1] == c / 256 % 256);
                assert(out@[q + 2] == c / 65536 % 256);
                assert(out@[q + 3] == c / 16777216 % 256);
                assert((c % 256) + 256 * (c / 256 % 256) + 65536 * (c / 65536 % 256) + 16777216 * (c / 16777216 % 256) == c) by (bit_vector);
            }
        }
    } else {
        proof {
            assert(out@.take(blocks_out.len() as int) =~= blocks_out);
            lemma_header_parses(out@, content_checksum, cfg.window_log as nat, n as nat);
        }
    }
    proof {
        assert(blocks <= n / 128 + 1) by (nonlinear_arith)
            requires blocks * 131072 < n + 131072;
    }
    Ok(out)
}

/// Compress `input` into a zstd frame at `level` (1 to 22), with a content
/// checksum.
pub fn compress(input: &[u8], level: i32) -> (r: Result<Vec<u8>>)
    ensures
        (level < 1 || level > 22) ==> r == Err::<Vec<u8>, ZstdError>(ZstdError::InvalidLevel(level)),
        !(level < 1 || level > 22) ==> (r matches Ok(out) && spec_decompress(out@) == Ok::<Seq<u8>, ZstdError>(input@)
            && out@.len() <= frame_size_bound(input@.len())),
        !(level < 1 || level > 22) ==> (r matches Ok(out) && out@ == spec_compress_frame(input@, spec_for_level(level), true)),
        !(level < 1 || level > 22) && input@.len() < 0x1_0000_0000 ==> (r matches Ok(out) && le32_at(out@, 6) == input@.len()),
{
    if level < 1 || level > 22 {
        return Err(ZstdError::InvalidLevel(level));
    }
    let cfg = MatchConfig::for_level(level);
    proof {
        if input@.len() < 0x1_0000_0000 {
            lemma_frame_content_size(input@, cfg, true);
        }
    }
    compress_with_config(input, &cfg, true)
}

} // verus!
