//! Block-level decoder.
use vstd::prelude::*;
use crate::error::{Result, ZstdError};
use self::literals::{decode_literals, spec_decode_literals};
use self::sequences::{
    append_slice, decode_sequences_with_offsets, execute_sequences, spec_decode_sequences, spec_execute,
};

pub mod literals;
pub mod sequences;

verus! {

/// The outcome of decoding a compressed block after `hist` into `out` with
/// repeat offsets `rep`: the result, the output then, and the repeat
/// offsets then.
pub closed spec fn spec_decode_compressed(data: Seq<u8>, hist: Seq<u8>, out: Seq<u8>, rep: Seq<usize>) -> (Result<()>, Seq<u8>, Seq<usize>) {
    match spec_decode_literals(data) {
        Err(e) => (Err(e), out, rep),
        Ok((lits, used)) => {
            let (r, rep2) = spec_decode_sequences(data.skip(used as int), rep);
            match r {
                Err(e) => (Err(e), out, rep2),
                Ok((seqs, _)) => {
                    let (res, out2) = spec_execute(seqs, lits, hist, out);
                    (res, out2, rep2)
                },
            }
        },
    }
}

/// The outcome of decoding a block of type `block_type` (0 raw, 1 RLE,
/// 2 compressed): the result, the output then, and the repeat offsets then.
pub closed spec fn spec_decode_block(data: Seq<u8>, block_type: u8, block_size: nat, hist: Seq<u8>, out: Seq<u8>, rep: Seq<usize>) -> (Result<()>, Seq<u8>, Seq<usize>) {
    if block_type == 0 {
        (Ok(()), out + data, rep)
    } else if block_type == 1 {
        if data.len() == 0 {
            (Err(ZstdError::UnexpectedEof), out, rep)
        } else {
            (Ok(()), out + Seq::new(block_size, |i: int| data[0]), rep)
        }
    } else if block_type == 2 {
        spec_decode_compressed(data, hist, out, rep)
    } else {
        (Err(ZstdError::InvalidBlockType(block_type)), out, rep)
    }
}

/// Decode a single block, starting from the default repeat offsets.
///
/// `data` holds the block's bytes after its 3-byte header; `block_type` is
/// 0 (raw), 1 (RLE) or 2 (compressed); `block_size` is the regenerated
/// size of an RLE block; `history` holds the bytes that precede `output`.
pub fn decode_block(data: &[u8], block_type: u8, block_size: usize, history: &[u8], output: &mut Vec<u8>) -> (r: Result<()>)
    requires
        data@.len() <= usize::MAX / 16,
    ensures
        ({
            let (res, out, _) = spec_decode_block(data@, block_type, block_size as nat, history@, old(output)@, seq![1usize, 4, 8]);
            &&& final(output)@ == out
            &&& (r matches Ok(_) ==> res is Ok)
            &&& (r matches Err(e) ==> res == Err::<(), ZstdError>(e))
        }),
{
    let mut repeat_offsets: [usize; 3] = [1usize, 4, 8];
    proof {
        assert(repeat_offsets@ =~= seq![1usize, 4, 8]);
    }
    decode_block_with_offsets(data, block_type, block_size, history, output, &mut repeat_offsets)
}

/// Decode a single block, threading the repeat offsets from block to block
/// of a frame.
pub fn decode_block_with_offsets(
    data: &[u8],
    block_type: u8,
    block_size: usize,
    history: &[u8],
    output: &mut Vec<u8>,
    repeat_offsets: &mut [usize; 3],
) -> (r: Result<()>)
    requires
        data@.len() <= usize::MAX / 16,
    ensures
        ({
            let (res, out, rep) = spec_decode_block(data@, block_type, block_size as nat, history@, old(output)@, old(repeat_offsets)@);
            &&& final(output)@ == out
            &&& final(repeat_offsets)@ == rep
            &&& (r matches Ok(_) ==> res is Ok)
            &&& (r matches Err(e) ==> res == Err::<(), ZstdError>(e))
        }),
{
    if block_type == 0 {
        append_slice(output, data);
        Ok(())
    } else if block_type == 1 {
        if data.len() == 0 {
            return Err(ZstdError::UnexpectedEof);
        }
        let byte = data[0];
        let ghost before = output@;
        let mut i: usize = 0;
        while i < block_size
            invariant
                i <= block_size,
                output@ == before + Seq::new(i as nat, |j: int| byte),
            decreases block_size - i,
        {
            output.push(byte);
            i += 1;
            proof {
                assert(output@ =~= before + Seq::new(i as nat, |j: int| byte));
            }
        }
        Ok(())
    } else if block_type == 2 {
        decode_compressed_block(data, history, output, repeat_offsets)
    } else {
        Err(ZstdError::InvalidBlockType(block_type))
    }
}

/// Decode a compressed block: its literals section, then its sequences,
/// then execute the sequences.
pub fn decode_compressed_block(data: &[u8], history: &[u8], output: &mut Vec<u8>, repeat_offsets: &mut [usize; 3]) -> (r: Result<()>)
    requires
        data@.len() <= usize::MAX / 16,
    ensures
        ({
            let (res, out, rep) = spec_decode_compressed(data@, history@, old(output)@, old(repeat_offsets)@);
            &&& final(output)@ == out
            &&& final(repeat_offsets)@ == rep
            &&& (r matches Ok(_) ==> res is Ok)
            &&& (r matches Err(e) ==> res == Err::<(), ZstdError>(e))
        }),
{
    let lit_section = decode_literals(data)?;
    let seq_start = lit_section.bytes_used;
    let seq_data = &data[seq_start..data.len()];
    assert(seq_data@ == data@.skip(seq_start as int));
    let (sequences, _) = decode_sequences_with_offsets(seq_data, repeat_offsets)?;
    execute_sequences(sequences.as_slice(), lit_section.literals.as_slice(), history, output)
}

/// A raw block decodes to its bytes, appended to the output.
pub proof fn lemma_decode_raw_block(data: Seq<u8>, size: nat, hist: Seq<u8>, out: Seq<u8>, rep: Seq<usize>)
    ensures
        spec_decode_block(data, 0, size, hist, out, rep) == (Ok::<(), ZstdError>(()), out + data, rep),
{
}

/// An RLE block decodes to `size` copies of its byte, appended to the output.
pub proof fn lemma_decode_rle_block(b: u8, size: nat, hist: Seq<u8>, out: Seq<u8>, rep: Seq<usize>)
    ensures
        spec_decode_block(seq![b], 1, size, hist, out, rep) == (Ok::<(), ZstdError>(()), out + Seq::new(size, |i: int| b), rep),
{
    assert(Seq::new(size, |i: int| seq![b][0]) =~= Seq::new(size, |i: int| b));
}

/// An RLE block repeats the first of its bytes; one with no byte is cut short.
pub proof fn lemma_decode_rle_block_bytes(data: Seq<u8>, size: nat, hist: Seq<u8>, out: Seq<u8>, rep: Seq<usize>)
    ensures
        data.len() == 0 ==> spec_decode_block(data, 1, size, hist, out, rep) == (Err::<(), ZstdError>(ZstdError::UnexpectedEof), out, rep),
        data.len() > 0 ==> spec_decode_block(data, 1, size, hist, out, rep)
            == (Ok::<(), ZstdError>(()), out + Seq::new(size, |i: int| data[0]), rep),
{
}

/// A block of any type but raw, RLE and compressed is refused, and the
/// output and repeat offsets are left as they were.
pub proof fn lemma_decode_reserved_block(data: Seq<u8>, block_type: u8, size: nat, hist: Seq<u8>, out: Seq<u8>, rep: Seq<usize>)
    requires
        block_type > 2,
    ensures
        spec_decode_block(data, block_type, size, hist, out, rep) == (Err::<(), ZstdError>(ZstdError::InvalidBlockType(block_type)), out, rep),
{
}

/// A compressed block decodes as its literals and sequences say.
pub proof fn lemma_decode_compressed_block(data: Seq<u8>, size: nat, hist: Seq<u8>, out: Seq<u8>, rep: Seq<usize>)
    ensures
        spec_decode_block(data, 2, size, hist, out, rep) == spec_decode_compressed(data, hist, out, rep),
{
}

/// Law: decoding a compressed block after a history gives what decoding it
/// into an output that already holds the history appends to it, with the
/// same outcome and the same repeat offsets.
pub proof fn lemma_history_as_output(data: Seq<u8>, hist: Seq<u8>, rep: Seq<usize>)
    ensures
        spec_decode_compressed(data, hist, Seq::empty(), rep).0 == spec_decode_compressed(data, Seq::empty(), hist, rep).0,
        spec_decode_compressed(data, hist, Seq::empty(), rep).2 == spec_decode_compressed(data, Seq::empty(), hist, rep).2,
        spec_decode_compressed(data, Seq::empty(), hist, rep).1 == hist + spec_decode_compressed(data, hist, Seq::empty(), rep).1,
{
    match spec_decode_literals(data) {
        Err(e) => {
            assert(hist + Seq::<u8>::empty() =~= hist);
        },
        Ok((lits, used)) => {
            let (r, rep2) = spec_decode_sequences(data.skip(used as int), rep);
            match r {
                Err(e) => {
                    assert(hist + Seq::<u8>::empty() =~= hist);
                },
                Ok((seqs, _)) => {
                    assert(hist + Seq::<u8>::empty() =~= Seq::<u8>::empty() + hist);
                    let buf = self::sequences::exec_loop(seqs, lits, hist, 0, 0).1;
                    self::sequences::lemma_exec_loop_prefix(seqs, lits, hist, 0, 0);
                    assert(buf =~= hist + buf.skip(hist.len() as int));
                    assert(buf.skip(0) =~= buf);
                },
            }
        },
    }
}

/// The raw-literals block of `data`: its bytes as raw literals, then no
/// sequences.
pub open spec fn raw_block(data: Seq<u8>) -> Seq<u8> {
    self::literals::raw_header(0, data.len()) + data + seq![0u8]
}

/// Law: a raw-literals block decodes to its bytes after any history, and
/// leaves the repeat offsets as they were.
pub proof fn lemma_raw_block_decodes(data: Seq<u8>, hist: Seq<u8>, rep: Seq<usize>)
    requires
        data.len() < 0x100000,
    ensures
        spec_decode_compressed(raw_block(data), hist, Seq::empty(), rep) == (Ok::<(), ZstdError>(()), data, rep),
{
    let h = self::literals::raw_header(0, data.len());
    self::literals::lemma_raw_literals_roundtrip(data, seq![0u8]);
    let b = raw_block(data);
    assert(b == h + data + seq![0u8]);
    let used = h.len() + data.len();
    assert(b.skip(used as int) =~= seq![0u8]);
    let (r, rep2) = self::sequences::spec_decode_sequences(seq![0u8], rep);
    assert(self::sequences::spec_sequence_count(seq![0u8]) == Ok::<(nat, nat), ZstdError>((0, 1)));
    assert(r == Ok::<(Seq<self::sequences::Sequence>, nat), ZstdError>((Seq::empty(), 1)));
    assert(rep2 == rep);
    let (res, out) = self::sequences::spec_execute(Seq::empty(), data, hist, Seq::empty());
    assert(hist + Seq::<u8>::empty() =~= hist);
    if data.len() > 0 {
        assert((hist + data).skip(hist.len() as int) =~= data);
    } else {
        assert(hist.skip(hist.len() as int) =~= data);
    }
}

} // verus!
