//! Decoding of the literals section of a compressed block.
use vstd::prelude::*;
use crate::error::{Result, ZstdError};
use crate::decoder::sequences::append_slice;
use crate::huffman::{read_huffman_header, spec_huff_decode, spec_read_huffman_header, HuffmanTable};

verus! {

/// A decoded literals section.
pub struct LiteralsSection {
    /// The literal bytes.
    pub literals: Vec<u8>,
    /// Bytes consumed from the input.
    pub bytes_used: usize,
}

/// Regenerated size and header size of a raw or RLE literals header.
pub open spec fn spec_size_raw(data: Seq<u8>, size_format: u8) -> Result<(nat, nat)> {
    if size_format == 1 {
        if data.len() < 2 {
            Err(ZstdError::UnexpectedEof)
        } else {
            Ok(((data[0] / 16 + 16 * data[1]) as nat, 2))
        }
    } else if size_format == 3 {
        if data.len() < 3 {
            Err(ZstdError::UnexpectedEof)
        } else {
            Ok(((data[0] / 16 + 16 * data[1] + 4096 * data[2]) as nat, 3))
        }
    } else {
        Ok(((data[0] / 8) as nat, 1))
    }
}

/// Regenerated size, compressed size and header size of a Huffman
/// literals header.
pub open spec fn spec_size_compressed(data: Seq<u8>, size_format: u8) -> Result<(nat, nat, nat)> {
    if size_format == 2 {
        if data.len() < 4 {
            Err(ZstdError::UnexpectedEof)
        } else {
            Ok(((data[0] / 16 + 16 * data[1] + 4096 * (data[2] % 4)) as nat, (data[2] / 4 + 64 * data[3]) as nat, 4))
        }
    } else if size_format == 3 {
        if data.len() < 5 {
            Err(ZstdError::UnexpectedEof)
        } else {
            Ok((
                (data[0] / 16 + 16 * data[1] + 4096 * (data[2] % 64)) as nat,
                (data[2] / 64 + 4 * data[3] + 1024 * data[4]) as nat,
                5,
            ))
        }
    } else {
        if data.len() < 3 {
            Err(ZstdError::UnexpectedEof)
        } else {
            Ok(((data[0] / 16 + 16 * (data[1] % 64)) as nat, (data[1] / 64 + 4 * data[2]) as nat, 3))
        }
    }
}

/// Decode sizes for raw/RLE literals. Returns `(regen_size, header_size)`.
fn decode_size_raw(data: &[u8], size_format: u8) -> (r: Result<(usize, usize)>)
    requires
        data@.len() >= 1,
        size_format < 4,
    ensures
        r matches Ok((a, b)) ==> spec_size_raw(data@, size_format) == Ok::<(nat, nat), ZstdError>((a as nat, b as nat)),
        r matches Err(e) ==> spec_size_raw(data@, size_format) == Err::<(nat, nat), ZstdError>(e),
{
    if size_format == 1 {
        if data.len() < 2 {
            return Err(ZstdError::UnexpectedEof);
        }
        Ok((data[0] as usize / 16 + 16 * data[1] as usize, 2))
    } else if size_format == 3 {
        if data.len() < 3 {
            return Err(ZstdError::UnexpectedEof);
        }
        Ok((data[0] as usize / 16 + 16 * data[1] as usize + 4096 * data[2] as usize, 3))
    } else {
        Ok((data[0] as usize / 8, 1))
    }
}

/// Decode sizes for compressed literals. Returns `(regen_size, comp_size, header_size)`.
fn decode_size_compressed(data: &[u8], size_format: u8) -> (r: Result<(usize, usize, usize)>)
    requires
        size_format < 4,
    ensures
        r matches Ok((a, b, c)) ==> spec_size_compressed(data@, size_format) == Ok::<(nat, nat, nat), ZstdError>((a as nat, b as nat, c as nat)),
        r matches Err(e) ==> spec_size_compressed(data@, size_format) == Err::<(nat, nat, nat), ZstdError>(e),
{
    if size_format == 2 {
        if data.len() < 4 {
            return Err(ZstdError::UnexpectedEof);
        }
        let regen = data[0] as usize / 16 + 16 * data[1] as usize + 4096 * (data[2] as usize % 4);
        let comp = data[2] as usize / 4 + 64 * data[3] as usize;
        Ok((regen, comp, 4))
    } else if size_format == 3 {
        if data.len() < 5 {
            return Err(ZstdError::UnexpectedEof);
        }
        let regen = data[0] as usize / 16 + 16 * data[1] as usize + 4096 * (data[2] as usize % 64);
        let comp = data[2] as usize / 64 + 4 * data[3] as usize + 1024 * data[4] as usize;
        Ok((regen, comp, 5))
    } else {
        if data.len() < 3 {
            return Err(ZstdError::UnexpectedEof);
        }
        let regen = data[0] as usize / 16 + 16 * (data[1] as usize % 64);
        let comp = data[1] as usize / 64 + 4 * data[2] as usize;
        Ok((regen, comp, 3))
    }
}

/// A little-endian 16-bit value at `i`.
pub open spec fn le16(data: Seq<u8>, i: int) -> nat {
    (data[i] + 256 * data[i + 1]) as nat
}

/// The four streams of a four-stream Huffman payload, decoded one after
/// the other: the first three hold `total / 4` symbols each, the last the rest.
pub open spec fn spec_four_streams(data: Seq<u8>, t: (Seq<u8>, Seq<u16>, u8), total: nat) -> Result<Seq<u8>> {
    if data.len() < 6 {
        Err(ZstdError::UnexpectedEof)
    } else {
        let s1 = le16(data, 0);
        let s2 = le16(data, 2);
        let s3 = le16(data, 4);
        if 6 + s1 + s2 + s3 > data.len() {
            Err(ZstdError::CorruptData("stream sizes inconsistent"))
        } else {
            let per = total / 4;
            let a = 6 + s1;
            let b = a + s2;
            let c = b + s3;
            let streams = seq![
                data.subrange(6, a as int),
                data.subrange(a as int, b as int),
                data.subrange(b as int, c as int),
                data.subrange(c as int, data.len() as int),
            ];
            let counts = seq![per, per, per, (total - 3 * per) as nat];
            decode_streams(streams, counts, t, 0, Seq::empty())
        }
    }
}

/// Streams from `k` on decoded and appended to `acc`.
pub open spec fn decode_streams(streams: Seq<Seq<u8>>, counts: Seq<nat>, t: (Seq<u8>, Seq<u16>, u8), k: nat, acc: Seq<u8>) -> Result<Seq<u8>>
    decreases streams.len() - k,
{
    if k >= streams.len() {
        Ok(acc)
    } else {
        match spec_huff_decode(t.0, t.1, t.2 as nat, streams[k as int], 8 * streams[k as int].len(), counts[k as int]) {
            Err(e) => Err(e),
            Ok(d) => decode_streams(streams, counts, t, k + 1, acc + d),
        }
    }
}

/// The literals and the bytes consumed that [`decode_literals`] returns.
pub open spec fn spec_decode_literals(data: Seq<u8>) -> Result<(Seq<u8>, nat)> {
    if data.len() == 0 {
        Err(ZstdError::UnexpectedEof)
    } else {
        let ty = data[0] % 4;
        let sf = (data[0] / 4 % 4) as u8;
        if ty == 0 {
            match spec_size_raw(data, sf) {
                Err(e) => Err(e),
                Ok((regen, hs)) => if data.len() < hs + regen {
                    Err(ZstdError::UnexpectedEof)
                } else {
                    Ok((data.subrange(hs as int, (hs + regen) as int), hs + regen))
                },
            }
        } else if ty == 1 {
            match spec_size_raw(data, sf) {
                Err(e) => Err(e),
                Ok((regen, hs)) => if data.len() < hs + 1 {
                    Err(ZstdError::UnexpectedEof)
                } else {
                    Ok((Seq::new(regen, |i: int| data[hs as int]), hs + 1))
                },
            }
        } else {
            match spec_size_compressed(data, sf) {
                Err(e) => Err(e),
                Ok((regen, comp, hs)) => if data.len() < hs + comp {
                    Err(ZstdError::UnexpectedEof)
                } else {
                    let compressed = data.subrange(hs as int, (hs + comp) as int);
                    match spec_read_huffman_header(compressed) {
                        Err(e) => Err(e),
                        Ok((t, used)) => {
                            let bs = compressed.subrange(used as int, compressed.len() as int);
                            let lits = if ty == 3 {
                                spec_four_streams(bs, t, regen)
                            } else {
                                spec_huff_decode(t.0, t.1, t.2 as nat, bs, 8 * bs.len(), regen)
                            };
                            match lits {
                                Err(e) => Err(e),
                                Ok(l) => Ok((l, hs + comp)),
                            }
                        },
                    }
                },
            }
        }
    }
}

/// Decode the literals section at the start of a compressed block.
///
/// Returns the literal bytes and the number of input bytes consumed.
pub fn decode_literals(data: &[u8]) -> (r: Result<LiteralsSection>)
    ensures
        r matches Ok(s) ==> spec_decode_literals(data@) == Ok::<(Seq<u8>, nat), ZstdError>((s.literals@, s.bytes_used as nat))
            && s.bytes_used <= data@.len(),
        r matches Err(e) ==> spec_decode_literals(data@) == Err::<(Seq<u8>, nat), ZstdError>(e),
{
    if data.len() == 0 {
        return Err(ZstdError::UnexpectedEof);
    }
    let first_byte = data[0];
    let literals_type = first_byte % 4;
    let size_format = first_byte / 4 % 4;
    if literals_type == 0 {
        let (regen_size, header_size) = decode_size_raw(data, size_format)?;
        if data.len() - header_size < regen_size {
            return Err(ZstdError::UnexpectedEof);
        }
        let end = header_size + regen_size;
        let mut literals: Vec<u8> = Vec::new();
        append_slice(&mut literals, &data[header_size..end]);
        Ok(LiteralsSection { literals, bytes_used: end })
    } else if literals_type == 1 {
        let (regen_size, header_size) = decode_size_raw(data, size_format)?;
        if data.len() < header_size + 1 {
            return Err(ZstdError::UnexpectedEof);
        }
        let byte = data[header_size];
        let literals = vec![byte; regen_size];
        proof {
            assert(literals@ =~= Seq::new(regen_size as nat, |i: int| data@[header_size as int]));
        }
        Ok(LiteralsSection { literals, bytes_used: header_size + 1 })
    } else {
        let (regen_size, comp_size, header_size) = decode_size_compressed(data, size_format)?;
        if data.len() - header_size < comp_size {
            return Err(ZstdError::UnexpectedEof);
        }
        let compressed = &data[header_size..header_size + comp_size];
        let (huff_table, huff_header_size) = read_huffman_header(compressed)?;
        let bitstream_data = &compressed[huff_header_size..compressed.len()];
        let literals = if literals_type == 3 {
            decode_four_streams(bitstream_data, &huff_table, regen_size)?
        } else {
            huff_table.decode(bitstream_data, bitstream_data.len() * 8, regen_size)?
        };
        Ok(LiteralsSection { literals, bytes_used: header_size + comp_size })
    }
}

/// Decode four interleaved Huffman streams.
fn decode_four_streams(data: &[u8], table: &HuffmanTable, total_regen: usize) -> (r: Result<Vec<u8>>)
    requires
        table.wf(),
        data@.len() < 0x40000,
    ensures
        r matches Ok(v) ==> spec_four_streams(data@, (table.lengths@, table.codes@, table.max_bits), total_regen as nat) == Ok::<Seq<u8>, ZstdError>(v@),
        r matches Err(e) ==> spec_four_streams(data@, (table.lengths@, table.codes@, table.max_bits), total_regen as nat) == Err::<Seq<u8>, ZstdError>(e),
{
    if data.len() < 6 {
        return Err(ZstdError::UnexpectedEof);
    }
    let s1 = data[0] as usize + 256 * data[1] as usize;
    let s2 = data[2] as usize + 256 * data[3] as usize;
    let s3 = data[4] as usize + 256 * data[5] as usize;
    if 6 + s1 + s2 + s3 > data.len() {
        return Err(ZstdError::CorruptData("stream sizes inconsistent"));
    }
    let per_stream = total_regen / 4;
    let a = 6 + s1;
    let b = a + s2;
    let c = b + s3;
    let ghost t = (table.lengths@, table.codes@, table.max_bits);
    let ghost streams = seq![
        data@.subrange(6, a as int),
        data@.subrange(a as int, b as int),
        data@.subrange(b as int, c as int),
        data@.subrange(c as int, data@.len() as int),
    ];
    let ghost counts = seq![per_stream as nat, per_stream as nat, per_stream as nat, (total_regen - 3 * per_stream) as nat];
    let mut out: Vec<u8> = Vec::new();
    let mut k: usize = 0;
    while k < 4
        invariant
            k <= 4,
            table.wf(),
            data@.len() < 0x40000,
            6 <= a <= b <= c <= data@.len(),
            per_stream == total_regen / 4,
            streams == seq![
                data@.subrange(6, a as int),
                data@.subrange(a as int, b as int),
                data@.subrange(b as int, c as int),
                data@.subrange(c as int, data@.len() as int),
            ],
            counts == seq![per_stream as nat, per_stream as nat, per_stream as nat, (total_regen - 3 * per_stream) as nat],
            t == (table.lengths@, table.codes@, table.max_bits),
            spec_four_streams(data@, t, total_regen as nat) == decode_streams(streams, counts, t, 0, Seq::empty()),
            decode_streams(streams, counts, t, 0, Seq::empty()) == decode_streams(streams, counts, t, k as nat, out@),
        decreases 4 - k,
    {
        let (lo, hi, count) = if k == 0 {
            (6, a, per_stream)
        } else if k == 1 {
            (a, b, per_stream)
        } else if k == 2 {
            (b, c, per_stream)
        } else {
            (c, data.len(), total_regen - 3 * per_stream)
        };
        let stream = &data[lo..hi];
        assert(stream@ == streams[k as int]);
        assert(count == counts[k as int]);
        let decoded = match table.decode(stream, stream.len() * 8, count) {
            Ok(d) => d,
            Err(e) => {
                proof {
                    assert(8 * streams[k as int].len() == stream.len() * 8);
                }
                return Err(e);
            },
        };
        append_slice(&mut out, decoded.as_slice());
        k += 1;
    }
    Ok(out)
}

/// The header of a raw (`ty` 0) or RLE (`ty` 1) literals section of `n` bytes.
pub open spec fn raw_header(ty: u8, n: nat) -> Seq<u8> {
    if n < 32 {
        seq![(ty + 8 * n) as u8]
    } else if n < 4096 {
        seq![(ty + 4 + 16 * (n % 16)) as u8, (n / 16) as u8]
    } else {
        seq![(ty + 12 + 16 * (n % 16)) as u8, ((n / 16) % 256) as u8, ((n / 4096) % 256) as u8]
    }
}

proof fn lemma_raw_header_size(ty: u8, n: nat, rest: Seq<u8>)
    requires
        ty < 2,
        n < 0x100000,
    ensures
        (raw_header(ty, n) + rest)[0] % 4 == ty,
        spec_size_raw(raw_header(ty, n) + rest, ((raw_header(ty, n) + rest)[0] / 4 % 4) as u8) == Ok::<(nat, nat), ZstdError>((n, raw_header(ty, n).len())),
{
    let b = raw_header(ty, n) + rest;
    if n < 32 {
        assert(b[0] == ty + 8 * n);
        assert((ty + 8 * n) / 4 % 4 == 2 * (n % 2)) by (nonlinear_arith)
            requires ty < 2;
        assert((ty + 8 * n) % 4 == ty) by (nonlinear_arith)
            requires ty < 2;
        assert((ty + 8 * n) / 8 == n) by (nonlinear_arith)
            requires ty < 2;
    } else if n < 4096 {
        assert(b[0] == ty + 4 + 16 * (n % 16));
        assert(b[1] == n / 16);
        assert((ty + 4 + 16 * (n % 16)) / 4 % 4 == 1) by (nonlinear_arith)
            requires ty < 2;
        assert((ty + 4 + 16 * (n % 16)) % 4 == ty) by (nonlinear_arith)
            requires ty < 2;
        assert((ty + 4 + 16 * (n % 16)) / 16 == n % 16) by (nonlinear_arith)
            requires ty < 2;
    } else {
        assert(b[0] == ty + 12 + 16 * (n % 16));
        assert(b[1] == (n / 16) % 256);
        assert(b[2] == (n / 4096) % 256);
        assert((ty + 12 + 16 * (n % 16)) / 4 % 4 == 3) by (nonlinear_arith)
            requires ty < 2;
        assert((ty + 12 + 16 * (n % 16)) % 4 == ty) by (nonlinear_arith)
            requires ty < 2;
        assert((ty + 12 + 16 * (n % 16)) / 16 == n % 16) by (nonlinear_arith)
            requires ty < 2;
        assert(n % 16 + 16 * ((n / 16) % 256) + 4096 * ((n / 4096) % 256) == n) by (nonlinear_arith)
            requires n < 0x100000;
    }
}

/// Law: raw literals decode to their bytes, whatever follows them.
pub proof fn lemma_raw_literals_roundtrip(data: Seq<u8>, rest: Seq<u8>)
    requires
        data.len() < 0x100000,
    ensures
        spec_decode_literals(raw_header(0, data.len()) + data + rest) == Ok::<(Seq<u8>, nat), ZstdError>((data, raw_header(0, data.len()).len() + data.len())),
{
    let h = raw_header(0, data.len());
    let b = h + data + rest;
    assert(b == h + (data + rest));
    lemma_raw_header_size(0, data.len(), data + rest);
    assert(b.subrange(h.len() as int, (h.len() + data.len()) as int) =~= data);
}

/// Law: RLE literals decode to `count` copies of their byte, whatever
/// follows them.
pub proof fn lemma_rle_literals_roundtrip(sym: u8, count: nat, rest: Seq<u8>)
    requires
        count < 0x100000,
    ensures
        spec_decode_literals(raw_header(1, count) + seq![sym] + rest) == Ok::<(Seq<u8>, nat), ZstdError>((Seq::new(count, |i: int| sym), raw_header(1, count).len() + 1)),
{
    let h = raw_header(1, count);
    let b = h + seq![sym] + rest;
    assert(b == h + (seq![sym] + rest));
    lemma_raw_header_size(1, count, seq![sym] + rest);
    assert(b[h.len() as int] == sym);
    assert(Seq::new(count, |i: int| b[h.len() as int]) =~= Seq::new(count, |i: int| sym));
}

} // verus!
