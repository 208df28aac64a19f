//! Decoding of the sequences section of a compressed block, and the
//! execution of decoded sequences.
//!
//! Sequences describe copy commands: (literal_length, match_length, offset).
//! Applying them reconstructs the original data.
use vstd::prelude::*;
use vstd::arithmetic::power2::*;
use crate::error::{Result, ZstdError};
use crate::fse::{
    bits_below, build_decode_table, take_bits, take_bits_exec, read_distribution_table, sentinel_pos, spec_decode_table,
    spec_read_distribution, table_reads_fit, BitReader, FseDecodeEntry, FseDecodeTable,
};
use crate::tables::sequences::{
    LITERALS_LENGTH_DEFAULT_ACCURACY, LITERALS_LENGTH_DEFAULT_NORM, LITERALS_LENGTH_EXTRA,
    MATCH_LENGTH_DEFAULT_ACCURACY, MATCH_LENGTH_DEFAULT_NORM, MATCH_LENGTH_EXTRA,
    OFFSET_DEFAULT_ACCURACY, OFFSET_DEFAULT_NORM,
};

verus! {

/// A single decoded sequence command.
#[derive(Debug, Clone, Copy, PartialEq, Eq, Structural)]
pub struct Sequence {
    /// Number of literal bytes to copy before the match.
    pub literal_length: usize,
    /// Number of bytes to copy from the match.
    pub match_length: usize,
    /// Offset (back-reference distance from current output position).
    pub offset: usize,
}

// ---------------------------------------------------------------------------
// Sequence count and tables
// ---------------------------------------------------------------------------

/// The number of sequences and the bytes its field takes.
pub open spec fn spec_sequence_count(data: Seq<u8>) -> Result<(nat, nat)> {
    let b0 = data[0];
    if b0 == 0 {
        Ok((0, 1))
    } else if b0 < 128 {
        Ok((b0 as nat, 1))
    } else if b0 < 255 {
        if data.len() < 2 {
            Err(ZstdError::UnexpectedEof)
        } else {
            Ok((((b0 - 128) * 256 + data[1]) as nat, 2))
        }
    } else {
        if data.len() < 3 {
            Err(ZstdError::UnexpectedEof)
        } else {
            Ok(((data[1] + data[2] * 256 + 0x7F00) as nat, 3))
        }
    }
}

fn read_sequence_count(data: &[u8]) -> (r: Result<(usize, usize)>)
    requires
        data@.len() > 0,
    ensures
        r matches Ok((n, used)) ==> spec_sequence_count(data@) == Ok::<(nat, nat), ZstdError>((n as nat, used as nat)) && used <= data@.len(),
        r matches Err(e) ==> spec_sequence_count(data@) == Err::<(nat, nat), ZstdError>(e),
{
    let b0 = data[0] as usize;
    if b0 == 0 {
        Ok((0, 1))
    } else if b0 < 128 {
        Ok((b0, 1))
    } else if b0 < 255 {
        if data.len() < 2 {
            return Err(ZstdError::UnexpectedEof);
        }
        let count = (b0 - 128) * 256 + data[1] as usize;
        Ok((count, 2))
    } else {
        if data.len() < 3 {
            return Err(ZstdError::UnexpectedEof);
        }
        let count = data[1] as usize + (data[2] as usize * 256) + 0x7F00;
        Ok((count, 3))
    }
}

#[derive(Clone, Copy)]
enum TableType {
    LiteralLength,
    Offset,
    MatchLength,
}

/// The decode table a mode selects, as (accuracy log, entries, bytes
/// read): mode 0 is the predefined distribution, 1 a single repeated
/// symbol, 2 a distribution read from `data`.
pub open spec fn spec_mode_table(data: Seq<u8>, mode: u8, default_norm: Seq<i16>, default_log: u8) -> Result<(u8, Seq<FseDecodeEntry>, nat)> {
    if mode == 0 {
        match spec_decode_table(default_norm, default_log) {
            Err(e) => Err(e),
            Ok(t) => Ok((default_log, t, 0)),
        }
    } else if mode == 1 {
        if data.len() == 0 {
            Err(ZstdError::UnexpectedEof)
        } else {
            Ok((0u8, seq![FseDecodeEntry { symbol: data[0], num_bits: 0, base_line: 0, next_state: 0 }], 1))
        }
    } else if mode == 2 {
        match spec_read_distribution(data) {
            Err(e) => Err(e),
            Ok((norm, log, used)) => match spec_decode_table(norm, log) {
                Err(e) => Err(e),
                Ok(t) => Ok((log, t, used)),
            },
        }
    } else if mode == 3 {
        Err(ZstdError::SequenceError("repeat mode not handled at this level"))
    } else {
        Err(ZstdError::SequenceError("unknown mode"))
    }
}

fn build_rle_table(sym: u8) -> (t: FseDecodeTable)
    ensures
        t.accuracy_log == 0,
        t.table@ == seq![FseDecodeEntry { symbol: sym, num_bits: 0, base_line: 0, next_state: 0 }],
{
    let mut table: Vec<FseDecodeEntry> = Vec::new();
    table.push(FseDecodeEntry { symbol: sym, num_bits: 0, base_line: 0, next_state: 0 });
    proof {
        assert(table@ =~= seq![FseDecodeEntry { symbol: sym, num_bits: 0, base_line: 0, next_state: 0 }]);
    }
    FseDecodeTable { accuracy_log: 0, table }
}

spec fn default_norm(ty: TableType) -> Seq<i16> {
    match ty {
        TableType::LiteralLength => LITERALS_LENGTH_DEFAULT_NORM@,
        TableType::Offset => OFFSET_DEFAULT_NORM@,
        TableType::MatchLength => MATCH_LENGTH_DEFAULT_NORM@,
    }
}

spec fn default_log(ty: TableType) -> u8 {
    match ty {
        TableType::LiteralLength => LITERALS_LENGTH_DEFAULT_ACCURACY,
        TableType::Offset => OFFSET_DEFAULT_ACCURACY,
        TableType::MatchLength => MATCH_LENGTH_DEFAULT_ACCURACY,
    }
}

fn build_mode_table(data: &[u8], mode: u8, ty: TableType) -> (r: Result<(FseDecodeTable, usize)>)
    requires
        data@.len() <= usize::MAX / 16,
    ensures
        r matches Ok((t, used)) ==> spec_mode_table(data@, mode, default_norm(ty), default_log(ty))
            == Ok::<(u8, Seq<FseDecodeEntry>, nat), ZstdError>((t.accuracy_log, t.table@, used as nat)) && used <= data@.len()
            && t.accuracy_log <= 12 && table_reads_fit(t.table@),
        r matches Err(e) ==> spec_mode_table(data@, mode, default_norm(ty), default_log(ty)) == Err::<(u8, Seq<FseDecodeEntry>, nat), ZstdError>(e),
{
    if mode == 0 {
        let table = match ty {
            TableType::LiteralLength => build_decode_table(&LITERALS_LENGTH_DEFAULT_NORM, LITERALS_LENGTH_DEFAULT_ACCURACY)?,
            TableType::Offset => build_decode_table(&OFFSET_DEFAULT_NORM, OFFSET_DEFAULT_ACCURACY)?,
            TableType::MatchLength => build_decode_table(&MATCH_LENGTH_DEFAULT_NORM, MATCH_LENGTH_DEFAULT_ACCURACY)?,
        };
        Ok((table, 0))
    } else if mode == 1 {
        if data.len() == 0 {
            return Err(ZstdError::UnexpectedEof);
        }
        Ok((build_rle_table(data[0]), 1))
    } else if mode == 2 {
        let (norm, accuracy, consumed) = read_distribution_table(data)?;
        let table = build_decode_table(&norm, accuracy)?;
        Ok((table, consumed))
    } else if mode == 3 {
        Err(ZstdError::SequenceError("repeat mode not handled at this level"))
    } else {
        Err(ZstdError::SequenceError("unknown mode"))
    }
}

/// The literal-length, offset and match-length tables in that order, and
/// the bytes their descriptions take.
pub open spec fn spec_sequence_tables(data: Seq<u8>, ll_mode: u8, of_mode: u8, ml_mode: u8)
    -> Result<((u8, Seq<FseDecodeEntry>), (u8, Seq<FseDecodeEntry>), (u8, Seq<FseDecodeEntry>), nat)>
{
    match spec_mode_table(data, ll_mode, LITERALS_LENGTH_DEFAULT_NORM@, LITERALS_LENGTH_DEFAULT_ACCURACY) {
        Err(e) => Err(e),
        Ok((l1, t1, c1)) => match spec_mode_table(data.skip(c1 as int), of_mode, OFFSET_DEFAULT_NORM@, OFFSET_DEFAULT_ACCURACY) {
            Err(e) => Err(e),
            Ok((l2, t2, c2)) => match spec_mode_table(data.skip((c1 + c2) as int), ml_mode, MATCH_LENGTH_DEFAULT_NORM@, MATCH_LENGTH_DEFAULT_ACCURACY) {
                Err(e) => Err(e),
                Ok((l3, t3, c3)) => Ok(((l1, t1), (l2, t2), (l3, t3), c1 + c2 + c3)),
            },
        },
    }
}

fn read_sequence_tables(data: &[u8], ll_mode: u8, of_mode: u8, ml_mode: u8) -> (r: Result<(FseDecodeTable, FseDecodeTable, FseDecodeTable, usize)>)
    requires
        data@.len() <= usize::MAX / 16,
    ensures
        r matches Ok((a, b, c, used)) ==> spec_sequence_tables(data@, ll_mode, of_mode, ml_mode) == Ok::<((u8, Seq<FseDecodeEntry>), (u8, Seq<FseDecodeEntry>), (u8, Seq<FseDecodeEntry>), nat), ZstdError>(
            ((a.accuracy_log, a.table@), (b.accuracy_log, b.table@), (c.accuracy_log, c.table@), used as nat)) && used <= data@.len()
            && a.accuracy_log <= 12 && table_reads_fit(a.table@) && b.accuracy_log <= 12 && table_reads_fit(b.table@)
            && c.accuracy_log <= 12 && table_reads_fit(c.table@),
        r matches Err(e) ==> spec_sequence_tables(data@, ll_mode, of_mode, ml_mode) == Err::<((u8, Seq<FseDecodeEntry>), (u8, Seq<FseDecodeEntry>), (u8, Seq<FseDecodeEntry>), nat), ZstdError>(e),
{
    let mut offset: usize = 0;
    let (ll_table, consumed) = build_mode_table(data, ll_mode, TableType::LiteralLength)?;
    offset += consumed;
    let (of_table, consumed) = build_mode_table(&data[offset..data.len()], of_mode, TableType::Offset)?;
    offset += consumed;
    let (ml_table, consumed) = build_mode_table(&data[offset..data.len()], ml_mode, TableType::MatchLength)?;
    offset += consumed;
    Ok((ll_table, of_table, ml_table, offset))
}


// ---------------------------------------------------------------------------
// The sequence bitstream
// ---------------------------------------------------------------------------

/// The offset a raw offset value stands for, and the repeat offsets after it.
pub open spec fn update_offsets(raw: nat, ll_code: u8, rep: Seq<usize>) -> Option<(usize, Seq<usize>)> {
    if raw <= 3 {
        let ri = raw - 1;
        if ll_code == 0 {
            if ri == 2 {
                if rep[0] == 0 {
                    None
                } else {
                    let o = (rep[0] - 1) as usize;
                    Some((o, seq![o, rep[0], rep[1]]))
                }
            } else if ri == 1 {
                Some((rep[2], seq![rep[2], rep[0], rep[1]]))
            } else {
                Some((rep[1], seq![rep[1], rep[0], rep[2]]))
            }
        } else {
            if ri == 0 {
                Some((rep[0], rep))
            } else if ri == 1 {
                Some((rep[1], seq![rep[1], rep[0], rep[2]]))
            } else {
                Some((rep[2], seq![rep[2], rep[0], rep[1]]))
            }
        }
    } else {
        let o = (raw - 3) as usize;
        Some((o, seq![o, rep[0], rep[1]]))
    }
}

/// Law (repeat offsets, RFC 8878): an offset value above 3 is a new offset
/// of that value less 3, pushed in front of the repeat offsets (the last
/// one dropping out).  A value `r` of 1 to 3 picks a repeat offset: entry
/// `r - 1`, or entry `r` when the literal length code is 0, entry 3 then
/// standing for the first repeat offset less one (refused when that is
/// 0).  The offset picked moves to the front and the others keep their
/// order; with a literal length of 0, value 1 therefore gives the second
/// repeat offset and swaps the first two.
pub proof fn lemma_repeat_offsets(raw: nat, ll_code: u8, rep: Seq<usize>)
    requires
        raw >= 1,
        rep.len() == 3,
    ensures
        raw > 3 ==> update_offsets(raw, ll_code, rep) == Some(((raw - 3) as usize, seq![(raw - 3) as usize, rep[0], rep[1]])),
        ({
            let idx: int = if ll_code == 0 { raw as int } else { raw - 1 };
            &&& raw <= 3 && idx < 3 ==> update_offsets(raw, ll_code, rep) == Some((rep[idx], seq![rep[idx]] + rep.remove(idx)))
            &&& raw <= 3 && idx == 3 && rep[0] == 0 ==> update_offsets(raw, ll_code, rep) is None
            &&& raw <= 3 && idx == 3 && rep[0] > 0 ==> update_offsets(raw, ll_code, rep)
                == Some(((rep[0] - 1) as usize, seq![(rep[0] - 1) as usize, rep[0], rep[1]]))
        }),
{
    if raw <= 3 {
        let idx: int = if ll_code == 0 { raw as int } else { raw - 1 };
        if idx < 3 {
            let picked = seq![rep[idx]] + rep.remove(idx);
            if idx == 0 {
                assert(picked =~= rep);
            } else if idx == 1 {
                assert(picked =~= seq![rep[1], rep[0], rep[2]]);
            } else {
                assert(picked =~= seq![rep[2], rep[0], rep[1]]);
            }
        }
    }
}

/// One sequence: its extra bits (offset, match length, literal length),
/// then, unless it is the last one, the next three states.  Gives the
/// sequence, the new bit position and states, and the repeat offsets.
pub open spec fn seq_step(
    data: Seq<u8>,
    llt: Seq<FseDecodeEntry>,
    oft: Seq<FseDecodeEntry>,
    mlt: Seq<FseDecodeEntry>,
    last: bool,
    p: nat,
    ls: nat,
    os: nat,
    ms: nat,
    rep: Seq<usize>,
) -> (Result<(Sequence, nat, nat, nat, nat)>, Seq<usize>) {
    if ls >= llt.len() || os >= oft.len() || ms >= mlt.len() {
        (Err(ZstdError::CorruptData("state outside the table")), rep)
    } else {
        let oe = oft[os as int];
        let me = mlt[ms as int];
        let le = llt[ls as int];
        if oe.symbol > 31 {
            (Err(ZstdError::SequenceError("offset code too large")), rep)
        } else {
            match take_bits(data, p, oe.symbol as nat) {
                None => (Err(ZstdError::CorruptData("bitstream exhausted")), rep),
                Some((extra, p1)) => match update_offsets(pow2(oe.symbol as nat) + extra, le.symbol, rep) {
                    None => (Err(ZstdError::CorruptData("zero repeat offset")), rep),
                    Some((offset, rep1)) => {
                        if me.symbol >= 53 {
                            (Err(ZstdError::SequenceError("ml_code out of range")), rep1)
                        } else {
                            let (mlb, mlx) = MATCH_LENGTH_EXTRA@[me.symbol as int];
                            match take_bits(data, p1, mlx as nat) {
                                None => (Err(ZstdError::CorruptData("bitstream exhausted")), rep1),
                                Some((mle, p2)) => {
                                    if le.symbol >= 36 {
                                        (Err(ZstdError::SequenceError("ll_code out of range")), rep1)
                                    } else {
                                        let (llb, llx) = LITERALS_LENGTH_EXTRA@[le.symbol as int];
                                        match take_bits(data, p2, llx as nat) {
                                            None => (Err(ZstdError::CorruptData("bitstream exhausted")), rep1),
                                            Some((lle, p3)) => {
                                                let sq = Sequence {
                                                    literal_length: (llb + lle) as usize,
                                                    match_length: (mlb + mle) as usize,
                                                    offset,
                                                };
                                                if !last {
                                                    match take_bits(data, p3, le.num_bits as nat) {
                                                        None => (Err(ZstdError::CorruptData("bitstream exhausted")), rep1),
                                                        Some((lx, p4)) => match take_bits(data, p4, me.num_bits as nat) {
                                                            None => (Err(ZstdError::CorruptData("bitstream exhausted")), rep1),
                                                            Some((mx, p5)) => match take_bits(data, p5, oe.num_bits as nat) {
                                                                None => (Err(ZstdError::CorruptData("bitstream exhausted")), rep1),
                                                                Some((ox, p6)) => (Ok((sq, p6, (le.base_line + lx) as nat,
                                                                    (oe.base_line + ox) as nat, (me.base_line + mx) as nat)), rep1),
                                                            },
                                                        },
                                                    }
                                                } else {
                                                    (Ok((sq, p3, ls, os, ms)), rep1)
                                                }
                                            },
                                        }
                                    }
                                },
                            }
                        }
                    },
                },
            }
        }
    }
}


/// Law: a decoded sequence takes its offset, and leaves the repeat
/// offsets, as [`update_offsets`] gives them for some offset value of at
/// least 1 and that sequence's literal length code, which is 0 exactly
/// when its literal length is 0; with [`lemma_repeat_offsets`] this is the
/// repeat offset rule of RFC 8878, sequences with no literals included.
pub proof fn lemma_seq_step_literal_length(
    data: Seq<u8>,
    llt: Seq<FseDecodeEntry>,
    oft: Seq<FseDecodeEntry>,
    mlt: Seq<FseDecodeEntry>,
    last: bool,
    p: nat,
    ls: nat,
    os: nat,
    ms: nat,
    rep: Seq<usize>,
)
    ensures
        seq_step(data, llt, oft, mlt, last, p, ls, os, ms, rep).0 matches Ok((sq, _, _, _, _)) ==> ls < llt.len()
            && (sq.literal_length == 0 <==> llt[ls as int].symbol == 0)
            && exists|raw: nat| raw >= 1 && #[trigger] update_offsets(raw, llt[ls as int].symbol, rep)
                == Some((sq.offset, seq_step(data, llt, oft, mlt, last, p, ls, os, ms, rep).1)),
{
    if ls < llt.len() && os < oft.len() && ms < mlt.len() && oft[os as int].symbol <= 31 {
        let oe = oft[os as int];
        if let Some((extra, p1)) = take_bits(data, p, oe.symbol as nat) {
            lemma_pow2_pos(oe.symbol as nat);
            let raw = pow2(oe.symbol as nat) + extra;
            assert(raw >= 1);
            if let Some((offset, rep1)) = update_offsets(raw, llt[ls as int].symbol, rep) {
                assert(update_offsets(raw, llt[ls as int].symbol, rep) == Some((offset, rep1)));
            }
        }
    }
    assert(forall|c: int| 0 <= c < 36 ==> (#[trigger] LITERALS_LENGTH_EXTRA@[c].0 == 0 <==> c == 0)
        && LITERALS_LENGTH_EXTRA@[c].0 <= 65536 && LITERALS_LENGTH_EXTRA@[c].1 <= 16);
    assert(LITERALS_LENGTH_EXTRA@[0].1 == 0);
    assert forall|q: int, n: nat| n <= 16 implies #[trigger] bits_below(data, q, n) < 65536 by {
        crate::fse::lemma_bits_below_bound(data, q, n);
        lemma2_to64();
        if n < 16 {
            lemma_pow2_strictly_increases(n, 16);
        }
    }
}

/// The sequences still to be decoded from sequence `idx` on, with the bit
/// position, the three states and the repeat offsets; also gives the
/// repeat offsets as they stand when decoding stops.
pub open spec fn decode_seq_loop(
    data: Seq<u8>,
    llt: Seq<FseDecodeEntry>,
    oft: Seq<FseDecodeEntry>,
    mlt: Seq<FseDecodeEntry>,
    num: nat,
    idx: nat,
    p: nat,
    ls: nat,
    os: nat,
    ms: nat,
    rep: Seq<usize>,
    acc: Seq<Sequence>,
) -> (Result<Seq<Sequence>>, Seq<usize>)
    decreases num - idx,
{
    if idx >= num {
        (Ok(acc), rep)
    } else {
        match seq_step(data, llt, oft, mlt, idx + 1 >= num, p, ls, os, ms, rep) {
            (Err(e), rep1) => (Err(e), rep1),
            (Ok((sq, p1, ls1, os1, ms1)), rep1) => decode_seq_loop(data, llt, oft, mlt, num, idx + 1, p1, ls1, os1, ms1, rep1, acc.push(sq)),
        }
    }
}

/// The sequences of a bitstream: initial states (literal length, offset,
/// match length), then each sequence in turn.
pub open spec fn spec_decode_bitstream(
    data: Seq<u8>,
    num: nat,
    ll: (u8, Seq<FseDecodeEntry>),
    of: (u8, Seq<FseDecodeEntry>),
    ml: (u8, Seq<FseDecodeEntry>),
    rep: Seq<usize>,
) -> (Result<Seq<Sequence>>, Seq<usize>) {
    let p0 = sentinel_pos(data);
    match take_bits(data, p0, ll.0 as nat) {
        None => (Err(ZstdError::CorruptData("bitstream exhausted")), rep),
        Some((ls, p1)) => match take_bits(data, p1, of.0 as nat) {
            None => (Err(ZstdError::CorruptData("bitstream exhausted")), rep),
            Some((os, p2)) => match take_bits(data, p2, ml.0 as nat) {
                None => (Err(ZstdError::CorruptData("bitstream exhausted")), rep),
                Some((ms, p3)) => decode_seq_loop(data, ll.1, of.1, ml.1, num, 0, p3, ls, os, ms, rep, Seq::empty()),
            },
        },
    }
}

fn update_offsets_exec(raw: usize, ll_code: u8, rep: &mut [usize; 3]) -> (r: Option<usize>)
    requires
        raw >= 1,
    ensures
        r matches Some(o) ==> update_offsets(raw as nat, ll_code, old(rep)@) == Some((o, final(rep)@)),
        r is None ==> update_offsets(raw as nat, ll_code, old(rep)@) is None && final(rep)@ == old(rep)@,
{
    let r0 = rep[0];
    let r1 = rep[1];
    let r2 = rep[2];
    if raw <= 3 {
        let ri = raw - 1;
        if ll_code == 0 {
            if ri == 2 {
                if r0 == 0 {
                    return None;
                }
                let o = r0 - 1;
                rep[0] = o;
                rep[1] = r0;
                rep[2] = r1;
                proof {
                    assert(rep@ =~= seq![o, r0, r1]);
                }
                Some(o)
            } else if ri == 1 {
                rep[0] = r2;
                rep[1] = r0;
                rep[2] = r1;
                proof {
                    assert(rep@ =~= seq![r2, r0, r1]);
                }
                Some(r2)
            } else {
                rep[0] = r1;
                rep[1] = r0;
                proof {
                    assert(rep@ =~= seq![r1, r0, r2]);
                }
                Some(r1)
            }
        } else {
            if ri == 0 {
                Some(r0)
            } else if ri == 1 {
                rep[0] = r1;
                rep[1] = r0;
                proof {
                    assert(rep@ =~= seq![r1, r0, r2]);
                }
                Some(r1)
            } else {
                rep[0] = r2;
                rep[1] = r0;
                rep[2] = r1;
                proof {
                    assert(rep@ =~= seq![r2, r0, r1]);
                }
                Some(r2)
            }
        }
    } else {
        let o = raw - 3;
        rep[0] = o;
        rep[1] = r0;
        rep[2] = r1;
        proof {
            assert(rep@ =~= seq![o, r0, r1]);
        }
        Some(o)
    }
}

fn decode_one_sequence(
    reader: &mut BitReader,
    llt: &Vec<FseDecodeEntry>,
    oft: &Vec<FseDecodeEntry>,
    mlt: &Vec<FseDecodeEntry>,
    last: bool,
    ls: usize,
    os: usize,
    ms: usize,
    repeat_offsets: &mut [usize; 3],
) -> (r: Result<(Sequence, usize, usize, usize)>)
    requires
        table_reads_fit(llt@),
        table_reads_fit(oft@),
        table_reads_fit(mlt@),
    ensures
        final(reader).bytes() == old(reader).bytes(),
        ({
            let (res, rep) = seq_step(old(reader).bytes(), llt@, oft@, mlt@, last, old(reader).remaining(), ls as nat, os as nat, ms as nat, old(repeat_offsets)@);
            &&& final(repeat_offsets)@ == rep
            &&& (r matches Ok((sq, l, o, m)) ==> res == Ok::<(Sequence, nat, nat, nat, nat), ZstdError>((sq, final(reader).remaining(), l as nat, o as nat, m as nat)))
            &&& (r matches Err(e) ==> res == Err::<(Sequence, nat, nat, nat, nat), ZstdError>(e))
        }),
{
    if ls >= llt.len() || os >= oft.len() || ms >= mlt.len() {
        return Err(ZstdError::CorruptData("state outside the table"));
    }
    let of_entry = oft[os];
    let ml_entry = mlt[ms];
    let ll_entry = llt[ls];
    let of_code = of_entry.symbol;
    let ml_code = ml_entry.symbol;
    let ll_code = ll_entry.symbol;
    if of_code > 31 {
        return Err(ZstdError::SequenceError("offset code too large"));
    }
    let extra = match take_bits_exec(reader, of_code) {
        None => { return Err(ZstdError::CorruptData("bitstream exhausted")); },
        Some(v) => v,
    };
    proof {
        lemma2_to64();
        if of_code < 32 {
            lemma_pow2_strictly_increases(of_code as nat, 32);
        }
        vstd::bits::lemma_usize_shl_is_mul(1, of_code as usize);
    }
    let raw_offset = (1usize << of_code) + extra;
    let offset = match update_offsets_exec(raw_offset, ll_code, repeat_offsets) {
        None => { return Err(ZstdError::CorruptData("zero repeat offset")); },
        Some(o) => o,
    };
    if ml_code >= 53 {
        return Err(ZstdError::SequenceError("ml_code out of range"));
    }
    let (ml_base, ml_extra_bits) = MATCH_LENGTH_EXTRA[ml_code as usize];
    let ml_extra = match take_bits_exec(reader, ml_extra_bits) {
        None => { return Err(ZstdError::CorruptData("bitstream exhausted")); },
        Some(v) => v,
    };
    if ll_code >= 36 {
        return Err(ZstdError::SequenceError("ll_code out of range"));
    }
    let (ll_base, ll_extra_bits) = LITERALS_LENGTH_EXTRA[ll_code as usize];
    let ll_extra = match take_bits_exec(reader, ll_extra_bits) {
        None => { return Err(ZstdError::CorruptData("bitstream exhausted")); },
        Some(v) => v,
    };
    proof {
        if ml_extra_bits < 16 {
            lemma_pow2_strictly_increases(ml_extra_bits as nat, 16);
        }
        if ll_extra_bits < 16 {
            lemma_pow2_strictly_increases(ll_extra_bits as nat, 16);
        }
    }
    let sq = Sequence { literal_length: ll_base as usize + ll_extra, match_length: ml_base as usize + ml_extra, offset };
    if !last {
        let lx = match take_bits_exec(reader, ll_entry.num_bits) {
            None => { return Err(ZstdError::CorruptData("bitstream exhausted")); },
            Some(v) => v,
        };
        let mx = match take_bits_exec(reader, ml_entry.num_bits) {
            None => { return Err(ZstdError::CorruptData("bitstream exhausted")); },
            Some(v) => v,
        };
        let ox = match take_bits_exec(reader, of_entry.num_bits) {
            None => { return Err(ZstdError::CorruptData("bitstream exhausted")); },
            Some(v) => v,
        };
        proof {
            lemma_pow2_strictly_increases(12, 32);
            if ll_entry.num_bits < 12 { lemma_pow2_strictly_increases(ll_entry.num_bits as nat, 12); }
            if ml_entry.num_bits < 12 { lemma_pow2_strictly_increases(ml_entry.num_bits as nat, 12); }
            if of_entry.num_bits < 12 { lemma_pow2_strictly_increases(of_entry.num_bits as nat, 12); }
        }
        Ok((sq, ll_entry.base_line as usize + lx, of_entry.base_line as usize + ox, ml_entry.base_line as usize + mx))
    } else {
        Ok((sq, ls, os, ms))
    }
}

fn decode_sequence_bitstream(
    data: &[u8],
    num_sequences: usize,
    ll_table: &FseDecodeTable,
    of_table: &FseDecodeTable,
    ml_table: &FseDecodeTable,
    repeat_offsets: &mut [usize; 3],
) -> (r: Result<Vec<Sequence>>)
    requires
        data@.len() <= usize::MAX / 16,
        ll_table.accuracy_log <= 12,
        of_table.accuracy_log <= 12,
        ml_table.accuracy_log <= 12,
        table_reads_fit(ll_table.table@),
        table_reads_fit(of_table.table@),
        table_reads_fit(ml_table.table@),
    ensures
        ({
            let (res, rep) = spec_decode_bitstream(data@, num_sequences as nat, (ll_table.accuracy_log, ll_table.table@),
                (of_table.accuracy_log, of_table.table@), (ml_table.accuracy_log, ml_table.table@), old(repeat_offsets)@);
            &&& final(repeat_offsets)@ == rep
            &&& (r matches Ok(v) ==> res == Ok::<Seq<Sequence>, ZstdError>(v@))
            &&& (r matches Err(e) ==> res == Err::<Seq<Sequence>, ZstdError>(e))
        }),
{
    let mut reader = BitReader::new(data);
    let ll_state0 = match take_bits_exec(&mut reader, ll_table.accuracy_log) {
        None => { return Err(ZstdError::CorruptData("bitstream exhausted")); },
        Some(v) => v,
    };
    let of_state0 = match take_bits_exec(&mut reader, of_table.accuracy_log) {
        None => { return Err(ZstdError::CorruptData("bitstream exhausted")); },
        Some(v) => v,
    };
    let ml_state0 = match take_bits_exec(&mut reader, ml_table.accuracy_log) {
        None => { return Err(ZstdError::CorruptData("bitstream exhausted")); },
        Some(v) => v,
    };
    let mut ll_state = ll_state0;
    let mut of_state = of_state0;
    let mut ml_state = ml_state0;
    let mut sequences: Vec<Sequence> = Vec::new();
    let mut seq_idx: usize = 0;
    while seq_idx < num_sequences
        invariant
            seq_idx <= num_sequences,
            reader.bytes() == data@,
            table_reads_fit(ll_table.table@),
            table_reads_fit(of_table.table@),
            table_reads_fit(ml_table.table@),
            spec_decode_bitstream(data@, num_sequences as nat, (ll_table.accuracy_log, ll_table.table@), (of_table.accuracy_log, of_table.table@),
                (ml_table.accuracy_log, ml_table.table@), old(repeat_offsets)@)
                == decode_seq_loop(data@, ll_table.table@, of_table.table@, ml_table.table@, num_sequences as nat, seq_idx as nat, reader.remaining(),
                    ll_state as nat, of_state as nat, ml_state as nat, repeat_offsets@, sequences@),
        decreases num_sequences - seq_idx,
    {
        let last = seq_idx + 1 >= num_sequences;
        let (sq, l, o, m) = decode_one_sequence(&mut reader, &ll_table.table, &of_table.table, &ml_table.table, last,
            ll_state, of_state, ml_state, repeat_offsets)?;
        ll_state = l;
        of_state = o;
        ml_state = m;
        sequences.push(sq);
        seq_idx += 1;
    }
    Ok(sequences)
}


// ---------------------------------------------------------------------------
// The sequences section
// ---------------------------------------------------------------------------

/// What decoding the sequences section `data` gives: the sequences and the
/// bytes consumed, and the repeat offsets after decoding.
pub open spec fn spec_decode_sequences(data: Seq<u8>, rep: Seq<usize>) -> (Result<(Seq<Sequence>, nat)>, Seq<usize>) {
    if data.len() == 0 {
        (Ok((Seq::empty(), 0)), rep)
    } else {
        match spec_sequence_count(data) {
            Err(e) => (Err(e), rep),
            Ok((num, off)) => {
                if num == 0 {
                    (Ok((Seq::empty(), off)), rep)
                } else if data.len() <= off {
                    (Err(ZstdError::UnexpectedEof), rep)
                } else {
                    let mb = data[off as int];
                    match spec_sequence_tables(data.skip((off + 1) as int), mb / 64 % 4, mb / 16 % 4, mb / 4 % 4) {
                        Err(e) => (Err(e), rep),
                        Ok((ll, of, ml, used)) => match spec_decode_bitstream(data.skip((off + 1 + used) as int), num, ll, of, ml, rep) {
                            (Err(e), r) => (Err(e), r),
                            (Ok(sqs), r) => (Ok((sqs, data.len())), r),
                        },
                    }
                }
            },
        }
    }
}

/// Decode the sequences section of a compressed block, starting from the
/// default repeat offsets (1, 4, 8).
///
/// Returns the list of sequences and the number of bytes consumed.
pub fn decode_sequences(data: &[u8]) -> (r: Result<(Vec<Sequence>, usize)>)
    requires
        data@.len() <= usize::MAX / 16,
    ensures
        r matches Ok((v, used)) ==> spec_decode_sequences(data@, seq![1usize, 4, 8]).0 == Ok::<(Seq<Sequence>, nat), ZstdError>((v@, used as nat)),
        r matches Err(e) ==> spec_decode_sequences(data@, seq![1usize, 4, 8]).0 == Err::<(Seq<Sequence>, nat), ZstdError>(e),
{
    let mut repeat_offsets: [usize; 3] = [1usize, 4, 8];
    proof {
        assert(repeat_offsets@ =~= seq![1usize, 4, 8]);
    }
    decode_sequences_with_offsets(data, &mut repeat_offsets)
}

/// Decode sequences, threading repeat-offset state across calls (for multi-block frames).
pub fn decode_sequences_with_offsets(data: &[u8], repeat_offsets: &mut [usize; 3]) -> (r: Result<(Vec<Sequence>, usize)>)
    requires
        data@.len() <= usize::MAX / 16,
    ensures
        ({
            let (res, rep) = spec_decode_sequences(data@, old(repeat_offsets)@);
            &&& final(repeat_offsets)@ == rep
            &&& (r matches Ok((v, used)) ==> res == Ok::<(Seq<Sequence>, nat), ZstdError>((v@, used as nat)))
            &&& (r matches Err(e) ==> res == Err::<(Seq<Sequence>, nat), ZstdError>(e))
        }),
{
    if data.len() == 0 {
        return Ok((Vec::new(), 0));
    }
    let (num_sequences, mut offset) = read_sequence_count(data)?;
    if num_sequences == 0 {
        return Ok((Vec::new(), offset));
    }
    if data.len() <= offset {
        return Err(ZstdError::UnexpectedEof);
    }
    let mode_byte = data[offset];
    offset += 1;
    let ll_mode = mode_byte / 64 % 4;
    let of_mode = mode_byte / 16 % 4;
    let ml_mode = mode_byte / 4 % 4;
    let (ll_table, of_table, ml_table, tables_size) = read_sequence_tables(&data[offset..data.len()], ll_mode, of_mode, ml_mode)?;
    offset += tables_size;
    let sequences = decode_sequence_bitstream(&data[offset..data.len()], num_sequences, &ll_table, &of_table, &ml_table, repeat_offsets)?;
    proof {
        assert(data@.subrange(offset as int, data@.len() as int) =~= data@.skip(offset as int));
    }
    Ok((sequences, data.len()))
}

// ---------------------------------------------------------------------------
// Executing sequences
// ---------------------------------------------------------------------------

/// The buffer after a match of `n` bytes at distance `offset` has been
/// copied onto its end, one byte at a time (so a match may overlap itself).
pub open spec fn copy_match(buf: Seq<u8>, offset: nat, n: nat) -> Seq<u8>
    decreases n,
{
    if n == 0 {
        buf
    } else {
        let b = copy_match(buf, offset, (n - 1) as nat);
        b.push(b[b.len() - offset])
    }
}

/// Executing sequences from `k` on over `buf` (history then output), with
/// `lit_pos` literals used: the outcome and the buffer when it stops.
pub open spec fn exec_loop(seqs: Seq<Sequence>, lits: Seq<u8>, buf: Seq<u8>, lit_pos: nat, k: nat) -> (Result<()>, Seq<u8>)
    decreases seqs.len() - k,
{
    if k >= seqs.len() {
        (Ok(()), if lit_pos < lits.len() { buf + lits.subrange(lit_pos as int, lits.len() as int) } else { buf })
    } else {
        let sq = seqs[k as int];
        let lit_end = (lit_pos + sq.literal_length) as nat;
        if lit_end > lits.len() {
            (Err(ZstdError::CorruptData("literal position out of bounds")), buf)
        } else {
            let buf1 = buf + lits.subrange(lit_pos as int, lit_end as int);
            if sq.offset == 0 {
                (Err(ZstdError::CorruptData("zero offset")), buf1)
            } else if sq.offset > buf1.len() {
                (Err(ZstdError::CorruptData("offset exceeds available history")), buf1)
            } else {
                exec_loop(seqs, lits, copy_match(buf1, sq.offset as nat, sq.match_length as nat), lit_end, k + 1)
            }
        }
    }
}

/// The outcome of executing `seqs` with `lits` after `hist`, and the output
/// buffer `out` as it then stands.
pub open spec fn spec_execute(seqs: Seq<Sequence>, lits: Seq<u8>, hist: Seq<u8>, out: Seq<u8>) -> (Result<()>, Seq<u8>) {
    let (r, buf) = exec_loop(seqs, lits, hist + out, 0, 0);
    (r, buf.skip(hist.len() as int))
}

/// Append `s` to `out`.
pub(crate) fn append_slice(out: &mut Vec<u8>, s: &[u8])
    ensures
        final(out)@ == old(out)@ + s@,
{
    let mut i: usize = 0;
    while i < s.len()
        invariant
            i <= s@.len(),
            out@ == old(out)@ + s@.take(i as int),
        decreases s@.len() - i,
    {
        out.push(s[i]);
        i += 1;
        proof {
            assert(s@.take(i as int) == s@.take(i - 1).push(s@[i - 1]));
        }
    }
    proof {
        assert(s@.take(s@.len() as int) == s@);
    }
}

proof fn lemma_copy_match_len(buf: Seq<u8>, offset: nat, n: nat)
    ensures
        copy_match(buf, offset, n).len() == buf.len() + n,
        copy_match(buf, offset, n).take(buf.len() as int) == buf,
    decreases n,
{
    if n > 0 {
        lemma_copy_match_len(buf, offset, (n - 1) as nat);
        let b = copy_match(buf, offset, (n - 1) as nat);
        assert(b.push(b[b.len() - offset]).take(buf.len() as int) =~= b.take(buf.len() as int));
    }
}


/// Executing sequences only appends to the buffer it starts from.
pub proof fn lemma_exec_loop_prefix(seqs: Seq<Sequence>, lits: Seq<u8>, buf: Seq<u8>, lit_pos: nat, k: nat)
    ensures
        exec_loop(seqs, lits, buf, lit_pos, k).1.len() >= buf.len(),
        exec_loop(seqs, lits, buf, lit_pos, k).1.take(buf.len() as int) == buf,
    decreases seqs.len() - k,
{
    if k >= seqs.len() {
        if lit_pos < lits.len() {
            assert((buf + lits.subrange(lit_pos as int, lits.len() as int)).take(buf.len() as int) =~= buf);
        } else {
            assert(buf.take(buf.len() as int) =~= buf);
        }
    } else {
        let sq = seqs[k as int];
        let lit_end = (lit_pos + sq.literal_length) as nat;
        if lit_end > lits.len() {
            assert(buf.take(buf.len() as int) =~= buf);
        } else {
            let buf1 = buf + lits.subrange(lit_pos as int, lit_end as int);
            assert(buf1.take(buf.len() as int) =~= buf);
            if sq.offset == 0 || sq.offset > buf1.len() {
            } else {
                let buf2 = copy_match(buf1, sq.offset as nat, sq.match_length as nat);
                lemma_copy_match_len(buf1, sq.offset as nat, sq.match_length as nat);
                lemma_exec_loop_prefix(seqs, lits, buf2, lit_end, k + 1);
                let r = exec_loop(seqs, lits, buf2, lit_end, k + 1).1;
                assert(r.take(buf.len() as int) =~= r.take(buf2.len() as int).take(buf1.len() as int).take(buf.len() as int));
            }
        }
    }
}

/// Apply decoded sequences to reconstruct the original data.
///
/// `literals` is the decoded literals buffer; `history` is the data that
/// precedes `output` (the earlier part of the window).
pub fn execute_sequences(sequences: &[Sequence], literals: &[u8], history: &[u8], output: &mut Vec<u8>) -> (r: Result<()>)
    ensures
        ({
            let (res, out) = spec_execute(sequences@, literals@, history@, old(output)@);
            &&& final(output)@ == out
            &&& (r matches Ok(_) ==> res is Ok)
            &&& (r matches Err(e) ==> res == Err::<(), ZstdError>(e))
        }),
{
    let ghost hist = history@;
    let ghost out0 = old(output)@;
    let hlen = history.len();
    let mut lit_pos: usize = 0;
    let mut k: usize = 0;
    proof {
        assert((hist + out0).skip(hlen as int) =~= out0);
    }
    while k < sequences.len()
        invariant
            k <= sequences@.len(),
            lit_pos <= literals@.len(),
            hlen == hist.len(),
            hist == history@,
            out0 == old(output)@,
            exec_loop(sequences@, literals@, hist + out0, 0, 0) == exec_loop(sequences@, literals@, hist + output@, lit_pos as nat, k as nat),
        decreases sequences@.len() - k,
    {
        let sq = sequences[k];
        if sq.literal_length > literals.len() - lit_pos {
            proof {
                assert((hist + output@).skip(hlen as int) =~= output@);
                assert(exec_loop(sequences@, literals@, hist + output@, lit_pos as nat, k as nat)
                    == (Err::<(), ZstdError>(ZstdError::CorruptData("literal position out of bounds")), hist + output@));
            }
            return Err(ZstdError::CorruptData("literal position out of bounds"));
        }
        let lit_end = lit_pos + sq.literal_length;
        let ghost before = output@;
        append_slice(output, &literals[lit_pos..lit_end]);
        proof {
            assert(hist + output@ =~= (hist + before) + literals@.subrange(lit_pos as int, lit_end as int));
        }
        lit_pos = lit_end;
        if sq.offset == 0 {
            proof {
                assert((hist + output@).skip(hlen as int) =~= output@);
            }
            return Err(ZstdError::CorruptData("zero offset"));
        }
        let current_len = output.len();
        if sq.offset > hlen && sq.offset - hlen > current_len {
            proof {
                assert((hist + output@).skip(hlen as int) =~= output@);
                assert(exec_loop(sequences@, literals@, hist + before, (lit_pos - sq.literal_length) as nat, k as nat)
                    == (Err::<(), ZstdError>(ZstdError::CorruptData("offset exceeds available history")), hist + output@));
            }
            return Err(ZstdError::CorruptData("offset exceeds available history"));
        }
        let ghost buf1 = hist + output@;
        let mut i: usize = 0;
        while i < sq.match_length
            invariant
                i <= sq.match_length,
                hlen == hist.len(),
                hist == history@,
                1 <= sq.offset <= buf1.len(),
                hist + output@ == copy_match(buf1, sq.offset as nat, i as nat),
            decreases sq.match_length - i,
        {
            proof {
                lemma_copy_match_len(buf1, sq.offset as nat, i as nat);
            }
            let byte = if output.len() >= sq.offset {
                output[output.len() - sq.offset]
            } else {
                history[hlen - (sq.offset - output.len())]
            };
            output.push(byte);
            i += 1;
            proof {
                assert(hist + output@ =~= copy_match(buf1, sq.offset as nat, i as nat));
            }
        }
        k += 1;
    }
    if lit_pos < literals.len() {
        append_slice(output, &literals[lit_pos..literals.len()]);
    }
    proof {
        assert((hist + output@).skip(hlen as int) =~= output@);
    }
    Ok(())
}

} // verus!
