//! Finite State Entropy (FSE) tables and the bit streams they are read from
//! and written to.
use vstd::prelude::*;
use vstd::arithmetic::power2::*;
use crate::error::{Result, ZstdError};

verus! {

// ---------------------------------------------------------------------------
// Bytes as bit sequences
// ---------------------------------------------------------------------------

/// The byte whose bits, from the most significant down, are `b0 .. b7`.
pub open spec fn pack8(b0: bool, b1: bool, b2: bool, b3: bool, b4: bool, b5: bool, b6: bool, b7: bool) -> u8 {
    ((if b0 { 1u8 } else { 0u8 }) << 7u8) | ((if b1 { 1u8 } else { 0u8 }) << 6u8) | ((if b2 { 1u8 } else { 0u8 }) << 5u8)
        | ((if b3 { 1u8 } else { 0u8 }) << 4u8) | ((if b4 { 1u8 } else { 0u8 }) << 3u8) | ((if b5 { 1u8 } else { 0u8 }) << 2u8)
        | ((if b6 { 1u8 } else { 0u8 }) << 1u8) | (if b7 { 1u8 } else { 0u8 })
}

/// Bit `j` (0 = least significant) of byte `x`.
pub open spec fn byte_bit(x: u8, j: int) -> bool {
    (x >> (j as u8)) & 1u8 == 1u8
}

proof fn lemma_pack8_bits_bv(x0: u8, x1: u8, x2: u8, x3: u8, x4: u8, x5: u8, x6: u8, x7: u8)
    by (bit_vector)
    requires
        x0 <= 1, x1 <= 1, x2 <= 1, x3 <= 1, x4 <= 1, x5 <= 1, x6 <= 1, x7 <= 1,
    ensures
        ({ let p = (x0 << 7u8) | (x1 << 6u8) | (x2 << 5u8) | (x3 << 4u8) | (x4 << 3u8) | (x5 << 2u8) | (x6 << 1u8) | x7;
        &&& (p >> 0u8) & 1u8 == x7
        &&& (p >> 1u8) & 1u8 == x6
        &&& (p >> 2u8) & 1u8 == x5
        &&& (p >> 3u8) & 1u8 == x4
        &&& (p >> 4u8) & 1u8 == x3
        &&& (p >> 5u8) & 1u8 == x2
        &&& (p >> 6u8) & 1u8 == x1
        &&& (p >> 7u8) & 1u8 == x0 }),
{
}

/// Bit `j` of `pack8(b0, .., b7)` is `b(7 - j)`.
pub proof fn lemma_pack8_bit(b0: bool, b1: bool, b2: bool, b3: bool, b4: bool, b5: bool, b6: bool, b7: bool, j: int)
    requires
        0 <= j < 8,
    ensures
        byte_bit(pack8(b0, b1, b2, b3, b4, b5, b6, b7), j) == (if j == 0 { b7 } else if j == 1 { b6 } else if j == 2 { b5 }
            else if j == 3 { b4 } else if j == 4 { b3 } else if j == 5 { b2 } else if j == 6 { b1 } else { b0 }),
{
    let x0 = if b0 { 1u8 } else { 0u8 };
    let x1 = if b1 { 1u8 } else { 0u8 };
    let x2 = if b2 { 1u8 } else { 0u8 };
    let x3 = if b3 { 1u8 } else { 0u8 };
    let x4 = if b4 { 1u8 } else { 0u8 };
    let x5 = if b5 { 1u8 } else { 0u8 };
    let x6 = if b6 { 1u8 } else { 0u8 };
    let x7 = if b7 { 1u8 } else { 0u8 };
    lemma_pack8_bits_bv(x0, x1, x2, x3, x4, x5, x6, x7);
}

/// The byte made of the eight bits `s[off] .. s[off + 7]`, most significant first.
pub open spec fn byte_at(s: Seq<bool>, off: int) -> u8 {
    pack8(s[off], s[off + 1], s[off + 2], s[off + 3], s[off + 4], s[off + 5], s[off + 6], s[off + 7])
}

pub proof fn lemma_byte_at_bit(s: Seq<bool>, off: int, j: int)
    requires
        0 <= j < 8,
    ensures
        byte_bit(byte_at(s, off), j) == s[off + 7 - j],
{
    lemma_pack8_bit(s[off], s[off + 1], s[off + 2], s[off + 3], s[off + 4], s[off + 5], s[off + 6], s[off + 7], j);
}

pub(crate) fn pack8_exec(b0: bool, b1: bool, b2: bool, b3: bool, b4: bool, b5: bool, b6: bool, b7: bool) -> (r: u8)
    ensures
        r == pack8(b0, b1, b2, b3, b4, b5, b6, b7),
{
    ((if b0 { 1u8 } else { 0u8 }) << 7u8) | ((if b1 { 1u8 } else { 0u8 }) << 6u8) | ((if b2 { 1u8 } else { 0u8 }) << 5u8)
        | ((if b3 { 1u8 } else { 0u8 }) << 4u8) | ((if b4 { 1u8 } else { 0u8 }) << 3u8) | ((if b5 { 1u8 } else { 0u8 }) << 2u8)
        | ((if b6 { 1u8 } else { 0u8 }) << 1u8) | (if b7 { 1u8 } else { 0u8 })
}

/// Bit `k` of a byte string read as a little-endian number.
pub open spec fn stream_bit(data: Seq<u8>, k: int) -> bool {
    byte_bit(data[k / 8], k % 8)
}

/// The `n` low bits of `val`, most significant first.
pub open spec fn field_bits(val: u64, n: nat) -> Seq<bool> {
    Seq::new(n, |i: int| (val >> ((n - 1 - i) as u64)) & 1u64 == 1u64)
}

// ---------------------------------------------------------------------------
// Backward bit stream (zstd convention)
// ---------------------------------------------------------------------------

/// Index of the highest set bit among the `j` low bits of the last byte,
/// as a position in the whole stream; 0 when there is none.
pub open spec fn top_bit_from(data: Seq<u8>, j: int) -> nat
    decreases j,
{
    if j <= 0 {
        0
    } else if stream_bit(data, 8 * (data.len() - 1) + j - 1) {
        (8 * (data.len() - 1) + j - 1) as nat
    } else {
        top_bit_from(data, j - 1)
    }
}

/// The number of payload bits of a backward stream: the position of the
/// sentinel (highest set) bit of the last byte, or 0 when the stream is
/// empty or its last byte is zero.
pub open spec fn sentinel_pos(data: Seq<u8>) -> nat {
    if data.len() == 0 {
        0
    } else {
        top_bit_from(data, 8)
    }
}

/// Value of the `n` bits just below position `p`, the highest bit first.
pub open spec fn bits_below(data: Seq<u8>, p: int, n: nat) -> nat
    decreases n,
{
    if n == 0 {
        0
    } else {
        2 * bits_below(data, p, (n - 1) as nat) + if stream_bit(data, p - n) { 1nat } else { 0nat }
    }
}

pub proof fn lemma_bits_below_bound(data: Seq<u8>, p: int, n: nat)
    ensures
        bits_below(data, p, n) < pow2(n),
    decreases n,
{
    if n > 0 {
        lemma_bits_below_bound(data, p, (n - 1) as nat);
        lemma_pow2_unfold(n);
    } else {
        lemma_pow2_pos(0);
    }
}

fn read_stream_bit(data: &[u8], k: usize) -> (b: bool)
    requires
        k < 8 * data@.len(),
    ensures
        b == stream_bit(data@, k as int),
{
    (data[k / 8] >> ((k % 8) as u8)) & 1u8 == 1u8
}

/// A reader of the zstd backward bit stream: the last byte holds a sentinel
/// bit above the payload, and bits are read from just below the sentinel
/// downwards, each read returning its highest bit first.
pub struct BitReader<'a> {
    data: &'a [u8],
    pos: usize,
}

impl<'a> BitReader<'a> {
    /// The bytes being read.
    pub closed spec fn bytes(&self) -> Seq<u8> {
        self.data@
    }

    /// Number of bits still to be read.
    pub closed spec fn remaining(&self) -> nat {
        self.pos as nat
    }

    #[verifier::type_invariant]
    closed spec fn inv(&self) -> bool {
        self.pos <= 8 * self.data@.len()
    }

    /// Create a reader over `data`, positioned just below its sentinel bit.
    pub fn new(data: &'a [u8]) -> (r: Self)
        requires
            data@.len() <= usize::MAX / 8,
        ensures
            r.bytes() == data@,
            r.remaining() == sentinel_pos(data@),
    {
        let len = data.len();
        if len == 0 {
            return BitReader { data, pos: 0 };
        }
        let base = 8 * (len - 1);
        let mut j: usize = 8;
        while j > 0
            invariant
                j <= 8,
                base == 8 * (len - 1),
                len == data@.len(),
                len <= usize::MAX / 8,
                len > 0,
                top_bit_from(data@, 8) == top_bit_from(data@, j as int),
            decreases j,
        {
            if read_stream_bit(data, base + j - 1) {
                return BitReader { data, pos: base + j - 1 };
            }
            j -= 1;
        }
        BitReader { data, pos: 0 }
    }

    /// Read `n` bits, the first one read being the most significant.
    pub fn read_bits(&mut self, n: u32) -> (v: u64)
        requires
            n <= 64,
            n <= old(self).remaining(),
        ensures
            v == bits_below(old(self).bytes(), old(self).remaining() as int, n as nat),
            final(self).bytes() == old(self).bytes(),
            final(self).remaining() == old(self).remaining() - n,
    {
        proof {
            use_type_invariant(&*self);
        }
        let p = self.pos;
        let mut v: u64 = 0;
        let mut i: u32 = 0;
        while i < n
            invariant
                i <= n,
                n <= 64,
                n <= p,
                p <= 8 * self.data@.len(),
                v == bits_below(self.data@, p as int, i as nat),
            decreases n - i,
        {
            proof {
                lemma_bits_below_bound(self.data@, p as int, i as nat);
                if i < 63 {
                    lemma_pow2_strictly_increases(i as nat, 63);
                }
                lemma2_to64_rest();
            }
            let b = read_stream_bit(self.data, p - 1 - i as usize);
            v = 2 * v + if b { 1u64 } else { 0u64 };
            i += 1;
        }
        self.pos = p - n as usize;
        v
    }

    /// Number of bits still to be read.
    pub fn bits_left(&self) -> (r: usize)
        ensures
            r == self.remaining(),
    {
        self.pos
    }

    /// Whether every payload bit has been read.
    pub fn is_empty(&self) -> (r: bool)
        ensures
            r == (self.remaining() == 0),
    {
        self.pos == 0
    }
}

/// Read `n` bits below position `p` of a backward stream: the value and the
/// new position, or `None` when fewer than `n` bits remain.
pub open spec fn take_bits(data: Seq<u8>, p: nat, n: nat) -> Option<(nat, nat)> {
    if n <= p {
        Some((bits_below(data, p as int, n), (p - n) as nat))
    } else {
        None
    }
}

/// Read `n` bits, or nothing when fewer remain.
pub(crate) fn take_bits_exec(reader: &mut BitReader, n: u8) -> (r: Option<usize>)
    requires
        n <= 32,
    ensures
        final(reader).bytes() == old(reader).bytes(),
        r matches Some(v) ==> take_bits(old(reader).bytes(), old(reader).remaining(), n as nat) == Some((v as nat, final(reader).remaining()))
            && v < pow2(n as nat),
        r is None ==> take_bits(old(reader).bytes(), old(reader).remaining(), n as nat) is None && final(reader).remaining() == old(reader).remaining(),
{
    if n as usize > reader.bits_left() {
        return None;
    }
    let v = reader.read_bits(n as u32);
    proof {
        lemma_bits_below_bound(old(reader).bytes(), old(reader).remaining() as int, n as nat);
        if n < 32 {
            lemma_pow2_strictly_increases(n as nat, 32);
        }
        lemma2_to64();
    }
    Some(v as usize)
}

/// The bytes of a backward stream whose payload, read from the top down,
/// is `bits`: a sentinel bit, then `bits`, stored right-aligned and read as
/// a little-endian number.
pub open spec fn padded_stream(bits: Seq<bool>) -> Seq<bool> {
    let total = bits.len() + 1;
    let m = (total + 7) / 8;
    let pad = 8 * m - total;
    Seq::new((8 * m) as nat, |j: int| if j < pad { false } else if j == pad { true } else { bits[j - pad - 1] })
}

pub open spec fn backward_stream(bits: Seq<bool>) -> Seq<u8> {
    let m = (bits.len() + 8) / 8;
    Seq::new(m as nat, |i: int| byte_at(padded_stream(bits), 8 * (m - 1 - i)))
}

proof fn lemma_backward_stream_bit(bits: Seq<bool>, q: int)
    requires
        0 <= q < 8 * backward_stream(bits).len(),
    ensures
        stream_bit(backward_stream(bits), q) == padded_stream(bits)[8 * backward_stream(bits).len() - 1 - q],
{
    let out = backward_stream(bits);
    let m = (bits.len() + 8) / 8;
    let off = 8 * (m - 1 - q / 8);
    assert(q == 8 * (q / 8) + q % 8);
    lemma_byte_at_bit(padded_stream(bits), off, q % 8);
}

proof fn lemma_backward_stream_top(bits: Seq<bool>, j: int)
    requires
        (8 - (8 * ((bits.len() + 8) / 8) - bits.len() - 1)) <= j <= 8,
    ensures
        top_bit_from(backward_stream(bits), j) == bits.len(),
    decreases j,
{
    let out = backward_stream(bits);
    let m = (bits.len() + 8) / 8;
    let pad = 8 * m - bits.len() - 1;
    let q = 8 * (out.len() - 1) + j - 1;
    lemma_backward_stream_bit(bits, q);
    if j > 8 - pad {
        lemma_backward_stream_top(bits, j - 1);
    }
}

/// Law: a [`BitReader`] over the bytes of a finished [`BitWriter`] has as
/// many payload bits as were written, and reads them back in the order in
/// which they were written.
pub proof fn lemma_backward_stream_roundtrip(bits: Seq<bool>)
    ensures
        sentinel_pos(backward_stream(bits)) == bits.len(),
        forall|k: int|
            0 <= k < bits.len() ==> #[trigger] stream_bit(backward_stream(bits), bits.len() - 1 - k) == bits[k],
{
    lemma_backward_stream_top(bits, 8);
    assert forall|k: int| 0 <= k < bits.len() implies #[trigger] stream_bit(backward_stream(bits), bits.len() - 1 - k)
        == bits[k] by {
        lemma_backward_stream_bit(bits, bits.len() - 1 - k);
    }
}

/// The bits of fields `(value, width)` written one after another.
pub open spec fn fields_bits(fields: Seq<(u64, nat)>) -> Seq<bool>
    decreases fields.len(),
{
    if fields.len() == 0 {
        Seq::empty()
    } else {
        fields_bits(fields.drop_last()) + field_bits(fields.last().0, fields.last().1)
    }
}

/// The top `m` bits of an `n`-bit field, read back from the stream.
proof fn lemma_field_prefix_reads_back(pre: Seq<bool>, v: u64, n: nat, post: Seq<bool>, m: nat)
    requires
        n <= 64,
        m <= n,
        v < pow2(n),
    ensures
        ({
            let bits = pre + field_bits(v, n) + post;
            bits_below(backward_stream(bits), (bits.len() - pre.len()) as int, m) == v as nat / pow2((n - m) as nat)
        }),
    decreases m,
{
    let bits = pre + field_bits(v, n) + post;
    let out = backward_stream(bits);
    let p = (bits.len() - pre.len()) as int;
    lemma_pow2_pos((n - m) as nat);
    if m == 0 {
        vstd::arithmetic::div_mod::lemma_basic_div(v as int, pow2(n) as int);
    } else {
        lemma_field_prefix_reads_back(pre, v, n, post, (m - 1) as nat);
        lemma_backward_stream_roundtrip(bits);
        let k = pre.len() + m - 1;
        assert(stream_bit(out, bits.len() - 1 - k) == bits[k]);
        assert(bits[k] == field_bits(v, n)[m - 1]);
        let sh = (n - m) as nat;
        vstd::bits::lemma_u64_shr_is_div(v, sh as u64);
        let x = v >> (sh as u64);
        assert((x & 1u64 == 1u64) == (x % 2 == 1)) by (bit_vector);
        lemma_pow2_unfold((sh + 1) as nat);
        lemma_pow2_pos(sh);
        vstd::arithmetic::div_mod::lemma_div_denominator(v as int, pow2(sh) as int, 2);
        assert(pow2(sh) * 2 == pow2((sh + 1) as nat));
        assert((n - (m - 1)) as nat == sh + 1);
    }
}

/// Fields written earlier are a prefix of the bits of all of them.
proof fn lemma_fields_prefix(fields: Seq<(u64, nat)>, k: int)
    requires
        0 <= k <= fields.len(),
    ensures
        fields_bits(fields.take(k)).len() <= fields_bits(fields).len(),
        fields_bits(fields).take(fields_bits(fields.take(k)).len() as int) == fields_bits(fields.take(k)),
    decreases fields.len(),
{
    if k < fields.len() {
        lemma_fields_prefix(fields.drop_last(), k);
        assert(fields.drop_last().take(k) == fields.take(k));
    } else {
        assert(fields.take(k) == fields);
    }
}

/// Law: fields written one after another with [`BitWriter::write_bits`]
/// read back one after another with [`BitReader::read_bits`]: the reader
/// starts with as many payload bits as were written, and once the bits of
/// the fields before field `i` are read, the next read of its width gives
/// its value.
pub proof fn lemma_fields_roundtrip(fields: Seq<(u64, nat)>, i: int)
    requires
        0 <= i < fields.len(),
        forall|j: int| 0 <= j < fields.len() ==> #[trigger] fields[j].1 <= 64 && fields[j].0 < pow2(fields[j].1),
    ensures
        sentinel_pos(backward_stream(fields_bits(fields))) == fields_bits(fields).len(),
        bits_below(backward_stream(fields_bits(fields)),
            (fields_bits(fields).len() - fields_bits(fields.take(i)).len()) as int, fields[i].1) == fields[i].0,
{
    let bits = fields_bits(fields);
    lemma_backward_stream_roundtrip(bits);
    lemma_fields_prefix(fields, i + 1);
    let pre = fields_bits(fields.take(i));
    let upto = fields_bits(fields.take(i + 1));
    assert(fields.take(i + 1).drop_last() == fields.take(i));
    assert(upto == pre + field_bits(fields[i].0, fields[i].1));
    let post = bits.skip(upto.len() as int);
    assert(bits == pre + field_bits(fields[i].0, fields[i].1) + post);
    assert(fields[i].1 <= 64 && fields[i].0 < pow2(fields[i].1));
    let v = fields[i].0;
    let n = fields[i].1;
    lemma_field_prefix_reads_back(pre, v, n, post, n);
    assert(pow2(0) == 1) by { lemma2_to64(); }
    assert((n - n) as nat == 0);
    assert(v as nat / 1 == v);
    assert(bits_below(backward_stream(bits), (bits.len() - pre.len()) as int, n) == v);
}

/// A writer of the zstd backward bit stream: the bits written first are
/// the first ones a [`BitReader`] reads back.
pub struct BitWriter {
    bits: Vec<bool>,
}

impl View for BitWriter {
    type V = Seq<bool>;

    closed spec fn view(&self) -> Seq<bool> {
        self.bits@
    }
}

impl BitWriter {
    /// An empty writer.
    pub fn new() -> (w: Self)
        ensures
            w@ == Seq::<bool>::empty(),
    {
        BitWriter { bits: Vec::new() }
    }

    /// Append the `n` low bits of `val`, most significant first.
    pub fn write_bits(&mut self, val: u64, n: u32)
        requires
            n <= 64,
        ensures
            final(self)@ == old(self)@ + field_bits(val, n as nat),
    {
        let ghost start = self.bits@;
        let mut i: u32 = 0;
        while i < n
            invariant
                i <= n,
                n <= 64,
                self.bits@ == start + field_bits(val, n as nat).take(i as int),
            decreases n - i,
        {
            let b = (val >> ((n - 1 - i) as u64)) & 1u64 == 1u64;
            self.bits.push(b);
            i += 1;
            proof {
                assert(field_bits(val, n as nat).take(i as int) == field_bits(val, n as nat).take(i - 1).push(b));
            }
        }
        proof {
            assert(field_bits(val, n as nat).take(n as int) == field_bits(val, n as nat));
        }
    }

    fn padded_bit(&self, j: usize, pad: usize) -> (b: bool)
        requires
            j < pad + 1 + self.bits@.len(),
        ensures
            b == (if j < pad { false } else if j == pad { true } else { self.bits@[j - pad - 1] }),
    {
        if j < pad {
            false
        } else if j == pad {
            true
        } else {
            self.bits[j - pad - 1]
        }
    }

    /// Close the stream with its sentinel bit and return its bytes.
    pub fn finish(self) -> (out: Vec<u8>)
        requires
            self@.len() + 8 <= usize::MAX,
        ensures
            out@ == backward_stream(self@),
    {
        let t = self.bits.len();
        let total = t + 1;
        let m = (total + 7) / 8;
        let pad = 8 * m - total;
        let ghost padded = padded_stream(self.bits@);
        let mut out: Vec<u8> = Vec::with_capacity(m);
        let mut i: usize = 0;
        while i < m
            invariant
                t == self.bits@.len(),
                total == t + 1,
                m == (total + 7) / 8,
                pad == 8 * m - total,
                8 * m == pad + total,
                padded == padded_stream(self.bits@),
                i <= m,
                out@.len() == i,
                forall|k: int| 0 <= k < i ==> out@[k] == byte_at(padded, 8 * (m - 1 - k)),
            decreases m - i,
        {
            let off = 8 * (m - 1 - i);
            let b = pack8_exec(
                self.padded_bit(off, pad),
                self.padded_bit(off + 1, pad),
                self.padded_bit(off + 2, pad),
                self.padded_bit(off + 3, pad),
                self.padded_bit(off + 4, pad),
                self.padded_bit(off + 5, pad),
                self.padded_bit(off + 6, pad),
                self.padded_bit(off + 7, pad),
            );
            out.push(b);
            i += 1;
        }
        proof {
            assert(m == (t + 8) / 8);
            assert(out@ =~= backward_stream(self.bits@));
        }
        out
    }
}

impl Default for BitWriter {
    fn default() -> (w: Self)
        ensures
            w@ == Seq::<bool>::empty(),
    {
        Self::new()
    }
}


// ---------------------------------------------------------------------------
// Decode tables
// ---------------------------------------------------------------------------

/// Maximum FSE table log (accuracy_log).
pub const FSE_MAX_TABLELOG: u8 = 12;
/// Minimum FSE table log.
pub const FSE_MIN_TABLELOG: u8 = 5;

/// An FSE symbol with its normalized probability count.
#[derive(Debug, Clone, Copy, PartialEq, Eq, Structural)]
pub struct FseSymbol {
    /// Normalized probability (number of cells in the table); -1 means a
    /// "less than one" probability.
    pub norm: i16,
}

/// One state of an FSE decode table.
#[derive(Debug, Clone, Copy, PartialEq, Eq, Structural)]
pub struct FseDecodeEntry {
    /// The decoded symbol.
    pub symbol: u8,
    /// Number of bits to read to advance the state.
    pub num_bits: u8,
    /// Base value to add to the bits read.
    pub base_line: u16,
    /// The symbol's occurrence counter this state was built from.
    pub next_state: u16,
}

/// An FSE decode table.
#[derive(Debug, Clone)]
pub struct FseDecodeTable {
    pub accuracy_log: u8,
    pub table: Vec<FseDecodeEntry>,
}

/// Decode tables whose entries read at most 12 bits, as built from a
/// distribution or a single symbol.
pub open spec fn table_reads_fit(t: Seq<FseDecodeEntry>) -> bool {
    forall|i: int| 0 <= i < t.len() ==> #[trigger] t[i].num_bits <= 12
}

/// Floor of the base-2 logarithm (0 for 0 and 1).
pub open spec fn log2(x: nat) -> nat
    decreases x,
{
    if x < 2 {
        0
    } else {
        1 + log2(x / 2)
    }
}

pub proof fn lemma_log2_bounds(x: nat)
    requires
        x >= 1,
    ensures
        pow2(log2(x)) <= x < pow2(log2(x) + 1),
    decreases x,
{
    if x < 2 {
        lemma2_to64();
    } else {
        lemma_log2_bounds(x / 2);
        lemma_pow2_unfold(log2(x / 2) + 1);
        lemma_pow2_unfold(log2(x / 2) + 2);
    }
}

fn log2_u16(x: u16) -> (r: u32)
    ensures
        r == log2(x as nat),
        r < 16,
{
    proof {
        lemma_log2_u16_bound(x as nat);
    }
    let mut v = x;
    let mut r: u32 = 0;
    while v >= 2
        invariant
            log2(x as nat) == r + log2(v as nat),
            r + log2(v as nat) < 16,
        decreases v,
    {
        v = v / 2;
        r += 1;
    }
    r
}

proof fn lemma_log2_u16_bound(x: nat)
    requires
        x < 65536,
    ensures
        log2(x) < 16,
{
    if x >= 1 {
        lemma_log2_bounds(x);
        lemma2_to64();
        if log2(x) >= 16 {
            lemma_pow2_strictly_increases(16, log2(x));
        }
    }
}

/// The step by which symbols are spread over a table of `ts` cells.
pub open spec fn spread_step(ts: nat) -> nat {
    ts / 2 + ts / 8 + 3
}

/// Phase one of table building: symbols of probability "less than one"
/// take cells from the top of the table down.  Returns the table cells,
/// the per-symbol occurrence counters, the highest cell left for the other
/// symbols, and whether the cells ran out.
pub open spec fn low_prob_fill(norm: Seq<i16>, k: nat, syms: Seq<u8>, next: Seq<u16>, pos: nat) -> (Seq<u8>, Seq<u16>, nat)
    decreases norm.len() - k,
{
    if k >= norm.len() {
        (syms, next, pos)
    } else if norm[k as int] == -1 {
        let syms2 = syms.update(pos as int, k as u8);
        if pos == 0 {
            (syms2, next, pos)
        } else {
            low_prob_fill(norm, k + 1, syms2, next.update(k as int, 1), (pos - 1) as nat)
        }
    } else {
        low_prob_fill(norm, k + 1, syms, next, pos)
    }
}

/// Advance a spread position past the cells reserved above `pos`, trying
/// at most `fuel` more steps.
pub open spec fn skip_reserved(sp: nat, step: nat, ts: nat, pos: nat, fuel: nat) -> Option<nat>
    decreases fuel,
{
    if sp <= pos {
        Some(sp)
    } else if fuel == 0 {
        None
    } else {
        skip_reserved((sp + step) % ts, step, ts, pos, (fuel - 1) as nat)
    }
}

/// Place `count` copies of `sym` starting at spread position `sp`.
pub open spec fn place_symbol(syms: Seq<u8>, sp: nat, sym: u8, count: nat, step: nat, ts: nat, pos: nat) -> Option<(Seq<u8>, nat)>
    decreases count,
{
    if count == 0 {
        Some((syms, sp))
    } else {
        match skip_reserved((sp + step) % ts, step, ts, pos, ts) {
            None => None,
            Some(sp2) => place_symbol(syms.update(sp as int, sym), sp2, sym, (count - 1) as nat, step, ts, pos),
        }
    }
}

/// Phase two of table building: spread every symbol of positive
/// probability over the cells not reserved in phase one.
pub open spec fn spread_fill(norm: Seq<i16>, k: nat, syms: Seq<u8>, next: Seq<u16>, sp: nat, step: nat, ts: nat, pos: nat) -> Option<(Seq<u8>, Seq<u16>)>
    decreases norm.len() - k,
{
    if k >= norm.len() {
        Some((syms, next))
    } else if norm[k as int] <= 0 {
        spread_fill(norm, k + 1, syms, next, sp, step, ts, pos)
    } else {
        match place_symbol(syms, sp, k as u8, norm[k as int] as nat, step, ts, pos) {
            None => None,
            Some((syms2, sp2)) => spread_fill(norm, k + 1, syms2, next.update(k as int, norm[k as int] as u16), sp2, step, ts, pos),
        }
    }
}

/// The decode entry of a cell holding a symbol whose counter reads `x`.
pub open spec fn decode_entry(sym: u8, x: u16, log: nat, ts: nat) -> FseDecodeEntry {
    let nb = (log - log2(x as nat)) as nat;
    FseDecodeEntry { symbol: sym, num_bits: nb as u8, base_line: (x * pow2(nb) - ts) as u16, next_state: x }
}

/// Phase three: turn cells into decode entries, from cell `i` on.
pub open spec fn fill_entries(syms: Seq<u8>, next: Seq<u16>, log: nat, ts: nat, i: nat, acc: Seq<FseDecodeEntry>) -> Result<Seq<FseDecodeEntry>>
    decreases syms.len() - i,
{
    if i >= syms.len() {
        Ok(acc)
    } else {
        let s = syms[i as int];
        if s >= next.len() {
            Err(ZstdError::FseError("symbol outside the distribution"))
        } else {
            let x = next[s as int];
            if x == 0 {
                Err(ZstdError::FseError("symbol without probability"))
            } else if log2(x as nat) > log {
                Err(ZstdError::FseError("symbol probability exceeds table size"))
            } else {
                fill_entries(syms, next.update(s as int, (x + 1) as u16), log, ts, i + 1, acc.push(decode_entry(s, x, log, ts)))
            }
        }
    }
}

/// The decode table of distribution `norm` at accuracy `log`, as its entries.
pub open spec fn spec_decode_table(norm: Seq<i16>, log: u8) -> Result<Seq<FseDecodeEntry>> {
    if log > FSE_MAX_TABLELOG {
        Err(ZstdError::FseError("accuracy_log too large"))
    } else {
        let ts = pow2(log as nat);
        let (syms1, next1, pos) = low_prob_fill(norm, 0, Seq::new(ts, |i: int| 0u8), Seq::new(norm.len(), |i: int| 0u16), (ts - 1) as nat);
        match spread_fill(norm, 0, syms1, next1, 0, spread_step(ts) % ts, ts, pos) {
            None => Err(ZstdError::FseError("symbols cannot be spread")),
            Some((syms2, next2)) => fill_entries(syms2, next2, log as nat, ts, 0, Seq::empty()),
        }
    }
}


fn low_prob_fill_exec(norm: &[i16], syms: &mut Vec<u8>, next: &mut Vec<u16>, pos0: usize) -> (pos: usize)
    requires
        pos0 < old(syms)@.len(),
        old(next)@.len() == norm@.len(),
    ensures
        (final(syms)@, final(next)@, pos as nat) == low_prob_fill(norm@, 0, old(syms)@, old(next)@, pos0 as nat),
        pos < final(syms)@.len(),
        final(syms)@.len() == old(syms)@.len(),
        final(next)@.len() == old(next)@.len(),
        (forall|j: int| 0 <= j < old(next)@.len() ==> old(next)@[j] <= 32767) ==> (forall|j: int| 0 <= j < final(next)@.len() ==> final(next)@[j] <= 32767),
{
    let mut pos = pos0;
    let mut k: usize = 0;
    while k < norm.len()
        invariant
            k <= norm@.len(),
            pos < syms@.len(),
            syms@.len() == old(syms)@.len(),
            next@.len() == norm@.len(),
            old(next)@.len() == norm@.len(),
            (forall|j: int| 0 <= j < old(next)@.len() ==> old(next)@[j] <= 32767) ==> (forall|j: int| 0 <= j < next@.len() ==> next@[j] <= 32767),
            low_prob_fill(norm@, 0, old(syms)@, old(next)@, pos0 as nat)
                == low_prob_fill(norm@, k as nat, syms@, next@, pos as nat),
        decreases norm@.len() - k,
    {
        if norm[k] == -1 {
            syms.set(pos, k as u8);
            if pos == 0 {
                return pos;
            }
            pos -= 1;
            next.set(k, 1);
        }
        k += 1;
    }
    pos
}

fn skip_reserved_exec(sp0: usize, step: usize, ts: usize, pos: usize) -> (r: Option<usize>)
    requires
        ts > 0,
        sp0 < ts,
        step < ts,
        ts <= 4096,
    ensures
        r matches Some(v) ==> v <= pos && v < ts && skip_reserved(sp0 as nat, step as nat, ts as nat, pos as nat, ts as nat) == Some(v as nat),
        r is None ==> skip_reserved(sp0 as nat, step as nat, ts as nat, pos as nat, ts as nat) is None,
{
    let mut sp = sp0;
    let mut fuel = ts;
    while sp > pos
        invariant
            sp < ts,
            step < ts,
            ts <= 4096,
            fuel <= ts,
            skip_reserved(sp0 as nat, step as nat, ts as nat, pos as nat, ts as nat)
                == skip_reserved(sp as nat, step as nat, ts as nat, pos as nat, fuel as nat),
        decreases fuel,
    {
        if fuel == 0 {
            return None;
        }
        sp = (sp + step) % ts;
        fuel -= 1;
    }
    Some(sp)
}

fn spread_fill_exec(norm: &[i16], syms: &mut Vec<u8>, next: &mut Vec<u16>, step: usize, ts: usize, pos: usize) -> (ok: bool)
    requires
        old(syms)@.len() == ts,
        0 < ts <= 4096,
        step < ts,
        pos < ts,
        old(next)@.len() == norm@.len(),
    ensures
        ok == spread_fill(norm@, 0, old(syms)@, old(next)@, 0, step as nat, ts as nat, pos as nat) is Some,
        ok ==> spread_fill(norm@, 0, old(syms)@, old(next)@, 0, step as nat, ts as nat, pos as nat) == Some((final(syms)@, final(next)@)),
        final(syms)@.len() == ts,
        final(next)@.len() == norm@.len(),
        (forall|j: int| 0 <= j < old(next)@.len() ==> old(next)@[j] <= 32767) ==> (forall|j: int| 0 <= j < final(next)@.len() ==> final(next)@[j] <= 32767),
{
    let mut sp: usize = 0;
    let mut k: usize = 0;
    while k < norm.len()
        invariant
            k <= norm@.len(),
            syms@.len() == ts,
            0 < ts <= 4096,
            step < ts,
            pos < ts,
            sp <= pos,
            next@.len() == norm@.len(),
            (forall|j: int| 0 <= j < old(next)@.len() ==> old(next)@[j] <= 32767) ==> (forall|j: int| 0 <= j < next@.len() ==> next@[j] <= 32767),
            spread_fill(norm@, 0, old(syms)@, old(next)@, 0, step as nat, ts as nat, pos as nat)
                == spread_fill(norm@, k as nat, syms@, next@, sp as nat, step as nat, ts as nat, pos as nat),
        decreases norm@.len() - k,
    {
        let n = norm[k];
        if n > 0 {
            let ghost syms_before = syms@;
            let ghost sp_before = sp;
            let mut c: i16 = 0;
            while c < n
                invariant
                    0 <= c <= n,
                    k < norm@.len(),
                    n == norm@[k as int],
                    next@.len() == norm@.len(),
                    (forall|j: int| 0 <= j < old(next)@.len() ==> old(next)@[j] <= 32767) ==> (forall|j: int| 0 <= j < next@.len() ==> next@[j] <= 32767),
                    spread_fill(norm@, 0, old(syms)@, old(next)@, 0, step as nat, ts as nat, pos as nat)
                        == spread_fill(norm@, k as nat, syms_before, next@, sp_before as nat, step as nat, ts as nat, pos as nat),
                    syms@.len() == ts,
                    0 < ts <= 4096,
                    step < ts,
                    pos < ts,
                    sp <= pos,
                    place_symbol(syms_before, sp_before as nat, k as u8, n as nat, step as nat, ts as nat, pos as nat)
                        == place_symbol(syms@, sp as nat, k as u8, (n - c) as nat, step as nat, ts as nat, pos as nat),
                decreases n - c,
            {
                syms.set(sp, k as u8);
                match skip_reserved_exec((sp + step) % ts, step, ts, pos) {
                    None => {
                        return false;
                    },
                    Some(sp2) => {
                        sp = sp2;
                    },
                }
                c += 1;
            }
            next.set(k, n as u16);
        }
        k += 1;
    }
    true
}

fn fill_entries_exec(syms: &Vec<u8>, next: &mut Vec<u16>, log: u8, ts: usize) -> (r: Result<Vec<FseDecodeEntry>>)
    requires
        log <= FSE_MAX_TABLELOG,
        ts == pow2(log as nat),
        syms@.len() == ts,
        forall|j: int| 0 <= j < old(next)@.len() ==> old(next)@[j] <= 32767,
    ensures
        r matches Ok(v) ==> fill_entries(syms@, old(next)@, log as nat, ts as nat, 0, Seq::empty()) == Ok::<Seq<FseDecodeEntry>, ZstdError>(v@)
            && table_reads_fit(v@) && v@.len() == ts,
        r matches Err(e) ==> fill_entries(syms@, old(next)@, log as nat, ts as nat, 0, Seq::empty()) == Err::<Seq<FseDecodeEntry>, ZstdError>(e),
{
    let mut out: Vec<FseDecodeEntry> = Vec::with_capacity(ts);
    let mut i: usize = 0;
    proof {
        lemma2_to64();
        if log < 12 {
            lemma_pow2_strictly_increases(log as nat, 12);
        }
    }
    while i < syms.len()
        invariant
            i <= syms@.len(),
            syms@.len() == ts,
            ts <= 4096,
            log <= FSE_MAX_TABLELOG,
            ts == pow2(log as nat),
            forall|j: int| 0 <= j < next@.len() ==> next@[j] <= 32767 + i,
            table_reads_fit(out@),
            out@.len() == i,
            fill_entries(syms@, old(next)@, log as nat, ts as nat, 0, Seq::empty())
                == fill_entries(syms@, next@, log as nat, ts as nat, i as nat, out@),
        decreases syms@.len() - i,
    {
        let s = syms[i];
        if s as usize >= next.len() {
            return Err(ZstdError::FseError("symbol outside the distribution"));
        }
        let x = next[s as usize];
        if x == 0 {
            return Err(ZstdError::FseError("symbol without probability"));
        }
        let lx = log2_u16(x);
        if lx > log as u32 {
            return Err(ZstdError::FseError("symbol probability exceeds table size"));
        }
        let nb = log as u32 - lx;
        proof {
            lemma_log2_bounds(x as nat);
            lemma_pow2_adds(lx as nat, nb as nat);
            lemma_pow2_unfold((lx + 1) as nat);
            lemma_pow2_pos(nb as nat);
            assert(x * pow2(nb as nat) >= pow2(lx as nat) * pow2(nb as nat)) by (nonlinear_arith)
                requires x >= pow2(lx as nat);
            assert(x * pow2(nb as nat) < 2 * pow2(lx as nat) * pow2(nb as nat)) by (nonlinear_arith)
                requires x < 2 * pow2(lx as nat), pow2(nb as nat) > 0;
            lemma_pow2_pos(nb as nat);
            assert(pow2(lx as nat) * pow2(nb as nat) == pow2(log as nat));
            assert(2 * pow2(lx as nat) * pow2(nb as nat) == 2 * (pow2(lx as nat) * pow2(nb as nat))) by (nonlinear_arith);
            assert(x * pow2(nb as nat) < 2 * ts);
            vstd::bits::lemma_u32_shl_is_mul(x as u32, nb);
        }
        let shifted: u32 = (x as u32) << nb;
        let base_line: u16 = (shifted - ts as u32) as u16;
        let entry = FseDecodeEntry { symbol: s, num_bits: nb as u8, base_line, next_state: x };
        next.set(s as usize, x + 1);
        out.push(entry);
        i += 1;
    }
    Ok(out)
}

/// Build an FSE decode table from normalized counts.
pub fn build_decode_table(norm: &[i16], accuracy_log: u8) -> (r: Result<FseDecodeTable>)
    ensures
        r matches Ok(t) ==> t.accuracy_log == accuracy_log && spec_decode_table(norm@, accuracy_log) == Ok::<Seq<FseDecodeEntry>, ZstdError>(t.table@)
            && table_reads_fit(t.table@) && accuracy_log <= FSE_MAX_TABLELOG && t.table@.len() == pow2(accuracy_log as nat),
        r matches Err(e) ==> spec_decode_table(norm@, accuracy_log) == Err::<Seq<FseDecodeEntry>, ZstdError>(e),
{
    if accuracy_log > FSE_MAX_TABLELOG {
        return Err(ZstdError::FseError("accuracy_log too large"));
    }
    proof {
        lemma2_to64();
        if accuracy_log < 12 {
            lemma_pow2_strictly_increases(accuracy_log as nat, 12);
        }
        lemma_pow2_pos(accuracy_log as nat);
        vstd::bits::lemma_usize_shl_is_mul(1, accuracy_log as usize);
    }
    let table_size: usize = 1usize << accuracy_log;
    proof {
        assert(table_size <= 4096);
        vstd::bits::lemma_usize_shr_is_div(table_size, 1);
        vstd::bits::lemma_usize_shr_is_div(table_size, 3);
    }
    let step = (table_size >> 1) + (table_size >> 3) + 3;
    let step = step % table_size;
    let mut symbol_next: Vec<u16> = vec![0u16; norm.len()];
    let mut table_symbol: Vec<u8> = vec![0u8; table_size];
    proof {
        assert(table_symbol@ =~= Seq::new(pow2(accuracy_log as nat), |i: int| 0u8));
        assert(symbol_next@ =~= Seq::new(norm@.len(), |i: int| 0u16));
    }
    let pos = low_prob_fill_exec(norm, &mut table_symbol, &mut symbol_next, table_size - 1);
    let ok = spread_fill_exec(norm, &mut table_symbol, &mut symbol_next, step, table_size, pos);
    if !ok {
        return Err(ZstdError::FseError("symbols cannot be spread"));
    }
    let table = fill_entries_exec(&table_symbol, &mut symbol_next, accuracy_log, table_size)?;
    Ok(FseDecodeTable { accuracy_log, table })
}


// ---------------------------------------------------------------------------
// Reading a distribution from a header
// ---------------------------------------------------------------------------

/// The `n` bits at position `q` of a forward (least significant first) stream.
pub open spec fn bits_at(data: Seq<u8>, q: nat, n: nat) -> nat {
    bits_below(data, (q + n) as int, n)
}

/// A run of zero counts after a zero count: 2-bit repeat flags, each
/// adding that many zeros, continuing while a flag is 3.  Gives the bit
/// position after the flags and the counts.
pub open spec fn zero_flags(data: Seq<u8>, q: nat, norm: Seq<i16>) -> Result<(nat, Seq<i16>)>
    decreases 8 * data.len() - q,
{
    if q + 2 > 8 * data.len() {
        Err(ZstdError::UnexpectedEof)
    } else {
        let rep = bits_at(data, q, 2);
        let norm1 = norm + Seq::new(rep, |i: int| 0i16);
        if rep != 3 {
            Ok(((q + 2) as nat, norm1))
        } else {
            zero_flags(data, (q + 2) as nat, norm1)
        }
    }
}

/// The threshold and count width once `remaining` probability points are
/// left: halved, one bit narrower each time, while above what is left.
pub open spec fn shrink(remaining: int, threshold: nat, nb: nat) -> (nat, nat)
    decreases threshold,
{
    if remaining < threshold && threshold > 1 {
        shrink(remaining, threshold / 2, (nb - 1) as nat)
    } else {
        (threshold, nb)
    }
}

/// A count's value as the zstd format codes it, with `remaining` points
/// left and threshold `t` (a power of two at most `remaining`): values
/// below `max = 2t - 1 - remaining` take `nb - 1` bits, the others `nb`
/// bits, those read at `t` or more standing for the value less `max`.
/// Gives the value and its width.
pub open spec fn count_value(data: Seq<u8>, q: nat, remaining: int, t: nat, nb: nat) -> (int, nat) {
    let max = 2 * t - 1 - remaining;
    let low = bits_at(data, q, (nb - 1) as nat);
    if low < max {
        (low as int, (nb - 1) as nat)
    } else {
        let v = bits_at(data, q, nb);
        (if v >= t { v - max } else { v as int }, nb)
    }
}

/// The counts of a distribution header from bit position `q` on (the zstd
/// format): `remaining` points are left to share out, `t` is the threshold
/// and `nb` the count width.  Each count is its value less one (-1 a
/// "less than one" count taking one point); a zero count is followed by
/// repeat flags.  The counts must use up the table exactly.  Gives the
/// counts and the bit position after them.
pub open spec fn dist_loop(data: Seq<u8>, q: nat, remaining: int, t: nat, nb: nat, norm: Seq<i16>) -> Result<(Seq<i16>, nat)>
    decreases 8 * data.len() - q,
{
    if remaining <= 1 {
        if remaining == 1 {
            Ok((norm, q))
        } else {
            Err(ZstdError::FseError("distribution overflows the table"))
        }
    } else if nb < 2 || q + nb - 1 > 8 * data.len() {
        Err(ZstdError::UnexpectedEof)
    } else {
        let (value, used) = count_value(data, q, remaining, t, nb);
        if q + used > 8 * data.len() {
            Err(ZstdError::UnexpectedEof)
        } else {
            let count = value - 1;
            let norm1 = norm.push(count as i16);
            let rem1 = remaining - (if count == -1 { 1 } else { count });
            let step: Result<(nat, Seq<i16>)> = if count == 0 {
                zero_flags(data, (q + used) as nat, norm1)
            } else {
                Ok(((q + used) as nat, norm1))
            };
            match step {
                Err(e) => Err(e),
                Ok((q2, norm2)) => {
                    if q2 <= q || q2 > 8 * data.len() {
                        Err(ZstdError::UnexpectedEof)
                    } else {
                        let (t2, nb2) = shrink(rem1, t, nb);
                        dist_loop(data, q2, rem1, t2, nb2, norm2)
                    }
                },
            }
        }
    }
}

/// What [`read_distribution_table`] returns for `data`: the accuracy log
/// from the low 4 bits of the first byte, the counts that follow (starting
/// 4 bits in), and the number of bytes they take.
pub open spec fn spec_read_distribution(data: Seq<u8>) -> Result<(Seq<i16>, u8, nat)> {
    if data.len() == 0 {
        Err(ZstdError::UnexpectedEof)
    } else {
        let log = data[0] % 16 + 5;
        if log > FSE_MAX_TABLELOG {
            Err(ZstdError::FseError("accuracy_log too large in header"))
        } else {
            let ts = pow2(log as nat);
            match dist_loop(data, 4, (ts + 1) as int, ts, (log + 1) as nat, Seq::<i16>::empty()) {
                Err(e) => Err(e),
                Ok((norm, q)) => Ok((norm, log as u8, (q + 7) / 8)),
            }
        }
    }
}

/// Cells counted over a prefix depend on that prefix alone.
proof fn lemma_cumul_prefix(a: Seq<i16>, b: Seq<i16>, k: int)
    requires
        0 <= k <= a.len(),
        k <= b.len(),
        forall|i: int| 0 <= i < k ==> a[i] == b[i],
    ensures
        cumul_cells(a, k) == cumul_cells(b, k),
    decreases k,
{
    if k > 0 {
        lemma_cumul_prefix(a, b, k - 1);
    }
}

/// Zero counts take no cells.
proof fn lemma_cumul_zeros(a: Seq<i16>, k0: int, k: int)
    requires
        0 <= k0 <= k <= a.len(),
        forall|i: int| k0 <= i < k ==> a[i] == 0,
    ensures
        cumul_cells(a, k) == cumul_cells(a, k0),
    decreases k - k0,
{
    if k > k0 {
        lemma_cumul_zeros(a, k0, k - 1);
    }
}

/// Law: after a zero count, 2-bit repeat flags are read one after another
/// until one differs from 3; every flag before the last read is 3, and the
/// zeros added number the sum of the flags read.  Only running out of data
/// is an error.
pub proof fn lemma_zero_flags_run(data: Seq<u8>, q: nat, norm: Seq<i16>)
    ensures
        zero_flags(data, q, norm) matches Ok((q2, n2)) ==> {
            &&& q + 2 <= q2 <= 8 * data.len()
            &&& (q2 - q) % 2 == 0
            &&& forall|j: nat| q + 2 * j + 2 < q2 ==> #[trigger] bits_at(data, q + 2 * j, 2) == 3
            &&& bits_at(data, (q2 - 2) as nat, 2) != 3
            &&& n2 == norm + Seq::new((3 * ((q2 - q) / 2 - 1) + bits_at(data, (q2 - 2) as nat, 2)) as nat, |i: int| 0i16)
        },
        zero_flags(data, q, norm) matches Err(e) ==> e == ZstdError::UnexpectedEof,
    decreases 8 * data.len() - q,
{
    if q + 2 <= 8 * data.len() {
        let rep = bits_at(data, q, 2);
        let norm1 = norm + Seq::new(rep, |i: int| 0i16);
        if rep == 3 {
            lemma_zero_flags_run(data, (q + 2) as nat, norm1);
            if let Ok((q2, n2)) = zero_flags(data, q, norm) {
                assert(zero_flags(data, (q + 2) as nat, norm1) == Ok::<(nat, Seq<i16>), ZstdError>((q2, n2)));
                assert forall|j: nat| q + 2 * j + 2 < q2 implies #[trigger] bits_at(data, q + 2 * j, 2) == 3 by {
                    if j > 0 {
                        let j1 = (j - 1) as nat;
                        assert((q + 2) as nat + 2 * j1 == q + 2 * j);
                        assert(bits_at(data, (q + 2) as nat + 2 * j1, 2) == 3);
                    }
                }
                let k1 = (q2 - (q + 2)) / 2;
                let last = bits_at(data, (q2 - 2) as nat, 2);
                assert((q2 - q) / 2 == k1 + 1);
                assert(n2 == norm1 + Seq::new((3 * (k1 - 1) + last) as nat, |i: int| 0i16));
                assert(norm1 + Seq::new((3 * (k1 - 1) + last) as nat, |i: int| 0i16)
                    =~= norm + Seq::new((3 * k1 + last) as nat, |i: int| 0i16));
            }
        } else {
            assert((q + 2 - q) / 2 == 1);
            assert(norm1 =~= norm + Seq::new((3 * 0 + rep) as nat, |i: int| 0i16));
        }
    }
}

/// Repeat flags only append zero counts, and stay within the data.
proof fn lemma_zero_flags_zeros(data: Seq<u8>, q: nat, norm: Seq<i16>)
    ensures
        zero_flags(data, q, norm) matches Ok((q2, n2)) ==> {
            &&& n2.len() >= norm.len()
            &&& q2 <= 8 * data.len()
            &&& forall|i: int| 0 <= i < norm.len() ==> n2[i] == norm[i]
            &&& forall|i: int| norm.len() <= i < n2.len() ==> n2[i] == 0
        },
    decreases 8 * data.len() - q,
{
    if q + 2 <= 8 * data.len() {
        let rep = bits_at(data, q, 2);
        let norm1 = norm + Seq::new(rep, |i: int| 0i16);
        if rep == 3 {
            lemma_zero_flags_zeros(data, (q + 2) as nat, norm1);
        }
    }
}

/// Shrinking keeps the threshold the power of two below the width, and
/// brings it to at most what is left (or to 1).
proof fn lemma_shrink(remaining: int, t: nat, nb: nat)
    requires
        1 <= nb,
        t == pow2((nb - 1) as nat),
        remaining < 2 * t,
    ensures
        ({
            let (t2, nb2) = shrink(remaining, t, nb);
            &&& 1 <= nb2 <= nb
            &&& t2 == pow2((nb2 - 1) as nat)
            &&& remaining < 2 * t2
            &&& (t2 <= remaining || t2 <= 1)
        }),
    decreases t,
{
    if remaining < t && t > 1 {
        assert(nb >= 2) by {
            if nb < 2 {
                assert(pow2(0) == 1) by { lemma2_to64(); }
            }
        }
        lemma_pow2_unfold((nb - 1) as nat);
        assert(t / 2 == pow2((nb - 2) as nat));
        lemma_shrink(remaining, t / 2, (nb - 1) as nat);
    }
}

/// The counts read from a distribution header are -1 or more and take
/// exactly the points that were left, less one.
proof fn lemma_dist_loop_valid(data: Seq<u8>, q: nat, remaining: int, t: nat, nb: nat, norm: Seq<i16>)
    requires
        1 <= nb <= 13,
        t == pow2((nb - 1) as nat),
        remaining <= 1 || (t <= remaining && remaining < 2 * t),
        q <= 8 * data.len(),
        forall|i: int| 0 <= i < norm.len() ==> norm[i] >= -1,
    ensures
        dist_loop(data, q, remaining, t, nb, norm) matches Ok((n2, q2)) ==> {
            &&& forall|i: int| 0 <= i < n2.len() ==> n2[i] >= -1
            &&& cumul_cells(n2, n2.len() as int) == cumul_cells(norm, norm.len() as int) + remaining - 1
            &&& q2 <= 8 * data.len()
        },
    decreases 8 * data.len() - q,
{
    if remaining > 1 && nb >= 2 && q + nb - 1 <= 8 * data.len() {
        let (value, used) = count_value(data, q, remaining, t, nb);
        if q + used <= 8 * data.len() {
            lemma2_to64();
            lemma_bits_below_bound(data, (q + nb - 1) as int, (nb - 1) as nat);
            lemma_bits_below_bound(data, (q + nb) as int, nb);
            if nb < 13 {
                lemma_pow2_strictly_increases(nb, 13);
            }
            lemma_pow2_unfold((nb - 1) as nat);
            assert(0 <= value < 8192);
            let count = value - 1;
            let norm1 = norm.push(count as i16);
            assert(norm1[norm.len() as int] == count);
            let rem1 = remaining - (if count == -1 { 1 } else { count });
            lemma_cumul_prefix(norm1, norm, norm.len() as int);
            assert(cumul_cells(norm1, norm1.len() as int) == cumul_cells(norm, norm.len() as int) + cells_of(count as i16));
            let step: Result<(nat, Seq<i16>)> = if count == 0 {
                zero_flags(data, (q + used) as nat, norm1)
            } else {
                Ok(((q + used) as nat, norm1))
            };
            if count == 0 {
                lemma_zero_flags_zeros(data, (q + used) as nat, norm1);
            }
            if let Ok((q2, norm2)) = step {
                if q < q2 && q2 <= 8 * data.len() {
                    assert(cumul_cells(norm2, norm2.len() as int) == cumul_cells(norm1, norm1.len() as int)) by {
                        if count == 0 {
                            lemma_cumul_zeros(norm2, norm1.len() as int, norm2.len() as int);
                            lemma_cumul_prefix(norm2, norm1, norm1.len() as int);
                        }
                    }
                    assert forall|i: int| 0 <= i < norm2.len() implies norm2[i] >= -1 by {
                        if i < norm.len() {
                            assert(norm2[i] == norm1[i]);
                        }
                    }
                    lemma_shrink(rem1, t, nb);
                    let (t2, nb2) = shrink(rem1, t, nb);
                    lemma_dist_loop_valid(data, q2, rem1, t2, nb2, norm2);
                }
            }
        }
    }
}

/// Cells counted over a longer prefix are at least those over a shorter
/// one, when no count is below -1.
proof fn lemma_cumul_cells_grows(norm: Seq<i16>, j: int, k: int)
    requires
        0 <= j <= k <= norm.len(),
        forall|i: int| 0 <= i < norm.len() ==> norm[i] >= -1,
    ensures
        cumul_cells(norm, j) <= cumul_cells(norm, k),
    decreases k - j,
{
    if j < k {
        lemma_cumul_cells_grows(norm, j, k - 1);
    }
}

/// Law: counts that a distribution header gives are -1 or more and fill
/// the table of its accuracy log exactly (so that an encode table can be
/// built from them), and the header lies within the data.
pub proof fn lemma_read_distribution_valid(data: Seq<u8>)
    ensures
        spec_read_distribution(data) matches Ok((norm, log, used)) ==> {
            &&& log == data[0] % 16 + 5
            &&& FSE_MIN_TABLELOG <= log <= FSE_MAX_TABLELOG
            &&& used <= data.len()
            &&& forall|i: int| 0 <= i < norm.len() ==> norm[i] >= -1
            &&& cumul_cells(norm, norm.len() as int) == pow2(log as nat)
            &&& valid_distribution(norm, log as nat)
        },
{
    if data.len() > 0 {
        let log = data[0] % 16 + 5;
        if log <= FSE_MAX_TABLELOG {
            let ts = pow2(log as nat);
            lemma2_to64();
            lemma_pow2_strictly_increases(4, log as nat);
            lemma_dist_loop_valid(data, 4, (ts + 1) as int, ts, (log + 1) as nat, Seq::<i16>::empty());
            if let Ok((norm, lg, used)) = spec_read_distribution(data) {
                assert forall|k: int| 0 <= k < norm.len() && norm[k] > 0 implies log2(norm[k] as nat) <= lg by {
                    lemma_cumul_cells_grows(norm, 0, k);
                    lemma_cumul_cells_grows(norm, k + 1, norm.len() as int);
                    let n = norm[k] as nat;
                    assert(n <= pow2(lg as nat));
                    lemma_log2_bounds(n);
                    if log2(n) > lg {
                        lemma_pow2_strictly_increases(lg as nat, log2(n));
                    }
                }
            }
        }
    }
}

fn read_forward_bits(data: &[u8], q: usize, n: u32) -> (v: u64)
    requires
        n <= 64,
        q + n <= 8 * data@.len(),
        data@.len() <= usize::MAX / 16,
    ensures
        v == bits_at(data@, q as nat, n as nat),
{
    let p = q + n as usize;
    let mut v: u64 = 0;
    let mut i: u32 = 0;
    while i < n
        invariant
            i <= n,
            n <= 64,
            p == q + n,
            p <= 8 * data@.len(),
            v == bits_below(data@, p as int, i as nat),
        decreases n - i,
    {
        proof {
            lemma_bits_below_bound(data@, p as int, i as nat);
            if i < 63 {
                lemma_pow2_strictly_increases(i as nat, 63);
            }
            lemma2_to64_rest();
        }
        let b = read_stream_bit(data, p - 1 - i as usize);
        v = 2 * v + if b { 1u64 } else { 0u64 };
        i += 1;
    }
    v
}

fn zero_flags_exec(data: &[u8], q0: usize, norm: &mut Vec<i16>) -> (r: Result<usize>)
    requires
        data@.len() <= usize::MAX / 16,
        q0 <= 8 * data@.len(),
    ensures
        r matches Ok(q) ==> zero_flags(data@, q0 as nat, old(norm)@) == Ok::<(nat, Seq<i16>), ZstdError>((q as nat, final(norm)@))
            && q0 < q <= 8 * data@.len(),
        r matches Err(e) ==> zero_flags(data@, q0 as nat, old(norm)@) == Err::<(nat, Seq<i16>), ZstdError>(e),
{
    let len = data.len();
    let mut q = q0;
    loop
        invariant
            len == data@.len(),
            len <= usize::MAX / 16,
            q0 <= q <= 8 * len,
            zero_flags(data@, q0 as nat, old(norm)@) == zero_flags(data@, q as nat, norm@),
        decreases 8 * len - q,
    {
        if q + 2 > 8 * len {
            return Err(ZstdError::UnexpectedEof);
        }
        let repeat = read_forward_bits(data, q, 2);
        proof {
            lemma_bits_below_bound(data@, (q + 2) as int, 2);
            lemma2_to64();
        }
        let ghost before = norm@;
        let mut z: u64 = 0;
        while z < repeat
            invariant
                z <= repeat,
                repeat < 4,
                norm@ == before + Seq::new(z as nat, |i: int| 0i16),
            decreases repeat - z,
        {
            norm.push(0);
            z += 1;
            proof {
                assert(norm@ =~= before + Seq::new(z as nat, |i: int| 0i16));
            }
        }
        q = q + 2;
        if repeat != 3 {
            return Ok(q);
        }
    }
}

/// The value and width of the count at bit `q`: [`count_value`].
fn read_count(data: &[u8], q: usize, remaining: i32, threshold: i32, nb: u32) -> (r: Option<(i32, u32)>)
    requires
        data@.len() <= usize::MAX / 16,
        2 <= nb <= 13,
        threshold <= 4096,
        threshold == pow2((nb - 1) as nat),
        threshold <= remaining < 2 * threshold,
        q + nb - 1 <= 8 * data@.len(),
    ensures
        r matches Some((v, u)) ==> (v as int, u as nat) == count_value(data@, q as nat, remaining as int, threshold as nat, nb as nat)
            && q + u <= 8 * data@.len() && (u == nb || u == nb - 1) && 0 <= v < 2 * threshold,
        r is None ==> q + count_value(data@, q as nat, remaining as int, threshold as nat, nb as nat).1 > 8 * data@.len(),
{
    let max: i32 = 2 * threshold - 1 - remaining;
    let low = read_forward_bits(data, q, nb - 1);
    proof {
        lemma_bits_below_bound(data@, (q + nb - 1) as int, (nb - 1) as nat);
        lemma_bits_below_bound(data@, (q + nb) as int, nb as nat);
        lemma_pow2_unfold(nb as nat);
        lemma2_to64();
    }
    if (low as i32) < max {
        Some((low as i32, nb - 1))
    } else {
        if q + nb as usize > 8 * data.len() {
            return None;
        }
        let v = read_forward_bits(data, q, nb) as i32;
        Some((if v >= threshold { v - max } else { v }, nb))
    }
}

/// [`shrink`]: halve the threshold while it is above what is left.
fn shrink_exec(remaining: i32, threshold: i32, nb: u32) -> (r: (i32, u32))
    requires
        1 <= threshold <= 4096,
        1 <= nb <= 13,
        threshold == pow2((nb - 1) as nat),
        remaining > 1 ==> remaining < 2 * threshold,
    ensures
        (r.0 as nat, r.1 as nat) == shrink(remaining as int, threshold as nat, nb as nat),
        1 <= r.0 <= 4096,
        1 <= r.1 <= 13,
        r.0 == pow2((r.1 - 1) as nat),
        remaining > 1 ==> r.0 <= remaining < 2 * r.0,
{
    proof {
        lemma2_to64();
    }
    let mut t = threshold;
    let mut n = nb;
    while remaining < t && t > 1
        invariant
            1 <= t <= 4096,
            1 <= n <= 13,
            t == pow2((n - 1) as nat),
            shrink(remaining as int, t as nat, n as nat) == shrink(remaining as int, threshold as nat, nb as nat),
            remaining > 1 ==> remaining < 2 * t,
        decreases t,
    {
        proof {
            lemma2_to64();
            lemma_pow2_unfold((n - 1) as nat);
        }
        t = t / 2;
        n = n - 1;
    }
    (t, n)
}

/// Read an FSE distribution table from the start of `data` (zstd format).
///
/// Returns `(norm_counts, accuracy_log, bytes_consumed)`.
pub fn read_distribution_table(data: &[u8]) -> (r: Result<(Vec<i16>, u8, usize)>)
    requires
        data@.len() <= usize::MAX / 16,
    ensures
        r matches Ok((norm, log, used)) ==> spec_read_distribution(data@) == Ok::<(Seq<i16>, u8, nat), ZstdError>((norm@, log, used as nat)),
        r matches Err(e) ==> spec_read_distribution(data@) == Err::<(Seq<i16>, u8, nat), ZstdError>(e),
        r matches Ok((norm, log, used)) ==> used <= data@.len() && FSE_MIN_TABLELOG <= log <= FSE_MAX_TABLELOG,
{
    if data.len() == 0 {
        return Err(ZstdError::UnexpectedEof);
    }
    let accuracy_log = data[0] % 16 + 5;
    if accuracy_log > FSE_MAX_TABLELOG {
        return Err(ZstdError::FseError("accuracy_log too large in header"));
    }
    proof {
        lemma2_to64();
        if accuracy_log < 12 {
            lemma_pow2_strictly_increases(accuracy_log as nat, 12);
        }
        vstd::bits::lemma_u32_shl_is_mul(1, accuracy_log as u32);
    }
    let table_size: i32 = (1u32 << accuracy_log) as i32;
    let len = data.len();
    let mut remaining: i32 = table_size + 1;
    let mut threshold: i32 = table_size;
    let mut nb: u32 = accuracy_log as u32 + 1;
    let mut norm: Vec<i16> = Vec::new();
    let mut q: usize = 4;
    proof {
        lemma_pow2_unfold(nb as nat);
    }
    while remaining > 1
        invariant
            len == data@.len(),
            len <= usize::MAX / 16,
            q <= 8 * len,
            -9000 <= remaining <= 4097,
            1 <= threshold <= 4096,
            threshold == pow2((nb - 1) as nat),
            1 <= nb <= 13,
            remaining > 1 ==> threshold <= remaining < 2 * threshold,
            FSE_MIN_TABLELOG <= accuracy_log <= FSE_MAX_TABLELOG,
            spec_read_distribution(data@) == (match dist_loop(data@, q as nat, remaining as int, threshold as nat, nb as nat, norm@) {
                Err(e) => Err(e),
                Ok((nm, b)) => Ok::<(Seq<i16>, u8, nat), ZstdError>((nm, accuracy_log, (b + 7) / 8)),
            }),
        decreases 8 * len - q,
    {
        proof {
            lemma2_to64();
            if nb < 2 {
                assert(threshold == 1);
            }
        }
        let ghost q0 = q as nat;
        let ghost rem0 = remaining as int;
        let ghost norm0 = norm@;
        let ghost t0 = threshold as nat;
        let ghost nb0 = nb as nat;
        if q + (nb - 1) as usize > 8 * len {
            return Err(ZstdError::UnexpectedEof);
        }
        let (value, used) = match read_count(data, q, remaining, threshold, nb) {
            Some(p) => p,
            None => {
                return Err(ZstdError::UnexpectedEof);
            },
        };
        let count: i32 = value - 1;
        norm.push(count as i16);
        remaining = remaining - if count == -1 { 1 } else { count };
        q = q + used as usize;
        if count == 0 {
            match zero_flags_exec(data, q, &mut norm) {
                Ok(q2) => {
                    q = q2;
                },
                Err(e) => {
                    proof {
                        assert(dist_loop(data@, q0, rem0, t0, nb0, norm0) == Err::<(Seq<i16>, nat), ZstdError>(e));
                    }
                    return Err(e);
                },
            }
        }
        let (t2, nb2) = shrink_exec(remaining, threshold, nb);
        threshold = t2;
        nb = nb2;
    }
    if remaining != 1 {
        return Err(ZstdError::FseError("distribution overflows the table"));
    }
    Ok((norm, accuracy_log, (q + 7) / 8))
}


// ---------------------------------------------------------------------------
// Normalizing counts and encode tables
// ---------------------------------------------------------------------------

/// The normalization loop from symbol `i` on: `norm` so far, the sum of the
/// normalized counts, and the index and count of the most frequent symbol.
pub open spec fn normalize_loop(counts: Seq<u32>, total: u32, ts: nat, i: nat, norm: Seq<i16>, sum: int, li: nat, lc: u32) -> Seq<i16>
    decreases counts.len() - i,
{
    if i >= counts.len() {
        norm.update(li as int, (norm[li as int] + (ts - sum)) as i16)
    } else {
        let c = counts[i as int];
        if c == 0 {
            normalize_loop(counts, total, ts, i + 1, norm.update(i as int, 0), sum, li, lc)
        } else if c == total {
            norm.update(i as int, ts as i16)
        } else {
            let scaled = ((c as nat * ts) / (total as nat)) as i16;
            let v: i16 = if scaled < 1 { 1 } else { scaled };
            let (li2, lc2) = if c > lc { (i, c) } else { (li, lc) };
            normalize_loop(counts, total, ts, i + 1, norm.update(i as int, v), sum + v, li2, lc2)
        }
    }
}

/// What [`normalize_counts`] returns.
pub open spec fn spec_normalize_counts(counts: Seq<u32>, total: u32, log: u8) -> Result<Seq<i16>> {
    if log < FSE_MIN_TABLELOG || log > FSE_MAX_TABLELOG {
        Err(ZstdError::FseError("accuracy_log out of range"))
    } else {
        Ok(normalize_loop(counts, total, pow2(log as nat), 0, Seq::new(counts.len(), |i: int| 0i16), 0, 0, 0))
    }
}

/// Sum of the first `k` values.
pub open spec fn sum_i16(s: Seq<i16>, k: int) -> int
    decreases k,
{
    if k <= 0 {
        0
    } else {
        sum_i16(s, k - 1) + s[k - 1]
    }
}

/// Sum of the first `k` counts.
pub open spec fn sum_counts(s: Seq<u32>, k: int) -> nat
    decreases k,
{
    if k <= 0 {
        0
    } else {
        sum_counts(s, k - 1) + s[k - 1] as nat
    }
}

/// Number of nonzero counts among the first `k`.
pub open spec fn nonzero_counts(s: Seq<u32>, k: int) -> nat
    decreases k,
{
    if k <= 0 {
        0
    } else {
        nonzero_counts(s, k - 1) + if s[k - 1] != 0 { 1nat } else { 0nat }
    }
}

proof fn lemma_sum_i16_update(s: Seq<i16>, k: int, j: int, v: i16)
    requires
        0 <= j < s.len(),
        0 <= k <= s.len(),
    ensures
        sum_i16(s.update(j, v), k) == sum_i16(s, k) + if j < k { v - s[j] } else { 0 },
    decreases k,
{
    if k > 0 {
        lemma_sum_i16_update(s, k - 1, j, v);
    }
}

proof fn lemma_sum_i16_zeros(s: Seq<i16>, k: int, m: int)
    requires
        0 <= k <= m <= s.len(),
        forall|j: int| k <= j < s.len() ==> s[j] == 0,
    ensures
        sum_i16(s, m) == sum_i16(s, k),
    decreases m - k,
{
    if m > k {
        lemma_sum_i16_zeros(s, k, m - 1);
    }
}

proof fn lemma_sum_counts_le(s: Seq<u32>, k: int, m: int)
    requires
        0 <= k <= m <= s.len(),
    ensures
        sum_counts(s, k) + s[k] <= sum_counts(s, m) || k == m,
        sum_counts(s, k) <= sum_counts(s, m),
    decreases m - k,
{
    if m > k {
        lemma_sum_counts_le(s, k, m - 1);
    }
}

/// The normalization loop keeps the sum of the values so far, and that sum,
/// less one for each nonzero count, within the table's share of the counts
/// so far; then its last adjustment makes the values sum to the table size.
proof fn lemma_normalize_loop_sum(counts: Seq<u32>, total: u32, ts: nat, i: nat, norm: Seq<i16>, sum: int, li: nat, lc: u32)
    requires
        1 <= ts <= 4096,
        i <= counts.len(),
        norm.len() == counts.len(),
        total == sum_counts(counts, counts.len() as int),
        nonzero_counts(counts, counts.len() as int) <= 32768,
        forall|j: int| i <= j < norm.len() ==> norm[j] == 0,
        sum == sum_i16(norm, i as int),
        li < counts.len(),
        lc == 0 ==> norm[li as int] == 0 && sum == 0,
        lc > 0 ==> 1 <= norm[li as int] <= ts,
        forall|j: int| 0 <= j < i ==> 0 <= #[trigger] norm[j] <= ts,
        (sum - nonzero_counts(counts, i as int)) * total <= ts * sum_counts(counts, i as int),
        sum_counts(counts, i as int) == 0 ==> sum == 0,
    ensures
        sum_i16(normalize_loop(counts, total, ts, i, norm, sum, li, lc), counts.len() as int) == ts,
    decreases counts.len() - i,
{
    let n = counts.len() as int;
    if i >= n {
        let nz = nonzero_counts(counts, n);
        lemma_sum_i16_zeros(norm, i as int, n);
        if total > 0 {
            assert(sum - nz <= ts) by (nonlinear_arith)
                requires
                    (sum - nz) * total <= ts * total,
                    total > 0,
            ;
        } else {
            assert(sum - nz <= ts) by (nonlinear_arith)
                requires
                    sum - nz <= 0 || (sum - nz) * total <= ts * total,
                    total == 0,
                    sum == 0,
            ;
        }
        assert(sum >= 0) by {
            lemma_sum_i16_nonneg(norm, i as int, ts);
        }
        lemma_sum_i16_update(norm, n, li as int, (norm[li as int] + (ts - sum)) as i16);
    } else {
        let c = counts[i as int];
        lemma_sum_counts_le(counts, i as int, n);
        lemma_sum_counts_le(counts, i as int + 1, n);
        if c == 0 {
            lemma_sum_i16_update(norm, i as int + 1, i as int, 0);
            lemma_normalize_loop_sum(counts, total, ts, i + 1, norm.update(i as int, 0), sum, li, lc);
        } else if c == total {
            let out = norm.update(i as int, ts as i16);
            lemma_sum_i16_update(norm, n, i as int, ts as i16);
            lemma_sum_i16_zeros(norm, i as int, n);
            assert(sum_counts(counts, i as int) + c <= total);
            assert(sum == 0);
        } else {
            let scaled = ((c as nat * ts) / (total as nat)) as i16;
            let v: i16 = if scaled < 1 { 1 } else { scaled };
            assert(c <= total);
            assert((c as nat * ts) / (total as nat) <= ts) by (nonlinear_arith)
                requires
                    c <= total,
                    total > 0,
            ;
            assert(((c as nat * ts) / (total as nat)) * total <= c * ts) by (nonlinear_arith)
                requires
                    total > 0,
            ;
            let (li2, lc2) = if c > lc { (i, c) } else { (li, lc) };
            lemma_sum_i16_update(norm, i as int + 1, i as int, v);
            assert((sum + v - nonzero_counts(counts, i as int + 1)) * total <= ts * sum_counts(counts, i as int + 1)) by (nonlinear_arith)
                requires
                    (sum - nonzero_counts(counts, i as int)) * total <= ts * sum_counts(counts, i as int),
                    nonzero_counts(counts, i as int + 1) == nonzero_counts(counts, i as int) + 1,
                    sum_counts(counts, i as int + 1) == sum_counts(counts, i as int) + c,
                    v <= (c as nat * ts) / (total as nat) + 1,
                    ((c as nat * ts) / (total as nat)) * total <= c * ts,
                    total > 0,
            ;
            lemma_normalize_loop_sum(counts, total, ts, i + 1, norm.update(i as int, v), sum + v, li2, lc2);
        }
    }
}

proof fn lemma_sum_i16_nonneg(s: Seq<i16>, k: int, ts: nat)
    requires
        0 <= k <= s.len(),
        forall|j: int| 0 <= j < k ==> 0 <= #[trigger] s[j] <= ts,
    ensures
        sum_i16(s, k) >= 0,
    decreases k,
{
    if k > 0 {
        lemma_sum_i16_nonneg(s, k - 1, ts);
    }
}

/// Law: when `total` is the sum of the counts and at most 32768 of them are
/// nonzero, the normalized counts sum to `2^accuracy_log`.
pub proof fn lemma_normalize_counts_sum(counts: Seq<u32>, total: u32, accuracy_log: u8)
    requires
        FSE_MIN_TABLELOG <= accuracy_log <= FSE_MAX_TABLELOG,
        counts.len() > 0,
        total == sum_counts(counts, counts.len() as int),
        nonzero_counts(counts, counts.len() as int) <= 32768,
    ensures
        spec_normalize_counts(counts, total, accuracy_log) is Ok,
        sum_i16(spec_normalize_counts(counts, total, accuracy_log)->Ok_0, counts.len() as int) == pow2(accuracy_log as nat),
{
    lemma2_to64();
    if accuracy_log < 12 {
        lemma_pow2_strictly_increases(accuracy_log as nat, 12);
    }
    let ts = pow2(accuracy_log as nat);
    let norm = Seq::new(counts.len(), |i: int| 0i16);
    assert(nonzero_counts(counts, 0) == 0 && sum_counts(counts, 0) == 0);
    assert((0 - 0int) * total <= ts * 0) by (nonlinear_arith);
    lemma_normalize_loop_sum(counts, total, ts, 0, norm, 0, 0, 0);
}

/// Normalize symbol frequencies into FSE probabilities summing to `1 << accuracy_log`.
///
/// Returns a vector of normalized counts indexed by symbol value.
pub fn normalize_counts(counts: &[u32], total: u32, accuracy_log: u8) -> (r: Result<Vec<i16>>)
    requires
        counts@.len() > 0,
        counts@.len() <= 65536,
        total > 0 || (forall|i: int| 0 <= i < counts@.len() ==> counts@[i] == 0),
    ensures
        r matches Ok(v) ==> spec_normalize_counts(counts@, total, accuracy_log) == Ok::<Seq<i16>, ZstdError>(v@),
        r matches Err(e) ==> spec_normalize_counts(counts@, total, accuracy_log) == Err::<Seq<i16>, ZstdError>(e),
{
    if accuracy_log < FSE_MIN_TABLELOG || accuracy_log > FSE_MAX_TABLELOG {
        return Err(ZstdError::FseError("accuracy_log out of range"));
    }
    proof {
        lemma2_to64();
        if accuracy_log < 12 {
            lemma_pow2_strictly_increases(accuracy_log as nat, 12);
        }
        vstd::bits::lemma_u32_shl_is_mul(1, accuracy_log as u32);
    }
    let table_size: u32 = 1u32 << accuracy_log;
    let mut norm: Vec<i16> = vec![0i16; counts.len()];
    proof {
        assert(norm@ =~= Seq::new(counts@.len(), |i: int| 0i16));
    }
    let mut sum: i32 = 0;
    let mut largest_idx: usize = 0;
    let mut largest_count: u32 = 0;
    let mut i: usize = 0;
    while i < counts.len()
        invariant
            i <= counts@.len(),
            counts@.len() <= 65536,
            norm@.len() == counts@.len(),
            largest_idx < counts@.len(),
            table_size == pow2(accuracy_log as nat),
            table_size <= 4096,
            0 <= sum <= 32767 * i,
            total > 0 || (forall|j: int| 0 <= j < counts@.len() ==> counts@[j] == 0),
            spec_normalize_counts(counts@, total, accuracy_log) == Ok::<Seq<i16>, ZstdError>(
                normalize_loop(counts@, total, table_size as nat, i as nat, norm@, sum as int, largest_idx as nat, largest_count)),
        decreases counts@.len() - i,
    {
        let c = counts[i];
        if c == 0 {
            norm.set(i, 0);
        } else if c == total {
            norm.set(i, table_size as i16);
            return Ok(norm);
        } else {
            proof {
                assert(c as u64 * table_size as u64 <= 4096 * 0xFFFF_FFFF) by (nonlinear_arith)
                    requires c <= 0xFFFF_FFFFu32, table_size <= 4096;
            }
            let scaled = ((c as u64 * table_size as u64) / total as u64) as i16;
            let v: i16 = if scaled < 1 { 1 } else { scaled };
            norm.set(i, v);
            sum = sum + v as i32;
            if c > largest_count {
                largest_count = c;
                largest_idx = i;
            }
        }
        i += 1;
    }
    let adjusted = (norm[largest_idx] as i32 + (table_size as i32 - sum)) as i16;
    norm.set(largest_idx, adjusted);
    Ok(norm)
}

/// One entry of an FSE encode table.
#[derive(Debug, Clone, Copy, PartialEq, Eq, Structural)]
pub struct FseEncodeEntry {
    /// Delta to apply to the state.
    pub delta_find_state: i32,
    /// Number of bits to output.
    pub num_bits: u8,
    /// Minimum state value requiring this many bits.
    pub find_state_min: u16,
}

/// An FSE encode table.
#[derive(Debug, Clone)]
pub struct FseEncodeTable {
    pub accuracy_log: u8,
    pub table: Vec<FseEncodeEntry>,
}

/// Number of table cells a normalized count takes (-1 takes one).
pub open spec fn cells_of(n: i16) -> int {
    if n == -1 { 1 } else { n as int }
}

/// Cells taken by the symbols before `k`.
pub open spec fn cumul_cells(norm: Seq<i16>, k: int) -> int
    decreases k,
{
    if k <= 0 { 0 } else { cumul_cells(norm, k - 1) + cells_of(norm[k - 1]) }
}

/// The encode entry of symbol `k`.
pub open spec fn encode_entry(norm: Seq<i16>, k: int, log: nat) -> FseEncodeEntry {
    let n = norm[k];
    if n == 0 {
        FseEncodeEntry { delta_find_state: 0, num_bits: 0, find_state_min: 0 }
    } else if n == -1 {
        FseEncodeEntry { delta_find_state: (cumul_cells(norm, k) - 1) as i32, num_bits: log as u8, find_state_min: 0 }
    } else {
        let nb = (log - log2(n as nat)) as nat;
        FseEncodeEntry { delta_find_state: (cumul_cells(norm, k) - n) as i32, num_bits: nb as u8, find_state_min: (n * pow2(nb) - pow2(log)) as u16 }
    }
}

/// A distribution an encode table can be built from: counts of -1 or
/// more, positive counts no larger than the table, and `2^log` cells in all.
pub open spec fn valid_distribution(norm: Seq<i16>, log: nat) -> bool {
    &&& forall|k: int| 0 <= k < norm.len() ==> norm[k] >= -1 && (norm[k] > 0 ==> log2(norm[k] as nat) <= log)
    &&& cumul_cells(norm, norm.len() as int) == pow2(log)
}

proof fn lemma_cumul_cells_bounds(norm: Seq<i16>, k: int, log: nat)
    requires
        valid_distribution(norm, log),
        0 <= k <= norm.len(),
    ensures
        0 <= cumul_cells(norm, k) <= pow2(log),
    decreases norm.len() - k,
{
    lemma_cumul_cells_nonneg(norm, k, log);
    if k < norm.len() {
        lemma_cumul_cells_bounds(norm, k + 1, log);
    }
}

proof fn lemma_cumul_cells_nonneg(norm: Seq<i16>, k: int, log: nat)
    requires
        valid_distribution(norm, log),
        0 <= k <= norm.len(),
    ensures
        0 <= cumul_cells(norm, k),
    decreases k,
{
    if k > 0 {
        lemma_cumul_cells_nonneg(norm, k - 1, log);
    }
}

/// Build an FSE encode table from normalized counts.
pub fn build_encode_table(norm: &[i16], accuracy_log: u8) -> (r: Result<FseEncodeTable>)
    requires
        accuracy_log <= FSE_MAX_TABLELOG,
        valid_distribution(norm@, accuracy_log as nat),
    ensures
        r matches Ok(t) ==> t.accuracy_log == accuracy_log && t.table@ == Seq::new(norm@.len(), |k: int| encode_entry(norm@, k, accuracy_log as nat)),
        r is Ok,
{
    proof {
        lemma2_to64();
        if accuracy_log < 12 {
            lemma_pow2_strictly_increases(accuracy_log as nat, 12);
        }
        vstd::bits::lemma_u32_shl_is_mul(1, accuracy_log as u32);
    }
    let table_size: u32 = 1u32 << accuracy_log;
    let mut entries: Vec<FseEncodeEntry> = Vec::with_capacity(norm.len());
    let mut cumul: i32 = 0;
    let mut k: usize = 0;
    while k < norm.len()
        invariant
            k <= norm@.len(),
            table_size == pow2(accuracy_log as nat),
            table_size <= 4096,
            accuracy_log <= FSE_MAX_TABLELOG,
            valid_distribution(norm@, accuracy_log as nat),
            cumul == cumul_cells(norm@, k as int),
            entries@ == Seq::new(k as nat, |j: int| encode_entry(norm@, j, accuracy_log as nat)),
        decreases norm@.len() - k,
    {
        proof {
            lemma_cumul_cells_bounds(norm@, k as int, accuracy_log as nat);
            lemma_cumul_cells_bounds(norm@, k + 1, accuracy_log as nat);
        }
        let n = norm[k];
        let entry = if n == 0 {
            FseEncodeEntry { delta_find_state: 0, num_bits: 0, find_state_min: 0 }
        } else if n == -1 {
            FseEncodeEntry { delta_find_state: cumul - 1, num_bits: accuracy_log, find_state_min: 0 }
        } else {
            let ln = log2_u16(n as u16);
            let nb = accuracy_log as u32 - ln;
            proof {
                lemma_log2_bounds(n as nat);
                lemma_pow2_adds(ln as nat, nb as nat);
                lemma_pow2_unfold((ln + 1) as nat);
                lemma_pow2_pos(nb as nat);
                assert(n * pow2(nb as nat) >= pow2(ln as nat) * pow2(nb as nat)) by (nonlinear_arith)
                    requires n >= pow2(ln as nat);
                assert(n * pow2(nb as nat) < 2 * pow2(ln as nat) * pow2(nb as nat)) by (nonlinear_arith)
                    requires n < 2 * pow2(ln as nat), pow2(nb as nat) > 0;
                assert(2 * pow2(ln as nat) * pow2(nb as nat) == 2 * (pow2(ln as nat) * pow2(nb as nat))) by (nonlinear_arith);
                vstd::bits::lemma_u32_shl_is_mul(n as u32, nb);
            }
            let shifted: u32 = (n as u32) << nb;
            FseEncodeEntry { delta_find_state: cumul - n as i32, num_bits: nb as u8, find_state_min: (shifted - table_size) as u16 }
        };
        entries.push(entry);
        cumul = cumul + if n == -1 { 1i32 } else { n as i32 };
        k += 1;
        proof {
            assert(entries@ =~= Seq::new(k as nat, |j: int| encode_entry(norm@, j, accuracy_log as nat)));
        }
    }
    Ok(FseEncodeTable { accuracy_log, table: entries })
}

} // verus!
