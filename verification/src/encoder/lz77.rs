//! LZ77 match finding.
//!
//! A hash table maps 4-byte fingerprints to the most recent position where
//! the fingerprint was seen; a secondary table holds hash chains, a long
//! (8-byte) hash table, or binary-tree nodes, depending on the strategy.
//! Whatever the tables hold, a candidate is only reported after its bytes
//! have been compared with the bytes at the current position.
use vstd::prelude::*;
use vstd::arithmetic::power2::*;
use crate::decoder::sequences::copy_match;

verus! {

/// A parsed LZ77 match.
#[derive(Debug, Clone, Copy)]
pub struct Match {
    /// Distance from the current position to the start of the match.
    pub offset: usize,
    /// Number of bytes matched.
    pub length: usize,
}

/// The compression algorithm family.
#[derive(Debug, Clone, Copy, PartialEq, Eq, Structural)]
pub enum Strategy {
    Fast,
    DFast,
    Greedy,
    Lazy,
    Lazy2,
    BtLazy2,
    BtOpt,
    BtUltra,
    BtUltra2,
}

/// Configuration for the LZ77 matcher, one set of parameters per level.
#[derive(Debug, Clone, Copy)]
pub struct MatchConfig {
    /// Log2 of the history window size (how far back matches can reach).
    pub window_log: usize,
    /// Log2 of the hash-chain / binary-tree table size.
    pub chain_log: usize,
    /// Log2 of the hash table size.
    pub hash_log: usize,
    /// Log2 of the maximum search attempts per position.
    pub search_log: usize,
    /// Minimum match length to emit.
    pub min_match: usize,
    /// Early-accept threshold: longer matches skip lazy evaluation (0 = disabled).
    pub target_length: usize,
    /// Algorithm family.
    pub strategy: Strategy,
    /// Maximum match length.
    pub max_match: usize,
}

/// Whether a strategy keeps binary-tree nodes in its secondary table.
pub open spec fn is_bt(s: Strategy) -> bool {
    s == Strategy::BtLazy2 || s == Strategy::BtOpt || s == Strategy::BtUltra || s == Strategy::BtUltra2
}

impl MatchConfig {
    /// Parameters a match finder can be built from: matches at least one
    /// byte long, and sizes that hold on a 32-bit target as on a 64-bit
    /// one: `1 << log` for each table and the window, and twice the chain
    /// table for the binary-tree strategies, fit a 32-bit `usize` for logs
    /// up to 30; the finder's entries are `u32` positions; and match
    /// lengths up to `2^28` keep the length and price sums of the parsers
    /// within their integer types.  Every level's parameters meet them.
    pub open spec fn wf(&self) -> bool {
        &&& 1 <= self.hash_log <= 30
        &&& 1 <= self.chain_log <= 30
        &&& self.window_log <= 30
        &&& self.search_log <= 30
        &&& self.min_match >= 1
        &&& self.max_match <= 0x1000_0000
    }

    /// Derived: the number of search attempts, `1 << search_log`.
    pub fn search_depth(&self) -> (r: usize)
        requires
            self.search_log < usize::BITS,
        ensures
            r == pow2(self.search_log as nat),
    {
        proof {
            lemma2_to64();
            if usize::BITS == 32 {
                lemma_pow2_strictly_increases(self.search_log as nat, 32);
            } else {
                lemma_pow2_strictly_increases(self.search_log as nat, 64);
            }
            vstd::bits::lemma_usize_shl_is_mul(1, self.search_log);
        }
        1usize << self.search_log
    }
}

/// The level a requested level is clamped to.
pub open spec fn clamp_level(level: i32) -> int {
    if level < 1 {
        1
    } else if level > 22 {
        22
    } else {
        level as int
    }
}

/// The parameters of a level in 1..=22, as (window_log, chain_log,
/// hash_log, search_log, min_match, target_length, strategy); levels 19 to
/// 22 share one set.
pub open spec fn level_params(level: int) -> (usize, usize, usize, usize, usize, usize, Strategy) {
    if level == 1 {
        (19, 13, 14, 1, 7, 0, Strategy::Fast)
    } else if level == 2 {
        (20, 15, 16, 1, 6, 0, Strategy::Fast)
    } else if level == 3 {
        (21, 16, 17, 1, 5, 0, Strategy::DFast)
    } else if level == 4 {
        (21, 18, 18, 1, 5, 0, Strategy::DFast)
    } else if level == 5 {
        (21, 18, 19, 3, 5, 2, Strategy::Greedy)
    } else if level == 6 {
        (21, 18, 19, 3, 5, 4, Strategy::Lazy)
    } else if level == 7 {
        (21, 19, 20, 4, 5, 8, Strategy::Lazy)
    } else if level == 8 {
        (21, 19, 20, 4, 5, 16, Strategy::Lazy2)
    } else if level == 9 {
        (22, 20, 21, 4, 5, 16, Strategy::Lazy2)
    } else if level == 10 {
        (22, 21, 22, 5, 5, 16, Strategy::Lazy2)
    } else if level == 11 {
        (22, 21, 22, 6, 5, 16, Strategy::Lazy2)
    } else if level == 12 {
        (22, 22, 23, 6, 5, 32, Strategy::Lazy2)
    } else if level == 13 {
        (22, 22, 22, 4, 5, 32, Strategy::BtLazy2)
    } else if level == 14 {
        (22, 22, 23, 5, 5, 32, Strategy::BtLazy2)
    } else if level == 15 {
        (22, 23, 23, 6, 5, 32, Strategy::BtLazy2)
    } else if level == 16 {
        (22, 22, 22, 5, 5, 48, Strategy::BtOpt)
    } else if level == 17 {
        (23, 23, 22, 5, 4, 64, Strategy::BtOpt)
    } else if level == 18 {
        (23, 23, 22, 6, 3, 64, Strategy::BtUltra)
    } else {
        (23, 24, 22, 7, 3, 256, Strategy::BtUltra2)
    }
}

/// The configuration of a level (clamped to 1..=22), with the maximum
/// match length 131 074.
pub open spec fn spec_for_level(level: i32) -> MatchConfig {
    let p = level_params(clamp_level(level));
    MatchConfig {
        window_log: p.0,
        chain_log: p.1,
        hash_log: p.2,
        search_log: p.3,
        min_match: p.4,
        target_length: p.5,
        strategy: p.6,
        max_match: 131_074,
    }
}

impl MatchConfig {
    /// The configuration tuned for a compression level (clamped to 1..=22).
    pub fn for_level(level: i32) -> (r: Self)
        ensures
            r == spec_for_level(level),
            r.wf(),
    {
        let level = if level < 1 {
            1
        } else if level > 22 {
            22
        } else {
            level
        };
        let (window_log, chain_log, hash_log, search_log, min_match, target_length, strategy) = if level == 1 {
            (19, 13, 14, 1, 7, 0, Strategy::Fast)
        } else if level == 2 {
            (20, 15, 16, 1, 6, 0, Strategy::Fast)
        } else if level == 3 {
            (21, 16, 17, 1, 5, 0, Strategy::DFast)
        } else if level == 4 {
            (21, 18, 18, 1, 5, 0, Strategy::DFast)
        } else if level == 5 {
            (21, 18, 19, 3, 5, 2, Strategy::Greedy)
        } else if level == 6 {
            (21, 18, 19, 3, 5, 4, Strategy::Lazy)
        } else if level == 7 {
            (21, 19, 20, 4, 5, 8, Strategy::Lazy)
        } else if level == 8 {
            (21, 19, 20, 4, 5, 16, Strategy::Lazy2)
        } else if level == 9 {
            (22, 20, 21, 4, 5, 16, Strategy::Lazy2)
        } else if level == 10 {
            (22, 21, 22, 5, 5, 16, Strategy::Lazy2)
        } else if level == 11 {
            (22, 21, 22, 6, 5, 16, Strategy::Lazy2)
        } else if level == 12 {
            (22, 22, 23, 6, 5, 32, Strategy::Lazy2)
        } else if level == 13 {
            (22, 22, 22, 4, 5, 32, Strategy::BtLazy2)
        } else if level == 14 {
            (22, 22, 23, 5, 5, 32, Strategy::BtLazy2)
        } else if level == 15 {
            (22, 23, 23, 6, 5, 32, Strategy::BtLazy2)
        } else if level == 16 {
            (22, 22, 22, 5, 5, 48, Strategy::BtOpt)
        } else if level == 17 {
            (23, 23, 22, 5, 4, 64, Strategy::BtOpt)
        } else if level == 18 {
            (23, 23, 22, 6, 3, 64, Strategy::BtUltra)
        } else {
            (23, 24, 22, 7, 3, 256, Strategy::BtUltra2)
        };
        MatchConfig { window_log, chain_log, hash_log, search_log, min_match, target_length, strategy, max_match: 131_074 }
    }
}

impl Default for MatchConfig {
    /// The level-5 (greedy) parameters.
    fn default() -> (r: Self)
        ensures
            r == spec_for_level(5),
    {
        Self::for_level(5)
    }
}

// ---------------------------------------------------------------------------
// Byte comparisons and fingerprints
// ---------------------------------------------------------------------------

/// Whether `length` bytes at `pos` repeat the bytes `offset` earlier: the
/// match a decoder replays by copying byte after byte.
pub open spec fn valid_match(data: Seq<u8>, pos: nat, offset: nat, length: nat) -> bool {
    &&& 1 <= offset <= pos
    &&& pos + length <= data.len()
    &&& forall|i: int| 0 <= i < length ==> #[trigger] data[pos - offset + i] == data[pos + i]
}

/// The little-endian 32-bit word at `i`.
pub open spec fn word4(d: Seq<u8>, i: int) -> u32 {
    (d[i] as u32) | ((d[i + 1] as u32) << 8u32) | ((d[i + 2] as u32) << 16u32) | ((d[i + 3] as u32) << 24u32)
}

/// The little-endian 64-bit word at `i`.
pub open spec fn word8(d: Seq<u8>, i: int) -> u64 {
    (d[i] as u64) | ((d[i + 1] as u64) << 8u64) | ((d[i + 2] as u64) << 16u64) | ((d[i + 3] as u64) << 24u64)
        | ((d[i + 4] as u64) << 32u64) | ((d[i + 5] as u64) << 40u64) | ((d[i + 6] as u64) << 48u64) | ((d[i + 7] as u64) << 56u64)
}

pub(crate) fn load_u32(data: &[u8], pos: usize) -> (r: u32)
    requires
        pos + 4 <= data@.len(),
    ensures
        r == word4(data@, pos as int),
{
    (data[pos] as u32) | ((data[pos + 1] as u32) << 8u32) | ((data[pos + 2] as u32) << 16u32) | ((data[pos + 3] as u32) << 24u32)
}

fn load_u64(data: &[u8], pos: usize) -> (r: u64)
    requires
        pos + 8 <= data@.len(),
    ensures
        r == word8(data@, pos as int),
{
    (data[pos] as u64) | ((data[pos + 1] as u64) << 8u64) | ((data[pos + 2] as u64) << 16u64) | ((data[pos + 3] as u64) << 24u64)
        | ((data[pos + 4] as u64) << 32u64) | ((data[pos + 5] as u64) << 40u64) | ((data[pos + 6] as u64) << 48u64) | ((data[pos + 7] as u64) << 56u64)
}

/// Whether the 4 bytes at `a` and at `b` are equal.
fn same4(data: &[u8], a: usize, b: usize) -> (r: bool)
    requires
        a + 4 <= data@.len(),
        b + 4 <= data@.len(),
    ensures
        r <==> forall|i: int| 0 <= i < 4 ==> #[trigger] data@[a + i] == data@[b + i],
{
    let r = data[a] == data[b] && data[a + 1] == data[b + 1] && data[a + 2] == data[b + 2] && data[a + 3] == data[b + 3];
    proof {
        if !r {
            if data@[a as int] != data@[b as int] {
                assert(data@[a + 0] != data@[b + 0]);
            } else if data@[a + 1] != data@[b + 1] {
            } else if data@[a + 2] != data@[b + 2] {
            } else {
                assert(data@[a + 3] != data@[b + 3]);
            }
        } else {
            assert forall|i: int| 0 <= i < 4 implies #[trigger] data@[a + i] == data@[b + i] by {
                if i == 0 {
                    assert(data@[a + 0] == data@[a as int]);
                }
            }
        }
    }
    r
}

/// Where the common run of `data` at `a` and at `b` ends, looking from
/// byte `from` up to byte `max_len`.
pub open spec fn run_end(data: Seq<u8>, a: int, b: int, from: nat, max_len: nat) -> nat
    decreases max_len - from,
{
    if from >= max_len || data[a + from] != data[b + from] {
        from
    } else {
        run_end(data, a, b, from + 1, max_len)
    }
}

/// The length a finder measures for candidate `cand` at `pos`: `None` when
/// their first four bytes differ, else the common run up to `max_match`
/// bytes and the end of `data` (and never below the four bytes compared).
pub open spec fn measured(data: Seq<u8>, cand: int, pos: int, max_match: nat) -> Option<nat> {
    if exists|i: int| 0 <= i < 4 && #[trigger] data[cand + i] != data[pos + i] {
        None
    } else {
        let max_len = if data.len() - pos < max_match { (data.len() - pos) as nat } else { max_match };
        if max_len < 4 {
            Some(4)
        } else {
            Some(run_end(data, cand, pos, 4, max_len))
        }
    }
}

proof fn lemma_run_end(data: Seq<u8>, a: int, b: int, from: nat, max_len: nat, len: nat)
    requires
        from <= len <= max_len,
        forall|i: int| from <= i < len ==> #[trigger] data[a + i] == data[b + i],
        len < max_len ==> data[a + len] != data[b + len],
    ensures
        run_end(data, a, b, from, max_len) == len,
    decreases len - from,
{
    if from < len {
        lemma_run_end(data, a, b, from + 1, max_len, len);
    }
}

/// Length of the common run at `cand` and `pos`, counted from byte 4 (the
/// first four are known equal) up to `max_len`.
fn match_length(data: &[u8], cand_pos: usize, pos: usize, max_len: usize) -> (len: usize)
    requires
        pos + max_len <= data@.len(),
        cand_pos < pos,
        pos + 4 <= data@.len(),
    ensures
        len >= 4,
        max_len >= 4 ==> len <= max_len,
        max_len < 4 ==> len == 4,
        forall|i: int| 4 <= i < len ==> #[trigger] data@[cand_pos + i] == data@[pos + i],
        len < max_len ==> data@[cand_pos + len] != data@[pos + len],
        max_len >= 4 ==> len == run_end(data@, cand_pos as int, pos as int, 4, max_len as nat),
{
    let n = data.len();
    let mut len: usize = 4;
    while len < max_len && data[cand_pos + len] == data[pos + len]
        invariant
            n == data@.len(),
            4 <= len,
            max_len >= 4 ==> len <= max_len,
            max_len < 4 ==> len == 4,
            pos + max_len <= data@.len(),
            cand_pos < pos,
            forall|i: int| 4 <= i < len ==> #[trigger] data@[cand_pos + i] == data@[pos + i],
        decreases max_len - len,
    {
        len += 1;
    }
    proof {
        if max_len >= 4 {
            lemma_run_end(data@, cand_pos as int, pos as int, 4, max_len as nat, len as nat);
        }
    }
    len
}

/// Length of the common run at `a` and `b` from byte 0, up to `max_len`;
/// a run shorter than 4 bytes is counted only up to 3.
fn match_length_full(data: &[u8], a: usize, b: usize, max_len: usize) -> (len: usize)
    requires
        a < b,
        b + max_len <= data@.len(),
    ensures
        len <= max_len,
        forall|i: int| 0 <= i < len ==> #[trigger] data@[a + i] == data@[b + i],
        len == full_run(data@, a as int, b as int, max_len as nat),
{
    if max_len >= 4 && same4(data, a, b) {
        let len = match_length(data, a, b, max_len);
        proof {
            assert forall|i: int| 0 <= i < len implies #[trigger] data@[a + i] == data@[b + i] by {
                if i < 4 {
                    assert(data@[a + i] == data@[b + i]);
                }
            }
        }
        len
    } else {
        let limit = if max_len < 3 { max_len } else { 3 };
        let n = data.len();
        let mut len: usize = 0;
        while len < limit && data[a + len] == data[b + len]
            invariant
                n == data@.len(),
                len <= limit,
                limit <= max_len,
                b + max_len <= data@.len(),
                a < b,
                forall|i: int| 0 <= i < len ==> #[trigger] data@[a + i] == data@[b + i],
            decreases limit - len,
        {
            len += 1;
        }
        proof {
            lemma_run_end(data@, a as int, b as int, 0, limit as nat, len as nat);
        }
        len
    }
}

/// The common run of `data` at `a` and at `b` as the binary-tree finder
/// measures it, up to `max_len`: in full when the first four bytes agree
/// (and `max_len` reaches 4), else at most 3 bytes.
pub open spec fn full_run(data: Seq<u8>, a: int, b: int, max_len: nat) -> nat {
    if max_len >= 4 && forall|i: int| 0 <= i < 4 ==> #[trigger] data[a + i] == data[b + i] {
        run_end(data, a, b, 4, max_len)
    } else {
        run_end(data, a, b, 0, if max_len < 3 { max_len } else { 3 })
    }
}

pub const HASH_PRIME: u64 = 0x9E3779B1_9E3779B1;
pub const HASH_PRIME_64: u64 = 0x9E3779B9_7F4A7C15;

/// The top `k` bits of `x`, below `2^k`.
proof fn lemma_top_bits(x: u64, k: u64)
    requires
        1 <= k <= 30,
    ensures
        (x >> ((64 - k) as u64)) < pow2(k as nat),
{
    assert((x >> ((64 - k) as u64)) < (1u64 << k)) by (bit_vector)
        requires
            1 <= k <= 30;
    lemma2_to64();
    lemma_pow2_strictly_increases(k as nat, 31);
    vstd::bits::lemma_u64_shl_is_mul(1, k);
}

/// Hash slot of a 4-byte fingerprint in a table of `2^hash_log` slots.
pub open spec fn hash4_spec(bytes: u32, hash_log: usize) -> usize {
    ((bytes as u64).wrapping_mul(HASH_PRIME) >> ((64 - hash_log) as u64)) as usize
}

/// Hash slot of an 8-byte fingerprint in a table of `2^chain_log` slots.
pub open spec fn hash8_spec(bytes: u64, chain_log: usize) -> usize {
    (bytes.wrapping_mul(HASH_PRIME_64) >> ((64 - chain_log) as u64)) as usize
}

// ---------------------------------------------------------------------------
// The match finder
// ---------------------------------------------------------------------------

/// An LZ77 match finder with a hash table and a secondary table.
///
/// Positions stored in the tables are absolute offsets from the start of
/// the frame, so one finder serves all the blocks of a frame.  The
/// secondary table is a hash chain (greedy and lazy strategies), a long
/// hash table (double fast) or interleaved binary-tree nodes of twice the
/// size (binary-tree strategies).
pub struct MatchFinder {
    cfg: MatchConfig,
    hash_table: Vec<u32>,
    chain: Vec<u32>,
    chain_mask: usize,
    window_size: usize,
}

impl MatchFinder {
    /// Tables sized for the configuration, and the configuration valid.
    pub closed spec fn wf(&self) -> bool {
        &&& self.cfg.wf()
        &&& self.hash_table@.len() == pow2(self.cfg.hash_log as nat)
        &&& self.chain_mask + 1 == pow2(self.cfg.chain_log as nat)
        &&& self.chain@.len() == (if is_bt(self.cfg.strategy) { 2 * pow2(self.cfg.chain_log as nat) } else { pow2(self.cfg.chain_log as nat) })
        &&& self.window_size == pow2(self.cfg.window_log as nat)
    }

    /// The configuration the finder was built with.
    pub closed spec fn config(&self) -> MatchConfig {
        self.cfg
    }

    /// The maximum match offset, `1 << window_log`.
    pub closed spec fn window(&self) -> nat {
        self.window_size as nat
    }

    /// The hash table: the most recent position seen for each fingerprint.
    pub closed spec fn hashes(&self) -> Seq<u32> {
        self.hash_table@
    }

    /// The secondary table.
    pub closed spec fn links(&self) -> Seq<u32> {
        self.chain@
    }

    /// The maximum match offset this finder allows (`1 << window_log`).
    pub fn window_size(&self) -> (r: usize)
        requires
            self.wf(),
        ensures
            r == self.window(),
    {
        self.window_size
    }

    /// Create a finder with empty tables sized according to `cfg`.
    pub fn new(cfg: &MatchConfig) -> (r: Self)
        requires
            cfg.wf(),
        ensures
            r.wf(),
            r.config() == *cfg,
            r.window() == pow2(cfg.window_log as nat),
            forall|i: int| 0 <= i < r.hashes().len() ==> #[trigger] r.hashes()[i] == u32::MAX,
            forall|i: int| 0 <= i < r.links().len() ==> #[trigger] r.links()[i] == u32::MAX,
            (r.hashes(), r.links()) == fresh_tables(*cfg),
    {
        proof {
            lemma2_to64();
            lemma_pow2_strictly_increases(cfg.hash_log as nat, 31);
            lemma_pow2_strictly_increases(cfg.chain_log as nat, 31);
            if cfg.window_log < 31 {
                lemma_pow2_strictly_increases(cfg.window_log as nat, 31);
            }
            vstd::bits::lemma_usize_shl_is_mul(1, cfg.hash_log);
            vstd::bits::lemma_usize_shl_is_mul(1, cfg.chain_log);
            vstd::bits::lemma_usize_shl_is_mul(1, cfg.window_log);
        }
        let table_size: usize = 1usize << cfg.hash_log;
        let chain_slots: usize = 1usize << cfg.chain_log;
        let chain_mask = chain_slots - 1;
        let window_size: usize = 1usize << cfg.window_log;
        let chain_size = match cfg.strategy {
            Strategy::BtLazy2 | Strategy::BtOpt | Strategy::BtUltra | Strategy::BtUltra2 => 2 * chain_slots,
            _ => chain_slots,
        };
        let hash_table: Vec<u32> = vec![u32::MAX; table_size];
        let chain: Vec<u32> = vec![u32::MAX; chain_size];
        proof {
            assert(hash_table@ =~= fresh_tables(*cfg).0);
            assert(chain@ =~= fresh_tables(*cfg).1);
        }
        MatchFinder { cfg: *cfg, hash_table, chain, chain_mask, window_size }
    }

    fn hash4_value(&self, bytes: u32) -> (h: usize)
        requires
            self.wf(),
        ensures
            h == hash4_spec(bytes, self.cfg.hash_log),
            h < self.hash_table@.len(),
    {
        let h = (bytes as u64).wrapping_mul(HASH_PRIME);
        proof {
            lemma_top_bits(h, self.cfg.hash_log as u64);
        }
        (h >> (64 - self.cfg.hash_log as u64)) as usize
    }

    fn hash8_value(&self, bytes: u64) -> (h: usize)
        requires
            self.wf(),
        ensures
            h == hash8_spec(bytes, self.cfg.chain_log),
            h < pow2(self.cfg.chain_log as nat),
            h < self.chain@.len(),
    {
        let h = bytes.wrapping_mul(HASH_PRIME_64);
        proof {
            lemma_top_bits(h, self.cfg.chain_log as u64);
        }
        (h >> (64 - self.cfg.chain_log as u64)) as usize
    }

    /// Hash the 4 bytes at `pos`.
    fn hash4(&self, data: &[u8], pos: usize) -> (h: usize)
        requires
            self.wf(),
            pos + 4 <= data@.len(),
        ensures
            h == hash4_spec(word4(data@, pos as int), self.cfg.hash_log),
            h < self.hash_table@.len(),
    {
        self.hash4_value(load_u32(data, pos))
    }

    /// Insert `pos` at the head of its hash chain and return the previous head.
    fn insert(&mut self, data: &[u8], pos: usize) -> (prev: u32)
        requires
            old(self).wf(),
            pos + 4 <= data@.len(),
        ensures
            final(self).wf(),
            final(self).config() == old(self).config(),
            final(self).window() == old(self).window(),
            ({
                let h = hash4_spec(word4(data@, pos as int), old(self).config().hash_log) as int;
                &&& prev == old(self).hashes()[h]
                &&& final(self).hashes() == old(self).hashes().update(h, pos as u32)
                &&& final(self).links() == old(self).links().update((pos as nat % pow2(old(self).config().chain_log as nat)) as int, prev)
            }),
    {
        let h = self.hash4(data, pos);
        let prev = self.hash_table[h];
        self.hash_table.set(h, pos as u32);
        let slot = pos & self.chain_mask;
        proof {
            lemma_mask_is_mod(pos, self.chain_mask, self.cfg.chain_log);
        }
        self.chain.set(slot, prev);
        prev
    }
}

/// What a finder may report at `pos`: a genuine repeat inside the window,
/// at least `min_match` long.
pub open spec fn reportable(data: Seq<u8>, pos: nat, m: Match, cfg: MatchConfig, window: nat) -> bool {
    &&& valid_match(data, pos, m.offset as nat, m.length as nat)
    &&& m.offset <= window
    &&& m.length >= cfg.min_match
    &&& m.length <= 0x1000_0000
}

/// The match a single table lookup reports at `pos` for the stored
/// position `cand`: none when the slot is empty, the position is not
/// before `pos` or lies beyond the window, or the measured run is shorter
/// than `min_match`.
pub open spec fn candidate_match(data: Seq<u8>, pos: nat, cand: u32, cfg: MatchConfig, window: nat) -> Option<Match> {
    if cand == u32::MAX || cand >= pos || pos - cand > window {
        None
    } else {
        match measured(data, cand as int, pos as int, cfg.max_match as nat) {
            Some(l) => if l >= cfg.min_match {
                Some(Match { offset: (pos - cand) as usize, length: l as usize })
            } else {
                None
            },
            None => None,
        }
    }
}

/// The best (length, offset) met walking the hash chain from `cand` for
/// at most `steps` candidates after `best`: a candidate counts when it
/// measures longer than the best so far, and the walk stops at an empty
/// slot, at a position not before `pos` or beyond `window`, or once a
/// match reaches `max_match`.
pub open spec fn chain_best(cfg: MatchConfig, window: nat, data: Seq<u8>, pos: nat, links: Seq<u32>, cand: u32, steps: nat, best: (nat, nat)) -> (nat, nat)
    decreases steps,
{
    if steps == 0 || cand == u32::MAX || cand >= pos || pos - cand > window {
        best
    } else {
        let next = links[(cand as nat % pow2(cfg.chain_log as nat)) as int];
        match measured(data, cand as int, pos as int, cfg.max_match as nat) {
            Some(l) => if l > best.0 {
                if l >= cfg.max_match {
                    (l, (pos - cand) as nat)
                } else {
                    chain_best(cfg, window, data, pos, links, next, (steps - 1) as nat, (l, (pos - cand) as nat))
                }
            } else {
                chain_best(cfg, window, data, pos, links, next, (steps - 1) as nat, best)
            },
            None => chain_best(cfg, window, data, pos, links, next, (steps - 1) as nat, best),
        }
    }
}

/// What `find_match` gives at `pos` and the tables after it: `pos` is
/// inserted at the head of its chain, then the chain is walked.
pub open spec fn find_match_model(cfg: MatchConfig, window: nat, t: (Seq<u32>, Seq<u32>), data: Seq<u8>, pos: nat) -> (Option<Match>, (Seq<u32>, Seq<u32>)) {
    if pos + 4 > data.len() {
        (None, t)
    } else {
        let h = hash4_spec(word4(data, pos as int), cfg.hash_log) as int;
        let prev = t.0[h];
        let links = t.1.update((pos % pow2(cfg.chain_log as nat)) as int, prev);
        let best = chain_best(cfg, window, data, pos, links, prev, pow2(cfg.search_log as nat), (0, 0));
        (if best.0 >= cfg.min_match { Some(Match { offset: best.1 as usize, length: best.0 as usize }) } else { None },
            (t.0.update(h, pos as u32), links))
    }
}

/// What `lookup_fast` gives at `pos` and the tables after it.
pub open spec fn lookup_fast_model(cfg: MatchConfig, window: nat, t: (Seq<u32>, Seq<u32>), data: Seq<u8>, pos: nat) -> (Option<Match>, (Seq<u32>, Seq<u32>)) {
    let h = hash4_spec(word4(data, pos as int), cfg.hash_log) as int;
    (candidate_match(data, pos, t.0[h], cfg, window), (t.0.update(h, pos as u32), t.1))
}

/// What `lookup_dfast` gives at `pos` and the tables after it.
pub open spec fn lookup_dfast_model(cfg: MatchConfig, window: nat, t: (Seq<u32>, Seq<u32>), data: Seq<u8>, pos: nat) -> (Option<Match>, (Seq<u32>, Seq<u32>)) {
    let h = hash4_spec(word4(data, pos as int), cfg.hash_log) as int;
    let short = candidate_match(data, pos, t.0[h], cfg, window);
    if pos + 8 <= data.len() {
        let h8 = hash8_spec(word8(data, pos as int), cfg.chain_log) as int;
        (match candidate_match(data, pos, t.1[h8], cfg, window) {
            Some(m) => Some(m),
            None => short,
        }, (t.0.update(h, pos as u32), t.1.update(h8, pos as u32)))
    } else {
        (short, (t.0.update(h, pos as u32), t.1))
    }
}

impl MatchFinder {
    /// Compare the candidate `cand` with `pos` and measure the match: the
    /// first four bytes must agree.
    fn measure(&self, data: &[u8], cand: usize, pos: usize) -> (len: Option<usize>)
        requires
            self.wf(),
            cand < pos,
            pos + 4 <= data@.len(),
        ensures
            len matches Some(l) ==> l >= 4 && valid_match(data@, pos as nat, (pos - cand) as nat, l as nat)
                && (l <= self.cfg.max_match || l == 4),
            len is Some <==> measured(data@, cand as int, pos as int, self.cfg.max_match as nat) is Some,
            len matches Some(l) ==> measured(data@, cand as int, pos as int, self.cfg.max_match as nat) == Some(l as nat),
    {
        if !same4(data, cand, pos) {
            return None;
        }
        let rest = data.len() - pos;
        let max_len = if rest < self.cfg.max_match { rest } else { self.cfg.max_match };
        let len = match_length(data, cand, pos, max_len);
        proof {
            assert forall|i: int| 0 <= i < len implies #[trigger] data@[pos - (pos - cand) + i] == data@[pos + i] by {
                assert(pos - (pos - cand) + i == cand + i);
                if i < 4 {
                    assert(data@[cand + i] == data@[pos + i]);
                }
            }
        }
        Some(len)
    }

    /// Fast strategy: one hash-table lookup and insert, no chain walk.
    ///
    /// Reports a match when it is at least `min_match` long; always updates
    /// the hash table.
    pub fn lookup_fast(&mut self, data: &[u8], pos: usize) -> (r: Option<Match>)
        requires
            old(self).wf(),
            pos + 4 <= data@.len(),
        ensures
            final(self).wf(),
            final(self).config() == old(self).config(),
            final(self).window() == old(self).window(),
            final(self).hashes() == old(self).hashes().update(hash4_spec(word4(data@, pos as int), old(self).config().hash_log) as int, pos as u32),
            final(self).links() == old(self).links(),
            r matches Some(m) ==> reportable(data@, pos as nat, m, old(self).config(), old(self).window()),
            (r, (final(self).hashes(), final(self).links()))
                == lookup_fast_model(old(self).config(), old(self).window(), (old(self).hashes(), old(self).links()), data@, pos as nat),
    {
        let h = self.hash4(data, pos);
        let prev = self.hash_table[h];
        self.hash_table.set(h, pos as u32);
        let cand = prev as usize;
        if prev == u32::MAX || cand >= pos || pos - cand > self.window_size {
            return None;
        }
        match self.measure(data, cand, pos) {
            Some(len) => {
                if len >= self.cfg.min_match {
                    Some(Match { offset: pos - cand, length: len })
                } else {
                    None
                }
            },
            None => None,
        }
    }

    /// Double-fast strategy: the long (8-byte) hash table first, then the
    /// short (4-byte) one; both are updated.
    pub fn lookup_dfast(&mut self, data: &[u8], pos: usize) -> (r: Option<Match>)
        requires
            old(self).wf(),
            pos + 4 <= data@.len(),
        ensures
            final(self).wf(),
            final(self).config() == old(self).config(),
            final(self).window() == old(self).window(),
            final(self).hashes() == old(self).hashes().update(hash4_spec(word4(data@, pos as int), old(self).config().hash_log) as int, pos as u32),
            final(self).links() == if pos + 8 <= data@.len() {
                old(self).links().update(hash8_spec(word8(data@, pos as int), old(self).config().chain_log) as int, pos as u32)
            } else {
                old(self).links()
            },
            r matches Some(m) ==> reportable(data@, pos as nat, m, old(self).config(), old(self).window()),
            (r, (final(self).hashes(), final(self).links()))
                == lookup_dfast_model(old(self).config(), old(self).window(), (old(self).hashes(), old(self).links()), data@, pos as nat),
    {
        let needle4 = load_u32(data, pos);
        let h_short = self.hash4_value(needle4);
        if data.len() - pos >= 8 {
            let needle8 = load_u64(data, pos);
            let h_long = self.hash8_value(needle8);
            let prev_long = self.chain[h_long];
            self.chain.set(h_long, pos as u32);
            let cand = prev_long as usize;
            if prev_long != u32::MAX && cand < pos && pos - cand <= self.window_size {
                if let Some(len) = self.measure(data, cand, pos) {
                    if len >= self.cfg.min_match {
                        self.hash_table.set(h_short, pos as u32);
                        return Some(Match { offset: pos - cand, length: len });
                    }
                }
            }
        }
        let prev = self.hash_table[h_short];
        self.hash_table.set(h_short, pos as u32);
        let cand = prev as usize;
        if prev == u32::MAX || cand >= pos || pos - cand > self.window_size {
            return None;
        }
        match self.measure(data, cand, pos) {
            Some(len) => {
                if len >= self.cfg.min_match {
                    Some(Match { offset: pos - cand, length: len })
                } else {
                    None
                }
            },
            None => None,
        }
    }

    /// Find the best match at `pos` along its hash chain, inserting `pos`.
    ///
    /// `data` should end where the current block ends, so that its length
    /// bounds match lengths to the block.
    pub fn find_match(&mut self, data: &[u8], pos: usize) -> (r: Option<Match>)
        requires
            old(self).wf(),
        ensures
            final(self).wf(),
            final(self).config() == old(self).config(),
            final(self).window() == old(self).window(),
            r matches Some(m) ==> reportable(data@, pos as nat, m, old(self).config(), old(self).window()),
            (r, (final(self).hashes(), final(self).links()))
                == find_match_model(old(self).config(), old(self).window(), (old(self).hashes(), old(self).links()), data@, pos as nat),
    {
        if data.len() < 4 || pos > data.len() - 4 {
            return None;
        }
        let ghost start = *self;
        let mut candidate = self.insert(data, pos);
        let mut best_len: usize = 0;
        let mut best_off: usize = 0;
        let max_offset = self.window_size;
        let depth = self.cfg.search_depth();
        let ghost f = *self;
        let ghost whole = chain_best(start.config(), start.window(), data@, pos as nat, f.links(), candidate, depth as nat, (0, 0));
        let mut k: usize = 0;
        while k < depth
            invariant_except_break
                chain_best(start.config(), start.window(), data@, pos as nat, f.links(), candidate, (depth - k) as nat, (best_len as nat, best_off as nat)) == whole,
            invariant
                *self == f,
                self.wf(),
                f.config() == start.config(),
                f.window() == start.window(),
                k <= depth,
                pos + 4 <= data@.len(),
                max_offset == self.window_size,
                best_len <= 0x1000_0000,
                best_len > 0 ==> valid_match(data@, pos as nat, best_off as nat, best_len as nat) && best_off <= max_offset,
            ensures
                (best_len as nat, best_off as nat) == whole,
            decreases depth - k,
        {
            k += 1;
            if candidate == u32::MAX {
                break;
            }
            let cand_pos = candidate as usize;
            if cand_pos >= pos || pos - cand_pos > max_offset {
                break;
            }
            proof {
                lemma_mask_is_mod(cand_pos, self.chain_mask, self.cfg.chain_log);
            }
            let next = self.chain[cand_pos & self.chain_mask];
            if let Some(len) = self.measure(data, cand_pos, pos) {
                if len > best_len {
                    best_len = len;
                    best_off = pos - cand_pos;
                    if len >= self.cfg.max_match {
                        break;
                    }
                }
            }
            candidate = next;
        }
        if best_len >= self.cfg.min_match {
            Some(Match { offset: best_off, length: best_len })
        } else {
            None
        }
    }
}

/// The tables (hash table, secondary table) after registering position
/// `p`: for chain insertion the hash table points at `p` and `p`'s chain
/// slot at the position it displaced; for the double-fast strategy the
/// short and, when 8 bytes are left, the long hash table point at `p`.
pub open spec fn register_effect(t: (Seq<u32>, Seq<u32>), data: Seq<u8>, cfg: MatchConfig, p: nat, dfast: bool) -> (Seq<u32>, Seq<u32>) {
    let h = hash4_spec(word4(data, p as int), cfg.hash_log) as int;
    if dfast {
        (t.0.update(h, p as u32), if p + 8 <= data.len() {
            t.1.update(hash8_spec(word8(data, p as int), cfg.chain_log) as int, p as u32)
        } else {
            t.1
        })
    } else {
        (t.0.update(h, p as u32), t.1.update((p % pow2(cfg.chain_log as nat)) as int, t.0[h]))
    }
}

/// The tables after registering the positions `ps` in order.
pub open spec fn register_all(t: (Seq<u32>, Seq<u32>), data: Seq<u8>, cfg: MatchConfig, ps: Seq<nat>, dfast: bool) -> (Seq<u32>, Seq<u32>)
    decreases ps.len(),
{
    if ps.len() == 0 {
        t
    } else {
        register_effect(register_all(t, data, cfg, ps.drop_last(), dfast), data, cfg, ps.last(), dfast)
    }
}

/// `from`, `from + step`, ... below `end`.
pub open spec fn stride(from: nat, end: nat, step: nat) -> Seq<nat>
    decreases if end > from { (end - from) as nat } else { 0nat },
{
    if from >= end || step == 0 {
        Seq::empty()
    } else {
        seq![from] + stride(from + step, end, step)
    }
}

/// The positions registered for a matched run of `length` bytes at `pos`
/// in `n` bytes of data, among those with 4 bytes left to hash: the first
/// 8, then the multiples of the sparse step up to the last 8, then the
/// last 8.
pub open spec fn skip_positions(pos: nat, length: nat, n: nat) -> Seq<nat> {
    if pos > n || n - pos < 4 {
        Seq::empty()
    } else {
        let valid_len = (n - pos - 3) as nat;
        let limit = if length < valid_len { length } else { valid_len };
        let prefix_end = if limit < 8 { limit } else { 8 };
        let tail = if length >= 8 { (length - 8) as nat } else { 0 };
        let middle_end = if tail < limit { tail } else { limit };
        let step = sparse_step(length);
        let m0 = (((prefix_end + step - 1) as int / step as int) * step as int) as nat;
        let c0 = if middle_end > prefix_end { middle_end } else { prefix_end };
        stride(pos, pos + prefix_end, 1) + stride(pos + m0, pos + middle_end, step) + stride(pos + c0, pos + limit, 1)
    }
}

/// The step between reinserted positions inside a match of `length` bytes.
pub open spec fn sparse_step(length: nat) -> nat {
    if length <= 24 {
        1
    } else if length <= 96 {
        2
    } else if length <= 256 {
        4
    } else {
        8
    }
}

fn sparse_step_exec(length: usize) -> (r: usize)
    ensures
        r == sparse_step(length as nat),
        1 <= r <= 8,
{
    if length <= 24 {
        1
    } else if length <= 96 {
        2
    } else if length <= 256 {
        4
    } else {
        8
    }
}

/// The least multiple of `step` that is at least `x`.
fn next_multiple_of(x: usize, step: usize) -> (r: usize)
    requires
        1 <= step <= 8,
        x <= 1_000_000_000,
    ensures
        r >= x,
        r < x + step,
        r % step == 0,
        r == ((x + step - 1) as int / step as int) * step as int,
{
    let y = x + step - 1;
    let q = y / step;
    proof {
        vstd::arithmetic::div_mod::lemma_fundamental_div_mod(y as int, step as int);
        vstd::arithmetic::div_mod::lemma_mod_multiples_basic(q as int, step as int);
        assert(q * step == y - y % step) by (nonlinear_arith)
            requires y == step * (y / step) + y % step, q == y / step;
    }
    q * step
}

/// The walk down a binary tree of `bt_find_insert`: from candidate `idx`
/// (`None` for an empty subtree) with `steps` comparisons left, `sw` and
/// `lw` the link slots that take the next smaller and larger candidates,
/// and `best` the best (length, offset) so far.  Each candidate is measured
/// against `pos`; the walk goes to the side the first differing byte
/// points to, relinking the candidate below `pos`, and stops at an empty
/// subtree, after `steps` comparisons, at a candidate not before `pos` or
/// farther than `max_offset`, or once a match reaches `max_len`; the two
/// open slots are then closed.  Gives the links after the walk and the best
/// match.
pub open spec fn bt_walk(
    data: Seq<u8>,
    pos: nat,
    links: Seq<u32>,
    sw: nat,
    lw: nat,
    idx: Option<nat>,
    best: (nat, nat),
    steps: nat,
    max_offset: nat,
    max_len: nat,
    slots: nat,
) -> (Seq<u32>, (nat, nat))
    decreases steps,
{
    let closed = links.update(sw as int, u32::MAX).update(lw as int, u32::MAX);
    if steps == 0 || idx is None {
        (closed, best)
    } else {
        let cand = idx->0;
        if cand >= pos || pos - cand > max_offset {
            (closed, best)
        } else {
            let slot = cand % slots;
            let common = full_run(data, cand as int, pos as int, max_len);
            let best2 = if common > best.0 { (common, (pos - cand) as nat) } else { best };
            if common > best.0 && common >= max_len {
                (closed, best2)
            } else if common >= data.len() - pos || data[(cand + common) as int] >= data[(pos + common) as int] {
                let l2 = links.update(lw as int, cand as u32);
                let c = l2[(2 * slot) as int];
                bt_walk(data, pos, l2, sw, 2 * slot, if c == u32::MAX { None } else { Some(c as nat) }, best2, (steps - 1) as nat,
                    max_offset, max_len, slots)
            } else {
                let l2 = links.update(sw as int, cand as u32);
                let c = l2[(2 * slot + 1) as int];
                bt_walk(data, pos, l2, 2 * slot + 1, lw, if c == u32::MAX { None } else { Some(c as nat) }, best2, (steps - 1) as nat,
                    max_offset, max_len, slots)
            }
        }
    }
}

/// What `bt_find_insert` gives at `pos` and the tables after it: `pos`
/// becomes the root of its tree and the old tree is walked.
pub open spec fn bt_find_model(cfg: MatchConfig, window: nat, t: (Seq<u32>, Seq<u32>), data: Seq<u8>, pos: nat) -> (Option<Match>, (Seq<u32>, Seq<u32>)) {
    if pos + 4 > data.len() {
        (None, t)
    } else {
        let h = hash4_spec(word4(data, pos as int), cfg.hash_log) as int;
        let root = t.0[h];
        let slots = pow2(cfg.chain_log as nat);
        let slot = pos % slots;
        let max_offset = if window < (slots - 1) as nat { window } else { (slots - 1) as nat };
        let max_len = if data.len() - pos < cfg.max_match { (data.len() - pos) as nat } else { cfg.max_match as nat };
        let walk = bt_walk(data, pos, t.1, 2 * slot, 2 * slot + 1, if root == u32::MAX { None } else { Some(root as nat) }, (0, 0),
            pow2(cfg.search_log as nat), max_offset, max_len, slots);
        (if walk.1.0 >= cfg.min_match { Some(Match { offset: walk.1.1 as usize, length: walk.1.0 as usize }) } else { None },
            (t.0.update(h, pos as u32), walk.0))
    }
}

impl MatchFinder {
    /// Binary-tree match finder: insert `pos` as the new root of its tree
    /// and return the best match met on the way down, within
    /// `search_depth` comparisons.
    pub fn bt_find_insert(&mut self, data: &[u8], pos: usize) -> (r: Option<Match>)
        requires
            old(self).wf(),
            is_bt(old(self).config().strategy),
        ensures
            final(self).wf(),
            final(self).config() == old(self).config(),
            final(self).window() == old(self).window(),
            r matches Some(m) ==> reportable(data@, pos as nat, m, old(self).config(), old(self).window()),
            (r, (final(self).hashes(), final(self).links()))
                == bt_find_model(old(self).config(), old(self).window(), (old(self).hashes(), old(self).links()), data@, pos as nat),
    {
        if data.len() < 4 || pos > data.len() - 4 {
            return None;
        }
        let h = self.hash4(data, pos);
        let root = self.hash_table[h];
        self.hash_table.set(h, pos as u32);
        let mask = self.chain_mask;
        let max_offset = if self.window_size < mask { self.window_size } else { mask };
        let rest = data.len() - pos;
        let max_len = if rest < self.cfg.max_match { rest } else { self.cfg.max_match };
        let mut searches = self.cfg.search_depth();
        proof {
            lemma_mask_is_mod(pos, mask, self.cfg.chain_log);
            lemma2_to64();
            lemma_pow2_strictly_increases(self.cfg.chain_log as nat, 31);
        }
        let pos_slot = pos & mask;
        let mut smaller_write: usize = 2 * pos_slot;
        let mut larger_write: usize = 2 * pos_slot + 1;
        let mut best_len: usize = 0;
        let mut best_off: usize = 0;
        let mut match_idx: usize = if root == u32::MAX { usize::MAX } else { root as usize };
        let ghost cfg = self.cfg;
        let ghost win = self.window_size;
        let ghost slots = (mask + 1) as nat;
        let ghost hashes_after = self.hash_table@;
        let ghost whole = bt_walk(data@, pos as nat, self.chain@, smaller_write as nat, larger_write as nat,
            if root == u32::MAX { None } else { Some(root as nat) }, (0, 0), searches as nat, max_offset as nat, max_len as nat, slots);
        proof {
            assert(root != u32::MAX ==> root < usize::MAX);
            assert(slots == pow2(cfg.chain_log as nat));
            assert(pos_slot == pos as nat % slots);
            assert(max_offset as nat == if win < (slots - 1) as nat { win as nat } else { (slots - 1) as nat });
            assert(self.chain@ == old(self).links());
            assert(whole == bt_walk(data@, pos as nat, old(self).links(), 2 * (pos as nat % slots), 2 * (pos as nat % slots) + 1,
                if root == u32::MAX { None } else { Some(root as nat) }, (0, 0), pow2(cfg.search_log as nat), max_offset as nat,
                max_len as nat, slots));
        }
        while searches > 0 && match_idx != usize::MAX
            invariant
                bt_walk(data@, pos as nat, self.chain@, smaller_write as nat, larger_write as nat,
                    if match_idx == usize::MAX { None } else { Some(match_idx as nat) }, (best_len as nat, best_off as nat),
                    searches as nat, max_offset as nat, max_len as nat, slots) == whole,
                self.hash_table@ == hashes_after,
                hashes_after == old(self).hashes().update(h as int, pos as u32),
                h == hash4_spec(word4(data@, pos as int), cfg.hash_log),
                root == old(self).hashes()[h as int],
                whole == bt_walk(data@, pos as nat, old(self).links(), 2 * (pos as nat % slots), 2 * (pos as nat % slots) + 1,
                    if root == u32::MAX { None } else { Some(root as nat) }, (0, 0), pow2(cfg.search_log as nat), max_offset as nat,
                    max_len as nat, slots),
                max_offset as nat == if win < (slots - 1) as nat { win as nat } else { (slots - 1) as nat },
                max_len as nat == if data@.len() - pos < cfg.max_match { (data@.len() - pos) as nat } else { cfg.max_match as nat },
                slots == pow2(cfg.chain_log as nat),
                slots == mask + 1,
                self.wf(),
                self.cfg == cfg,
                self.window_size == win,
                cfg == old(self).cfg,
                win == old(self).window_size,
                is_bt(cfg.strategy),
                mask == self.chain_mask,
                max_offset <= win,
                pos + 4 <= data@.len(),
                max_len <= data@.len() - pos,
                max_len <= 0x1000_0000,
                smaller_write < 2 * (mask + 1),
                larger_write < 2 * (mask + 1),
                mask < 0x4000_0000,
                best_len <= max_len,
                best_len > 0 ==> valid_match(data@, pos as nat, best_off as nat, best_len as nat) && best_off <= max_offset,
            ensures
                self.chain@.update(smaller_write as int, u32::MAX).update(larger_write as int, u32::MAX) == whole.0,
                (best_len as nat, best_off as nat) == whole.1,
                self.hash_table@ == hashes_after,
                self.wf(),
                self.cfg == cfg,
                self.window_size == win,
                smaller_write < 2 * (mask + 1),
                larger_write < 2 * (mask + 1),
                best_len <= max_len,
                best_len > 0 ==> valid_match(data@, pos as nat, best_off as nat, best_len as nat) && best_off <= max_offset,
            decreases searches,
        {
            searches -= 1;
            let cand = match_idx;
            if cand >= pos || pos - cand > max_offset {
                break;
            }
            proof {
                lemma_mask_is_mod(cand, mask, self.cfg.chain_log);
            }
            let cand_slot = cand & mask;
            let common = match_length_full(data, cand, pos, max_len);
            let ghost state_links = self.chain@;
            let ghost state_best = (best_len as nat, best_off as nat);
            if common > best_len {
                best_len = common;
                best_off = pos - cand;
                proof {
                    assert forall|i: int| 0 <= i < best_len implies #[trigger] data@[pos - best_off + i] == data@[pos + i] by {
                        assert(pos - best_off + i == cand + i);
                    }
                }
                if best_len >= max_len {
                    let ghost before = self.chain@;
                    self.chain.set(smaller_write, u32::MAX);
                    self.chain.set(larger_write, u32::MAX);
                    proof {
                        assert(self.chain@ == before.update(smaller_write as int, u32::MAX).update(larger_write as int, u32::MAX));
                        assert(bt_walk(data@, pos as nat, state_links, smaller_write as nat, larger_write as nat, Some(cand as nat),
                            state_best, (searches + 1) as nat, max_offset as nat, max_len as nat, slots)
                            == (self.chain@, (best_len as nat, best_off as nat)));
                        assert(self.chain@ == whole.0);
                        assert(whole.1 == (best_len as nat, best_off as nat));
                    }
                    if best_len >= self.cfg.min_match {
                        return Some(Match { offset: best_off, length: best_len });
                    } else {
                        return None;
                    }
                }
            }
            let go_left = common >= data.len() - pos || data[cand + common] >= data[pos + common];
            if go_left {
                self.chain.set(larger_write, cand as u32);
                larger_write = 2 * cand_slot;
                let c = self.chain[2 * cand_slot];
                match_idx = if c == u32::MAX { usize::MAX } else { c as usize };
            } else {
                self.chain.set(smaller_write, cand as u32);
                smaller_write = 2 * cand_slot + 1;
                let c = self.chain[2 * cand_slot + 1];
                match_idx = if c == u32::MAX { usize::MAX } else { c as usize };
            }
        }
        let ghost before = self.chain@;
        self.chain.set(smaller_write, u32::MAX);
        self.chain.set(larger_write, u32::MAX);
        proof {
            assert(self.chain@ == before.update(smaller_write as int, u32::MAX).update(larger_write as int, u32::MAX));
        }
        if best_len >= self.cfg.min_match {
            Some(Match { offset: best_off, length: best_len })
        } else {
            None
        }
    }

    /// Register position `p` in the tables: chain insertion, or, for the
    /// double-fast strategy, both hash tables.
    fn register(&mut self, data: &[u8], p: usize, dfast: bool)
        requires
            old(self).wf(),
            p + 4 <= data@.len(),
        ensures
            final(self).wf(),
            final(self).config() == old(self).config(),
            final(self).window() == old(self).window(),
            (final(self).hashes(), final(self).links())
                == register_effect((old(self).hashes(), old(self).links()), data@, old(self).config(), p as nat, dfast),
    {
        if dfast {
            self.insert_dfast_position(data, p);
        } else {
            self.insert(data, p);
        }
    }

    /// Register the positions of a matched run: the first and last 8
    /// densely, the middle sparsely (see [`skip_positions`]).
    fn register_run(&mut self, data: &[u8], pos: usize, length: usize, dfast: bool)
        requires
            old(self).wf(),
        ensures
            final(self).wf(),
            final(self).config() == old(self).config(),
            final(self).window() == old(self).window(),
            (final(self).hashes(), final(self).links()) == register_all((old(self).hashes(), old(self).links()), data@,
                old(self).config(), skip_positions(pos as nat, length as nat, data@.len()), dfast),
    {
        let step = sparse_step_exec(length);
        if pos > data.len() || data.len() - pos < 4 {
            return;
        }
        let n = data.len();
        let valid_len = data.len() - pos - 3;
        let limit = if length < valid_len { length } else { valid_len };
        let prefix_end = if limit < 8 { limit } else { 8 };
        let tail = if length >= 8 { length - 8 } else { 0 };
        let middle_end = if tail < limit { tail } else { limit };
        let ghost cfg = self.cfg;
        let ghost win = self.window_size;
        let ghost t0 = (self.hashes(), self.links());
        let ghost a = stride(pos as nat, (pos + prefix_end) as nat, 1);
        let ghost m0 = (((prefix_end + step - 1) as int / step as int) * step as int) as nat;
        let ghost b = stride((pos + m0) as nat, (pos + middle_end) as nat, step as nat);
        let ghost c0 = if middle_end > prefix_end { middle_end } else { prefix_end };
        let ghost c = stride((pos + c0) as nat, (pos + limit) as nat, 1);
        let ghost mut done: Seq<nat> = Seq::empty();
        proof {
            assert(skip_positions(pos as nat, length as nat, n as nat) == a + b + c);
            assert(done + a =~= a);
        }
        let mut i: usize = 0;
        while i < prefix_end
            invariant
                self.wf(),
                self.cfg == cfg,
                self.window_size == win,
                cfg == old(self).cfg,
                win == old(self).window_size,
                n == data@.len(),
                i <= prefix_end,
                prefix_end <= limit,
                limit <= valid_len,
                valid_len == data@.len() - pos - 3,
                (self.hashes(), self.links()) == register_all(t0, data@, cfg, done, dfast),
                done + stride((pos + i) as nat, (pos + prefix_end) as nat, 1) == a,
            decreases prefix_end - i,
        {
            let ghost before = done;
            self.register(data, pos + i, dfast);
            proof {
                done = done.push((pos + i) as nat);
                assert(done.drop_last() =~= before);
                assert(done + stride((pos + i + 1) as nat, (pos + prefix_end) as nat, 1)
                    =~= before + stride((pos + i) as nat, (pos + prefix_end) as nat, 1));
            }
            i += 1;
        }
        proof {
            assert(done =~= a);
            assert(done + b =~= a + b);
        }
        if prefix_end < middle_end {
            let mut i = next_multiple_of(prefix_end, step);
            while i < middle_end
                invariant_except_break
                    done + stride((pos + i) as nat, (pos + middle_end) as nat, step as nat) == a + b,
                invariant
                    self.wf(),
                    self.cfg == cfg,
                    self.window_size == win,
                    cfg == old(self).cfg,
                    win == old(self).window_size,
                    n == data@.len(),
                    middle_end <= limit,
                    limit <= valid_len,
                    valid_len == data@.len() - pos - 3,
                    1 <= step <= 8,
                    (self.hashes(), self.links()) == register_all(t0, data@, cfg, done, dfast),
                ensures
                    done == a + b,
                decreases middle_end - i,
            {
                let ghost before = done;
                self.register(data, pos + i, dfast);
                proof {
                    done = done.push((pos + i) as nat);
                    assert(done.drop_last() =~= before);
                    assert(done + stride((pos + i + step) as nat, (pos + middle_end) as nat, step as nat)
                        =~= before + stride((pos + i) as nat, (pos + middle_end) as nat, step as nat));
                }
                if middle_end - i <= step {
                    proof {
                        assert(stride((pos + i + step) as nat, (pos + middle_end) as nat, step as nat) =~= Seq::<nat>::empty());
                        assert(done =~= a + b);
                    }
                    break;
                }
                i += step;
            }
            proof {
                assert(done =~= a + b);
            }
        } else {
            proof {
                assert(b =~= Seq::<nat>::empty());
                assert(done =~= a + b);
            }
        }
        proof {
            assert(done + c =~= a + b + c);
        }
        let mut i = if middle_end > prefix_end { middle_end } else { prefix_end };
        while i < limit
            invariant
                self.wf(),
                self.cfg == cfg,
                self.window_size == win,
                cfg == old(self).cfg,
                win == old(self).window_size,
                n == data@.len(),
                c0 <= i <= limit,
                limit <= valid_len,
                valid_len == data@.len() - pos - 3,
                (self.hashes(), self.links()) == register_all(t0, data@, cfg, done, dfast),
                done + stride((pos + i) as nat, (pos + limit) as nat, 1) == a + b + c,
            decreases limit - i,
        {
            let ghost before = done;
            self.register(data, pos + i, dfast);
            proof {
                done = done.push((pos + i) as nat);
                assert(done.drop_last() =~= before);
                assert(done + stride((pos + i + 1) as nat, (pos + limit) as nat, 1)
                    =~= before + stride((pos + i) as nat, (pos + limit) as nat, 1));
            }
            i += 1;
        }
        proof {
            assert(done =~= a + b + c);
        }
    }

    /// Register positions inside a matched run so the tables stay current:
    /// the first and last 8 densely, the middle sparsely.
    ///
    /// `data` should end where the current block ends.
    pub fn skip(&mut self, data: &[u8], pos: usize, length: usize)
        requires
            old(self).wf(),
        ensures
            final(self).wf(),
            final(self).config() == old(self).config(),
            final(self).window() == old(self).window(),
            (final(self).hashes(), final(self).links()) == register_all((old(self).hashes(), old(self).links()), data@,
                old(self).config(), skip_positions(pos as nat, length as nat, data@.len()), false),
    {
        self.register_run(data, pos, length, false);
    }

    fn insert_dfast_position(&mut self, data: &[u8], pos: usize)
        requires
            old(self).wf(),
            pos + 4 <= data@.len(),
        ensures
            final(self).wf(),
            final(self).config() == old(self).config(),
            final(self).window() == old(self).window(),
            (final(self).hashes(), final(self).links())
                == register_effect((old(self).hashes(), old(self).links()), data@, old(self).config(), pos as nat, true),
    {
        let bytes4 = load_u32(data, pos);
        let h_short = self.hash4_value(bytes4);
        self.hash_table.set(h_short, pos as u32);
        if data.len() - pos >= 8 {
            let h_long = self.hash8_value(load_u64(data, pos));
            self.chain.set(h_long, pos as u32);
        }
    }

    /// Double-fast reinsertion for matched runs, into both hash tables.
    pub fn skip_dfast(&mut self, data: &[u8], pos: usize, length: usize)
        requires
            old(self).wf(),
        ensures
            final(self).wf(),
            final(self).config() == old(self).config(),
            final(self).window() == old(self).window(),
            (final(self).hashes(), final(self).links()) == register_all((old(self).hashes(), old(self).links()), data@,
                old(self).config(), skip_positions(pos as nat, length as nat, data@.len()), true),
    {
        self.register_run(data, pos, length, true);
    }

    /// Seed a few positions skipped after a miss, so that stepping over a
    /// long literal run does not leave the next probe blind.
    fn skip_dfast_miss_positions(&mut self, data: &[u8], pos: usize, step: usize)
        requires
            old(self).wf(),
        ensures
            final(self).wf(),
            final(self).config() == old(self).config(),
            final(self).window() == old(self).window(),
            (final(self).hashes(), final(self).links()) == register_all((old(self).hashes(), old(self).links()), data@,
                old(self).config(), miss_positions(pos as nat, step as nat, data@.len()), true),
    {
        if step <= 1 {
            return;
        }
        if pos > data.len() || data.len() - pos < 4 {
            return;
        }
        let n = data.len();
        let valid_len = data.len() - pos - 3;
        let limit = if step < valid_len { step } else { valid_len };
        if limit <= 1 {
            return;
        }
        let last = limit - 1;
        let ghost t0 = (self.hashes(), self.links());
        let ghost cfg = self.cfg;
        let ghost p1 = (pos + last) as nat;
        self.insert_dfast_position(data, pos + last);
        let ghost t1 = (self.hashes(), self.links());
        proof {
            let one = seq![p1];
            assert(one.drop_last() =~= Seq::<nat>::empty());
            assert(register_all(t0, data@, cfg, Seq::<nat>::empty(), true) == t0);
            assert(one.last() == p1);
            assert(register_all(t0, data@, cfg, one, true) == register_effect(t0, data@, cfg, p1, true));
        }
        if limit >= 8 {
            let ghost p2 = (pos + last / 2) as nat;
            self.insert_dfast_position(data, pos + last / 2);
            proof {
                let ps = seq![p1, p2];
                assert(ps.drop_last() =~= seq![p1]);
                assert(ps.last() == p2);
                assert(register_all(t0, data@, cfg, ps, true) == register_effect(t1, data@, cfg, p2, true));
                assert(miss_positions(pos as nat, step as nat, data@.len()) == ps);
            }
        } else {
            proof {
                assert(miss_positions(pos as nat, step as nat, data@.len()) == seq![p1]);
            }
        }
    }
}

// ---------------------------------------------------------------------------
// Events
// ---------------------------------------------------------------------------

/// A parsed event of the LZ77 pass.
#[derive(Debug, Clone, Copy)]
pub enum Event {
    /// Literal bytes `start..end` to be emitted as they are.
    Literals(usize, usize),
    /// A back-reference.
    Match { pos: usize, offset: usize, length: usize },
}

/// Where events that tile `data` from `start` on end: each event starts
/// where the previous one ended, literal runs are not empty, and each match
/// is a genuine repeat within `window`; `None` when the events do not tile.
pub open spec fn tiles(events: Seq<Event>, data: Seq<u8>, window: nat, start: nat) -> Option<nat>
    decreases events.len(),
{
    if events.len() == 0 {
        Some(start)
    } else {
        match tiles(events.drop_last(), data, window, start) {
            None => None,
            Some(c) => match events.last() {
                Event::Literals(s, e) => if s == c && s < e && e <= data.len() {
                    Some(e as nat)
                } else {
                    None
                },
                Event::Match { pos, offset, length } => if pos == c && length >= 1 && offset <= window
                    && valid_match(data, pos as nat, offset as nat, length as nat) {
                    Some((pos + length) as nat)
                } else {
                    None
                },
            },
        }
    }
}

/// The bytes a decoder rebuilds from `events` after `buf`: literal runs are
/// read from `data`, matches copied from what was rebuilt.
pub open spec fn replay(events: Seq<Event>, data: Seq<u8>, buf: Seq<u8>) -> Seq<u8>
    decreases events.len(),
{
    if events.len() == 0 {
        buf
    } else {
        let b = replay(events.drop_last(), data, buf);
        match events.last() {
            Event::Literals(s, e) => b + data.subrange(s as int, e as int),
            Event::Match { pos, offset, length } => copy_match(b, offset as nat, length as nat),
        }
    }
}

proof fn lemma_copy_valid(data: Seq<u8>, c: nat, offset: nat, n: nat, length: nat)
    requires
        valid_match(data, c, offset, length),
        n <= length,
    ensures
        copy_match(data.take(c as int), offset, n) == data.take((c + n) as int),
    decreases n,
{
    if n > 0 {
        lemma_copy_valid(data, c, offset, (n - 1) as nat, length);
        let b = data.take((c + n - 1) as int);
        assert(data[c - offset + (n - 1)] == data[c + (n - 1)]);
        assert(b.push(b[b.len() - offset]) =~= data.take((c + n) as int));
    }
}

/// Law: events that tile `data` from `start` to `end` rebuild `data` up to
/// `end` from its first `start` bytes.
pub proof fn lemma_replay_tiles(events: Seq<Event>, data: Seq<u8>, window: nat, start: nat)
    requires
        start <= data.len(),
        tiles(events, data, window, start) is Some,
    ensures
        tiles(events, data, window, start).unwrap() <= data.len(),
        replay(events, data, data.take(start as int)) == data.take(tiles(events, data, window, start).unwrap() as int),
    decreases events.len(),
{
    if events.len() > 0 {
        lemma_replay_tiles(events.drop_last(), data, window, start);
        let c = tiles(events.drop_last(), data, window, start).unwrap();
        match events.last() {
            Event::Literals(s, e) => {
                assert(data.take(c as int) + data.subrange(s as int, e as int) =~= data.take(e as int));
            },
            Event::Match { pos, offset, length } => {
                lemma_copy_valid(data, c, offset as nat, length as nat, length as nat);
            },
        }
    }
}

proof fn lemma_tiles_push(events: Seq<Event>, e: Event, data: Seq<u8>, window: nat, start: nat)
    ensures
        tiles(events.push(e), data, window, start) == match tiles(events, data, window, start) {
            None => None,
            Some(c) => match e {
                Event::Literals(s, t) => if s == c && s < t && t <= data.len() {
                    Some(t as nat)
                } else {
                    None
                },
                Event::Match { pos, offset, length } => if pos == c && length >= 1 && offset <= window
                    && valid_match(data, pos as nat, offset as nat, length as nat) {
                    Some((pos + length) as nat)
                } else {
                    None
                },
            },
        },
{
    assert(events.push(e).drop_last() =~= events);
}

/// Whether every literal run ends within `n` bytes, and every match stays
/// within them and within `window`.
pub open spec fn events_within(events: Seq<Event>, n: nat, window: nat) -> bool {
    forall|k: int| 0 <= k < events.len() ==> match #[trigger] events[k] {
        Event::Literals(s, e) => s <= e <= n,
        Event::Match { pos, offset, length } => offset <= window && pos + length <= n,
    }
}

/// Events that tile `data` stay within it.
pub proof fn lemma_tiles_within(events: Seq<Event>, data: Seq<u8>, window: nat, start: nat, n: nat, bound: nat)
    requires
        tiles(events, data, window, start) is Some,
        data.len() <= n,
        window <= bound,
    ensures
        events_within(events, n, bound),
    decreases events.len(),
{
    if events.len() > 0 {
        lemma_tiles_within(events.drop_last(), data, window, start, n, bound);
        assert forall|k: int| 0 <= k < events.len() implies match #[trigger] events[k] {
            Event::Literals(s, e) => s <= e <= n,
            Event::Match { pos, offset, length } => offset <= bound && pos + length <= n,
        } by {
            if k < events.len() - 1 {
                assert(events[k] == events.drop_last()[k]);
            }
        }
    }
}

/// A receiver of parse events.
pub trait ParseSink {
    /// The events the sink has been handed so far, in order.
    spec fn received(&self) -> Seq<Event>;

    /// Hand the sink the literal run `start..end`.
    fn literals(&mut self, start: usize, end: usize)
        ensures
            final(self).received() == old(self).received().push(Event::Literals(start, end)),
    ;

    /// Hand the sink a match of `length` bytes at `pos`, `offset` back.
    fn matched(&mut self, pos: usize, offset: usize, length: usize)
        ensures
            final(self).received() == old(self).received().push(Event::Match { pos, offset, length }),
    ;
}

impl ParseSink for Vec<Event> {
    /// A vector of events holds the events it was handed.
    open spec fn received(&self) -> Seq<Event> {
        self@
    }

    fn literals(&mut self, start: usize, end: usize) {
        self.push(Event::Literals(start, end));
    }

    fn matched(&mut self, pos: usize, offset: usize, length: usize) {
        self.push(Event::Match { pos, offset, length });
    }
}

/// Append a literal run `s..e` that continues the tiling.
fn push_literals(events: &mut Vec<Event>, s: usize, e: usize, Ghost(data): Ghost<Seq<u8>>, Ghost(window): Ghost<nat>, Ghost(start): Ghost<nat>)
    requires
        tiles(old(events)@, data, window, start) == Some(s as nat),
        s < e <= data.len(),
    ensures
        tiles(final(events)@, data, window, start) == Some(e as nat),
        final(events)@ == old(events)@.push(Event::Literals(s, e)),
{
    proof {
        lemma_tiles_push(old(events)@, Event::Literals(s, e), data, window, start);
    }
    events.push(Event::Literals(s, e));
}

/// Append a match at `pos` that continues the tiling.
fn push_match(events: &mut Vec<Event>, pos: usize, m: Match, Ghost(data): Ghost<Seq<u8>>, Ghost(window): Ghost<nat>, Ghost(start): Ghost<nat>)
    requires
        tiles(old(events)@, data, window, start) == Some(pos as nat),
        valid_match(data, pos as nat, m.offset as nat, m.length as nat),
        m.length >= 1,
        m.offset <= window,
    ensures
        tiles(final(events)@, data, window, start) == Some((pos + m.length) as nat),
        final(events)@ == old(events)@.push(Event::Match { pos, offset: m.offset, length: m.length }),
{
    proof {
        lemma_tiles_push(old(events)@, Event::Match { pos, offset: m.offset, length: m.length }, data, window, start);
    }
    events.push(Event::Match { pos, offset: m.offset, length: m.length });
}

// ---------------------------------------------------------------------------
// Parsers
// ---------------------------------------------------------------------------

/// Greedy parsing: take the match found at each position.
fn parse_ranges_greedy(full_data: &[u8], start: usize, end: usize, finder: &mut MatchFinder) -> (events: Vec<Event>)
    requires
        old(finder).wf(),
        start <= end <= full_data@.len(),
    ensures
        final(finder).wf(),
        final(finder).config() == old(finder).config(),
        final(finder).window() == old(finder).window(),
        tiles(events@, full_data@.subrange(0, end as int), old(finder).window(), start as nat) == Some(end as nat),
        (events@, (final(finder).hashes(), final(finder).links())) == greedy_parse(old(finder).config(), old(finder).window(),
            full_data@.subrange(0, end as int), start as nat, start as nat, (old(finder).hashes(), old(finder).links()), Seq::empty()),
{
    let data = &full_data[0..end];
    let ghost d = data@;
    let ghost w = finder.window();
    let ghost cfg = finder.config();
    let ghost whole = greedy_parse(cfg, w, d, start as nat, start as nat, (finder.hashes(), finder.links()), Seq::empty());
    let min_match = finder.cfg.min_match;
    let mut events: Vec<Event> = Vec::new();
    let mut pos = start;
    let mut lit_start = start;
    while pos < end && end - pos >= 4
        invariant
            finder.wf(),
            finder.config() == old(finder).config(),
            finder.window() == w,
            w == old(finder).window(),
            min_match == finder.cfg.min_match,
            data@ == d,
            d.len() == end,
            start <= lit_start <= pos <= end,
            tiles(events@, d, w, start as nat) == Some(lit_start as nat),
            cfg == old(finder).config(),
            whole == greedy_parse(old(finder).config(), old(finder).window(), d, start as nat, start as nat,
                (old(finder).hashes(), old(finder).links()), Seq::empty()),
            greedy_parse(cfg, w, d, pos as nat, lit_start as nat, (finder.hashes(), finder.links()), events@) == whole,
        decreases end - pos,
    {
        match finder.find_match(data, pos) {
            Some(m) => {
                if pos > lit_start {
                    push_literals(&mut events, lit_start, pos, Ghost(d), Ghost(w), Ghost(start as nat));
                }
                push_match(&mut events, pos, m, Ghost(d), Ghost(w), Ghost(start as nat));
                proof {
                    assert(advance(m) == m.length);
                }
                finder.skip(data, pos + 1, m.length - 1);
                pos += m.length;
                lit_start = pos;
            },
            None => {
                pos += 1;
            },
        }
    }
    if lit_start < end {
        push_literals(&mut events, lit_start, end, Ghost(d), Ghost(w), Ghost(start as nat));
    }
    events
}

/// Fast parsing: one hash lookup per position; after a miss the step grows
/// with the distance from the last match, and skipped positions are not
/// inserted.
fn parse_ranges_fast(full_data: &[u8], start: usize, end: usize, finder: &mut MatchFinder) -> (events: Vec<Event>)
    requires
        old(finder).wf(),
        start <= end <= full_data@.len(),
    ensures
        final(finder).wf(),
        final(finder).config() == old(finder).config(),
        final(finder).window() == old(finder).window(),
        tiles(events@, full_data@.subrange(0, end as int), old(finder).window(), start as nat) == Some(end as nat),
        (events@, (final(finder).hashes(), final(finder).links())) == fast_parse(old(finder).config(), old(finder).window(),
            full_data@.subrange(0, end as int), start as nat, start as nat, (old(finder).hashes(), old(finder).links()), Seq::empty()),
{
    let data = &full_data[0..end];
    let ghost d = data@;
    let ghost w = finder.window();
    let ghost cfg = finder.config();
    let ghost whole = fast_parse(cfg, w, d, start as nat, start as nat, (finder.hashes(), finder.links()), Seq::empty());
    let search_log = finder.cfg.search_log;
    let mut events: Vec<Event> = Vec::new();
    let mut pos = start;
    let mut lit_start = start;
    while pos < end && end - pos >= 4
        invariant
            finder.wf(),
            finder.config() == old(finder).config(),
            finder.window() == w,
            w == old(finder).window(),
            search_log <= 30,
            search_log == cfg.search_log,
            data@ == d,
            d.len() == end,
            start <= lit_start <= pos <= end,
            tiles(events@, d, w, start as nat) == Some(lit_start as nat),
            cfg == old(finder).config(),
            whole == fast_parse(old(finder).config(), old(finder).window(), d, start as nat, start as nat,
                (old(finder).hashes(), old(finder).links()), Seq::empty()),
            fast_parse(cfg, w, d, pos as nat, lit_start as nat, (finder.hashes(), finder.links()), events@) == whole,
        decreases end - pos,
    {
        let ghost t0 = (finder.hashes(), finder.links());
        let ghost ev0 = events@;
        let ghost pos0 = pos as nat;
        let ghost ls0 = lit_start as nat;
        proof {
            lemma_pow2_pos(cfg.search_log as nat);
        }
        match finder.lookup_fast(data, pos) {
            Some(m) => {
                if lit_start < pos {
                    push_literals(&mut events, lit_start, pos, Ghost(d), Ghost(w), Ghost(start as nat));
                }
                push_match(&mut events, pos, m, Ghost(d), Ghost(w), Ghost(start as nat));
                proof {
                    assert(advance(m) == m.length);
                }
                pos += m.length;
                lit_start = pos;
            },
            None => {
                let gap = pos - lit_start;
                assert(gap >> search_log <= gap) by (bit_vector);
                let step = 1 + (gap >> search_log);
                proof {
                    vstd::bits::lemma_usize_shr_is_div(gap, search_log);
                }
                proof {
                    assert(step as nat == miss_step(cfg, pos0, ls0));
                }
                if step >= end - pos {
                    pos = end;
                } else {
                    pos += step;
                }
                proof {
                    let t1 = lookup_fast_model(cfg, w, t0, d, pos0).1;
                    assert(fast_parse(cfg, w, d, pos0, ls0, t0, ev0) == fast_parse(cfg, w, d, pos as nat, ls0,
                        t1, ev0));
                }
            },
        }
    }
    if lit_start < end {
        push_literals(&mut events, lit_start, end, Ghost(d), Ghost(w), Ghost(start as nat));
    }
    events
}

/// Double-fast parsing: the long hash first, then the short one, with the
/// same growing step after a miss.
fn parse_ranges_dfast(full_data: &[u8], start: usize, end: usize, finder: &mut MatchFinder) -> (events: Vec<Event>)
    requires
        old(finder).wf(),
        start <= end <= full_data@.len(),
    ensures
        final(finder).wf(),
        final(finder).config() == old(finder).config(),
        final(finder).window() == old(finder).window(),
        tiles(events@, full_data@.subrange(0, end as int), old(finder).window(), start as nat) == Some(end as nat),
        (events@, (final(finder).hashes(), final(finder).links())) == dfast_parse(old(finder).config(), old(finder).window(),
            full_data@.subrange(0, end as int), start as nat, start as nat, (old(finder).hashes(), old(finder).links()), Seq::empty()),
{
    let data = &full_data[0..end];
    let ghost d = data@;
    let ghost w = finder.window();
    let ghost cfg = finder.config();
    let ghost whole = dfast_parse(cfg, w, d, start as nat, start as nat, (finder.hashes(), finder.links()), Seq::empty());
    let search_log = finder.cfg.search_log;
    let mut events: Vec<Event> = Vec::new();
    let mut pos = start;
    let mut lit_start = start;
    while pos < end && end - pos >= 4
        invariant
            finder.wf(),
            finder.config() == old(finder).config(),
            finder.window() == w,
            w == old(finder).window(),
            search_log <= 30,
            search_log == cfg.search_log,
            data@ == d,
            d.len() == end,
            start <= lit_start <= pos <= end,
            tiles(events@, d, w, start as nat) == Some(lit_start as nat),
            cfg == old(finder).config(),
            whole == dfast_parse(old(finder).config(), old(finder).window(), d, start as nat, start as nat,
                (old(finder).hashes(), old(finder).links()), Seq::empty()),
            dfast_parse(cfg, w, d, pos as nat, lit_start as nat, (finder.hashes(), finder.links()), events@) == whole,
        decreases end - pos,
    {
        let ghost t0 = (finder.hashes(), finder.links());
        let ghost ev0 = events@;
        let ghost pos0 = pos as nat;
        let ghost ls0 = lit_start as nat;
        proof {
            lemma_pow2_pos(cfg.search_log as nat);
        }
        match finder.lookup_dfast(data, pos) {
            Some(m) => {
                if lit_start < pos {
                    push_literals(&mut events, lit_start, pos, Ghost(d), Ghost(w), Ghost(start as nat));
                }
                push_match(&mut events, pos, m, Ghost(d), Ghost(w), Ghost(start as nat));
                proof {
                    assert(advance(m) == m.length);
                }
                finder.skip_dfast(data, pos + 1, m.length - 1);
                pos += m.length;
                lit_start = pos;
            },
            None => {
                let gap = pos - lit_start;
                assert(gap >> search_log <= gap) by (bit_vector);
                let step = 1 + (gap >> search_log);
                proof {
                    vstd::bits::lemma_usize_shr_is_div(gap, search_log);
                }
                finder.skip_dfast_miss_positions(data, pos, step);
                proof {
                    assert(step as nat == miss_step(cfg, pos0, ls0));
                }
                if step >= end - pos {
                    pos = end;
                } else {
                    pos += step;
                }
                proof {
                    let t1 = lookup_dfast_model(cfg, w, t0, d, pos0).1;
                    assert(dfast_parse(cfg, w, d, pos0, ls0, t0, ev0) == dfast_parse(cfg, w, d, pos as nat, ls0,
                        register_all(t1, d, cfg, miss_positions(pos0, step as nat, d.len()), true), ev0));
                }
            },
        }
    }
    if lit_start < end {
        push_literals(&mut events, lit_start, end, Ghost(d), Ghost(w), Ghost(start as nat));
    }
    events
}

/// The positions seeded after a miss that makes the double-fast parser
/// step `step` bytes ahead: the last one stepped over and, for a step of
/// 8 or more, the one halfway.
pub open spec fn miss_positions(pos: nat, step: nat, n: nat) -> Seq<nat> {
    if step <= 1 || pos > n || n - pos < 4 {
        Seq::empty()
    } else {
        let valid_len = (n - pos - 3) as nat;
        let limit = if step < valid_len { step } else { valid_len };
        if limit <= 1 {
            Seq::empty()
        } else if limit >= 8 {
            seq![(pos + limit - 1) as nat, (pos + (limit - 1) / 2) as nat]
        } else {
            seq![(pos + limit - 1) as nat]
        }
    }
}

/// A match's length as a parser advances by it (a match is never empty).
pub open spec fn advance(m: Match) -> nat {
    if m.length > 0 { m.length as nat } else { 1 }
}

/// The events a parser adds for a match at `pos`, after the literals
/// pending since `lit_start`.
pub open spec fn with_match(events: Seq<Event>, lit_start: nat, pos: nat, m: Match) -> Seq<Event> {
    (if pos > lit_start { events.push(Event::Literals(lit_start as usize, pos as usize)) } else { events })
        .push(Event::Match { pos: pos as usize, offset: m.offset, length: m.length })
}

/// The events when parsing ends, with the literals still pending.
pub open spec fn with_tail(events: Seq<Event>, lit_start: nat, end: nat) -> Seq<Event> {
    if lit_start < end { events.push(Event::Literals(lit_start as usize, end as usize)) } else { events }
}

/// The distance left to parse.
pub open spec fn left(data: Seq<u8>, pos: nat) -> nat {
    if pos < data.len() { (data.len() - pos) as nat } else { 0 }
}

/// Greedy parsing of `data` from `pos` on: at each position the chain's
/// best match is taken, and the positions inside it are registered; a miss
/// moves one byte on.  Gives the events added to `events` and the tables.
pub open spec fn greedy_parse(cfg: MatchConfig, window: nat, data: Seq<u8>, pos: nat, lit_start: nat, t: (Seq<u32>, Seq<u32>),
    events: Seq<Event>) -> (Seq<Event>, (Seq<u32>, Seq<u32>))
    decreases left(data, pos),
{
    if pos < data.len() && data.len() - pos >= 4 {
        let (r, t1) = find_match_model(cfg, window, t, data, pos);
        match r {
            Some(m) => greedy_parse(cfg, window, data, pos + advance(m), pos + advance(m),
                register_all(t1, data, cfg, skip_positions(pos + 1, (m.length - 1) as nat, data.len()), false),
                with_match(events, lit_start, pos, m)),
            None => greedy_parse(cfg, window, data, pos + 1, lit_start, t1, events),
        }
    } else {
        (with_tail(events, lit_start, data.len()), t)
    }
}

/// Where a fast or double-fast parser goes after a miss at `pos`: a step
/// of one more than the distance from `lit_start` divided by
/// `2^search_log`, at most to the end.
pub open spec fn miss_step(cfg: MatchConfig, pos: nat, lit_start: nat) -> nat {
    1 + (pos - lit_start) as nat / pow2(cfg.search_log as nat)
}

/// Fast parsing of `data` from `pos` on: one hash lookup per position, no
/// registration inside matches, growing steps after misses.
pub open spec fn fast_parse(cfg: MatchConfig, window: nat, data: Seq<u8>, pos: nat, lit_start: nat, t: (Seq<u32>, Seq<u32>),
    events: Seq<Event>) -> (Seq<Event>, (Seq<u32>, Seq<u32>))
    decreases left(data, pos),
{
    if pos < data.len() && data.len() - pos >= 4 {
        let (r, t1) = lookup_fast_model(cfg, window, t, data, pos);
        match r {
            Some(m) => fast_parse(cfg, window, data, pos + advance(m), pos + advance(m), t1, with_match(events, lit_start, pos, m)),
            None => {
                let step = miss_step(cfg, pos, lit_start);
                let next = if step >= data.len() - pos { data.len() } else { pos + step };
                proof {
                    lemma_pow2_pos(cfg.search_log as nat);
                    assert(step >= 1);
                    assert(left(data, next) < left(data, pos));
                }
                fast_parse(cfg, window, data, next, lit_start, t1, events)
            },
        }
    } else {
        (with_tail(events, lit_start, data.len()), t)
    }
}

/// Double-fast parsing of `data` from `pos` on: the long then the short
/// hash table, the positions inside a match registered in both, and a few
/// positions seeded after each miss.
pub open spec fn dfast_parse(cfg: MatchConfig, window: nat, data: Seq<u8>, pos: nat, lit_start: nat, t: (Seq<u32>, Seq<u32>),
    events: Seq<Event>) -> (Seq<Event>, (Seq<u32>, Seq<u32>))
    decreases left(data, pos),
{
    if pos < data.len() && data.len() - pos >= 4 {
        let (r, t1) = lookup_dfast_model(cfg, window, t, data, pos);
        match r {
            Some(m) => dfast_parse(cfg, window, data, pos + advance(m), pos + advance(m),
                register_all(t1, data, cfg, skip_positions(pos + 1, (m.length - 1) as nat, data.len()), true),
                with_match(events, lit_start, pos, m)),
            None => {
                let step = miss_step(cfg, pos, lit_start);
                let next = if step >= data.len() - pos { data.len() } else { pos + step };
                proof {
                    lemma_pow2_pos(cfg.search_log as nat);
                    assert(step >= 1);
                    assert(left(data, next) < left(data, pos));
                }
                dfast_parse(cfg, window, data, next, lit_start,
                    register_all(t1, data, cfg, miss_positions(pos, step, data.len()), true), events)
            },
        }
    } else {
        (with_tail(events, lit_start, data.len()), t)
    }
}

/// The lookahead of lazy parsing after a match `best` at `best_pos`: the
/// positions `pos + la` up to `pos + max_la` (while 4 bytes are left) are
/// searched; a match reaching `target_length` is taken at once, and one
/// preferred to the best replaces it.  Gives the tables, the best match,
/// its position and the last lookahead searched.
pub open spec fn lazy_lookahead(cfg: MatchConfig, window: nat, data: Seq<u8>, pos: nat, la: nat, max_la: nat,
    t: (Seq<u32>, Seq<u32>), best: Match, best_pos: nat, called: nat) -> ((Seq<u32>, Seq<u32>), Match, nat, nat)
    decreases if la <= max_la { (max_la + 1 - la) as nat } else { 0nat },
{
    if la > max_la || pos + la + 4 > data.len() {
        (t, best, best_pos, called)
    } else {
        let (r, t1) = find_match_model(cfg, window, t, data, pos + la);
        match r {
            Some(m) => if cfg.target_length > 0 && m.length >= cfg.target_length {
                (t1, m, pos + la, la)
            } else if spec_prefer(m, best) {
                lazy_lookahead(cfg, window, data, pos, la + 1, max_la, t1, m, pos + la, la)
            } else {
                lazy_lookahead(cfg, window, data, pos, la + 1, max_la, t1, best, best_pos, la)
            },
            None => lazy_lookahead(cfg, window, data, pos, la + 1, max_la, t1, best, best_pos, la),
        }
    }
}

/// Lazy parsing of `data` from `pos` on: a match found at a position is
/// compared with those at the next `max_la` positions before one is taken;
/// the positions inside it after the lookahead are registered.
pub open spec fn lazy_parse(cfg: MatchConfig, window: nat, data: Seq<u8>, max_la: nat, pos: nat, lit_start: nat,
    t: (Seq<u32>, Seq<u32>), events: Seq<Event>) -> (Seq<Event>, (Seq<u32>, Seq<u32>))
    decreases left(data, pos),
{
    if pos < data.len() && data.len() - pos >= 4 {
        let (r, t1) = find_match_model(cfg, window, t, data, pos);
        match r {
            None => lazy_parse(cfg, window, data, max_la, pos + 1, lit_start, t1, events),
            Some(m0) => if cfg.target_length > 0 && m0.length >= cfg.target_length {
                lazy_parse(cfg, window, data, max_la, pos + advance(m0), pos + advance(m0),
                    register_all(t1, data, cfg, skip_positions(pos + 1, (m0.length - 1) as nat, data.len()), false),
                    with_match(events, lit_start, pos, m0))
            } else {
                let (t2, best, bp, called) = lazy_lookahead(cfg, window, data, pos, 1, max_la, t1, m0, pos, 0);
                let skip_start = pos + called + 1;
                let match_end = bp + advance(best);
                let t3 = if skip_start < match_end {
                    register_all(t2, data, cfg, skip_positions(skip_start, (match_end - skip_start) as nat, data.len()), false)
                } else {
                    t2
                };
                let next = if match_end > pos { match_end } else { pos + 1 };
                lazy_parse(cfg, window, data, max_la, next, next, t3, with_match(events, lit_start, bp, best))
            },
        }
    } else {
        (with_tail(events, lit_start, data.len()), t)
    }
}

/// The two-position lookahead of binary-tree lazy parsing.
pub open spec fn bt_lookahead(cfg: MatchConfig, window: nat, data: Seq<u8>, pos: nat, la: nat,
    t: (Seq<u32>, Seq<u32>), best: Match, best_pos: nat) -> ((Seq<u32>, Seq<u32>), Match, nat)
    decreases if la <= 2 { (3 - la) as nat } else { 0nat },
{
    if la > 2 || pos + la + 4 > data.len() {
        (t, best, best_pos)
    } else {
        let (r, t1) = bt_find_model(cfg, window, t, data, pos + la);
        match r {
            Some(m) => if cfg.target_length > 0 && m.length >= cfg.target_length {
                (t1, m, pos + la)
            } else if spec_prefer(m, best) {
                bt_lookahead(cfg, window, data, pos, la + 1, t1, m, pos + la)
            } else {
                bt_lookahead(cfg, window, data, pos, la + 1, t1, best, best_pos)
            },
            None => bt_lookahead(cfg, window, data, pos, la + 1, t1, best, best_pos),
        }
    }
}

/// Binary-tree lazy parsing of `data` from `pos` on: every position is
/// inserted in its tree as it is searched, and a match is compared with
/// those at the next two positions.
pub open spec fn bt_lazy_parse(cfg: MatchConfig, window: nat, data: Seq<u8>, pos: nat, lit_start: nat,
    t: (Seq<u32>, Seq<u32>), events: Seq<Event>) -> (Seq<Event>, (Seq<u32>, Seq<u32>))
    decreases left(data, pos),
{
    if pos < data.len() && data.len() - pos >= 4 {
        let (r, t1) = bt_find_model(cfg, window, t, data, pos);
        match r {
            None => bt_lazy_parse(cfg, window, data, pos + 1, lit_start, t1, events),
            Some(m0) => if cfg.target_length > 0 && m0.length >= cfg.target_length {
                bt_lazy_parse(cfg, window, data, pos + advance(m0), pos + advance(m0), t1, with_match(events, lit_start, pos, m0))
            } else {
                let (t2, best, bp) = bt_lookahead(cfg, window, data, pos, 1, t1, m0, pos);
                let match_end = bp + advance(best);
                let next = if match_end > pos { match_end } else { pos + 1 };
                bt_lazy_parse(cfg, window, data, next, next, t2, with_match(events, lit_start, bp, best))
            },
        }
    } else {
        (with_tail(events, lit_start, data.len()), t)
    }
}

/// Every finder's window is at most `2^30`.
pub proof fn lemma_window_bound(f: MatchFinder)
    requires
        f.wf(),
    ensures
        f.window() <= 0x4000_0000,
{
    lemma2_to64();
    if f.cfg.window_log < 30 {
        lemma_pow2_strictly_increases(f.cfg.window_log as nat, 30);
    }
}

/// Number of bits of `x` (0 for 0).
pub open spec fn bit_len(x: nat) -> nat
    decreases x,
{
    if x == 0 {
        0
    } else {
        1 + bit_len(x / 2)
    }
}

pub proof fn lemma_bit_len_bound(x: nat, k: nat)
    requires
        x < pow2(k),
    ensures
        bit_len(x) <= k,
    decreases x,
{
    if x > 0 {
        if k == 0 {
            lemma2_to64();
        } else {
            lemma_pow2_unfold(k);
            lemma_bit_len_bound(x / 2, (k - 1) as nat);
        }
    }
}

/// Number of bits needed for an offset's code: the bit length of `offset + 3`.
fn offset_code_bits(offset: usize) -> (r: usize)
    requires
        offset <= usize::MAX - 3,
    ensures
        r == bit_len(offset as nat + 3),
        r <= 64,
{
    let raw = offset + 3;
    proof {
        lemma2_to64();
        lemma_bit_len_bound(raw as nat, 64);
    }
    let mut x = raw;
    let mut n: usize = 0;
    while x > 0
        invariant
            n + bit_len(x as nat) == bit_len(raw as nat),
            bit_len(raw as nat) <= 64,
        decreases x,
    {
        x = x / 2;
        n += 1;
    }
    n
}

/// Extra bits of the match-length code of `length` (an estimate, capped at 4).
pub open spec fn ml_extra_bits(length: nat) -> nat {
    if length <= 34 {
        0
    } else if length <= 66 {
        1
    } else if length <= 130 {
        2
    } else if length <= 258 {
        3
    } else {
        4
    }
}

fn match_length_extra_bits(length: usize) -> (r: u32)
    ensures
        r == ml_extra_bits(length as nat),
{
    if length <= 34 {
        0
    } else if length <= 66 {
        1
    } else if length <= 130 {
        2
    } else if length <= 258 {
        3
    } else {
        4
    }
}

/// Estimated bit cost of a match: sequence overhead, offset bits and
/// match-length extra bits.
pub open spec fn match_cost(offset: nat, length: nat) -> nat {
    16 + bit_len(offset + 3) + ml_extra_bits(length)
}

fn match_cost_bits(offset: usize, length: usize) -> (r: u32)
    requires
        offset <= usize::MAX - 3,
    ensures
        r == match_cost(offset as nat, length as nat),
        r <= 84,
{
    16 + offset_code_bits(offset) as u32 + match_length_extra_bits(length)
}

/// Whether `new` beats `old`: its length advantage, weighted four times,
/// outweighs the extra bits of its offset.
pub open spec fn spec_prefer(new: Match, old: Match) -> bool {
    4 * new.length > 4 * old.length + bit_len(new.offset as nat + 3) - bit_len(old.offset as nat + 3)
}

/// Returns true if `new` is preferable to `old`.
pub fn prefer_match(new: Match, old: Match) -> (r: bool)
    requires
        new.length <= 0x1000_0000,
        old.length <= 0x1000_0000,
        new.offset <= usize::MAX - 3,
        old.offset <= usize::MAX - 3,
    ensures
        r == spec_prefer(new, old),
{
    let new_bits = offset_code_bits(new.offset) as i64;
    let old_bits = offset_code_bits(old.offset) as i64;
    4 * (new.length as i64) > 4 * (old.length as i64) + (new_bits - old_bits)
}

/// Lazy parsing: look one (`Lazy`) or two (`Lazy2`) positions ahead before
/// committing to a match; a match of `target_length` or more is taken at once.
fn parse_ranges_lazy(full_data: &[u8], start: usize, end: usize, finder: &mut MatchFinder, max_lookahead: usize) -> (events: Vec<Event>)
    requires
        old(finder).wf(),
        start <= end <= full_data@.len(),
        max_lookahead <= 2,
    ensures
        final(finder).wf(),
        final(finder).config() == old(finder).config(),
        final(finder).window() == old(finder).window(),
        tiles(events@, full_data@.subrange(0, end as int), old(finder).window(), start as nat) == Some(end as nat),
        (events@, (final(finder).hashes(), final(finder).links())) == lazy_parse(old(finder).config(), old(finder).window(),
            full_data@.subrange(0, end as int), max_lookahead as nat, start as nat, start as nat,
            (old(finder).hashes(), old(finder).links()), Seq::empty()),
{
    let data = &full_data[0..end];
    let ghost d = data@;
    let ghost w = finder.window();
    let ghost cfg = finder.config();
    let target_length = finder.cfg.target_length;
    let ghost whole = lazy_parse(cfg, w, d, max_lookahead as nat, start as nat, start as nat, (finder.hashes(), finder.links()), Seq::empty());
    proof {
        lemma_window_bound(*finder);
    }
    let mut events: Vec<Event> = Vec::new();
    let mut pos = start;
    let mut lit_start = start;
    while pos < end && end - pos >= 4
        invariant
            finder.wf(),
            finder.config() == cfg,
            cfg == old(finder).config(),
            finder.window() == w,
            w == old(finder).window(),
            w <= 0x4000_0000,
            max_lookahead <= 2,
            data@ == d,
            d.len() == end,
            start <= lit_start <= pos <= end,
            tiles(events@, d, w, start as nat) == Some(lit_start as nat),
            target_length == cfg.target_length,
            whole == lazy_parse(old(finder).config(), old(finder).window(), d, max_lookahead as nat, start as nat, start as nat,
                (old(finder).hashes(), old(finder).links()), Seq::empty()),
            lazy_parse(cfg, w, d, max_lookahead as nat, pos as nat, lit_start as nat, (finder.hashes(), finder.links()), events@) == whole,
        decreases end - pos,
    {
        let ghost t0 = (finder.hashes(), finder.links());
        let ghost ev0 = events@;
        match finder.find_match(data, pos) {
            None => {
                pos += 1;
            },
            Some(m0) => {
                if target_length > 0 && m0.length >= target_length {
                    if lit_start < pos {
                        push_literals(&mut events, lit_start, pos, Ghost(d), Ghost(w), Ghost(start as nat));
                    }
                    push_match(&mut events, pos, m0, Ghost(d), Ghost(w), Ghost(start as nat));
                    proof {
                        assert(advance(m0) == m0.length);
                    }
                    finder.skip(data, pos + 1, m0.length - 1);
                    pos += m0.length;
                    lit_start = pos;
                } else {
                    let mut best = m0;
                    let mut best_pos = pos;
                    let mut lookahead_called: usize = 0;
                    let mut la: usize = 1;
                    let mut done = false;
                    let ghost t1 = (finder.hashes(), finder.links());
                    let ghost inner = lazy_lookahead(cfg, w, d, pos as nat, 1, max_lookahead as nat, t1, m0, pos as nat, 0);
                    while la <= max_lookahead && !done
                        invariant
                            (if done {
                                ((finder.hashes(), finder.links()), best, best_pos as nat, lookahead_called as nat)
                            } else {
                                lazy_lookahead(cfg, w, d, pos as nat, la as nat, max_lookahead as nat, (finder.hashes(), finder.links()),
                                    best, best_pos as nat, lookahead_called as nat)
                            }) == inner,
                            target_length == cfg.target_length,
                            lookahead_called < la,
                            finder.wf(),
                            finder.config() == cfg,
                            finder.window() == w,
                            w <= 0x4000_0000,
                            max_lookahead <= 2,
                            1 <= la <= 3,
                            lookahead_called <= 2,
                            data@ == d,
                            d.len() == end,
                            pos + 4 <= end,
                            pos <= best_pos <= pos + 2,
                            reportable(d, best_pos as nat, best, cfg, w),
                        decreases 4 - la - (if done { 1int } else { 0int }),
                    {
                        let la_pos = pos + la;
                        if end - la_pos < 4 {
                            done = true;
                        } else {
                            match finder.find_match(data, la_pos) {
                                Some(m) => {
                                    if target_length > 0 && m.length >= target_length {
                                        best = m;
                                        best_pos = la_pos;
                                        lookahead_called = la;
                                        done = true;
                                    } else {
                                        if prefer_match(m, best) {
                                            best = m;
                                            best_pos = la_pos;
                                        }
                                        lookahead_called = la;
                                    }
                                },
                                None => {
                                    lookahead_called = la;
                                },
                            }
                            la += 1;
                        }
                    }
                    proof {
                        assert(inner == ((finder.hashes(), finder.links()), best, best_pos as nat, lookahead_called as nat));
                    }
                    if lit_start < best_pos {
                        push_literals(&mut events, lit_start, best_pos, Ghost(d), Ghost(w), Ghost(start as nat));
                    }
                    push_match(&mut events, best_pos, best, Ghost(d), Ghost(w), Ghost(start as nat));
                    proof {
                        assert(advance(best) == best.length);
                    }
                    let skip_start = pos + lookahead_called + 1;
                    let match_end = best_pos + best.length;
                    if skip_start < match_end {
                        finder.skip(data, skip_start, match_end - skip_start);
                    }
                    pos = match_end;
                    lit_start = pos;
                }
            },
        }
    }
    if lit_start < end {
        push_literals(&mut events, lit_start, end, Ghost(d), Ghost(w), Ghost(start as nat));
    }
    events
}

/// Binary-tree parsing with two positions of lookahead; positions inside a
/// match are not inserted.
fn parse_ranges_bt_lazy2(full_data: &[u8], start: usize, end: usize, finder: &mut MatchFinder) -> (events: Vec<Event>)
    requires
        old(finder).wf(),
        is_bt(old(finder).config().strategy),
        start <= end <= full_data@.len(),
    ensures
        final(finder).wf(),
        final(finder).config() == old(finder).config(),
        final(finder).window() == old(finder).window(),
        tiles(events@, full_data@.subrange(0, end as int), old(finder).window(), start as nat) == Some(end as nat),
        (events@, (final(finder).hashes(), final(finder).links())) == bt_lazy_parse(old(finder).config(), old(finder).window(),
            full_data@.subrange(0, end as int), start as nat, start as nat, (old(finder).hashes(), old(finder).links()), Seq::empty()),
{
    let data = &full_data[0..end];
    let ghost d = data@;
    let ghost w = finder.window();
    let ghost cfg = finder.config();
    let target_length = finder.cfg.target_length;
    let ghost whole = bt_lazy_parse(cfg, w, d, start as nat, start as nat, (finder.hashes(), finder.links()), Seq::empty());
    proof {
        lemma_window_bound(*finder);
    }
    let mut events: Vec<Event> = Vec::new();
    let mut pos = start;
    let mut lit_start = start;
    while pos < end && end - pos >= 4
        invariant
            finder.wf(),
            finder.config() == cfg,
            cfg == old(finder).config(),
            is_bt(cfg.strategy),
            finder.window() == w,
            w == old(finder).window(),
            w <= 0x4000_0000,
            data@ == d,
            d.len() == end,
            start <= lit_start <= pos <= end,
            tiles(events@, d, w, start as nat) == Some(lit_start as nat),
            target_length == cfg.target_length,
            whole == bt_lazy_parse(old(finder).config(), old(finder).window(), d, start as nat, start as nat,
                (old(finder).hashes(), old(finder).links()), Seq::empty()),
            bt_lazy_parse(cfg, w, d, pos as nat, lit_start as nat, (finder.hashes(), finder.links()), events@) == whole,
        decreases end - pos,
    {
        match finder.bt_find_insert(data, pos) {
            None => {
                pos += 1;
            },
            Some(m0) => {
                if target_length > 0 && m0.length >= target_length {
                    if lit_start < pos {
                        push_literals(&mut events, lit_start, pos, Ghost(d), Ghost(w), Ghost(start as nat));
                    }
                    push_match(&mut events, pos, m0, Ghost(d), Ghost(w), Ghost(start as nat));
                    proof {
                        assert(advance(m0) == m0.length);
                    }
                    pos += m0.length;
                    lit_start = pos;
                } else {
                    let mut best = m0;
                    let mut best_pos = pos;
                    let mut la: usize = 1;
                    let mut done = false;
                    let ghost t1 = (finder.hashes(), finder.links());
                    let ghost inner = bt_lookahead(cfg, w, d, pos as nat, 1, t1, m0, pos as nat);
                    while la <= 2 && !done
                        invariant
                            (if done {
                                ((finder.hashes(), finder.links()), best, best_pos as nat)
                            } else {
                                bt_lookahead(cfg, w, d, pos as nat, la as nat, (finder.hashes(), finder.links()), best, best_pos as nat)
                            }) == inner,
                            target_length == cfg.target_length,
                            finder.wf(),
                            finder.config() == cfg,
                            is_bt(cfg.strategy),
                            finder.window() == w,
                            w <= 0x4000_0000,
                            1 <= la <= 3,
                            data@ == d,
                            d.len() == end,
                            pos + 4 <= end,
                            pos <= best_pos <= pos + 2,
                            reportable(d, best_pos as nat, best, cfg, w),
                        decreases 4 - la - (if done { 1int } else { 0int }),
                    {
                        let la_pos = pos + la;
                        if end - la_pos < 4 {
                            done = true;
                        } else {
                            match finder.bt_find_insert(data, la_pos) {
                                Some(m) => {
                                    if target_length > 0 && m.length >= target_length {
                                        best = m;
                                        best_pos = la_pos;
                                        done = true;
                                    } else if prefer_match(m, best) {
                                        best = m;
                                        best_pos = la_pos;
                                    }
                                },
                                None => {},
                            }
                            la += 1;
                        }
                    }
                    proof {
                        assert(inner == ((finder.hashes(), finder.links()), best, best_pos as nat));
                    }
                    if lit_start < best_pos {
                        push_literals(&mut events, lit_start, best_pos, Ghost(d), Ghost(w), Ghost(start as nat));
                    }
                    push_match(&mut events, best_pos, best, Ghost(d), Ghost(w), Ghost(start as nat));
                    proof {
                        assert(advance(best) == best.length);
                    }
                    pos = best_pos + best.length;
                    lit_start = pos;
                }
            },
        }
    }
    if lit_start < end {
        push_literals(&mut events, lit_start, end, Ghost(d), Ghost(w), Ghost(start as nat));
    }
    events
}

/// Chunk size for the optimal parser's dynamic programme.
pub const OPT_CHUNK_SIZE: usize = 512;

/// Whether the matches collected for a chunk starting at `base` are all
/// reportable where they stand.
pub open spec fn chunk_ok(chunk: Seq<Option<Match>>, base: nat, data: Seq<u8>, window: nat) -> bool {
    forall|i: int| 0 <= i < chunk.len() ==> match #[trigger] chunk[i] {
        Some(m) => valid_match(data, base + i as nat, m.offset as nat, m.length as nat) && m.offset <= window && m.length >= 1
            && m.length <= 0x1000_0000,
        None => true,
    }
}

/// Entry `k` of a backtracked path (built from the end) ends where entry
/// `k - 1` starts, or at `total` for the first entry; a literal entry
/// covers one position.
spec fn path_step_ok(pos: Seq<usize>, len: Seq<usize>, k: int, total: int) -> bool {
    pos[k] + (if len[k] == 0 { 1 } else { len[k] as int }) == (if k == 0 { total } else { pos[k - 1] as int })
}

/// The relaxations of the match `m` found at chunk position `i`, reached
/// at price `p`: each length from `len` up to `max_len` offers position
/// `i + len` the price `p + match_cost`, taken when lower.  Gives the
/// prices and, per position, the length and offset it was last reached by.
pub open spec fn relax_match(p: nat, i: nat, m: Match, len: nat, max_len: nat, price: Seq<u32>, fl: Seq<usize>, fo: Seq<usize>)
    -> (Seq<u32>, Seq<usize>, Seq<usize>)
    decreases if len <= max_len { (max_len + 1 - len) as nat } else { 0nat },
{
    if len > max_len {
        (price, fl, fo)
    } else {
        let mp = p + match_cost(m.offset as nat, len);
        if mp < price[(i + len) as int] {
            relax_match(p, i, m, len + 1, max_len, price.update((i + len) as int, mp as u32), fl.update((i + len) as int, len as usize),
                fo.update((i + len) as int, m.offset))
        } else {
            relax_match(p, i, m, len + 1, max_len, price, fl, fo)
        }
    }
}

/// The price a position not yet reached holds.
pub open spec fn unpriced() -> u32 {
    0x7FFF_FFFF
}

/// The programme's start over a chunk of `n` positions: position 0 costs
/// nothing, every other position is unpriced, and no step is recorded.
pub open spec fn dp_init(n: nat) -> (Seq<u32>, Seq<usize>, Seq<usize>) {
    (Seq::new(n + 1, |k: int| if k == 0 { 0u32 } else { unpriced() }), Seq::new(n + 1, |k: int| 0usize), Seq::new(n + 1, |k: int| 0usize))
}

/// The cheapest-path programme over a chunk, from position `i` on: from
/// each reached position a literal (8 bits) and every allowed length of
/// its match relax the positions they reach.
pub open spec fn chunk_prices(chunk: Seq<Option<Match>>, min_match: nat, i: nat, price: Seq<u32>, fl: Seq<usize>, fo: Seq<usize>)
    -> (Seq<u32>, Seq<usize>, Seq<usize>)
    decreases if i < chunk.len() { (chunk.len() - i) as nat } else { 0nat },
{
    if i >= chunk.len() {
        (price, fl, fo)
    } else {
        let p = price[i as int];
        if p == unpriced() {
            chunk_prices(chunk, min_match, i + 1, price, fl, fo)
        } else {
            let lp = p + 8;
            let q = i + 1int;
            let pr1 = if lp < price[q] { price.update(q, lp as u32) } else { price };
            let fl1 = if lp < price[q] { fl.update(q, 0usize) } else { fl };
            let fo1 = if lp < price[q] { fo.update(q, 0usize) } else { fo };
            match chunk[i as int] {
                Some(m) => {
                    let room = (chunk.len() - i) as nat;
                    let max_len = if (m.length as nat) < room { m.length as nat } else { room };
                    let r = relax_match(p as nat, i, m, min_match, max_len, pr1, fl1, fo1);
                    chunk_prices(chunk, min_match, i + 1, r.0, r.1, r.2)
                },
                None => chunk_prices(chunk, min_match, i + 1, pr1, fl1, fo1),
            }
        }
    }
}

/// The path back from chunk position `cur` along the recorded steps, as
/// (start, length, offset) entries from the last step back; length 0 is a
/// literal.
pub open spec fn chunk_path(fl: Seq<usize>, fo: Seq<usize>, cur: nat, acc: Seq<(usize, usize, usize)>) -> Seq<(usize, usize, usize)>
    decreases cur,
{
    if cur == 0 {
        acc
    } else {
        let len = fl[cur as int] as nat;
        if len == 0 || len > cur {
            chunk_path(fl, fo, (cur - 1) as nat, acc.push(((cur - 1) as usize, 0usize, 0usize)))
        } else {
            chunk_path(fl, fo, (cur - len) as nat, acc.push(((cur - len) as usize, len as usize, fo[cur as int])))
        }
    }
}

/// The events of the first `k` entries of a path (entries from the last
/// step back, so emitted from entry `k - 1` down): each match after the
/// literals pending since `lit_start`.  Gives the events and where the
/// pending literals then start.
pub open spec fn emit_path(path: Seq<(usize, usize, usize)>, k: nat, base: nat, lit_start: nat, events: Seq<Event>) -> (Seq<Event>, nat)
    decreases k,
{
    if k == 0 {
        (events, lit_start)
    } else {
        let e = path[k - 1];
        if e.1 > 0 {
            let abs = (base + e.0) as nat;
            emit_path(path, (k - 1) as nat, base, abs + e.1 as nat, with_match(events, lit_start, abs,
                Match { offset: e.2, length: e.1 }))
        } else {
            emit_path(path, (k - 1) as nat, base, lit_start, events)
        }
    }
}

/// What flushing a chunk gives: the events of its cheapest path appended
/// to `events`, and where the pending literals start.
pub open spec fn flush_model(chunk: Seq<Option<Match>>, base: nat, min_match: nat, events: Seq<Event>, lit_start: nat) -> (Seq<Event>, nat) {
    if chunk.len() == 0 {
        (events, lit_start)
    } else {
        let start = dp_init(chunk.len());
        let dp = chunk_prices(chunk, min_match, 0, start.0, start.1, start.2);
        let path = chunk_path(dp.1, dp.2, chunk.len(), Seq::empty());
        emit_path(path, path.len(), base, lit_start, events)
    }
}

/// Optimal parsing of `data` from `pos` on: each position is searched in
/// its tree and its match collected into the current chunk (which starts
/// at `chunk_start`); a chunk is priced and flushed when it is full, before
/// a match that reaches `target_length` (taken at once), and at the end.
pub open spec fn opt_parse(cfg: MatchConfig, window: nat, data: Seq<u8>, pos: nat, lit_start: nat, chunk: Seq<Option<Match>>,
    chunk_start: nat, t: (Seq<u32>, Seq<u32>), events: Seq<Event>) -> (Seq<Event>, (Seq<u32>, Seq<u32>))
    decreases left(data, pos),
{
    if pos < data.len() && data.len() - pos >= 4 {
        let (r, t1) = bt_find_model(cfg, window, t, data, pos);
        if r is Some && cfg.target_length > 0 && r->0.length >= cfg.target_length {
            let mm = r->0;
            let (ev1, ls1) = flush_model(chunk, chunk_start, cfg.min_match as nat, events, lit_start);
            let next = pos + advance(mm);
            opt_parse(cfg, window, data, next, next, Seq::empty(), next, t1, with_match(ev1, ls1, pos, mm))
        } else {
            let ch = chunk.push(r);
            if ch.len() >= OPT_CHUNK_SIZE {
                let (ev1, ls1) = flush_model(ch, chunk_start, cfg.min_match as nat, events, lit_start);
                opt_parse(cfg, window, data, pos + 1, ls1, Seq::empty(), pos + 1, t1, ev1)
            } else {
                opt_parse(cfg, window, data, pos + 1, lit_start, ch, chunk_start, t1, events)
            }
        }
    } else {
        let (ev1, ls1) = flush_model(chunk, chunk_start, cfg.min_match as nat, events, lit_start);
        (with_tail(ev1, ls1, data.len()), t)
    }
}

/// The priced programme over a chunk (see [`chunk_prices`]), with the
/// step each position was reached by.
#[verifier::rlimit(40)]
fn chunk_dp(chunk: &Vec<Option<Match>>, base: usize, min_match: usize, Ghost(d): Ghost<Seq<u8>>, Ghost(w): Ghost<nat>)
    -> (r: (Vec<u32>, Vec<usize>, Vec<usize>))
    requires
        1 <= chunk@.len() <= OPT_CHUNK_SIZE,
        chunk_ok(chunk@, base as nat, d, w),
        min_match >= 1,
        w <= 0x4000_0000,
    ensures
        (r.0@, r.1@, r.2@) == chunk_prices(chunk@, min_match as nat, 0, dp_init(chunk@.len()).0, dp_init(chunk@.len()).1,
            dp_init(chunk@.len()).2),
        r.1@.len() == chunk@.len() + 1,
        r.2@.len() == chunk@.len() + 1,
        forall|k: int| 0 <= k < r.1@.len() ==> #[trigger] r.1@[k] <= k,
        forall|k: int| 0 <= k < r.1@.len() && r.1@[k] > 0 ==> valid_match(d, (base + k - r.1@[k]) as nat, r.2@[k] as nat, r.1@[k] as nat)
            && r.2@[k] <= w,
{
    let chunk_len = chunk.len();
    let inf: u32 = 0x7FFF_FFFF;
    let slots = chunk_len + 1;
    let mut price: Vec<u32> = Vec::new();
    let mut from_len: Vec<usize> = Vec::new();
    let mut from_off: Vec<usize> = Vec::new();
    let mut j: usize = 0;
    while j < slots
        invariant
            j <= slots,
            price@.len() == j,
            from_len@.len() == j,
            from_off@.len() == j,
            forall|k: int| 0 <= k < j ==> #[trigger] price@[k] == inf,
            forall|k: int| 0 <= k < j ==> #[trigger] from_len@[k] == 0,
            forall|k: int| 0 <= k < j ==> #[trigger] from_off@[k] == 0,
        decreases slots - j,
    {
        price.push(inf);
        from_len.push(0);
        from_off.push(0);
        j += 1;
    }
    price.set(0, 0);
    let ghost start = dp_init(chunk_len as nat);
    let ghost whole = chunk_prices(chunk@, min_match as nat, 0, start.0, start.1, start.2);
    proof {
        assert(price@ =~= start.0);
        assert(from_len@ =~= start.1);
        assert(from_off@ =~= start.2);
    }
    let mut i: usize = 0;
    while i < chunk_len
        invariant
            chunk_len == chunk@.len(),
            chunk_len <= OPT_CHUNK_SIZE,
            slots == chunk_len + 1,
            price@.len() == slots,
            from_len@.len() == slots,
            from_off@.len() == slots,
            inf == 0x7FFF_FFFF,
            inf == unpriced(),
            min_match >= 1,
            w <= 0x4000_0000,
            i <= chunk_len,
            chunk_ok(chunk@, base as nat, d, w),
            chunk_prices(chunk@, min_match as nat, i as nat, price@, from_len@, from_off@) == whole,
            forall|k: int| 0 <= k < slots ==> #[trigger] price@[k] <= inf + 100,
            forall|k: int| 0 <= k < slots ==> #[trigger] from_len@[k] <= k,
            forall|k: int| 0 <= k < slots && from_len@[k] > 0 ==> valid_match(d, (base + k - from_len@[k]) as nat, from_off@[k] as nat, from_len@[k] as nat)
                && from_off@[k] <= w,
        decreases chunk_len - i,
    {
        let p = price[i];
        if p != inf {
            let lp = p + 8;
            if lp < price[i + 1] {
                price.set(i + 1, lp);
                from_len.set(i + 1, 0);
                from_off.set(i + 1, 0);
            }
            match chunk[i] {
                Some(m) => {
                    proof {
                        assert(chunk_ok(chunk@, base as nat, d, w));
                        let c = chunk@[i as int];
                        assert(c == Some(m));
                    }
                    let room = chunk_len - i;
                    let max_len = if m.length < room { m.length } else { room };
                    let mut len = min_match;
                    let ghost inner = relax_match(p as nat, i as nat, m, min_match as nat, max_len as nat, price@, from_len@, from_off@);
                    while len <= max_len
                        invariant
                            chunk_len == chunk@.len(),
                            i < chunk_len,
                            slots == chunk_len + 1,
                            price@.len() == slots,
                            from_len@.len() == slots,
                            from_off@.len() == slots,
                            inf == 0x7FFF_FFFF,
                            p <= inf + 100,
                            min_match >= 1,
                            len >= 1,
                            max_len <= m.length,
                            max_len <= chunk_len - i,
                            m.length <= 0x1000_0000,
                            m.offset <= w,
                            w <= 0x4000_0000,
                            valid_match(d, base as nat + i as nat, m.offset as nat, m.length as nat),
                            relax_match(p as nat, i as nat, m, len as nat, max_len as nat, price@, from_len@, from_off@) == inner,
                            forall|k: int| 0 <= k < slots ==> #[trigger] price@[k] <= inf + 100,
                            forall|k: int| 0 <= k < slots ==> #[trigger] from_len@[k] <= k,
                            forall|k: int| 0 <= k < slots && from_len@[k] > 0 ==> valid_match(d, (base + k - from_len@[k]) as nat, from_off@[k] as nat, from_len@[k] as nat)
                                && from_off@[k] <= w,
                        decreases max_len + 1 - len,
                    {
                        let mp = p + match_cost_bits(m.offset, len);
                        if mp < price[i + len] {
                            price.set(i + len, mp);
                            from_len.set(i + len, len);
                            from_off.set(i + len, m.offset);
                            proof {
                                let k = (i + len) as int;
                                assert(base + k - from_len@[k] == base + i);
                            }
                        }
                        len += 1;
                    }
                },
                None => {},
            }
        }
        i += 1;
    }
    (price, from_len, from_off)
}

/// The path back from the end of a chunk along the recorded steps (see
/// [`chunk_path`]), as three lists: starts, lengths and offsets.
fn chunk_backtrack(from_len: &Vec<usize>, from_off: &Vec<usize>, chunk_len: usize, base: usize, Ghost(d): Ghost<Seq<u8>>, Ghost(w): Ghost<nat>)
    -> (r: (Vec<usize>, Vec<usize>, Vec<usize>))
    requires
        from_len@.len() == chunk_len + 1,
        from_off@.len() == chunk_len + 1,
        1 <= chunk_len <= OPT_CHUNK_SIZE,
        forall|k: int| 0 <= k < from_len@.len() ==> #[trigger] from_len@[k] <= k,
        forall|k: int| 0 <= k < from_len@.len() && from_len@[k] > 0 ==> valid_match(d, (base + k - from_len@[k]) as nat, from_off@[k] as nat, from_len@[k] as nat)
            && from_off@[k] <= w,
    ensures
        r.0@.len() == r.1@.len(),
        r.0@.len() == r.2@.len(),
        r.0@.len() > 0,
        r.0@[r.0@.len() - 1] == 0,
        Seq::new(r.0@.len(), |k: int| (r.0@[k], r.1@[k], r.2@[k])) == chunk_path(from_len@, from_off@, chunk_len as nat, Seq::empty()),
        forall|k: int| 0 <= k < r.0@.len() ==> #[trigger] path_step_ok(r.0@, r.1@, k, chunk_len as int),
        forall|k: int| 0 <= k < r.0@.len() ==> #[trigger] r.0@[k] < chunk_len,
        forall|k: int| 0 <= k < r.0@.len() && #[trigger] r.1@[k] > 0 ==> valid_match(d, (base + r.0@[k]) as nat, r.2@[k] as nat, r.1@[k] as nat)
            && r.2@[k] <= w,
{
    let slots = chunk_len + 1;
    let mut p_pos: Vec<usize> = Vec::new();
    let mut p_len: Vec<usize> = Vec::new();
    let mut p_off: Vec<usize> = Vec::new();
    let mut cur = chunk_len;
    let ghost whole = chunk_path(from_len@, from_off@, chunk_len as nat, Seq::empty());
    proof {
        assert(Seq::new(0, |k: int| (p_pos@[k], p_len@[k], p_off@[k])) =~= Seq::<(usize, usize, usize)>::empty());
    }
    while cur > 0
        invariant
            cur <= chunk_len,
            slots == chunk_len + 1,
            from_len@.len() == slots,
            from_off@.len() == slots,
            forall|k: int| 0 <= k < slots ==> #[trigger] from_len@[k] <= k,
            forall|k: int| 0 <= k < slots && from_len@[k] > 0 ==> valid_match(d, (base + k - from_len@[k]) as nat, from_off@[k] as nat, from_len@[k] as nat)
                && from_off@[k] <= w,
            p_pos@.len() == p_len@.len(),
            p_pos@.len() == p_off@.len(),
            p_pos@.len() == 0 ==> cur == chunk_len,
            p_pos@.len() > 0 ==> p_pos@[p_pos@.len() - 1] == cur,
            chunk_path(from_len@, from_off@, cur as nat, Seq::new(p_pos@.len(), |k: int| (p_pos@[k], p_len@[k], p_off@[k]))) == whole,
            forall|k: int| 0 <= k < p_pos@.len() ==> #[trigger] path_step_ok(p_pos@, p_len@, k, chunk_len as int),
            forall|k: int| 0 <= k < p_pos@.len() ==> #[trigger] p_pos@[k] < chunk_len,
            forall|k: int| 0 <= k < p_pos@.len() && #[trigger] p_len@[k] > 0 ==> valid_match(d, (base + p_pos@[k]) as nat, p_off@[k] as nat, p_len@[k] as nat)
                && p_off@[k] <= w,
        decreases cur,
    {
        let len = from_len[cur];
        let off = from_off[cur];
        let ghost old_pos = p_pos@;
        let ghost old_len = p_len@;
        let ghost old_acc = Seq::new(p_pos@.len(), |k: int| (p_pos@[k], p_len@[k], p_off@[k]));
        if len == 0 {
            p_pos.push(cur - 1);
            p_len.push(0);
            p_off.push(0);
            proof {
                assert(Seq::new(p_pos@.len(), |k: int| (p_pos@[k], p_len@[k], p_off@[k])) =~= old_acc.push(((cur - 1) as usize, 0usize, 0usize)));
            }
            cur -= 1;
        } else {
            p_pos.push(cur - len);
            p_len.push(len);
            p_off.push(off);
            proof {
                assert(Seq::new(p_pos@.len(), |k: int| (p_pos@[k], p_len@[k], p_off@[k])) =~= old_acc.push(((cur - len) as usize, len, off)));
            }
            cur -= len;
        }
        proof {
            assert forall|k: int| 0 <= k < p_pos@.len() implies #[trigger] path_step_ok(p_pos@, p_len@, k, chunk_len as int) by {
                if k < old_pos.len() {
                    assert(path_step_ok(old_pos, old_len, k, chunk_len as int));
                }
            }
        }
    }
    (p_pos, p_len, p_off)
}

/// Run the cheapest-path programme over a collected chunk, backtrack the
/// cheapest path, and emit its events (see [`flush_model`]).
///
/// `price[i]` is the fewest bits found for chunk positions `0..i`: a
/// literal costs 8 bits, a match `match_cost`; any length from `min_match`
/// up to the match found at a position may be taken.
fn flush_chunk(
    chunk: &Vec<Option<Match>>,
    chunk_abs_start: usize,
    min_match: usize,
    lit_start: &mut usize,
    events: &mut Vec<Event>,
    Ghost(d): Ghost<Seq<u8>>,
    Ghost(w): Ghost<nat>,
    Ghost(start): Ghost<nat>,
)
    requires
        chunk@.len() <= OPT_CHUNK_SIZE,
        chunk_ok(chunk@, chunk_abs_start as nat, d, w),
        min_match >= 1,
        *old(lit_start) <= chunk_abs_start,
        chunk_abs_start + chunk@.len() <= d.len(),
        tiles(old(events)@, d, w, start) == Some(*old(lit_start) as nat),
        w <= 0x4000_0000,
        d.len() <= usize::MAX,
    ensures
        *old(lit_start) <= *final(lit_start) <= chunk_abs_start + chunk@.len(),
        tiles(final(events)@, d, w, start) == Some(*final(lit_start) as nat),
        (final(events)@, *final(lit_start) as nat) == flush_model(chunk@, chunk_abs_start as nat, min_match as nat, old(events)@, *old(lit_start) as nat),
{
    let chunk_len = chunk.len();
    if chunk_len == 0 {
        return;
    }
    let base = chunk_abs_start;
    let (price, from_len, from_off) = chunk_dp(chunk, base, min_match, Ghost(d), Ghost(w));
    let (p_pos, p_len, p_off) = chunk_backtrack(&from_len, &from_off, chunk_len, base, Ghost(d), Ghost(w));
    let ghost path = Seq::new(p_pos@.len(), |k: int| (p_pos@[k], p_len@[k], p_off@[k]));
    let ghost whole = emit_path(path, path.len(), base as nat, *lit_start as nat, events@);
    // Emit in forward order.
    let n = p_pos.len();
    let mut k = n;
    let ghost mut c: int = 0;
    let ghost ls0 = *lit_start;
    while k > 0
        invariant
            k <= n,
            n == p_pos@.len(),
            n == p_len@.len(),
            n == p_off@.len(),
            path == Seq::new(p_pos@.len(), |k: int| (p_pos@[k], p_len@[k], p_off@[k])),
            emit_path(path, k as nat, base as nat, *lit_start as nat, events@) == whole,
            n == 0 ==> chunk_len == 0,
            forall|j: int| 0 <= j < n ==> #[trigger] path_step_ok(p_pos@, p_len@, j, chunk_len as int),
            forall|j: int| 0 <= j < n ==> #[trigger] p_pos@[j] < chunk_len,
            forall|j: int| 0 <= j < n && #[trigger] p_len@[j] > 0 ==> valid_match(d, (base + p_pos@[j]) as nat, p_off@[j] as nat, p_len@[j] as nat)
                && p_off@[j] <= w,
            k > 0 ==> p_pos@[k - 1] == c,
            k == 0 ==> c == chunk_len,
            base + chunk_len <= d.len(),
            d.len() <= usize::MAX,
            0 <= c <= chunk_len,
            ls0 <= *lit_start <= base + c,
            tiles(events@, d, w, start) == Some(*lit_start as nat),
        decreases k,
    {
        let cpos = p_pos[k - 1];
        let len = p_len[k - 1];
        let off = p_off[k - 1];
        proof {
            let j = k - 1;
            assert(path_step_ok(p_pos@, p_len@, j, chunk_len as int));
            if j > 0 {
                assert(p_pos@[j - 1] < chunk_len);
            }
            if len > 0 {
                assert(valid_match(d, (base + p_pos@[j]) as nat, p_off@[j] as nat, p_len@[j] as nat) && p_off@[j] <= w);
            }
            assert(path[j] == (cpos, len, off));
        }
        if len > 0 {
            let abs_pos = base + cpos;
            if *lit_start < abs_pos {
                push_literals(events, *lit_start, abs_pos, Ghost(d), Ghost(w), Ghost(start));
            }
            push_match(events, abs_pos, Match { offset: off, length: len }, Ghost(d), Ghost(w), Ghost(start));
            *lit_start = abs_pos + len;
        }
        proof {
            c = cpos + (if len == 0 { 1 } else { len as int });
        }
        k -= 1;
    }
}

/// Cost-based parsing: matches of `target_length` or more are taken at
/// once; otherwise the matches found at each position are collected in
/// chunks of `OPT_CHUNK_SIZE` positions, and each chunk is parsed by its
/// cheapest path.
fn parse_ranges_optimal(full_data: &[u8], start: usize, end: usize, finder: &mut MatchFinder) -> (events: Vec<Event>)
    requires
        old(finder).wf(),
        is_bt(old(finder).config().strategy),
        start <= end <= full_data@.len(),
    ensures
        final(finder).wf(),
        final(finder).config() == old(finder).config(),
        final(finder).window() == old(finder).window(),
        tiles(events@, full_data@.subrange(0, end as int), old(finder).window(), start as nat) == Some(end as nat),
        (events@, (final(finder).hashes(), final(finder).links())) == opt_parse(old(finder).config(), old(finder).window(),
            full_data@.subrange(0, end as int), start as nat, start as nat, Seq::empty(), start as nat,
            (old(finder).hashes(), old(finder).links()), Seq::empty()),
{
    let data = &full_data[0..end];
    let ghost d = data@;
    let ghost w = finder.window();
    let ghost cfg = finder.config();
    let min_match = finder.cfg.min_match;
    let target_length = finder.cfg.target_length;
    proof {
        lemma_window_bound(*finder);
    }
    let mut events: Vec<Event> = Vec::new();
    let mut pos = start;
    let mut lit_start = start;
    let mut chunk: Vec<Option<Match>> = Vec::new();
    let mut chunk_abs_start = start;
    let ghost whole = opt_parse(cfg, w, d, start as nat, start as nat, Seq::empty(), start as nat, (finder.hashes(), finder.links()), Seq::empty());
    while pos < end && end - pos >= 4
        invariant
            finder.wf(),
            finder.config() == cfg,
            cfg == old(finder).config(),
            is_bt(cfg.strategy),
            min_match == cfg.min_match,
            min_match >= 1,
            finder.window() == w,
            w == old(finder).window(),
            w <= 0x4000_0000,
            data@ == d,
            d.len() == end,
            start <= lit_start <= chunk_abs_start,
            chunk_abs_start + chunk@.len() == pos,
            pos <= end,
            chunk@.len() < OPT_CHUNK_SIZE,
            chunk_ok(chunk@, chunk_abs_start as nat, d, w),
            tiles(events@, d, w, start as nat) == Some(lit_start as nat),
            target_length == cfg.target_length,
            whole == opt_parse(old(finder).config(), old(finder).window(), d, start as nat, start as nat, Seq::empty(), start as nat,
                (old(finder).hashes(), old(finder).links()), Seq::empty()),
            opt_parse(cfg, w, d, pos as nat, lit_start as nat, chunk@, chunk_abs_start as nat, (finder.hashes(), finder.links()), events@) == whole,
        decreases end - pos,
    {
        let m = finder.bt_find_insert(data, pos);
        let early = match m {
            Some(mm) => target_length > 0 && mm.length >= target_length,
            None => false,
        };
        if early {
            flush_chunk(&chunk, chunk_abs_start, min_match, &mut lit_start, &mut events, Ghost(d), Ghost(w), Ghost(start as nat));
            chunk = Vec::new();
            let mm = m.unwrap();
            if lit_start < pos {
                push_literals(&mut events, lit_start, pos, Ghost(d), Ghost(w), Ghost(start as nat));
            }
            push_match(&mut events, pos, mm, Ghost(d), Ghost(w), Ghost(start as nat));
            proof {
                assert(advance(mm) == mm.length);
            }
            pos += mm.length;
            lit_start = pos;
            chunk_abs_start = pos;
        } else {
            let ghost old_chunk = chunk@;
            chunk.push(m);
            proof {
                assert forall|i: int| 0 <= i < chunk@.len() implies match #[trigger] chunk@[i] {
                    Some(m) => valid_match(d, chunk_abs_start as nat + i as nat, m.offset as nat, m.length as nat) && m.offset <= w && m.length >= 1
                        && m.length <= 0x1000_0000,
                    None => true,
                } by {
                    if i < old_chunk.len() {
                        assert(chunk@[i] == old_chunk[i]);
                    }
                }
            }
            pos += 1;
            if chunk.len() >= OPT_CHUNK_SIZE {
                flush_chunk(&chunk, chunk_abs_start, min_match, &mut lit_start, &mut events, Ghost(d), Ghost(w), Ghost(start as nat));
                chunk = Vec::new();
                chunk_abs_start = pos;
            }
        }
    }
    flush_chunk(&chunk, chunk_abs_start, min_match, &mut lit_start, &mut events, Ghost(d), Ghost(w), Ghost(start as nat));
    if lit_start < end {
        push_literals(&mut events, lit_start, end, Ghost(d), Ghost(w), Ghost(start as nat));
    }
    events
}

/// The events the configured strategy gives for `data` from `start` on,
/// and the tables after it.
pub open spec fn parse_model(cfg: MatchConfig, window: nat, data: Seq<u8>, start: nat, t: (Seq<u32>, Seq<u32>))
    -> (Seq<Event>, (Seq<u32>, Seq<u32>))
{
    match cfg.strategy {
        Strategy::Fast => fast_parse(cfg, window, data, start, start, t, Seq::empty()),
        Strategy::DFast => dfast_parse(cfg, window, data, start, start, t, Seq::empty()),
        Strategy::Greedy => greedy_parse(cfg, window, data, start, start, t, Seq::empty()),
        Strategy::Lazy => lazy_parse(cfg, window, data, 1, start, start, t, Seq::empty()),
        Strategy::Lazy2 => lazy_parse(cfg, window, data, 2, start, start, t, Seq::empty()),
        Strategy::BtLazy2 => bt_lazy_parse(cfg, window, data, start, start, t, Seq::empty()),
        _ => opt_parse(cfg, window, data, start, start, Seq::empty(), start, t, Seq::empty()),
    }
}

/// Run LZ77 on `full_data[start..end]` with the finder's strategy and
/// return the events.
///
/// Positions are absolute; matches may reach back before `start` into
/// earlier blocks, and the finder is updated so that it can serve the next
/// block.
pub fn parse_ranges_events(full_data: &[u8], start: usize, end: usize, finder: &mut MatchFinder) -> (events: Vec<Event>)
    requires
        old(finder).wf(),
        start <= end <= full_data@.len(),
    ensures
        final(finder).wf(),
        final(finder).config() == old(finder).config(),
        final(finder).window() == old(finder).window(),
        tiles(events@, full_data@.subrange(0, end as int), old(finder).window(), start as nat) == Some(end as nat),
        (events@, (final(finder).hashes(), final(finder).links())) == parse_model(old(finder).config(), old(finder).window(),
            full_data@.subrange(0, end as int), start as nat, (old(finder).hashes(), old(finder).links())),
{
    match finder.cfg.strategy {
        Strategy::Fast => parse_ranges_fast(full_data, start, end, finder),
        Strategy::DFast => parse_ranges_dfast(full_data, start, end, finder),
        Strategy::Greedy => parse_ranges_greedy(full_data, start, end, finder),
        Strategy::Lazy => parse_ranges_lazy(full_data, start, end, finder, 1),
        Strategy::Lazy2 => parse_ranges_lazy(full_data, start, end, finder, 2),
        Strategy::BtLazy2 => parse_ranges_bt_lazy2(full_data, start, end, finder),
        Strategy::BtOpt | Strategy::BtUltra | Strategy::BtUltra2 => parse_ranges_optimal(full_data, start, end, finder),
    }
}

/// Hand events to a sink, in order.
fn send_events<S: ParseSink>(events: &Vec<Event>, sink: &mut S)
    ensures
        final(sink).received() == old(sink).received() + events@,
{
    let ghost r0 = sink.received();
    let mut i: usize = 0;
    while i < events.len()
        invariant
            i <= events@.len(),
            sink.received() == r0 + events@.take(i as int),
        decreases events@.len() - i,
    {
        match events[i] {
            Event::Literals(s, e) => sink.literals(s, e),
            Event::Match { pos, offset, length } => sink.matched(pos, offset, length),
        }
        proof {
            assert(events@.take(i + 1int) =~= events@.take(i as int).push(events@[i as int]));
            assert(r0 + events@.take(i + 1int) =~= (r0 + events@.take(i as int)).push(events@[i as int]));
        }
        i += 1;
    }
    proof {
        assert(events@.take(i as int) =~= events@);
    }
}

/// Run LZ77 on `full_data[start..end]` and stream the events to `sink`
/// (the events of [`parse_ranges_events`]).
pub fn parse_ranges<S: ParseSink>(full_data: &[u8], start: usize, end: usize, finder: &mut MatchFinder, sink: &mut S)
    requires
        old(finder).wf(),
        start <= end <= full_data@.len(),
    ensures
        final(finder).wf(),
        final(finder).config() == old(finder).config(),
        final(finder).window() == old(finder).window(),
        (final(finder).hashes(), final(finder).links()) == parse_model(old(finder).config(), old(finder).window(),
            full_data@.subrange(0, end as int), start as nat, (old(finder).hashes(), old(finder).links())).1,
        final(sink).received() == old(sink).received() + parse_model(old(finder).config(), old(finder).window(),
            full_data@.subrange(0, end as int), start as nat, (old(finder).hashes(), old(finder).links())).0,
        tiles(final(sink).received().skip(old(sink).received().len() as int), full_data@.subrange(0, end as int),
            old(finder).window(), start as nat) == Some(end as nat),
{
    let ghost before = sink.received();
    let events = parse_ranges_events(full_data, start, end, finder);
    send_events(&events, sink);
    proof {
        assert(sink.received().skip(before.len() as int) =~= events@);
    }
}

/// Run LZ77 over all of `data` with a fresh finder and return the events.
pub fn parse(data: &[u8], cfg: &MatchConfig) -> (events: Vec<Event>)
    requires
        cfg.wf(),
    ensures
        tiles(events@, data@, pow2(cfg.window_log as nat), 0) == Some(data@.len()),
        events@ == parse_model(*cfg, pow2(cfg.window_log as nat), data@, 0, fresh_tables(*cfg)).0,
{
    let mut finder = MatchFinder::new(cfg);
    proof {
        assert(finder.hashes() =~= fresh_tables(*cfg).0);
        assert(finder.links() =~= fresh_tables(*cfg).1);
    }
    let events = parse_ranges_events(data, 0, data.len(), &mut finder);
    assert(data@.subrange(0, data@.len() as int) == data@);
    events
}

/// The tables of a new finder: every slot empty.
pub open spec fn fresh_tables(cfg: MatchConfig) -> (Seq<u32>, Seq<u32>) {
    (Seq::new(pow2(cfg.hash_log as nat), |i: int| u32::MAX),
        Seq::new(if is_bt(cfg.strategy) { 2 * pow2(cfg.chain_log as nat) } else { pow2(cfg.chain_log as nat) }, |i: int| u32::MAX))
}

/// Run LZ77 over all of `data` with a fresh finder and stream the events
/// to `sink`.
pub fn parse_with_sink<S: ParseSink>(data: &[u8], cfg: &MatchConfig, sink: &mut S)
    requires
        cfg.wf(),
    ensures
        final(sink).received() == old(sink).received() + parse_model(*cfg, pow2(cfg.window_log as nat), data@, 0, fresh_tables(*cfg)).0,
{
    let events = parse(data, cfg);
    send_events(&events, sink);
}

/// `x & (2^k - 1)` is `x % 2^k`.
proof fn lemma_mask_is_mod(x: usize, mask: usize, k: usize)
    requires
        k <= 30,
        mask + 1 == pow2(k as nat),
    ensures
        x & mask == x as nat % pow2(k as nat),
        x & mask <= mask,
{
    lemma2_to64();
    lemma_pow2_strictly_increases(k as nat, 31);
    vstd::bits::lemma_usize_low_bits_mask_is_mod(x, k as nat);
    assert(vstd::bits::low_bits_mask(k as nat) == mask);
    assert(x & mask <= mask) by (bit_vector);
}

} // verus!
