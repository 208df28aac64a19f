//! Limiting code lengths: when capped Huffman depths overflow the code
//! space, codes are lengthened one bit at a time, the longest code that can
//! still grow first, until the lengths fit.
use vstd::prelude::*;
use vstd::arithmetic::power2::*;
use super::roundtrip::kraft_sum;

verus! {

/// Whether the code of symbol `s` is used and can still grow.
pub open spec fn growable(l: Seq<u8>, ml: u8, s: int) -> bool {
    0 < l[s] && l[s] < ml
}

/// The symbol among the first `k` whose code grows next: the longest code
/// that can still grow, the highest symbol on ties; -1 when none can.
pub open spec fn grow_pick(l: Seq<u8>, ml: u8, k: int) -> int
    decreases k,
{
    if k <= 0 {
        -1
    } else {
        let best = grow_pick(l, ml, k - 1);
        if growable(l, ml, k - 1) && (best < 0 || l[k - 1] >= l[best]) {
            k - 1
        } else {
            best
        }
    }
}

/// The lengths `l` limited to a code space of `ml` bits: while they cover
/// more than `2^ml`, the code [`grow_pick`] picks grows by one bit (at most
/// `fuel` times).
pub open spec fn limit_lengths(l: Seq<u8>, ml: u8, fuel: nat) -> Seq<u8>
    decreases fuel,
{
    if fuel == 0 || kraft_sum(l, ml as nat, 256) <= pow2(ml as nat) {
        l
    } else {
        let s = grow_pick(l, ml, 256);
        if s < 0 {
            l
        } else {
            limit_lengths(l.update(s, (l[s] + 1) as u8), ml, (fuel - 1) as nat)
        }
    }
}

/// How many more bits the used codes among the first `k` can still grow by.
pub open spec fn room(l: Seq<u8>, ml: u8, k: int) -> nat
    decreases k,
{
    if k <= 0 {
        0
    } else {
        room(l, ml, k - 1) + if 0 < l[k - 1] && l[k - 1] <= ml { (ml - l[k - 1]) as nat } else { 0nat }
    }
}

proof fn lemma_pick(l: Seq<u8>, ml: u8, k: int)
    requires
        0 <= k <= l.len(),
    ensures
        -1 <= grow_pick(l, ml, k) < k,
        grow_pick(l, ml, k) >= 0 ==> growable(l, ml, grow_pick(l, ml, k)),
        grow_pick(l, ml, k) < 0 ==> forall|s: int| 0 <= s < k ==> !#[trigger] growable(l, ml, s),
    decreases k,
{
    if k > 0 {
        lemma_pick(l, ml, k - 1);
    }
}

proof fn lemma_kraft_grow(l: Seq<u8>, ml: u8, k: int, s: int)
    requires
        l.len() == 256,
        0 <= s < 256,
        0 <= k <= 256,
        growable(l, ml, s),
    ensures
        kraft_sum(l.update(s, (l[s] + 1) as u8), ml as nat, k) + (if s < k { pow2((ml - l[s] - 1) as nat) } else { 0nat })
            == kraft_sum(l, ml as nat, k),
    decreases k,
{
    if k > 0 {
        lemma_kraft_grow(l, ml, k - 1, s);
        if s == k - 1 {
            lemma_pow2_unfold((ml - l[s]) as nat);
            assert((ml - l[s]) as nat == (ml - l[s] - 1) as nat + 1);
        }
    }
}

proof fn lemma_room_grow(l: Seq<u8>, ml: u8, k: int, s: int)
    requires
        l.len() == 256,
        0 <= s < 256,
        0 <= k <= 256,
        growable(l, ml, s),
    ensures
        room(l.update(s, (l[s] + 1) as u8), ml, k) + (if s < k { 1nat } else { 0nat }) == room(l, ml, k),
    decreases k,
{
    if k > 0 {
        lemma_room_grow(l, ml, k - 1, s);
    }
}

proof fn lemma_room_pos(l: Seq<u8>, ml: u8, k: int, s: int)
    requires
        0 <= s < k <= l.len(),
        growable(l, ml, s),
    ensures
        room(l, ml, k) >= 1,
    decreases k,
{
    if s < k - 1 {
        lemma_room_pos(l, ml, k - 1, s);
    }
}

pub proof fn lemma_room_bound(l: Seq<u8>, ml: u8, k: int)
    requires
        0 <= k <= l.len(),
    ensures
        room(l, ml, k) <= k * ml,
    decreases k,
{
    if k > 0 {
        lemma_room_bound(l, ml, k - 1);
        assert((k - 1) * ml + ml == k * ml) by (nonlinear_arith);
    }
}

/// With no code left to grow, each used code covers one slot.
proof fn lemma_kraft_full(l: Seq<u8>, ml: u8, k: int)
    requires
        0 <= k <= l.len(),
        forall|s: int| 0 <= s < k ==> !#[trigger] growable(l, ml, s) && l[s] <= ml,
    ensures
        kraft_sum(l, ml as nat, k) <= k,
    decreases k,
{
    if k > 0 {
        lemma_kraft_full(l, ml, k - 1);
        assert(!growable(l, ml, k - 1) && l[k - 1] <= ml);
        if l[k - 1] > 0 {
            assert(l[k - 1] == ml);
            lemma2_to64();
        }
    }
}

/// Limiting keeps each code used or unused, never shortens a code nor
/// lets one pass `ml` bits, and, for `ml` of at least 8 bits, leaves lengths
/// that cover at most the `2^ml` slots of the code space, and more than
/// `2^ml - 2^(ml-2)` of them where they started over it.  Lengths that fit
/// already are left as they are.
pub proof fn lemma_limit(l: Seq<u8>, ml: u8, fuel: nat)
    requires
        l.len() == 256,
        1 <= ml <= 11,
        forall|s: int| 0 <= s < 256 ==> #[trigger] l[s] <= ml,
        room(l, ml, 256) <= fuel,
    ensures
        ({
            let r = limit_lengths(l, ml, fuel);
            &&& r.len() == 256
            &&& forall|s: int| 0 <= s < 256 ==> (#[trigger] r[s] > 0 <==> l[s] > 0) && l[s] <= r[s] <= ml
            &&& ml >= 8 ==> kraft_sum(r, ml as nat, 256) <= pow2(ml as nat)
            &&& kraft_sum(l, ml as nat, 256) <= pow2(ml as nat) ==> r == l
            &&& ml >= 8 && kraft_sum(l, ml as nat, 256) > pow2(ml as nat)
                ==> kraft_sum(r, ml as nat, 256) + pow2((ml - 2) as nat) > pow2(ml as nat)
        }),
    decreases fuel,
{
    lemma2_to64();
    lemma_pick(l, ml, 256);
    if fuel == 0 || kraft_sum(l, ml as nat, 256) <= pow2(ml as nat) {
        if kraft_sum(l, ml as nat, 256) > pow2(ml as nat) && ml >= 8 {
            if grow_pick(l, ml, 256) >= 0 {
                lemma_room_pos(l, ml, 256, grow_pick(l, ml, 256));
            }
            lemma_kraft_full(l, ml, 256);
            lemma_pow2_strictly_increases(8, ml as nat);
        }
    } else {
        let s = grow_pick(l, ml, 256);
        if s < 0 {
            if ml >= 8 {
                lemma_kraft_full(l, ml, 256);
                if ml > 8 {
                    lemma_pow2_strictly_increases(8, ml as nat);
                }
            }
        } else {
            let l2 = l.update(s, (l[s] + 1) as u8);
            lemma_room_grow(l, ml, 256, s);
            lemma_kraft_grow(l, ml, 256, s);
            lemma_limit(l2, ml, (fuel - 1) as nat);
            if ml >= 8 && kraft_sum(l2, ml as nat, 256) <= pow2(ml as nat) {
                let e: nat = (ml - l[s] - 1) as nat;
                let top: nat = (ml - 2) as nat;
                if e < top {
                    lemma_pow2_strictly_increases(e, top);
                }
            }
            assert forall|j: int| 0 <= j < 256 implies (#[trigger] limit_lengths(l, ml, fuel)[j] > 0 <==> l[j] > 0)
                && l[j] <= limit_lengths(l, ml, fuel)[j] <= ml by {
                assert(l2[j] >= l[j]);
            }
        }
    }
}

/// A lone code of one bit covers half of the code space.
pub proof fn lemma_kraft_single(l: Seq<u8>, ml: u8, k: int, s0: int)
    requires
        0 <= k <= l.len(),
        1 <= ml,
        l[s0] == 1,
        forall|s: int| 0 <= s < l.len() && s != s0 ==> #[trigger] l[s] == 0,
    ensures
        kraft_sum(l, ml as nat, k) == if 0 <= s0 < k { pow2((ml - 1) as nat) } else { 0nat },
    decreases k,
{
    if k > 0 {
        lemma_kraft_single(l, ml, k - 1, s0);
    }
}

/// The symbol [`grow_pick`] picks, found by a scan.
fn pick_exec(lengths: &[u8; 256], ml: u8) -> (r: i32)
    ensures
        r as int == grow_pick(lengths@, ml, 256),
{
    let mut best: i32 = -1;
    let mut i: usize = 0;
    while i < 256
        invariant
            i <= 256,
            best as int == grow_pick(lengths@, ml, i as int),
            -1 <= best < i,
        decreases 256 - i,
    {
        let v = lengths[i];
        if 0 < v && v < ml && (best < 0 || v >= lengths[best as usize]) {
            best = i as i32;
        }
        i += 1;
    }
    best
}

/// Limit `lengths` to a code space of `ml` bits: [`limit_lengths`].
pub(crate) fn limit_lengths_exec(lengths: &mut [u8; 256], ml: u8)
    requires
        1 <= ml <= 11,
        forall|s: int| 0 <= s < 256 ==> #[trigger] old(lengths)@[s] <= ml,
    ensures
        final(lengths)@ == limit_lengths(old(lengths)@, ml, 4096),
{
    proof {
        lemma2_to64();
        lemma_room_bound(lengths@, ml, 256);
    }
    let ghost l0 = lengths@;
    // The cover of the code space, in slots of the longest length.
    let mut k: u32 = 0;
    let mut i: usize = 0;
    while i < 256
        invariant
            i <= 256,
            1 <= ml <= 11,
            lengths@ == l0,
            forall|s: int| 0 <= s < 256 ==> #[trigger] lengths@[s] <= ml,
            k == kraft_sum(lengths@, ml as nat, i as int),
            k <= i * 2048,
        decreases 256 - i,
    {
        let v = lengths[i];
        if v > 0 {
            proof {
                lemma2_to64();
                lemma_pow2_strictly_increases((ml - v) as nat, 11);
                vstd::bits::lemma_u32_shl_is_mul(1, (ml - v) as u32);
            }
            k = k + (1u32 << (ml - v));
        }
        i += 1;
    }
    let mut fuel: usize = 4096;
    proof {
        vstd::bits::lemma_u32_shl_is_mul(1, ml as u32);
    }
    let cap: u32 = 1u32 << ml;
    while k > cap
        invariant
            1 <= ml <= 11,
            cap == pow2(ml as nat),
            forall|s: int| 0 <= s < 256 ==> #[trigger] lengths@[s] <= ml,
            k == kraft_sum(lengths@, ml as nat, 256),
            k <= 524288,
            room(lengths@, ml, 256) <= fuel,
            fuel <= 4096,
            limit_lengths(lengths@, ml, fuel as nat) == limit_lengths(l0, ml, 4096),
        ensures
            lengths@ == limit_lengths(l0, ml, 4096),
        decreases fuel,
    {
        let s = pick_exec(lengths, ml);
        proof {
            lemma_pick(lengths@, ml, 256);
        }
        if s < 0 {
            break;
        }
        let ghost prev = lengths@;
        proof {
            lemma_room_pos(prev, ml, 256, s as int);
            lemma_room_grow(prev, ml, 256, s as int);
            lemma_kraft_grow(prev, ml, 256, s as int);
        }
        let v = lengths[s as usize];
        lengths[s as usize] = v + 1;
        proof {
            assert(lengths@ == prev.update(s as int, (prev[s as int] + 1) as u8));
            lemma2_to64();
            lemma_pow2_strictly_increases((ml - v - 1) as nat, 11);
            vstd::bits::lemma_u32_shl_is_mul(1, (ml - v - 1) as u32);
        }
        k = k - (1u32 << (ml - v - 1));
        fuel = fuel - 1;
    }
}

} // verus!
