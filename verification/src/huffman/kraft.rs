//! Huffman trees are full: every node but the root is the child of exactly
//! one internal node, so the leaf depths cover the code space exactly.
use vstd::prelude::*;
use vstd::arithmetic::power2::*;
use crate::error::ZstdError;
use super::limit::{lemma_limit, lemma_room_bound, limit_lengths};
use super::roundtrip::{kraft_sum, lemma_canonical_codes_fit, lemma_header_roundtrip, lemma_huffman_roundtrip};
use super::{
    assign_lengths, code_bits, depths_from, huffman_depths, huffman_tree, longest, merges, occurring, occurring_symbols, pack_forward,
    rarest, seq_sum, spec_build_lengths, spec_from_frequencies, spec_huff_decode, spec_read_huffman_header, spec_to_weights,
    spec_write_header, HuffmanTable, MAX_CODE_LEN,
};

verus! {

/// How many times node `j` is a child of the internal nodes `lo..hi`.
pub open spec fn child_count(left: Seq<usize>, right: Seq<usize>, lo: int, hi: int, j: int) -> nat
    decreases hi - lo,
{
    if hi <= lo {
        0
    } else {
        child_count(left, right, lo, hi - 1, j) + (if left[hi - 1] as int == j { 1nat } else { 0nat })
            + (if right[hi - 1] as int == j { 1nat } else { 0nat })
    }
}

/// A state of the merges over `ns` leaves: the active nodes are distinct
/// and below `next`, the last one is the newest internal node, each
/// internal node's children are below it, and every node below `next` is
/// either active or the child of exactly one internal node.
pub open spec fn merge_state(ids: Seq<usize>, next: nat, ns: nat, left: Seq<usize>, right: Seq<usize>) -> bool {
    &&& ns <= next
    &&& next + ids.len() == 2 * ns
    &&& left.len() == 2 * ns
    &&& right.len() == 2 * ns
    &&& forall|a: int, b: int| 0 <= a < b < ids.len() ==> ids[a] != ids[b]
    &&& forall|a: int| 0 <= a < ids.len() ==> #[trigger] ids[a] < next
    &&& next > ns && ids.len() > 0 ==> ids.last() == next - 1
    &&& forall|q: int| ns <= q < next ==> #[trigger] left[q] < q && right[q] < q
    &&& forall|j: int| 0 <= j < next ==> #[trigger] child_count(left, right, ns as int, next as int, j)
        + (if ids.contains(j as usize) { 1nat } else { 0nat }) == 1
}

/// The tree the merges end with, over `ns >= 2` leaves: each internal
/// node's children are below it, and every node but the root `2 ns - 2` is
/// the child of exactly one internal node.
pub open spec fn full_tree(left: Seq<usize>, right: Seq<usize>, ns: nat) -> bool {
    &&& left.len() == 2 * ns
    &&& right.len() == 2 * ns
    &&& forall|q: int| ns <= q < 2 * ns - 1 ==> #[trigger] left[q] < q && right[q] < q
    &&& forall|j: int| 0 <= j < 2 * ns - 1 ==> #[trigger] child_count(left, right, ns as int, 2 * ns - 1, j)
        + (if j == 2 * ns - 2 { 1nat } else { 0nat }) == 1
}

/// Counting over indices where two pairs of arrays agree gives the same.
proof fn lemma_child_count_frame(l1: Seq<usize>, r1: Seq<usize>, l2: Seq<usize>, r2: Seq<usize>, lo: int, hi: int, j: int)
    requires
        forall|q: int| lo <= q < hi ==> l1[q] == l2[q] && r1[q] == r2[q],
    ensures
        child_count(l1, r1, lo, hi, j) == child_count(l2, r2, lo, hi, j),
    decreases hi - lo,
{
    if hi > lo {
        lemma_child_count_frame(l1, r1, l2, r2, lo, hi - 1, j);
    }
}

proof fn lemma_contains_remove(ids: Seq<usize>, k: int, x: usize)
    requires
        0 <= k < ids.len(),
    ensures
        ids.remove(k).contains(x) <==> (ids.contains(x) && !(ids[k] == x && forall|a: int| 0 <= a < ids.len() && a != k ==> ids[a] != x)),
{
    let r = ids.remove(k);
    if r.contains(x) {
        let a = choose|a: int| 0 <= a < r.len() && r[a] == x;
        let a0 = if a < k { a } else { a + 1 };
        assert(ids[a0] == x);
    }
    if ids.contains(x) && !(ids[k] == x && forall|a: int| 0 <= a < ids.len() && a != k ==> ids[a] != x) {
        let a = if ids[k] != x { choose|a: int| 0 <= a < ids.len() && ids[a] == x } else {
            choose|a: int| 0 <= a < ids.len() && a != k && ids[a] == x
        };
        let a1 = if a < k { a } else { a - 1 };
        assert(r[a1] == x);
    }
}

/// The merges keep their state, and end with a full tree.
pub proof fn lemma_merges_full(fs: Seq<u64>, ids: Seq<usize>, next: nat, ns: nat, left: Seq<usize>, right: Seq<usize>)
    requires
        2 <= ns <= 256,
        fs.len() == ids.len(),
        ids.len() >= 1,
        merge_state(ids, next, ns, left, right),
    ensures
        full_tree(merges(fs, ids, next, left, right).0, merges(fs, ids, next, left, right).1, ns),
    decreases fs.len(),
{
    if fs.len() <= 1 {
        assert(next == 2 * ns - 1);
        assert(ids[0] == next - 1);
        assert forall|j: int| 0 <= j < 2 * ns - 1 implies #[trigger] child_count(left, right, ns as int, 2 * ns - 1, j)
            + (if j == 2 * ns - 2 { 1nat } else { 0nat }) == 1 by {
            assert(child_count(left, right, ns as int, next as int, j) + (if ids.contains(j as usize) { 1nat } else { 0nat }) == 1);
            if j == 2 * ns - 2 {
                assert(ids[0] as int == j);
            } else if ids.contains(j as usize) {
                let a = choose|a: int| 0 <= a < ids.len() && ids[a] == j as usize;
                assert(a == 0);
            }
        }
    } else {
        let k1 = rarest(fs, ids);
        let fs1 = fs.remove(k1);
        let ids1 = ids.remove(k1);
        let k2 = rarest(fs1, ids1);
        let i1 = ids[k1];
        let i2 = ids1[k2];
        assert(next as usize == next);
        let nids = ids1.remove(k2).push(next as usize);
        let nl = left.update(next as int, i1);
        let nr = right.update(next as int, i2);
        let nfs = fs1.remove(k2).push((fs[k1] + fs1[k2]) as u64);
        assert(0 <= k1 < fs.len());
        assert(0 <= k2 < fs1.len());
        let r = ids1.remove(k2);
        // The new active list is distinct and below the new node.
        assert forall|a: int, b: int| 0 <= a < b < ids1.len() implies ids1[a] != ids1[b] by {
            let a0 = if a < k1 { a } else { a + 1 };
            let b0 = if b < k1 { b } else { b + 1 };
            assert(ids1[a] == ids[a0] && ids1[b] == ids[b0]);
        }
        assert forall|a: int, b: int| 0 <= a < b < r.len() implies r[a] != r[b] by {
            let a0 = if a < k2 { a } else { a + 1 };
            let b0 = if b < k2 { b } else { b + 1 };
            assert(r[a] == ids1[a0] && r[b] == ids1[b0]);
        }
        assert forall|a: int| 0 <= a < r.len() implies r[a] < next by {
            let a1 = if a < k2 { a } else { a + 1 };
            let a0 = if a1 < k1 { a1 } else { a1 + 1 };
            assert(r[a] == ids1[a1] && ids1[a1] == ids[a0]);
        }
        assert forall|a: int, b: int| 0 <= a < b < nids.len() implies nids[a] != nids[b] by {
            if b == r.len() {
                assert(nids[a] == r[a]);
            } else {
                assert(nids[a] == r[a] && nids[b] == r[b]);
            }
        }
        assert forall|a: int| 0 <= a < nids.len() implies #[trigger] nids[a] < next + 1 by {
            if a < r.len() {
                assert(nids[a] == r[a]);
            }
        }
        assert(i1 != i2) by {
            let k0 = if k2 < k1 { k2 } else { k2 + 1 };
            assert(i2 == ids[k0]);
        }
        assert(i1 < next && i2 < next) by {
            let k0 = if k2 < k1 { k2 } else { k2 + 1 };
            assert(i2 == ids[k0]);
        }
        assert forall|q: int| ns <= q < next + 1 implies #[trigger] nl[q] < q && nr[q] < q by {
            if q < next {
                assert(nl[q] == left[q] && nr[q] == right[q]);
            }
        }
        assert forall|j: int| 0 <= j < next + 1 implies #[trigger] child_count(nl, nr, ns as int, next + 1int, j)
            + (if nids.contains(j as usize) { 1nat } else { 0nat }) == 1 by {
            lemma_child_count_frame(nl, nr, left, right, ns as int, next as int, j);
            lemma_contains_remove(ids, k1, j as usize);
            lemma_contains_remove(ids1, k2, j as usize);
            if j == next {
                assert(nids.contains(j as usize)) by {
                    assert(nids[nids.len() - 1] == next as usize);
                }
                assert(child_count(left, right, ns as int, next as int, j) == 0) by {
                    lemma_child_count_below(left, right, ns as int, next as int, j);
                }
            } else {
                assert(child_count(left, right, ns as int, next as int, j) + (if ids.contains(j as usize) { 1nat } else { 0nat }) == 1);
                assert(nids.contains(j as usize) <==> r.contains(j as usize)) by {
                    if nids.contains(j as usize) {
                        let a = choose|a: int| 0 <= a < nids.len() && nids[a] == j as usize;
                        assert(a < r.len());
                        assert(r[a] == j as usize);
                    }
                    if r.contains(j as usize) {
                        let a = choose|a: int| 0 <= a < r.len() && r[a] == j as usize;
                        assert(nids[a] == j as usize);
                    }
                }
            }
        }
        assert(nids.last() == next as usize);
        lemma_merges_full(nfs, nids, next + 1, ns, nl, nr);
    }
}

/// Nodes at or above `hi` are no child of the internal nodes below `hi`
/// whose children are below them.
proof fn lemma_child_count_below(left: Seq<usize>, right: Seq<usize>, lo: int, hi: int, j: int)
    requires
        j >= hi - 1,
        forall|q: int| lo <= q < hi ==> #[trigger] left[q] < q && right[q] < q,
    ensures
        child_count(left, right, lo, hi, j) == 0,
    decreases hi - lo,
{
    if hi > lo {
        assert(left[hi - 1] < hi - 1 && right[hi - 1] < hi - 1);
        lemma_child_count_below(left, right, lo, hi - 1, j);
    }
}

/// Counting from `lo` splits at any `mid` between `lo` and `hi`.
proof fn lemma_child_count_split(left: Seq<usize>, right: Seq<usize>, lo: int, mid: int, hi: int, j: int)
    requires
        lo <= mid <= hi,
    ensures
        child_count(left, right, lo, hi, j) == child_count(left, right, lo, mid, j) + child_count(left, right, mid, hi, j),
    decreases hi - mid,
{
    if hi > mid {
        lemma_child_count_split(left, right, lo, mid, hi - 1, j);
    }
}

/// Whether node `j` lies on the cut below the internal nodes `p..=root`:
/// it is below `p`, and the root or a child of one of those nodes.
pub open spec fn in_cut(left: Seq<usize>, right: Seq<usize>, root: int, p: int, j: int) -> bool {
    j < p && (j == root || child_count(left, right, p, root + 1, j) > 0)
}

/// How much of a window of `m` bits the nodes on that cut cover, node by
/// node: `2^(m - depth)` each.
pub open spec fn cut_cover(left: Seq<usize>, right: Seq<usize>, root: int, p: int, depth: Seq<usize>, m: nat) -> Seq<nat> {
    Seq::new((root + 1) as nat, |j: int| if in_cut(left, right, root, p, j) { pow2((m - depth[j]) as nat) } else { 0nat })
}

proof fn lemma_seq_sum_update(s: Seq<nat>, i: int, v: nat)
    requires
        0 <= i < s.len(),
    ensures
        seq_sum(s.update(i, v)) + s[i] == seq_sum(s) + v,
    decreases s.len(),
{
    if i < s.len() - 1 {
        lemma_seq_sum_update(s.drop_last(), i, v);
        assert(s.update(i, v).drop_last() =~= s.drop_last().update(i, v));
    } else {
        assert(s.update(i, v).drop_last() =~= s.drop_last());
    }
}

proof fn lemma_seq_sum_zeros(s: Seq<nat>)
    requires
        forall|j: int| 0 <= j < s.len() ==> #[trigger] s[j] == 0,
    ensures
        seq_sum(s) == 0,
    decreases s.len(),
{
    if s.len() > 0 {
        lemma_seq_sum_zeros(s.drop_last());
    }
}

/// The sum of a sequence whose entries from `k` on are zero is the sum of
/// its first `k` entries.
proof fn lemma_seq_sum_prefix(s: Seq<nat>, k: int)
    requires
        0 <= k <= s.len(),
        forall|j: int| k <= j < s.len() ==> #[trigger] s[j] == 0,
    ensures
        seq_sum(s) == seq_sum(s.take(k)),
    decreases s.len(),
{
    if s.len() > k {
        lemma_seq_sum_prefix(s.drop_last(), k);
        assert(s.drop_last().take(k) =~= s.take(k));
    } else {
        assert(s.take(k) =~= s);
    }
}

/// A child of internal node `p - 1` joins the cut when that node leaves it.
proof fn lemma_child_on_cut(left: Seq<usize>, right: Seq<usize>, ns: nat, p: nat, c: int)
    requires
        2 <= ns <= 256,
        full_tree(left, right, ns),
        ns < p <= 2 * ns - 1,
        c == left[p - 1] || c == right[p - 1],
    ensures
        !in_cut(left, right, 2 * ns - 2, p as int, c),
        in_cut(left, right, 2 * ns - 2, p - 1, c),
        child_count(left, right, p as int, 2 * ns - 1, c) == 0,
        child_count(left, right, p - 1, 2 * ns - 1, c) == 1,
{
    let q = p - 1;
    let root = 2 * ns - 2;
    assert(left[q] < q && right[q] < q);
    assert(child_count(left, right, ns as int, root + 1, c) + (if c == root { 1nat } else { 0nat }) == 1);
    lemma_child_count_split(left, right, ns as int, q, root + 1, c);
    lemma_child_count_split(left, right, q, p as int, root + 1, c);
    assert(child_count(left, right, q, q, c) == 0);
}

/// Passing depths down from the internal nodes `p - 1` to `ns` keeps the
/// cover of the cut: the cut only ever trades a node for its two
/// children, one level deeper.  At the leaves the cover is still the whole
/// window.
proof fn lemma_cut_cover(left: Seq<usize>, right: Seq<usize>, ns: nat, p: nat, depth: Seq<usize>)
    requires
        2 <= ns <= 256,
        full_tree(left, right, ns),
        ns <= p <= 2 * ns - 1,
        depth.len() == 2 * ns,
        forall|j: int| #![trigger depth[j]] 0 <= j < 2 * ns - 1 && in_cut(left, right, 2 * ns - 2, p as int, j) ==> depth[j] + j <= 2 * ns - 2,
        forall|j: int| #![trigger depth[j]] 0 <= j < 2 * ns - 2 && in_cut(left, right, 2 * ns - 2, p as int, j) ==> depth[j] >= 1,
        seq_sum(cut_cover(left, right, 2 * ns - 2, p as int, depth, (2 * ns - 1) as nat)) == pow2((2 * ns - 1) as nat),
    ensures
        ({
            let d = depths_from(left, right, ns, p, depth);
            &&& seq_sum(cut_cover(left, right, 2 * ns - 2, ns as int, d, (2 * ns - 1) as nat)) == pow2((2 * ns - 1) as nat)
            &&& d.len() == 2 * ns
            &&& forall|k: int| 0 <= k < ns ==> 1 <= #[trigger] d[k] && d[k] + k <= 2 * ns - 2
        }),
    decreases p,
{
    let root = 2 * ns - 2;
    let m = (2 * ns - 1) as nat;
    if p <= ns {
        let d = depth;
        assert forall|k: int| 0 <= k < ns implies 1 <= #[trigger] d[k] && d[k] + k <= 2 * ns - 2 by {
            assert(child_count(left, right, ns as int, 2 * ns - 1, k) + (if k == 2 * ns - 2 { 1nat } else { 0nat }) == 1);
            assert(in_cut(left, right, root, p as int, k));
        }
    } else {
        let q = (p - 1) as int;
        let l = left[q] as int;
        let r = right[q] as int;
        let dq = depth[q];
        let nd = (dq + 1) as usize;
        let depth2 = depth.update(l, nd).update(r, nd);
        assert(l < q && r < q);
        // q is on the cut at p.
        lemma_child_count_below(left, right, ns as int, p as int, q);
        lemma_child_count_split(left, right, ns as int, p as int, root + 1, q);
        if q != root {
            assert(child_count(left, right, ns as int, root + 1, q) + (if q == root { 1nat } else { 0nat }) == 1);
        }
        assert(in_cut(left, right, root, p as int, q));
        assert(dq + q <= root);
        // The children of q are on the cut at p - 1 and not at p.
        lemma_child_on_cut(left, right, ns, p, l);
        lemma_child_on_cut(left, right, ns, p, r);
        assert(child_count(left, right, q, p as int, l) == (if left[q] as int == l { 1nat } else { 0nat })
            + (if right[q] as int == l { 1nat } else { 0nat })) by {
            assert(child_count(left, right, q, q, l) == 0);
        }
        assert(l != r) by {
            lemma_child_count_split(left, right, q, p as int, root + 1, l);
            assert(child_count(left, right, q, root + 1, l) == 1);
            assert(child_count(left, right, p as int, root + 1, l) == 0);
        }
        // Any other node is on the cut at p - 1 exactly when it is at p.
        assert forall|j: int| 0 <= j <= root && j != q && j != l && j != r implies
            (in_cut(left, right, root, q, j) <==> in_cut(left, right, root, p as int, j)) by {
            lemma_child_count_split(left, right, q, p as int, root + 1, j);
            assert(child_count(left, right, q, p as int, j) == 0) by {
                assert(child_count(left, right, q, q, j) == 0);
            }
        }
        let w = cut_cover(left, right, root, p as int, depth, m);
        let half = pow2((m - nd) as nat);
        lemma_pow2_unfold((m - dq) as nat);
        assert(pow2((m - dq) as nat) == 2 * half);
        let w2 = w.update(q, 0nat).update(l, half).update(r, half);
        assert(cut_cover(left, right, root, q, depth2, m) =~= w2);
        lemma_seq_sum_update(w, q, 0nat);
        lemma_seq_sum_update(w.update(q, 0nat), l, half);
        lemma_seq_sum_update(w.update(q, 0nat).update(l, half), r, half);
        assert(w[l] == 0 && w[r] == 0);
        assert forall|j: int| #![trigger depth2[j]] 0 <= j < 2 * ns - 1 && in_cut(left, right, root, q, j) implies depth2[j] + j <= root
            && (j < root ==> depth2[j] >= 1) by {
            if j != l && j != r {
                assert(in_cut(left, right, root, p as int, j));
                assert(depth2[j] == depth[j]);
            }
        }
        lemma_cut_cover(left, right, ns, (p - 1) as nat, depth2);
    }
}

/// How much of a window of `bits` bits each of the first `n` leaves
/// covers: `2^(bits - depth)`.
pub open spec fn leaf_cover(d: Seq<usize>, n: nat, bits: nat) -> Seq<nat> {
    Seq::new(n, |k: int| pow2((bits - d[k]) as nat))
}

/// The leaves of the Huffman tree of two or more occurring symbols cover a
/// window of `2 ns - 1` bits exactly: the sum of `2^(2 ns - 1 - depth)`
/// over the leaves is `2^(2 ns - 1)`.
proof fn lemma_huffman_cover(freqs: Seq<u32>)
    requires
        2 <= occurring_symbols(freqs).len() <= 256,
    ensures
        ({
            let ns = occurring_symbols(freqs).len();
            let d = huffman_depths(freqs);
            &&& seq_sum(leaf_cover(d, ns, (2 * ns - 1) as nat)) == pow2((2 * ns - 1) as nat)
            &&& d.len() == 2 * ns
            &&& forall|k: int| 0 <= k < ns ==> 1 <= #[trigger] d[k] && d[k] + k <= 2 * ns - 2
        }),
{
    let syms = occurring_symbols(freqs);
    let ns = syms.len();
    let zeros = Seq::new(2 * ns, |k: int| 0usize);
    let fs = Seq::new(ns, |k: int| freqs[syms[k] as int] as u64);
    let ids = Seq::new(ns, |k: int| k as usize);
    let root = 2 * ns - 2;
    let m = (2 * ns - 1) as nat;
    assert forall|j: int| 0 <= j < ns implies #[trigger] child_count(zeros, zeros, ns as int, ns as int, j)
        + (if ids.contains(j as usize) { 1nat } else { 0nat }) == 1 by {
        assert(ids[j] == j as usize);
    }
    assert(merge_state(ids, ns, ns, zeros, zeros));
    lemma_merges_full(fs, ids, ns, ns, zeros, zeros);
    let tree = huffman_tree(freqs);
    assert(tree == merges(fs, ids, ns, zeros, zeros));
    // The cut at the top holds the root alone, at depth 0.
    let top = cut_cover(tree.0, tree.1, root, root + 1, zeros, m);
    assert forall|j: int| 0 <= j < top.len() - 1 implies #[trigger] top.drop_last()[j] == 0 by {
        assert(child_count(tree.0, tree.1, root + 1, root + 1, j) == 0);
    }
    lemma_seq_sum_zeros(top.drop_last());
    assert(child_count(tree.0, tree.1, root + 1, root + 1, root) == 0);
    assert(seq_sum(top) == pow2(m));
    lemma_cut_cover(tree.0, tree.1, ns, (2 * ns - 1) as nat, zeros);
    let d = huffman_depths(freqs);
    assert(d == depths_from(tree.0, tree.1, ns, (2 * ns - 1) as nat, zeros));
    // At the bottom the cut holds exactly the leaves.
    let bottom = cut_cover(tree.0, tree.1, root, ns as int, d, m);
    assert forall|j: int| ns <= j < bottom.len() implies #[trigger] bottom[j] == 0 by {}
    lemma_seq_sum_prefix(bottom, ns as int);
    assert forall|k: int| 0 <= k < ns implies #[trigger] bottom.take(ns as int)[k] == pow2(((2 * ns - 1) as nat - d[k]) as nat) by {
        assert(child_count(tree.0, tree.1, ns as int, 2 * ns - 1, k) + (if k == 2 * ns - 2 { 1nat } else { 0nat }) == 1);
    }
    assert(bottom.take(ns as int) =~= leaf_cover(d, ns, (2 * ns - 1) as nat));
}

proof fn lemma_kraft_update(lengths: Seq<u8>, mb: nat, k: int, s: int, v: u8)
    requires
        0 <= s < lengths.len(),
        k <= lengths.len(),
        lengths[s] == 0,
        v > 0,
    ensures
        kraft_sum(lengths.update(s, v), mb, k) == kraft_sum(lengths, mb, k) + (if s < k { pow2((mb - v) as nat) } else { 0nat }),
    decreases k,
{
    if k > 0 {
        lemma_kraft_update(lengths, mb, k - 1, s, v);
    }
}

proof fn lemma_assign_untouched(syms: Seq<usize>, d: Seq<usize>, ml: u8, i: nat, s: int)
    requires
        0 <= s < 256,
        i <= syms.len(),
        forall|k: int| 0 <= k < i ==> #[trigger] syms[k] < 256,
        forall|k: int| 0 <= k < i ==> syms[k] != s,
    ensures
        assign_lengths(syms, d, ml, i)[s] == 0,
        assign_lengths(syms, d, ml, i).len() == 256,
    decreases i,
{
    if i > 0 {
        lemma_assign_untouched(syms, d, ml, (i - 1) as nat, s);
    }
}

/// With no depth capped, the Kraft sum of the assigned lengths is the
/// cover of the first `i` leaves.
proof fn lemma_assign_kraft(syms: Seq<usize>, d: Seq<usize>, ml: u8, mb: nat, i: nat)
    requires
        i <= syms.len(),
        i <= d.len(),
        forall|k: int| 0 <= k < syms.len() ==> #[trigger] syms[k] < 256,
        forall|k1: int, k2: int| 0 <= k1 < k2 < syms.len() ==> syms[k1] < syms[k2],
        forall|k: int| 0 <= k < i ==> 1 <= #[trigger] d[k] && d[k] <= ml && d[k] <= mb,
    ensures
        kraft_sum(assign_lengths(syms, d, ml, i), mb, 256) == seq_sum(leaf_cover(d, i, mb)),
        assign_lengths(syms, d, ml, i).len() == 256,
    decreases i,
{
    if i == 0 {
        lemma_kraft_zero(mb, 256);
    } else {
        let k = (i - 1) as int;
        lemma_assign_kraft(syms, d, ml, mb, (i - 1) as nat);
        lemma_assign_untouched(syms, d, ml, (i - 1) as nat, syms[k] as int);
        let prev = assign_lengths(syms, d, ml, (i - 1) as nat);
        assert((if d[k] > ml { ml } else { d[k] as u8 }) == d[k] as u8);
        lemma_kraft_update(prev, mb, 256, syms[k] as int, d[k] as u8);
        assert(leaf_cover(d, i, mb).drop_last() =~= leaf_cover(d, (i - 1) as nat, mb));
    }
}

/// With depths capped at `ml`, the Kraft sum of the assigned lengths, taken
/// in a window of `big` bits, is at least the cover of the first `i` leaves.
proof fn lemma_assign_kraft_capped(syms: Seq<usize>, d: Seq<usize>, ml: u8, big: nat, i: nat)
    requires
        i <= syms.len(),
        i <= d.len(),
        1 <= ml <= big,
        forall|k: int| 0 <= k < syms.len() ==> #[trigger] syms[k] < 256,
        forall|k1: int, k2: int| 0 <= k1 < k2 < syms.len() ==> syms[k1] < syms[k2],
        forall|k: int| 0 <= k < i ==> 1 <= #[trigger] d[k] && d[k] <= big,
    ensures
        kraft_sum(assign_lengths(syms, d, ml, i), ml as nat, 256) * pow2((big - ml) as nat) >= seq_sum(leaf_cover(d, i, big)),
    decreases i,
{
    let c = pow2((big - ml) as nat);
    if i == 0 {
        lemma_kraft_zero(ml as nat, 256);
        assert(0 * c == 0) by (nonlinear_arith);
    } else {
        let k = (i - 1) as int;
        lemma_assign_kraft_capped(syms, d, ml, big, (i - 1) as nat);
        lemma_assign_untouched(syms, d, ml, (i - 1) as nat, syms[k] as int);
        let prev = assign_lengths(syms, d, ml, (i - 1) as nat);
        let v: u8 = if d[k] > ml { ml } else { d[k] as u8 };
        lemma_kraft_update(prev, ml as nat, 256, syms[k] as int, v);
        assert(leaf_cover(d, i, big).drop_last() =~= leaf_cover(d, (i - 1) as nat, big));
        lemma_pow2_adds((ml - v) as nat, (big - ml) as nat);
        assert((ml - v) as nat + (big - ml) as nat == (big - v) as nat);
        let lo: nat = (big - d[k]) as nat;
        let hi: nat = (big - v) as nat;
        if lo < hi {
            lemma_pow2_strictly_increases(lo, hi);
        }
        let kp = kraft_sum(prev, ml as nat, 256);
        let t = pow2((ml - v) as nat);
        assert((kp + t) * c == kp * c + t * c) by (nonlinear_arith);
    }
}

proof fn lemma_kraft_zero(mb: nat, j: int)
    requires
        j <= 256,
    ensures
        kraft_sum(Seq::new(256, |s: int| 0u8), mb, j) == 0,
    decreases j,
{
    if j > 0 {
        lemma_kraft_zero(mb, j - 1);
    }
}

/// A cover measured in a window of `big` bits is the cover in `mb` bits
/// times `2^(big - mb)`.
proof fn lemma_cover_scale(d: Seq<usize>, n: nat, mb: nat, big: nat)
    requires
        mb <= big,
        n <= d.len(),
        forall|k: int| 0 <= k < n ==> #[trigger] d[k] <= mb,
    ensures
        seq_sum(leaf_cover(d, n, big)) == seq_sum(leaf_cover(d, n, mb)) * pow2((big - mb) as nat),
    decreases n,
{
    if n > 0 {
        let k = (n - 1) as int;
        lemma_cover_scale(d, (n - 1) as nat, mb, big);
        let sb = leaf_cover(d, n, big);
        let sm = leaf_cover(d, n, mb);
        assert(seq_sum(sb) == seq_sum(sb.drop_last()) + sb[k]);
        assert(seq_sum(sm) == seq_sum(sm.drop_last()) + sm[k]);
        assert(leaf_cover(d, n, big).drop_last() =~= leaf_cover(d, (n - 1) as nat, big));
        assert(leaf_cover(d, n, mb).drop_last() =~= leaf_cover(d, (n - 1) as nat, mb));
        lemma_pow2_adds((mb - d[k]) as nat, (big - mb) as nat);
        assert((mb - d[k]) as nat + (big - mb) as nat == (big - d[k]) as nat);
        let a = seq_sum(leaf_cover(d, (n - 1) as nat, mb));
        let x = pow2((mb - d[k]) as nat);
        let c = pow2((big - mb) as nat);
        assert(d[k] <= mb);
        assert(sb[k] == x * c);
        assert(sm[k] == x);
        assert(seq_sum(sb.drop_last()) == a * c);
        assert(seq_sum(sm.drop_last()) == a);
        assert(a * c + x * c == (a + x) * c) by (nonlinear_arith);
        assert(seq_sum(sb) == seq_sum(sm) * c);
    } else {
        let c = pow2((big - mb) as nat);
        assert(seq_sum(leaf_cover(d, 0, mb)) == 0);
        assert(0 * c == 0) by (nonlinear_arith);
    }
}

proof fn lemma_longest(lengths: Seq<u8>, k: nat, bound: u8)
    requires
        k <= lengths.len(),
    ensures
        longest(lengths, k) >= 1,
        forall|s: int| 0 <= s < k ==> #[trigger] lengths[s] <= longest(lengths, k),
        bound >= 1 && (forall|s: int| 0 <= s < k ==> #[trigger] lengths[s] <= bound) ==> longest(lengths, k) <= bound,
    decreases k,
{
    if k > 0 {
        lemma_longest(lengths, (k - 1) as nat, bound);
    }
}

/// The occurring symbols are increasing and below `n`.
proof fn lemma_occurring(freqs: Seq<u32>, n: nat)
    requires
        n <= 256,
    ensures
        occurring(freqs, n).len() <= n,
        forall|k: int| 0 <= k < occurring(freqs, n).len() ==> #[trigger] occurring(freqs, n)[k] < n,
        forall|k1: int, k2: int| 0 <= k1 < k2 < occurring(freqs, n).len() ==> occurring(freqs, n)[k1] < occurring(freqs, n)[k2],
    decreases n,
{
    if n > 0 {
        lemma_occurring(freqs, (n - 1) as nat);
        let o = occurring(freqs, (n - 1) as nat);
        if freqs[n - 1] > 0 {
            let o2 = o.push((n - 1) as usize);
            assert forall|k1: int, k2: int| 0 <= k1 < k2 < o2.len() implies o2[k1] < o2[k2] by {
                if k2 == o.len() {
                    assert(o2[k1] == o[k1]);
                } else {
                    assert(o2[k1] == o[k1] && o2[k2] == o[k2]);
                }
            }
        }
    }
}

/// Whether no occurring symbol's depth in the Huffman tree exceeds
/// `MAX_CODE_LEN`, so that no code length was capped.
pub open spec fn huffman_uncapped(freqs: Seq<u32>) -> bool {
    forall|k: int| 0 <= k < occurring_symbols(freqs).len() ==> #[trigger] huffman_depths(freqs)[k] <= MAX_CODE_LEN
}

/// With two or more occurring symbols and no depth capped, the capped
/// depths cover the code space of their longest length exactly.
proof fn lemma_uncapped_cover(freqs: Seq<u32>)
    requires
        occurring_symbols(freqs).len() >= 2,
        huffman_uncapped(freqs),
    ensures
        ({
            let syms = occurring_symbols(freqs);
            let a = assign_lengths(syms, huffman_depths(freqs), MAX_CODE_LEN, syms.len());
            let ma = longest(a, 256);
            &&& a.len() == 256
            &&& 1 <= ma <= MAX_CODE_LEN
            &&& forall|s: int| 0 <= s < 256 ==> #[trigger] a[s] <= ma
            &&& kraft_sum(a, ma as nat, 256) == pow2(ma as nat)
        }),
{
    let syms = occurring_symbols(freqs);
    let ns = syms.len();
    lemma_occurring(freqs, if freqs.len() < 256 { freqs.len() } else { 256 });
    let d = huffman_depths(freqs);
    let a = assign_lengths(syms, d, MAX_CODE_LEN, ns);
    lemma_assign_len(syms, d, MAX_CODE_LEN, ns);
    let ma = longest(a, 256);
    let mb = ma as nat;
    lemma_huffman_cover(freqs);
    let big = (2 * ns - 1) as nat;
    let b: u8 = if 2 * ns - 2 < 11 { (2 * ns - 2) as u8 } else { 11u8 };
    assert forall|s: int| 0 <= s < 256 implies #[trigger] a[s] <= b by {
        lemma_assign_bound(syms, d, MAX_CODE_LEN, ns, s, b as nat);
    }
    lemma_longest(a, 256, b);
    assert forall|k: int| 0 <= k < ns implies 1 <= #[trigger] d[k] && d[k] <= MAX_CODE_LEN && d[k] <= mb by {
        assert(d[k] <= MAX_CODE_LEN);
        lemma_assign_value(syms, d, MAX_CODE_LEN, ns, k);
        assert(a[syms[k] as int] <= longest(a, 256));
    }
    lemma_assign_kraft(syms, d, MAX_CODE_LEN, mb, ns);
    assert(mb <= big);
    lemma_cover_scale(d, ns, mb, big);
    lemma_pow2_adds(mb, (big - mb) as nat);
    lemma_pow2_pos((big - mb) as nat);
    let sm = seq_sum(leaf_cover(d, ns, mb));
    let c = pow2((big - mb) as nat);
    assert(sm * c == pow2(mb) * c);
    assert(sm == pow2(mb)) by (nonlinear_arith)
        requires sm * c == pow2(mb) * c, c > 0;
}

/// A Kraft sum taken in a window of `big` bits is the sum in `mb` bits
/// times `2^(big - mb)`, when no length passes `mb`.
pub proof fn lemma_kraft_scale(l: Seq<u8>, mb: nat, big: nat, k: int)
    requires
        0 <= k <= l.len(),
        mb <= big,
        forall|s: int| 0 <= s < k ==> #[trigger] l[s] <= mb,
    ensures
        kraft_sum(l, big, k) == kraft_sum(l, mb, k) * pow2((big - mb) as nat),
    decreases k,
{
    if k > 0 {
        lemma_kraft_scale(l, mb, big, k - 1);
        let v = l[k - 1];
        let a = kraft_sum(l, mb, k - 1);
        let c = pow2((big - mb) as nat);
        if v > 0 {
            lemma_pow2_adds((mb - v) as nat, (big - mb) as nat);
            assert((mb - v) as nat + (big - mb) as nat == (big - v) as nat);
            let t = pow2((mb - v) as nat);
            assert(kraft_sum(l, mb, k) == a + t);
            assert(kraft_sum(l, big, k) == kraft_sum(l, big, k - 1) + pow2((big - v) as nat));
            assert(pow2((big - v) as nat) == t * c);
            assert((a + t) * c == a * c + t * c) by (nonlinear_arith);
        } else {
            assert(kraft_sum(l, mb, k) == a);
            assert(kraft_sum(l, big, k) == kraft_sum(l, big, k - 1));
        }
    } else {
        let c = pow2((big - mb) as nat);
        assert(0 * c == 0) by (nonlinear_arith);
    }
}

/// Every assigned length is at most the cap.
proof fn lemma_assign_capped(syms: Seq<usize>, d: Seq<usize>, ml: u8, i: nat, s: int)
    requires
        0 <= s < 256,
        i <= syms.len(),
        forall|k: int| 0 <= k < i ==> #[trigger] syms[k] < 256,
    ensures
        assign_lengths(syms, d, ml, i)[s] <= ml,
        assign_lengths(syms, d, ml, i).len() == 256,
    decreases i,
{
    lemma_assign_len(syms, d, ml, i);
    if i > 0 {
        lemma_assign_capped(syms, d, ml, (i - 1) as nat, s);
    }
}

/// For two or more occurring symbols the built lengths are the capped
/// depths after [`limit_lengths`], with what that limiting keeps.
proof fn lemma_build_limited(freqs: Seq<u32>)
    requires
        occurring_symbols(freqs).len() >= 2,
    ensures
        ({
            let syms = occurring_symbols(freqs);
            let a = assign_lengths(syms, huffman_depths(freqs), MAX_CODE_LEN, syms.len());
            let r = limit_lengths(a, MAX_CODE_LEN, 4096);
            &&& spec_build_lengths(freqs, MAX_CODE_LEN) == Ok::<Seq<u8>, ZstdError>(r)
            &&& a.len() == 256
            &&& forall|s: int| 0 <= s < 256 ==> #[trigger] a[s] <= MAX_CODE_LEN
            &&& r.len() == 256
            &&& forall|s: int| 0 <= s < 256 ==> (#[trigger] r[s] > 0 <==> a[s] > 0) && a[s] <= r[s] <= MAX_CODE_LEN
            &&& kraft_sum(r, MAX_CODE_LEN as nat, 256) <= pow2(MAX_CODE_LEN as nat)
            &&& kraft_sum(a, MAX_CODE_LEN as nat, 256) <= pow2(MAX_CODE_LEN as nat) ==> r == a
            &&& kraft_sum(a, MAX_CODE_LEN as nat, 256) > pow2(MAX_CODE_LEN as nat)
                ==> kraft_sum(r, MAX_CODE_LEN as nat, 256) + pow2((MAX_CODE_LEN - 2) as nat) > pow2(MAX_CODE_LEN as nat)
        }),
{
    let syms = occurring_symbols(freqs);
    let ns = syms.len();
    lemma_occurring(freqs, if freqs.len() < 256 { freqs.len() } else { 256 });
    let d = huffman_depths(freqs);
    let a = assign_lengths(syms, d, MAX_CODE_LEN, ns);
    assert forall|s: int| 0 <= s < 256 implies #[trigger] a[s] <= MAX_CODE_LEN by {
        lemma_assign_capped(syms, d, MAX_CODE_LEN, ns, s);
    }
    lemma_assign_len(syms, d, MAX_CODE_LEN, ns);
    lemma_room_bound(a, MAX_CODE_LEN, 256);
    lemma_limit(a, MAX_CODE_LEN, 4096);
}

/// The code lengths that [`HuffmanTable::from_frequencies`] builds fit
/// the code space of their longest length; with two or more symbols and no
/// depth capped they cover it exactly.
pub proof fn lemma_from_frequencies_kraft(freqs: Seq<u32>, t: HuffmanTable)
    requires
        t.wf(),
        spec_from_frequencies(freqs) == Ok::<(Seq<u8>, Seq<u16>, u8), ZstdError>((t.lengths@, t.codes@, t.max_bits)),
    ensures
        kraft_sum(t.lengths@, t.max_bits as nat, 256) <= pow2(t.max_bits as nat),
        occurring_symbols(freqs).len() >= 2 && huffman_uncapped(freqs)
            ==> kraft_sum(t.lengths@, t.max_bits as nat, 256) == pow2(t.max_bits as nat),
{
    let syms = occurring_symbols(freqs);
    let ns = syms.len();
    let l = t.lengths@;
    let mb = t.max_bits as nat;
    lemma_occurring(freqs, if freqs.len() < 256 { freqs.len() } else { 256 });
    assert(spec_build_lengths(freqs, MAX_CODE_LEN) == Ok::<Seq<u8>, ZstdError>(l));
    assert(longest(l, 256) == t.max_bits);
    if ns == 1 {
        let z = Seq::new(256, |s: int| 0u8);
        assert(l == z.update(syms[0] as int, 1u8));
        lemma_kraft_zero(mb, 256);
        lemma_kraft_update(z, mb, 256, syms[0] as int, 1u8);
        lemma_pow2_strictly_increases((mb - 1) as nat, mb);
    } else {
        let a = assign_lengths(syms, huffman_depths(freqs), MAX_CODE_LEN, ns);
        lemma_build_limited(freqs);
        lemma_longest(l, 256, MAX_CODE_LEN);
        lemma_kraft_scale(l, mb, MAX_CODE_LEN as nat, 256);
        lemma_pow2_adds(mb, (MAX_CODE_LEN - mb) as nat);
        lemma_pow2_pos((MAX_CODE_LEN - mb) as nat);
        let km = kraft_sum(l, mb, 256);
        let c = pow2((MAX_CODE_LEN - mb) as nat);
        assert(km <= pow2(mb)) by (nonlinear_arith)
            requires km * c <= pow2(mb) * c, c > 0;
        if huffman_uncapped(freqs) {
            lemma_uncapped_cover(freqs);
            let ma = longest(a, 256);
            lemma_kraft_scale(a, ma as nat, MAX_CODE_LEN as nat, 256);
            lemma_pow2_adds(ma as nat, (MAX_CODE_LEN - ma) as nat);
            assert(l == a);
        }
    }
}

/// Law: a table that [`HuffmanTable::from_frequencies`] builds decodes
/// what it encodes.
pub proof fn lemma_from_frequencies_roundtrip(freqs: Seq<u32>, t: HuffmanTable, data: Seq<u8>, bit_count: nat)
    requires
        t.wf(),
        spec_from_frequencies(freqs) == Ok::<(Seq<u8>, Seq<u16>, u8), ZstdError>((t.lengths@, t.codes@, t.max_bits)),
        code_bits(t.lengths@, t.codes@, data) is Ok,
        (code_bits(t.lengths@, t.codes@, data)->Ok_0).len() <= bit_count,
    ensures
        spec_huff_decode(t.lengths@, t.codes@, t.max_bits as nat, pack_forward(code_bits(t.lengths@, t.codes@, data)->Ok_0),
            bit_count, data.len()) == Ok::<Seq<u8>, ZstdError>(data),
{
    lemma_from_frequencies_kraft(freqs, t);
    lemma_canonical_codes_fit(t.lengths@, t.codes@, t.max_bits as nat);
    lemma_huffman_roundtrip(t, data, bit_count);
}

/// Where a depth had to be capped, the limited lengths reach the cap and
/// cover more than half of its code space.
proof fn lemma_capped_over_half(freqs: Seq<u32>, t: HuffmanTable)
    requires
        t.wf(),
        spec_from_frequencies(freqs) == Ok::<(Seq<u8>, Seq<u16>, u8), ZstdError>((t.lengths@, t.codes@, t.max_bits)),
        occurring_symbols(freqs).len() >= 2,
        !huffman_uncapped(freqs),
    ensures
        t.max_bits == MAX_CODE_LEN,
        pow2((MAX_CODE_LEN - 1) as nat) < kraft_sum(t.lengths@, MAX_CODE_LEN as nat, 256),
{
    let syms = occurring_symbols(freqs);
    let ns = syms.len();
    let l = t.lengths@;
    lemma_occurring(freqs, if freqs.len() < 256 { freqs.len() } else { 256 });
    assert(spec_build_lengths(freqs, MAX_CODE_LEN) == Ok::<Seq<u8>, ZstdError>(l));
    assert(longest(l, 256) == t.max_bits);
    let d = huffman_depths(freqs);
    let a = assign_lengths(syms, d, MAX_CODE_LEN, ns);
    lemma_build_limited(freqs);
    lemma_huffman_cover(freqs);
    let k0 = choose|k: int| 0 <= k < ns && !(#[trigger] d[k] <= MAX_CODE_LEN);
    lemma_assign_value(syms, d, MAX_CODE_LEN, ns, k0);
    assert(l[syms[k0] as int] == MAX_CODE_LEN);
    lemma_longest(l, 256, MAX_CODE_LEN);
    let big = (2 * ns - 1) as nat;
    lemma_assign_kraft_capped(syms, d, MAX_CODE_LEN, big, ns);
    lemma_pow2_adds(MAX_CODE_LEN as nat, (big - MAX_CODE_LEN) as nat);
    lemma_pow2_pos((big - MAX_CODE_LEN) as nat);
    let ka = kraft_sum(a, MAX_CODE_LEN as nat, 256);
    let c = pow2((big - MAX_CODE_LEN) as nat);
    assert(ka >= pow2(MAX_CODE_LEN as nat)) by (nonlinear_arith)
        requires ka * c >= pow2(MAX_CODE_LEN as nat) * c, c > 0;
    lemma2_to64();
    let r = limit_lengths(a, MAX_CODE_LEN, 4096);
    assert(r == l);
    if ka <= pow2(MAX_CODE_LEN as nat) {
        assert(r == a);
    } else {
        assert(kraft_sum(r, MAX_CODE_LEN as nat, 256) + pow2((MAX_CODE_LEN - 2) as nat) > pow2(MAX_CODE_LEN as nat));
    }
}

/// Law: the header that describes a table [`HuffmanTable::from_frequencies`]
/// builds reads back as that table, whatever follows it, whenever at least
/// two symbols occur, all of them below 128.
pub proof fn lemma_from_frequencies_header_roundtrip(freqs: Seq<u32>, t: HuffmanTable, rest: Seq<u8>)
    requires
        t.wf(),
        spec_from_frequencies(freqs) == Ok::<(Seq<u8>, Seq<u16>, u8), ZstdError>((t.lengths@, t.codes@, t.max_bits)),
        occurring_symbols(freqs).len() >= 2,
        forall|s: int| 128 <= s < freqs.len() ==> #[trigger] freqs[s] == 0,
    ensures
        ({
            let header = spec_write_header(spec_to_weights(t.lengths@, t.max_bits));
            spec_read_huffman_header(header + rest)
                == Ok::<((Seq<u8>, Seq<u16>, u8), nat), ZstdError>(((t.lengths@, t.codes@, t.max_bits), header.len()))
        }),
{
    lemma_from_frequencies_kraft(freqs, t);
    let mb = t.max_bits as nat;
    if huffman_uncapped(freqs) {
        lemma_pow2_strictly_increases((mb - 1) as nat, mb);
    } else {
        lemma_capped_over_half(freqs, t);
    }
    assert forall|s: int| 128 <= s < 256 implies #[trigger] t.lengths@[s] == 0 by {
        lemma_lengths_of_absent(freqs, t, s);
    }
    lemma_header_roundtrip(t, rest);
}

/// A symbol that does not occur gets no code.
proof fn lemma_lengths_of_absent(freqs: Seq<u32>, t: HuffmanTable, s: int)
    requires
        0 <= s < 256,
        spec_from_frequencies(freqs) == Ok::<(Seq<u8>, Seq<u16>, u8), ZstdError>((t.lengths@, t.codes@, t.max_bits)),
        !(s < freqs.len() && freqs[s] > 0),
    ensures
        t.lengths@[s] == 0,
{
    let syms = occurring_symbols(freqs);
    let ns = syms.len();
    let n = if freqs.len() < 256 { freqs.len() } else { 256 };
    lemma_occurring(freqs, n);
    lemma_occurring_present(freqs, n);
    assert(spec_build_lengths(freqs, MAX_CODE_LEN) == Ok::<Seq<u8>, ZstdError>(t.lengths@));
    assert forall|k: int| 0 <= k < ns implies syms[k] != s by {
        assert(freqs[syms[k] as int] > 0);
    }
    if ns == 1 {
        assert(syms[0] != s);
    } else {
        lemma_assign_untouched(syms, huffman_depths(freqs), MAX_CODE_LEN, ns, s);
        lemma_build_limited(freqs);
    }
}

/// Every occurring symbol has a nonzero frequency.
proof fn lemma_occurring_present(freqs: Seq<u32>, n: nat)
    requires
        n <= freqs.len(),
        n <= 256,
    ensures
        forall|k: int| 0 <= k < occurring(freqs, n).len() ==> freqs[#[trigger] occurring(freqs, n)[k] as int] > 0,
    decreases n,
{
    if n > 0 {
        lemma_occurring_present(freqs, (n - 1) as nat);
        let o = occurring(freqs, (n - 1) as nat);
        if freqs[n - 1] > 0 {
            let o2 = o.push((n - 1) as usize);
            assert forall|k: int| 0 <= k < o2.len() implies freqs[#[trigger] o2[k] as int] > 0 by {
                if k < o.len() {
                    assert(o2[k] == o[k]);
                }
            }
        }
    }
}

/// The length assigned to the `k`-th occurring symbol is its depth,
/// capped at `ml`.
proof fn lemma_assign_value(syms: Seq<usize>, d: Seq<usize>, ml: u8, i: nat, k: int)
    requires
        0 <= k < i <= syms.len(),
        forall|j: int| 0 <= j < syms.len() ==> #[trigger] syms[j] < 256,
        forall|k1: int, k2: int| 0 <= k1 < k2 < syms.len() ==> syms[k1] < syms[k2],
    ensures
        assign_lengths(syms, d, ml, i)[syms[k] as int] == if d[k] > ml { ml } else { d[k] as u8 },
    decreases i,
{
    lemma_assign_len(syms, d, ml, (i - 1) as nat);
    if k < i - 1 {
        lemma_assign_value(syms, d, ml, (i - 1) as nat, k);
        assert(syms[k] < syms[i - 1]);
    }
}

proof fn lemma_assign_len(syms: Seq<usize>, d: Seq<usize>, ml: u8, i: nat)
    requires
        i <= syms.len(),
        forall|k: int| 0 <= k < i ==> #[trigger] syms[k] < 256,
    ensures
        assign_lengths(syms, d, ml, i).len() == 256,
    decreases i,
{
    if i > 0 {
        lemma_assign_len(syms, d, ml, (i - 1) as nat);
    }
}

/// Every assigned length is at most a bound on the first `i` depths.
proof fn lemma_assign_bound(syms: Seq<usize>, d: Seq<usize>, ml: u8, i: nat, s: int, bound: nat)
    requires
        0 <= s < 256,
        i <= syms.len(),
        i <= d.len(),
        forall|k: int| 0 <= k < i ==> #[trigger] syms[k] < 256,
        forall|k: int| 0 <= k < i ==> #[trigger] d[k] <= bound,
    ensures
        assign_lengths(syms, d, ml, i)[s] <= bound,
    decreases i,
{
    if i > 0 {
        lemma_assign_bound(syms, d, ml, (i - 1) as nat, s, bound);
        lemma_assign_len(syms, d, ml, (i - 1) as nat);
        assert(d[i - 1] <= bound);
    }
}

} // verus!
