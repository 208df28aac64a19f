//! Why the optimal parser's chunks are cheapest: the priced programme it
//! runs over a chunk finds, for every position, the fewest bits any
//! sequence of literals and allowed matches takes to reach it, and the
//! path it backtracks costs exactly that much.
use vstd::prelude::*;
use vstd::arithmetic::power2::*;
use crate::encoder::lz77::{chunk_path, chunk_prices, dp_init, lemma_bit_len_bound, match_cost, relax_match, unpriced, Match, OPT_CHUNK_SIZE};

verus! {

/// The state of the programme: prices, and per position the length and
/// offset of the step that reached it.
pub type Prices = (Seq<u32>, Seq<usize>, Seq<usize>);

/// Where a step from chunk position `pos` leads and what it costs.  A
/// step is an entry (start, length, offset) as the backtracked path holds
/// them; it must start at `pos`.  A literal (length 0) moves one position
/// for 8 bits; a match of an allowed length (from `min_match` up to the
/// match found at `pos`, within the chunk) with that match's offset moves
/// `length` positions for its `match_cost`.
pub open spec fn step(chunk: Seq<Option<Match>>, min_match: nat, pos: nat, e: (usize, usize, usize)) -> Option<(nat, nat)> {
    if e.0 as nat != pos || pos >= chunk.len() {
        None
    } else if e.1 == 0 {
        Some((pos + 1, 8))
    } else {
        match chunk[pos as int] {
            Some(m) => if min_match <= e.1 && e.1 <= m.length && pos + e.1 <= chunk.len() && e.2 == m.offset {
                Some((pos + e.1 as nat, match_cost(m.offset as nat, e.1 as nat)))
            } else {
                None
            },
            None => None,
        }
    }
}

/// Where a path of steps taken from position 0 ends and what it costs;
/// `None` when one of its steps is not allowed.
pub open spec fn walk(chunk: Seq<Option<Match>>, min_match: nat, path: Seq<(usize, usize, usize)>) -> Option<(nat, nat)>
    decreases path.len(),
{
    if path.len() == 0 {
        Some((0, 0))
    } else {
        match walk(chunk, min_match, path.drop_last()) {
            None => None,
            Some((e, c)) => match step(chunk, min_match, e, path.last()) {
                None => None,
                Some((t, sc)) => Some((t, c + sc)),
            },
        }
    }
}

/// The programme's work at position `i`: the body of [`chunk_prices`].
pub open spec fn dp_step(chunk: Seq<Option<Match>>, min_match: nat, i: nat, st: Prices) -> Prices {
    let price = st.0;
    let fl = st.1;
    let fo = st.2;
    let p = price[i as int];
    if p == unpriced() {
        st
    } else {
        let lp = p + 8;
        let q = i + 1int;
        let pr1 = if lp < price[q] { price.update(q, lp as u32) } else { price };
        let fl1 = if lp < price[q] { fl.update(q, 0usize) } else { fl };
        let fo1 = if lp < price[q] { fo.update(q, 0usize) } else { fo };
        match chunk[i as int] {
            Some(m) => {
                let room = (chunk.len() - i) as nat;
                let max_len = if (m.length as nat) < room { m.length as nat } else { room };
                relax_match(p as nat, i, m, min_match, max_len, pr1, fl1, fo1)
            },
            None => (pr1, fl1, fo1),
        }
    }
}

/// The state after the positions before `i`.
pub open spec fn dp_upto(chunk: Seq<Option<Match>>, min_match: nat, i: nat) -> Prices
    decreases i,
{
    if i == 0 {
        dp_init(chunk.len())
    } else {
        dp_step(chunk, min_match, (i - 1) as nat, dp_upto(chunk, min_match, (i - 1) as nat))
    }
}

proof fn lemma_prices_from(chunk: Seq<Option<Match>>, min_match: nat, i: nat)
    requires
        i <= chunk.len(),
    ensures
        chunk_prices(chunk, min_match, i, dp_upto(chunk, min_match, i).0, dp_upto(chunk, min_match, i).1, dp_upto(chunk, min_match, i).2)
            == dp_upto(chunk, min_match, chunk.len()),
    decreases chunk.len() - i,
{
    if i < chunk.len() {
        lemma_prices_from(chunk, min_match, i + 1);
    }
}

/// The programme's result is the state after every position.
pub proof fn lemma_prices_upto(chunk: Seq<Option<Match>>, min_match: nat)
    ensures
        chunk_prices(chunk, min_match, 0, dp_init(chunk.len()).0, dp_init(chunk.len()).1, dp_init(chunk.len()).2)
            == dp_upto(chunk, min_match, chunk.len()),
{
    lemma_prices_from(chunk, min_match, 0);
}

/// Entry `k` after relaxing the match at `i` from length `len` to
/// `max_len`: unchanged, or reached from `i` by a match step.
pub open spec fn relaxed_entry(r: Prices, st: Prices, p: nat, i: nat, m: Match, len: nat, max_len: nat, k: int) -> bool {
    ||| (r.0[k] == st.0[k] && r.1[k] == st.1[k] && r.2[k] == st.2[k])
    ||| (i + len <= k && k <= i + max_len && r.1[k] as int == k - i && r.2[k] == m.offset
        && r.0[k] == p + match_cost(m.offset as nat, (k - i) as nat))
}

/// What relaxing the match at `i` from length `len` to `max_len` does: no
/// price rises, every allowed length offers its target at most `p` plus
/// its cost, and every entry it changes was reached from `i` by that step.
proof fn lemma_relax(p: nat, i: nat, m: Match, len: nat, max_len: nat, st: Prices)
    requires
        st.0.len() == st.1.len(),
        st.0.len() == st.2.len(),
        i + max_len < st.0.len(),
        st.0.len() <= 0x10000,
        len >= 1,
    ensures
        ({
            let r = relax_match(p, i, m, len, max_len, st.0, st.1, st.2);
            &&& r.0.len() == st.0.len()
            &&& r.1.len() == st.0.len()
            &&& r.2.len() == st.0.len()
            &&& forall|k: int| 0 <= k < st.0.len() ==> #[trigger] r.0[k] <= st.0[k]
            &&& forall|l: nat| len <= l <= max_len ==> r.0[(i + l) as int] <= p + match_cost(m.offset as nat, l)
            &&& forall|k: int| 0 <= k < st.0.len() ==> #[trigger] relaxed_entry(r, st, p, i, m, len, max_len, k)
        }),
    decreases if len <= max_len { (max_len + 1 - len) as nat } else { 0nat },
{
    let r = relax_match(p, i, m, len, max_len, st.0, st.1, st.2);
    if len <= max_len {
        let mp = p + match_cost(m.offset as nat, len);
        let q = (i + len) as int;
        if mp < st.0[q] {
            let st2 = (st.0.update(q, mp as u32), st.1.update(q, len as usize), st.2.update(q, m.offset));
            assert(len as usize == len);
            lemma_relax(p, i, m, len + 1, max_len, st2);
            assert(r == relax_match(p, i, m, len + 1, max_len, st2.0, st2.1, st2.2));
            assert forall|k: int| 0 <= k < st.0.len() implies #[trigger] r.0[k] <= st.0[k] by {
                assert(r.0[k] <= st2.0[k]);
            }
            assert forall|l: nat| len <= l <= max_len implies r.0[(i + l) as int] <= p + match_cost(m.offset as nat, l) by {
                if l == len {
                    assert(r.0[q] <= st2.0[q]);
                }
            }
            assert forall|k: int| 0 <= k < st.0.len() implies #[trigger] relaxed_entry(r, st, p, i, m, len, max_len, k) by {
                assert(relaxed_entry(r, st2, p, i, m, len + 1, max_len, k));
                if k == q {
                    assert((k - i) as nat == len);
                }
            }
        } else {
            lemma_relax(p, i, m, len + 1, max_len, st);
            assert(r == relax_match(p, i, m, len + 1, max_len, st.0, st.1, st.2));
            assert forall|l: nat| len <= l <= max_len implies r.0[(i + l) as int] <= p + match_cost(m.offset as nat, l) by {
                if l == len {
                    assert(r.0[q] <= st.0[q]);
                }
            }
            assert forall|k: int| 0 <= k < st.0.len() implies #[trigger] relaxed_entry(r, st, p, i, m, len, max_len, k) by {
                assert(relaxed_entry(r, st, p, i, m, len + 1, max_len, k));
            }
        }
    }
}

/// A match step costs at most 128 bits.
proof fn lemma_match_cost_small(offset: usize, len: nat)
    ensures
        match_cost(offset as nat, len) <= 128,
{
    lemma2_to64();
    lemma_pow2_unfold(65);
    lemma_bit_len_bound(offset as nat + 3, 65);
}

/// A walk ends inside the chunk, costs at most 128 bits per position it
/// advances, and its last step starts where the walk before it ended,
/// strictly before the end.
proof fn lemma_walk(chunk: Seq<Option<Match>>, min_match: nat, path: Seq<(usize, usize, usize)>)
    requires
        walk(chunk, min_match, path) is Some,
    ensures
        walk(chunk, min_match, path).unwrap().0 <= chunk.len(),
        walk(chunk, min_match, path).unwrap().1 <= 128 * walk(chunk, min_match, path).unwrap().0,
        path.len() > 0 ==> {
            let w = walk(chunk, min_match, path.drop_last());
            &&& w is Some
            &&& path.last().0 as nat == w.unwrap().0
            &&& w.unwrap().0 < walk(chunk, min_match, path).unwrap().0
            &&& w.unwrap().0 < chunk.len()
        },
    decreases path.len(),
{
    if path.len() > 0 {
        lemma_walk(chunk, min_match, path.drop_last());
        let x = path.last();
        if x.1 != 0 {
            lemma_match_cost_small(x.2, x.1 as nat);
        }
    }
}

/// Entry `k` after the programme's work at position `i`: unchanged,
/// reached from `i` by a literal, or reached from `i` by an allowed
/// length of the match found there.
pub open spec fn stepped_entry(chunk: Seq<Option<Match>>, min_match: nat, i: nat, old: Prices, new: Prices, k: int) -> bool {
    ||| (new.0[k] == old.0[k] && new.1[k] == old.1[k] && new.2[k] == old.2[k])
    ||| (k == i + 1 && new.1[k] == 0 && new.0[k] == old.0[i as int] + 8)
    ||| (chunk[i as int] is Some && k == i + new.1[k] && min_match <= new.1[k] && new.1[k] <= chunk[i as int].unwrap().length
        && k <= chunk.len() && new.2[k] == chunk[i as int].unwrap().offset
        && new.0[k] == old.0[i as int] + match_cost(new.2[k] as nat, new.1[k] as nat))
}

/// What the work at position `i` does: no price rises, every entry it
/// changes is reached from `i`, and, when `i` is priced, the literal and
/// every allowed length of the match at `i` offer their targets at most
/// the price of `i` plus their cost.
proof fn lemma_dp_step(chunk: Seq<Option<Match>>, min_match: nat, i: nat, st: Prices)
    requires
        i < chunk.len() <= OPT_CHUNK_SIZE,
        min_match >= 1,
        st.0.len() == chunk.len() + 1,
        st.1.len() == chunk.len() + 1,
        st.2.len() == chunk.len() + 1,
        forall|k: int| 0 <= k <= chunk.len() ==> #[trigger] st.0[k] <= unpriced(),
    ensures
        ({
            let new = dp_step(chunk, min_match, i, st);
            &&& new.0.len() == chunk.len() + 1
            &&& new.1.len() == chunk.len() + 1
            &&& new.2.len() == chunk.len() + 1
            &&& forall|k: int| 0 <= k <= chunk.len() ==> #[trigger] new.0[k] <= st.0[k]
            &&& forall|k: int| 0 <= k <= chunk.len() ==> #[trigger] stepped_entry(chunk, min_match, i, st, new, k)
            &&& st.0[i as int] < unpriced() ==> new.0[i + 1int] <= st.0[i as int] + 8
            &&& st.0[i as int] < unpriced() && chunk[i as int] is Some ==> forall|l: nat|
                min_match <= l <= chunk[i as int].unwrap().length && i + l <= chunk.len()
                    ==> #[trigger] new.0[(i + l) as int] <= st.0[i as int] + match_cost(chunk[i as int].unwrap().offset as nat, l)
        }),
{
    let new = dp_step(chunk, min_match, i, st);
    let p = st.0[i as int];
    if p != unpriced() {
        let lp = p + 8;
        let q = i + 1int;
        let pr1 = if lp < st.0[q] { st.0.update(q, lp as u32) } else { st.0 };
        let fl1 = if lp < st.0[q] { st.1.update(q, 0usize) } else { st.1 };
        let fo1 = if lp < st.0[q] { st.2.update(q, 0usize) } else { st.2 };
        let st1 = (pr1, fl1, fo1);
        assert(pr1[q] <= lp);
        assert forall|k: int| 0 <= k <= chunk.len() implies #[trigger] stepped_entry(chunk, min_match, i, st, st1, k)
            && st1.0[k] <= st.0[k] by {
        }
        match chunk[i as int] {
            Some(m) => {
                let room = (chunk.len() - i) as nat;
                let max_len = if (m.length as nat) < room { m.length as nat } else { room };
                lemma_relax(p as nat, i, m, min_match, max_len, st1);
                assert(new == relax_match(p as nat, i, m, min_match, max_len, pr1, fl1, fo1));
                assert forall|k: int| 0 <= k <= chunk.len() implies #[trigger] stepped_entry(chunk, min_match, i, st, new, k)
                    && new.0[k] <= st.0[k] by {
                    assert(relaxed_entry(new, st1, p as nat, i, m, min_match, max_len, k));
                    assert(stepped_entry(chunk, min_match, i, st, st1, k));
                    assert(new.0[k] <= st1.0[k]);
                }
                assert(new.0[i + 1int] <= st1.0[i + 1int]);
                assert forall|l: nat| min_match <= l <= m.length && i + l <= chunk.len()
                    implies #[trigger] new.0[(i + l) as int] <= p + match_cost(m.offset as nat, l) by {
                    assert(l <= max_len);
                }
            },
            None => {
            },
        }
    }
}

/// How priced entry `k` was reached, by a step from a position before
/// `i`: a literal from `k - 1`, or an allowed length of the match found
/// at `k - length`, with the recorded offset; its price is the price of
/// that position plus the step's cost.
pub open spec fn reached_from(chunk: Seq<Option<Match>>, min_match: nat, i: nat, st: Prices, k: int) -> bool {
    if st.1[k] == 0 {
        1 <= k && k - 1 < i && st.0[k] == st.0[k - 1] + 8
    } else {
        let j = k - st.1[k];
        &&& 0 <= j < i
        &&& chunk[j] is Some
        &&& st.2[k] == chunk[j].unwrap().offset
        &&& min_match <= st.1[k] <= chunk[j].unwrap().length
        &&& st.0[k] == st.0[j] + match_cost(st.2[k] as nat, st.1[k] as nat)
    }
}

/// What holds after the programme has worked on the positions before `i`:
/// position 0 costs nothing, every priced position was reached by a step
/// from a position before `i`, and no walk whose last step starts before
/// `i` costs less than the price of where it ends.
pub open spec fn dp_inv(chunk: Seq<Option<Match>>, min_match: nat, i: nat, st: Prices) -> bool {
    &&& st.0.len() == chunk.len() + 1
    &&& st.1.len() == chunk.len() + 1
    &&& st.2.len() == chunk.len() + 1
    &&& st.0[0] == 0
    &&& forall|k: int| 0 <= k <= chunk.len() ==> #[trigger] st.0[k] <= unpriced()
    &&& forall|k: int| 1 <= k <= chunk.len() && st.0[k] < unpriced() ==> #[trigger] reached_from(chunk, min_match, i, st, k)
    &&& forall|path: Seq<(usize, usize, usize)>|
        #[trigger] walk(chunk, min_match, path) is Some && (path.len() == 0 || path.last().0 < i)
            ==> st.0[walk(chunk, min_match, path).unwrap().0 as int] <= walk(chunk, min_match, path).unwrap().1
}

proof fn lemma_inv_init(chunk: Seq<Option<Match>>, min_match: nat)
    ensures
        dp_inv(chunk, min_match, 0, dp_init(chunk.len())),
{
    let st = dp_init(chunk.len());
    assert forall|path: Seq<(usize, usize, usize)>|
        #[trigger] walk(chunk, min_match, path) is Some && (path.len() == 0 || path.last().0 < 0)
            implies st.0[walk(chunk, min_match, path).unwrap().0 as int] <= walk(chunk, min_match, path).unwrap().1 by {
    }
}

proof fn lemma_inv_step(chunk: Seq<Option<Match>>, min_match: nat, i: nat, st: Prices)
    requires
        i < chunk.len() <= OPT_CHUNK_SIZE,
        min_match >= 1,
        dp_inv(chunk, min_match, i, st),
    ensures
        dp_inv(chunk, min_match, i + 1, dp_step(chunk, min_match, i, st)),
{
    let new = dp_step(chunk, min_match, i, st);
    let n = chunk.len();
    lemma_dp_step(chunk, min_match, i, st);
    assert forall|k: int| 0 <= k <= i implies new.0[k] == st.0[k] && new.1[k] == st.1[k] && new.2[k] == st.2[k] by {
        assert(stepped_entry(chunk, min_match, i, st, new, k));
    }
    assert(new.0[0] == 0);
    assert forall|k: int| 0 <= k <= n implies #[trigger] new.0[k] <= unpriced() by {
        assert(new.0[k] <= st.0[k]);
        assert(st.0[k] <= unpriced());
    }
    assert forall|k: int| 1 <= k <= n && new.0[k] < unpriced() implies #[trigger] reached_from(chunk, min_match, i + 1, new, k) by {
        assert(stepped_entry(chunk, min_match, i, st, new, k));
        if new.0[k] == st.0[k] && new.1[k] == st.1[k] && new.2[k] == st.2[k] {
            assert(reached_from(chunk, min_match, i, st, k));
            if st.1[k] != 0 {
                let j = k - st.1[k];
                assert(new.0[j] == st.0[j]);
            } else {
                assert(new.0[k - 1] == st.0[k - 1]);
            }
        } else {
            assert(new.0[i as int] == st.0[i as int]);
        }
    }
    assert forall|path: Seq<(usize, usize, usize)>|
        #[trigger] walk(chunk, min_match, path) is Some && (path.len() == 0 || path.last().0 < i + 1)
            implies new.0[walk(chunk, min_match, path).unwrap().0 as int] <= walk(chunk, min_match, path).unwrap().1 by {
        let w = walk(chunk, min_match, path);
        lemma_walk(chunk, min_match, path);
        let e = w.unwrap().0;
        let c = w.unwrap().1;
        assert(new.0[e as int] <= st.0[e as int]);
        if path.len() == 0 || path.last().0 < i {
        } else {
            let dl = path.drop_last();
            let wd = walk(chunk, min_match, dl);
            lemma_walk(chunk, min_match, dl);
            assert(wd.unwrap().0 == i);
            if dl.len() > 0 {
                assert(dl.last().0 < i);
            }
            assert(st.0[i as int] <= wd.unwrap().1);
            assert(wd.unwrap().1 <= 128 * 512);
            let x = path.last();
            if x.1 == 0 {
                assert(e == i + 1);
            } else {
                assert(new.0[(i + x.1 as nat) as int] <= st.0[i as int] + match_cost(chunk[i as int].unwrap().offset as nat, x.1 as nat));
            }
        }
    }
}

/// The invariant holds after every prefix of the chunk.
proof fn lemma_inv_upto(chunk: Seq<Option<Match>>, min_match: nat, i: nat)
    requires
        i <= chunk.len() <= OPT_CHUNK_SIZE,
        min_match >= 1,
    ensures
        dp_inv(chunk, min_match, i, dp_upto(chunk, min_match, i)),
    decreases i,
{
    if i == 0 {
        lemma_inv_init(chunk, min_match);
    } else {
        lemma_inv_upto(chunk, min_match, (i - 1) as nat);
        lemma_inv_step(chunk, min_match, (i - 1) as nat, dp_upto(chunk, min_match, (i - 1) as nat));
    }
}

/// The path of `k` literals from the start of the chunk.
pub open spec fn literals(k: nat) -> Seq<(usize, usize, usize)> {
    Seq::new(k, |j: int| (j as usize, 0usize, 0usize))
}

proof fn lemma_literal_walk(chunk: Seq<Option<Match>>, min_match: nat, k: nat)
    requires
        k <= chunk.len() <= OPT_CHUNK_SIZE,
    ensures
        walk(chunk, min_match, literals(k)) == Some((k, 8 * k)),
    decreases k,
{
    if k > 0 {
        lemma_literal_walk(chunk, min_match, (k - 1) as nat);
        assert(literals(k).drop_last() =~= literals((k - 1) as nat));
        assert(literals(k).last() == ((k - 1) as usize, 0usize, 0usize));
    }
}

proof fn lemma_path_acc(fl: Seq<usize>, fo: Seq<usize>, cur: nat, acc: Seq<(usize, usize, usize)>)
    ensures
        chunk_path(fl, fo, cur, acc) == acc + chunk_path(fl, fo, cur, Seq::empty()),
    decreases cur,
{
    if cur == 0 {
        assert(acc + Seq::<(usize, usize, usize)>::empty() =~= acc);
    } else {
        let len = fl[cur as int] as nat;
        let (next, x) = if len == 0 || len > cur {
            ((cur - 1) as nat, ((cur - 1) as usize, 0usize, 0usize))
        } else {
            ((cur - len) as nat, ((cur - len) as usize, len as usize, fo[cur as int]))
        };
        lemma_path_acc(fl, fo, next, acc.push(x));
        lemma_path_acc(fl, fo, next, Seq::<(usize, usize, usize)>::empty().push(x));
        let rest = chunk_path(fl, fo, next, Seq::empty());
        assert(acc.push(x) + rest =~= acc + (Seq::<(usize, usize, usize)>::empty().push(x) + rest));
    }
}

proof fn lemma_reverse_cons(x: (usize, usize, usize), rest: Seq<(usize, usize, usize)>)
    ensures
        (seq![x] + rest).reverse() == rest.reverse().push(x),
{
    let s = seq![x] + rest;
    assert(s.reverse() =~= rest.reverse().push(x));
}

/// The path backtracked from a priced position `cur` walks from the start
/// of the chunk to `cur` and costs its price.
proof fn lemma_path_walk(chunk: Seq<Option<Match>>, min_match: nat, st: Prices, cur: nat)
    requires
        chunk.len() <= OPT_CHUNK_SIZE,
        min_match >= 1,
        dp_inv(chunk, min_match, chunk.len(), st),
        cur <= chunk.len(),
        st.0[cur as int] < unpriced(),
    ensures
        walk(chunk, min_match, chunk_path(st.1, st.2, cur, Seq::empty()).reverse()) == Some((cur, st.0[cur as int] as nat)),
    decreases cur,
{
    let empty = Seq::<(usize, usize, usize)>::empty();
    if cur == 0 {
        assert(chunk_path(st.1, st.2, 0, empty).reverse() =~= empty);
    } else {
        assert(reached_from(chunk, min_match, chunk.len(), st, cur as int));
        let len = st.1[cur as int] as nat;
        let (next, x) = if len == 0 || len > cur {
            ((cur - 1) as nat, ((cur - 1) as usize, 0usize, 0usize))
        } else {
            ((cur - len) as nat, ((cur - len) as usize, len as usize, st.2[cur as int]))
        };
        lemma_path_walk(chunk, min_match, st, next);
        let rest = chunk_path(st.1, st.2, next, empty);
        lemma_path_acc(st.1, st.2, next, empty.push(x));
        assert(empty.push(x) =~= seq![x]);
        assert(chunk_path(st.1, st.2, cur, empty) == seq![x] + rest);
        lemma_reverse_cons(x, rest);
        let r = rest.reverse().push(x);
        assert(r.drop_last() =~= rest.reverse());
        assert(r.last() == x);
    }
}

/// The optimal parser's chunks are cheapest.  Over a chunk of at most
/// `OPT_CHUNK_SIZE` positions, with matches at least one byte long, the
/// path that the programme backtracks from the end of the chunk, read
/// from the start, is a walk of allowed steps (literals, and lengths of
/// the match found at each position with its offset) that reaches the
/// end of the chunk and costs the price the programme computed for it;
/// and no walk of allowed steps that reaches the end costs less.
pub proof fn lemma_chunk_path_is_cheapest(chunk: Seq<Option<Match>>, min_match: nat)
    requires
        1 <= chunk.len() <= OPT_CHUNK_SIZE,
        min_match >= 1,
    ensures
        ({
            let n = chunk.len();
            let dp = chunk_prices(chunk, min_match, 0, dp_init(n).0, dp_init(n).1, dp_init(n).2);
            &&& walk(chunk, min_match, chunk_path(dp.1, dp.2, n, Seq::empty()).reverse()) == Some((n, dp.0[n as int] as nat))
            &&& forall|other: Seq<(usize, usize, usize)>|
                #[trigger] walk(chunk, min_match, other) is Some && walk(chunk, min_match, other).unwrap().0 == n
                    ==> dp.0[n as int] <= walk(chunk, min_match, other).unwrap().1
        }),
{
    let n = chunk.len();
    lemma_prices_upto(chunk, min_match);
    lemma_inv_upto(chunk, min_match, n);
    let st = dp_upto(chunk, min_match, n);
    assert forall|other: Seq<(usize, usize, usize)>|
        #[trigger] walk(chunk, min_match, other) is Some && walk(chunk, min_match, other).unwrap().0 == n
            implies st.0[n as int] <= walk(chunk, min_match, other).unwrap().1 by {
        lemma_walk(chunk, min_match, other);
    }
    lemma_literal_walk(chunk, min_match, n);
    lemma_walk(chunk, min_match, literals(n));
    assert(st.0[n as int] <= 8 * n);
    lemma_path_walk(chunk, min_match, st, n);
}

} // verus!
