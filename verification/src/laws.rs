//! Properties of the tile assignment that hold for every input: the shape of
//! the result, the usage cap, tile coverage, and the greedy baseline; and
//! what each constraint pass (cap, coverage, adjacency) does on its own.
use vstd::prelude::*;

use crate::assign::{
    adjacent_cell, adjacent_pass, adjacent_upto, admits, best_of, best_upto, cell_order, count,
    coverage_pass, coverage_tile, coverage_upto, greedy, host_upto, is_cell_order, key_less,
    lemma_best_of_member, lemma_best_upto, lemma_count_pos, lemma_count_two, lemma_count_update,
    lemma_count_zero, lemma_insert_in_order, matrix_ok, max_usage_pass, max_usage_tile,
    max_usage_upto, reassign_upto, spec_assign, spec_nearest, spec_picks, TileId,
};
use crate::error::KakeraError;
use crate::grid::MosaicParams;

verus! {

/// No tile id occurs twice in the index.
pub open spec fn distinct_ids(ids: Seq<TileId>) -> bool {
    forall|i: int, j: int| 0 <= i < j < ids.len() ==> ids[i] != ids[j]
}

/// Total placements of the first `k` tiles.
pub open spec fn sum_counts(s: Seq<TileId>, ids: Seq<TileId>, k: int) -> int
    decreases k,
{
    if k <= 0 {
        0
    } else {
        sum_counts(s, ids, k - 1) + count(s, ids[k - 1])
    }
}

/// How many of the first `k` tiles carry id `x`.
pub open spec fn hits(ids: Seq<TileId>, x: TileId, k: int) -> int
    decreases k,
{
    if k <= 0 {
        0
    } else {
        hits(ids, x, k - 1) + (if ids[k - 1] == x {
            1int
        } else {
            0int
        })
    }
}

proof fn lemma_sum_counts_drop(s: Seq<TileId>, ids: Seq<TileId>, k: int)
    requires
        s.len() > 0,
        k <= ids.len(),
    ensures
        sum_counts(s, ids, k) == sum_counts(s.drop_last(), ids, k) + hits(ids, s.last(), k),
    decreases k,
{
    if k > 0 {
        lemma_sum_counts_drop(s, ids, k - 1);
    }
}

proof fn lemma_hits_le_one(ids: Seq<TileId>, x: TileId, k: int)
    requires
        distinct_ids(ids),
        k <= ids.len(),
    ensures
        hits(ids, x, k) <= 1,
        hits(ids, x, k) >= 0,
        hits(ids, x, k) == 1 ==> exists|i: int| 0 <= i < k && ids[i] == x,
    decreases k,
{
    if k > 0 {
        lemma_hits_le_one(ids, x, k - 1);
        if ids[k - 1] == x && hits(ids, x, k - 1) == 1 {
            let i = choose|i: int| 0 <= i < k - 1 && ids[i] == x;
            assert(ids[i] != ids[k - 1]);
        }
    }
}

/// With distinct ids, the placements of all tiles add up to at most the
/// number of cells.
pub proof fn lemma_sum_counts_le_len(s: Seq<TileId>, ids: Seq<TileId>)
    requires
        distinct_ids(ids),
    ensures
        sum_counts(s, ids, ids.len() as int) <= s.len(),
    decreases s.len(),
{
    if s.len() == 0 {
        lemma_sum_counts_zero(s, ids, ids.len() as int);
    } else {
        lemma_sum_counts_le_len(s.drop_last(), ids);
        lemma_sum_counts_drop(s, ids, ids.len() as int);
        lemma_hits_le_one(ids, s.last(), ids.len() as int);
    }
}

proof fn lemma_sum_counts_zero(s: Seq<TileId>, ids: Seq<TileId>, k: int)
    requires
        s.len() == 0,
    ensures
        sum_counts(s, ids, k) == 0,
    decreases k,
{
    if k > 0 {
        lemma_sum_counts_zero(s, ids, k - 1);
    }
}

proof fn lemma_sum_counts_lower(s: Seq<TileId>, ids: Seq<TileId>, k: int, m: int, j0: int)
    requires
        0 <= j0 < k <= ids.len(),
        m >= 0,
        forall|p: int| 0 <= p < k ==> #[trigger] count(s, ids[p]) >= m,
        count(s, ids[j0]) >= m + 1,
    ensures
        sum_counts(s, ids, k) >= m * k + 1,
    decreases k,
{
    if j0 < k - 1 {
        lemma_sum_counts_lower(s, ids, k - 1, m, j0);
    } else {
        lemma_sum_counts_ge(s, ids, k - 1, m);
    }
    assert(m * k == m * (k - 1) + m) by (nonlinear_arith);
}

proof fn lemma_sum_counts_ge(s: Seq<TileId>, ids: Seq<TileId>, k: int, m: int)
    requires
        0 <= k <= ids.len(),
        m >= 0,
        forall|p: int| 0 <= p < k ==> #[trigger] count(s, ids[p]) >= m,
    ensures
        sum_counts(s, ids, k) >= m * k,
    decreases k,
{
    if k > 0 {
        lemma_sum_counts_ge(s, ids, k - 1, m);
        assert(m * k == m * (k - 1) + m) by (nonlinear_arith);
    } else {
        assert(m * k == 0) by (nonlinear_arith)
            requires
                k == 0,
        ;
    }
}

/// A duplicate-free list of exactly the cells holding `id` has `count` entries.
proof fn lemma_order_len(o: Seq<usize>, picks: Seq<TileId>, id: TileId)
    requires
        picks.len() <= usize::MAX,
        o.no_duplicates(),
        forall|i: int| 0 <= i < o.len() ==> #[trigger] o[i] < picks.len() && picks[o[i] as int] == id,
        forall|c: int| 0 <= c < picks.len() && picks[c] == id ==> o.contains(c as usize),
    ensures
        o.len() == count(picks, id),
    decreases picks.len(),
{
    if picks.len() == 0 {
        if o.len() > 0 {
            assert(o[0] < picks.len());
        }
    } else {
        let last = picks.len() - 1;
        let pd = picks.drop_last();
        if picks[last] == id {
            assert(o.contains(last as usize));
            let i = choose|i: int| 0 <= i < o.len() && o[i] == last as usize;
            let o2 = o.remove(i);
            assert forall|a: int| 0 <= a < o2.len() implies #[trigger] o2[a] < pd.len() && pd[o2[a] as int] == id by {
                if a < i {
                    assert(o2[a] == o[a]);
                    assert(o[a] != o[i]);
                } else {
                    assert(o2[a] == o[a + 1]);
                    assert(o[a + 1] != o[i]);
                }
            }
            assert forall|c: int| 0 <= c < pd.len() && pd[c] == id implies o2.contains(c as usize) by {
                assert(o.contains(c as usize));
                let a = choose|a: int| 0 <= a < o.len() && o[a] == c as usize;
                if a < i {
                    assert(o2[a] == c as usize);
                } else {
                    assert(a != i);
                    assert(o2[a - 1] == c as usize);
                }
            }
            assert(o2.no_duplicates()) by {
                assert forall|a: int, b: int| 0 <= a < o2.len() && 0 <= b < o2.len() && a != b implies o2[a] != o2[b] by {
                    let a1 = if a < i { a } else { a + 1 };
                    let b1 = if b < i { b } else { b + 1 };
                    assert(o2[a] == o[a1] && o2[b] == o[b1]);
                }
            }
            lemma_order_len(o2, pd, id);
        } else {
            assert forall|a: int| 0 <= a < o.len() implies #[trigger] o[a] < pd.len() && pd[o[a] as int] == id by {
                assert(o[a] != last);
            }
            lemma_order_len(o, pd, id);
        }
    }
}

/// Index of the first listed cell whose key exceeds `d`, searching from `i`.
spec fn first_greater(o: Seq<usize>, bd: Seq<u128>, d: u128, i: int) -> int
    decreases o.len() - i,
{
    if i >= o.len() {
        o.len() as int
    } else if bd[o[i] as int] > d {
        i
    } else {
        first_greater(o, bd, d, i + 1)
    }
}

proof fn lemma_first_greater(o: Seq<usize>, bd: Seq<u128>, d: u128, i: int)
    requires
        0 <= i <= o.len(),
    ensures
        i <= first_greater(o, bd, d, i) <= o.len(),
        forall|q: int| i <= q < first_greater(o, bd, d, i) ==> bd[#[trigger] o[q] as int] <= d,
        first_greater(o, bd, d, i) < o.len() ==> d < bd[o[first_greater(o, bd, d, i)] as int],
    decreases o.len() - i,
{
    if i < o.len() && bd[o[i] as int] <= d {
        lemma_first_greater(o, bd, d, i + 1);
    }
}

/// The cells before `c` holding `id`, built by sorted insertion.
spec fn build_order(picks: Seq<TileId>, bd: Seq<u128>, id: TileId, c: int) -> Seq<usize>
    decreases c,
{
    if c <= 0 {
        Seq::empty()
    } else {
        let o = build_order(picks, bd, id, c - 1);
        if picks[c - 1] == id {
            o.insert(first_greater(o, bd, bd[c - 1], 0), (c - 1) as usize)
        } else {
            o
        }
    }
}

proof fn lemma_build_order(picks: Seq<TileId>, bd: Seq<u128>, id: TileId, c: int)
    requires
        0 <= c <= picks.len(),
        picks.len() <= usize::MAX,
        bd.len() == picks.len(),
    ensures
        ({
            let o = build_order(picks, bd, id, c);
            &&& forall|i: int| 0 <= i < o.len() ==> #[trigger] o[i] < c && picks[o[i] as int] == id
            &&& forall|c2: int| 0 <= c2 < c && picks[c2] == id ==> o.contains(c2 as usize)
            &&& forall|i: int, j: int|
                0 <= i < j < o.len() ==> key_less(bd, #[trigger] o[i] as int, #[trigger] o[j] as int)
        }),
    decreases c,
{
    if c > 0 {
        lemma_build_order(picks, bd, id, c - 1);
        let o = build_order(picks, bd, id, c - 1);
        if picks[c - 1] == id {
            lemma_first_greater(o, bd, bd[c - 1], 0);
            let p = first_greater(o, bd, bd[c - 1], 0);
            lemma_insert_in_order(o, o.insert(p, (c - 1) as usize), p, c - 1, picks, bd, id);
        } else {
            assert forall|c2: int| 0 <= c2 < c && picks[c2] == id implies o.contains(c2 as usize) by {
            }
        }
    }
}

/// Every tile has a cell order, and it lists exactly `count` cells.
pub proof fn lemma_cell_order(picks: Seq<TileId>, bd: Seq<u128>, id: TileId)
    requires
        picks.len() <= usize::MAX,
        bd.len() == picks.len(),
    ensures
        is_cell_order(cell_order(picks, bd, id), picks, bd, id),
        cell_order(picks, bd, id).len() == count(picks, id),
        cell_order(picks, bd, id).no_duplicates(),
{
    lemma_build_order(picks, bd, id, picks.len() as int);
    let o = build_order(picks, bd, id, picks.len() as int);
    assert(is_cell_order(o, picks, bd, id));
    let o2 = cell_order(picks, bd, id);
    assert(is_cell_order(o2, picks, bd, id));
    assert(o2.no_duplicates()) by {
        assert forall|a: int, b: int| 0 <= a < o2.len() && 0 <= b < o2.len() && a != b implies o2[a] != o2[b] by {
            if a < b {
                assert(key_less(bd, o2[a] as int, o2[b] as int));
            } else {
                assert(key_less(bd, o2[b] as int, o2[a] as int));
            }
        }
    }
    lemma_order_len(o2, picks, id);
}


/// Every pick is one of the index's ids.
pub open spec fn in_ids(picks: Seq<TileId>, ids: Seq<TileId>) -> bool {
    forall|c: int| 0 <= c < picks.len() ==> ids.contains(#[trigger] picks[c])
}

/// A pass state over `n` cells whose picks are index ids.
pub open spec fn shaped(ids: Seq<TileId>, n: int, s: (Seq<TileId>, Seq<u128>)) -> bool {
    &&& s.0.len() == n
    &&& s.1.len() == n
    &&& in_ids(s.0, ids)
}

/// No tile is placed more than `m` times.
pub open spec fn capped(picks: Seq<TileId>, m: int) -> bool {
    forall|x: TileId| #[trigger] count(picks, x) <= m
}

/// `key` is the distance from the cell with distance row `row` to tile `id`.
pub open spec fn carries(ids: Seq<TileId>, row: Seq<u128>, id: TileId, key: u128) -> bool {
    exists|q: int| 0 <= q < ids.len() && ids[q] == id && row[q] == key
}

/// From `before` to `after`, every cell either keeps its tile and key or
/// holds the distance to its new tile as its key.
pub open spec fn moves_carry_keys(
    ids: Seq<TileId>,
    dist: Seq<Seq<u128>>,
    before: (Seq<TileId>, Seq<u128>),
    after: (Seq<TileId>, Seq<u128>),
) -> bool {
    forall|c: int|
        #![trigger after.0[c]]
        0 <= c < before.0.len() ==> (after.0[c] == before.0[c] && after.1[c] == before.1[c]) || carries(
            ids,
            dist[c],
            after.0[c],
            after.1[c],
        )
}

pub proof fn lemma_count_pos_exists(s: Seq<TileId>, x: TileId)
    requires
        count(s, x) > 0,
    ensures
        exists|c: int| 0 <= c < s.len() && s[c] == x,
    decreases s.len(),
{
    if s.last() != x {
        lemma_count_pos_exists(s.drop_last(), x);
        let c = choose|c: int| 0 <= c < s.drop_last().len() && s.drop_last()[c] == x;
        assert(s[c] == x);
    } else {
        assert(s[s.len() - 1] == x);
    }
}

proof fn lemma_not_in_ids_zero(s: Seq<TileId>, ids: Seq<TileId>, x: TileId)
    requires
        in_ids(s, ids),
        !ids.contains(x),
    ensures
        count(s, x) == 0,
{
    if count(s, x) > 0 {
        lemma_count_pos_exists(s, x);
        let c = choose|c: int| 0 <= c < s.len() && s[c] == x;
        assert(ids.contains(s[c]));
    }
}

/// A cap on every index tile is a cap on every id.
proof fn lemma_capped_from_ids(s: Seq<TileId>, ids: Seq<TileId>, m: int)
    requires
        in_ids(s, ids),
        forall|k: int| 0 <= k < ids.len() ==> #[trigger] count(s, ids[k]) <= m,
        m >= 0,
    ensures
        capped(s, m),
{
    assert forall|x: TileId| #[trigger] count(s, x) <= m by {
        if ids.contains(x) {
            let k = choose|k: int| 0 <= k < ids.len() && ids[k] == x;
            assert(count(s, ids[k]) <= m);
        } else {
            lemma_not_in_ids_zero(s, ids, x);
        }
    }
}

/// Moving cell `c` to `v`: the shape stays, `v` gains one, the old tile
/// loses one, every other count stays.
proof fn lemma_move(ids: Seq<TileId>, n: int, s: (Seq<TileId>, Seq<u128>), c: int, v: TileId, d: u128)
    requires
        shaped(ids, n, s),
        0 <= c < n,
        ids.contains(v),
    ensures
        shaped(ids, n, (s.0.update(c, v), s.1.update(c, d))),
        forall|x: TileId|
            #![trigger count(s.0.update(c, v), x)]
            count(s.0.update(c, v), x) + (if s.0[c] == x {
                1int
            } else {
                0int
            }) == count(s.0, x) + (if v == x {
                1int
            } else {
                0int
            }),
{
    let t = s.0.update(c, v);
    assert forall|i: int| 0 <= i < t.len() implies ids.contains(#[trigger] t[i]) by {
        if i != c {
            assert(t[i] == s.0[i]);
        }
    }
    assert forall|x: TileId|
        #![trigger count(s.0.update(c, v), x)]
        count(s.0.update(c, v), x) + (if s.0[c] == x {
            1int
        } else {
            0int
        }) == count(s.0, x) + (if v == x {
            1int
        } else {
            0int
        }) by {
        lemma_count_update(s.0, c, v, x);
    }
}

/// With distinct ids and `m * tiles >= cells`, some tile is below the cap
/// whenever one tile is above it.
proof fn lemma_room_below_cap(ids: Seq<TileId>, s: Seq<TileId>, m: int, j0: int)
    requires
        distinct_ids(ids),
        0 <= j0 < ids.len(),
        m >= 0,
        m * ids.len() >= s.len(),
        count(s, ids[j0]) >= m + 1,
    ensures
        exists|p: int| 0 <= p < ids.len() && #[trigger] count(s, ids[p]) < m,
{
    if forall|p: int| 0 <= p < ids.len() ==> #[trigger] count(s, ids[p]) >= m {
        lemma_sum_counts_lower(s, ids, ids.len() as int, m, j0);
        lemma_sum_counts_le_len(s, ids);
        assert(false);
    }
}

/// The reassignment of the over-cap cells of tile `id`: each finds a tile
/// with room, so `id` loses one cell per step and gains none, and no other
/// tile is pushed over the cap.
proof fn lemma_reassign(
    ids: Seq<TileId>,
    dist: Seq<Seq<u128>>,
    picks: Seq<TileId>,
    bd: Seq<u128>,
    m: u32,
    o: Seq<usize>,
    id: TileId,
    k: int,
)
    requires
        distinct_ids(ids),
        matrix_ok(ids, dist),
        dist.len() == picks.len(),
        shaped(ids, picks.len() as int, (picks, bd)),
        m >= 1,
        m * ids.len() >= picks.len(),
        ids.contains(id),
        is_cell_order(o, picks, bd, id),
        o.len() == count(picks, id),
        o.no_duplicates(),
        count(picks, id) > m,
        m <= k <= o.len(),
    ensures
        ({
            let s = reassign_upto(ids, dist, picks, bd, m, o, k);
            &&& shaped(ids, picks.len() as int, s)
            &&& count(s.0, id) == o.len() - (k - m)
            &&& forall|x: TileId|
                x != id ==> #[trigger] count(s.0, x) <= count(picks, x) || count(s.0, x) <= m
            &&& forall|i: int| 0 <= i < o.len() ==> (s.0[#[trigger] o[i] as int] == id <==> (i < m || i >= k))
            &&& forall|x: TileId| x != id ==> #[trigger] count(s.0, x) >= count(picks, x)
            &&& forall|c: int| 0 <= c < picks.len() && #[trigger] s.0[c] == picks[c] ==> s.1[c] == bd[c]
            &&& forall|c: int|
                0 <= c < picks.len() && #[trigger] s.0[c] != picks[c] ==> picks[c] == id && carries(
                    ids,
                    dist[c],
                    s.0[c],
                    s.1[c],
                ) && count(picks, s.0[c]) < m
        }),
    decreases k,
{
    if k == m {
        assert forall|i: int| 0 <= i < o.len() implies (picks[#[trigger] o[i] as int] == id <==> (i < m || i >= k)) by {}
    }
    if k > m {
        lemma_reassign(ids, dist, picks, bd, m, o, id, k - 1);
        let s = reassign_upto(ids, dist, picks, bd, m, o, k - 1);
        let c = o[k - 1] as int;
        assert(s.0[c] == id);
        let j0 = choose|j0: int| 0 <= j0 < ids.len() && ids[j0] == id;
        lemma_room_below_cap(ids, s.0, m as int, j0);
        let p = choose|p: int| 0 <= p < ids.len() && #[trigger] count(s.0, ids[p]) < m;
        let row = dist[c];
        lemma_best_upto(ids, row, Seq::empty(), Some(m), s.0, ids.len() as int);
        assert(admits(ids[p], Seq::empty(), Some(m), s.0));
        lemma_best_of_member(ids, row, Seq::empty(), Some(m), s.0);
        let b = best_of(ids, row, Seq::empty(), Some(m), s.0)->Some_0;
        assert(b.0 != id);
        lemma_move(ids, picks.len() as int, s, c, b.0, b.1);
        let t = s.0.update(c, b.0);
        assert(count(t, id) + 1 == count(s.0, id));
        assert forall|x: TileId| x != id implies #[trigger] count(t, x) <= count(picks, x) || count(t, x) <= m by {
            assert(count(t, x) + (if s.0[c] == x { 1int } else { 0int }) == count(s.0, x) + (if b.0 == x { 1int } else { 0int }));
            if x == b.0 {
                assert(count(s.0, x) < m);
            } else {
                assert(count(s.0, x) <= count(picks, x) || count(s.0, x) <= m);
            }
        }
        assert forall|i: int| 0 <= i < o.len() implies (t[#[trigger] o[i] as int] == id <==> (i < m || i >= k)) by {
            if i != k - 1 {
                assert(o[i] != o[k - 1]);
                assert(t[o[i] as int] == s.0[o[i] as int]);
            }
        }
        let pb = choose|p: int|
            0 <= p < ids.len() && admits(ids[p], Seq::empty(), Some(m), s.0) && b == (ids[p], row[p]) && (
            forall|q: int|
                0 <= q < ids.len() && admits(ids[q], Seq::empty(), Some(m), s.0) ==> row[p]
                    <= #[trigger] row[q]) && (forall|q: int|
                0 <= q < p && admits(ids[q], Seq::empty(), Some(m), s.0) ==> row[p] < #[trigger] row[q]);
        assert(carries(ids, dist[c], b.0, b.1));
        assert forall|x: TileId| x != id implies #[trigger] count(t, x) >= count(picks, x) by {
            assert(count(t, x) + (if s.0[c] == x { 1int } else { 0int }) == count(s.0, x) + (if b.0 == x { 1int } else { 0int }));
            assert(count(s.0, x) >= count(picks, x));
        }
        assert(count(picks, b.0) < m) by {
            assert(count(s.0, b.0) >= count(picks, b.0));
        }
        let tb = s.1.update(c, b.1);
        assert forall|c2: int| 0 <= c2 < picks.len() && #[trigger] t[c2] == picks[c2] implies tb[c2] == bd[c2] by {
            if c2 != c {
                assert(t[c2] == s.0[c2]);
            }
        }
        assert forall|c2: int| 0 <= c2 < picks.len() && #[trigger] t[c2] != picks[c2] implies picks[c2] == id && carries(
            ids,
            dist[c2],
            t[c2],
            tb[c2],
        ) && count(picks, t[c2]) < m by {
            if c2 != c {
                assert(t[c2] == s.0[c2]);
            }
        }
    }
}

/// Capping one tile leaves it within the cap and pushes no other tile over it.
proof fn lemma_max_usage_tile(
    ids: Seq<TileId>,
    dist: Seq<Seq<u128>>,
    picks: Seq<TileId>,
    bd: Seq<u128>,
    m: u32,
    id: TileId,
)
    requires
        distinct_ids(ids),
        matrix_ok(ids, dist),
        dist.len() == picks.len(),
        picks.len() <= usize::MAX,
        shaped(ids, picks.len() as int, (picks, bd)),
        m >= 1,
        m * ids.len() >= picks.len(),
        ids.contains(id),
    ensures
        ({
            let s = max_usage_tile(ids, dist, picks, bd, m, id);
            &&& shaped(ids, picks.len() as int, s)
            &&& count(s.0, id) <= m
            &&& forall|x: TileId|
                x != id ==> #[trigger] count(s.0, x) <= count(picks, x) || count(s.0, x) <= m
        }),
{
    if count(picks, id) > m {
        lemma_cell_order(picks, bd, id);
        let o = cell_order(picks, bd, id);
        lemma_reassign(ids, dist, picks, bd, m, o, id, o.len() as int);
    }
}

proof fn lemma_max_usage_upto(
    ids: Seq<TileId>,
    dist: Seq<Seq<u128>>,
    picks: Seq<TileId>,
    bd: Seq<u128>,
    m: u32,
    j: int,
)
    requires
        distinct_ids(ids),
        matrix_ok(ids, dist),
        dist.len() == picks.len(),
        picks.len() <= usize::MAX,
        shaped(ids, picks.len() as int, (picks, bd)),
        m >= 1,
        m * ids.len() >= picks.len(),
        0 <= j <= ids.len(),
    ensures
        ({
            let s = max_usage_upto(ids, dist, picks, bd, m, j);
            &&& shaped(ids, picks.len() as int, s)
            &&& forall|k: int| 0 <= k < j ==> #[trigger] count(s.0, ids[k]) <= m
            &&& forall|x: TileId| #[trigger] count(s.0, x) <= count(picks, x) || count(s.0, x) <= m
        }),
    decreases j,
{
    if j > 0 {
        lemma_max_usage_upto(ids, dist, picks, bd, m, j - 1);
        let s = max_usage_upto(ids, dist, picks, bd, m, j - 1);
        let id = ids[j - 1];
        assert(ids.contains(id));
        lemma_max_usage_tile(ids, dist, s.0, s.1, m, id);
        let t = max_usage_tile(ids, dist, s.0, s.1, m, id);
        assert forall|k: int| 0 <= k < j implies #[trigger] count(t.0, ids[k]) <= m by {
            if ids[k] != id {
                assert(count(s.0, ids[k]) <= m);
            }
        }
        assert forall|x: TileId| #[trigger] count(t.0, x) <= count(picks, x) || count(t.0, x) <= m by {
            if x != id {
                assert(count(s.0, x) <= count(picks, x) || count(s.0, x) <= m);
            }
        }
    }
}

/// What the cap pass keeps true while it walks the tiles, relative to the
/// picks it started from: a cell that keeps its tile keeps its key; a cell
/// that moved came from an over-cap tile already walked, to a tile that had
/// room, and holds its new key; tiles never drop below the lesser of their
/// start count and the cap; tiles that started within the cap stay within
/// it; an over-cap tile keeps its cells until it is walked and then exactly
/// its `m` best-fitting ones.
proof fn lemma_cap_cells(
    ids: Seq<TileId>,
    dist: Seq<Seq<u128>>,
    picks: Seq<TileId>,
    bd: Seq<u128>,
    m: u32,
    j: int,
)
    requires
        distinct_ids(ids),
        matrix_ok(ids, dist),
        dist.len() == picks.len(),
        picks.len() <= usize::MAX,
        shaped(ids, picks.len() as int, (picks, bd)),
        m >= 1,
        m * ids.len() >= picks.len(),
        0 <= j <= ids.len(),
    ensures
        ({
            let s = max_usage_upto(ids, dist, picks, bd, m, j);
            &&& shaped(ids, picks.len() as int, s)
            &&& forall|c: int| 0 <= c < picks.len() && #[trigger] s.0[c] == picks[c] ==> s.1[c] == bd[c]
            &&& forall|c: int|
                0 <= c < picks.len() && #[trigger] s.0[c] != picks[c] ==> carries(ids, dist[c], s.0[c], s.1[c])
                    && count(picks, s.0[c]) < m && count(picks, picks[c]) > m && exists|k: int|
                    0 <= k < j && ids[k] == picks[c]
            &&& forall|x: TileId| #[trigger] count(s.0, x) >= count(picks, x) || count(s.0, x) >= m
            &&& forall|x: TileId| count(picks, x) <= m ==> #[trigger] count(s.0, x) <= m
            &&& forall|k: int, i: int|
                0 <= k < ids.len() && count(picks, ids[k]) > m && 0 <= i < cell_order(picks, bd, ids[k]).len()
                    ==> (s.0[#[trigger] cell_order(picks, bd, ids[k])[i] as int] == ids[k] <==> (i < m || k >= j))
        }),
    decreases j,
{
    let n = picks.len() as int;
    if j == 0 {
        assert forall|k: int, i: int|
            0 <= k < ids.len() && count(picks, ids[k]) > m && 0 <= i < cell_order(picks, bd, ids[k]).len()
                implies (picks[#[trigger] cell_order(picks, bd, ids[k])[i] as int] == ids[k] <==> (i < m || k >= j)) by {
            lemma_cell_order(picks, bd, ids[k]);
        }
    } else {
        lemma_cap_cells(ids, dist, picks, bd, m, j - 1);
        let s = max_usage_upto(ids, dist, picks, bd, m, j - 1);
        let t = ids[j - 1];
        assert(ids.contains(t));
        let r = max_usage_tile(ids, dist, s.0, s.1, m, t);
        if count(picks, t) > m {
            lemma_cap_walk_order(ids, dist, picks, bd, m, j - 1);
            let o = cell_order(picks, bd, t);
            lemma_cell_order(picks, bd, t);
            lemma_reassign(ids, dist, s.0, s.1, m, o, t, o.len() as int);
            assert forall|c: int| 0 <= c < n && #[trigger] r.0[c] == picks[c] implies r.1[c] == bd[c] by {
                if r.0[c] != s.0[c] {
                    assert(s.0[c] == t);
                    assert(count(s.0, r.0[c]) < m);
                }
            }
            assert forall|c: int| 0 <= c < n && #[trigger] r.0[c] != picks[c] implies carries(ids, dist[c], r.0[c], r.1[c])
                && count(picks, r.0[c]) < m && count(picks, picks[c]) > m && exists|k: int|
                0 <= k < j && ids[k] == picks[c] by {
                if r.0[c] == s.0[c] {
                    let k0 = choose|k: int| 0 <= k < j - 1 && ids[k] == picks[c];
                    assert(0 <= k0 < j && ids[k0] == picks[c]);
                } else {
                    assert(s.0[c] == t);
                    assert(picks[c] == t);
                    assert(count(s.0, r.0[c]) >= count(picks, r.0[c]) || count(s.0, r.0[c]) >= m);
                    assert(0 <= j - 1 < j && ids[j - 1] == picks[c]);
                }
            }
            assert forall|x: TileId| #[trigger] count(r.0, x) >= count(picks, x) || count(r.0, x) >= m by {
                if x != t {
                    assert(count(s.0, x) >= count(picks, x) || count(s.0, x) >= m);
                }
            }
            assert forall|x: TileId| count(picks, x) <= m implies #[trigger] count(r.0, x) <= m by {
                assert(x != t);
                assert(count(s.0, x) <= m);
            }
            assert forall|k: int, i: int|
                0 <= k < ids.len() && count(picks, ids[k]) > m && 0 <= i < cell_order(picks, bd, ids[k]).len()
                    implies (r.0[#[trigger] cell_order(picks, bd, ids[k])[i] as int] == ids[k] <==> (i < m || k >= j)) by {
                if k != j - 1 {
                    let ok = cell_order(picks, bd, ids[k]);
                    lemma_cell_order(picks, bd, ids[k]);
                    let c = ok[i] as int;
                    assert(picks[c] == ids[k]);
                    assert(ids[k] != t);
                    if r.0[c] != s.0[c] {
                        assert(s.0[c] == t);
                        if s.0[c] != picks[c] {
                            assert(count(picks, s.0[c]) < m);
                        }
                    }
                }
            }
        } else {
            assert(count(s.0, t) <= m);
            assert(r == s);
            assert forall|c: int| 0 <= c < n && #[trigger] r.0[c] != picks[c] implies carries(ids, dist[c], r.0[c], r.1[c])
                && count(picks, r.0[c]) < m && count(picks, picks[c]) > m && exists|k: int|
                0 <= k < j && ids[k] == picks[c] by {
                let k0 = choose|k: int| 0 <= k < j - 1 && ids[k] == picks[c];
                assert(0 <= k0 < j && ids[k0] == picks[c]);
            }
            assert forall|k: int, i: int|
                0 <= k < ids.len() && count(picks, ids[k]) > m && 0 <= i < cell_order(picks, bd, ids[k]).len()
                    implies (r.0[#[trigger] cell_order(picks, bd, ids[k])[i] as int] == ids[k] <==> (i < m || k >= j)) by {
                assert(k != j - 1);
            }
        }
    }
}

/// When the cap pass reaches an over-cap tile, that tile still holds exactly
/// the cells and keys it started with, so its cell order is the starting one.
proof fn lemma_cap_walk_order(
    ids: Seq<TileId>,
    dist: Seq<Seq<u128>>,
    picks: Seq<TileId>,
    bd: Seq<u128>,
    m: u32,
    j: int,
)
    requires
        distinct_ids(ids),
        matrix_ok(ids, dist),
        dist.len() == picks.len(),
        picks.len() <= usize::MAX,
        shaped(ids, picks.len() as int, (picks, bd)),
        m >= 1,
        m * ids.len() >= picks.len(),
        0 <= j < ids.len(),
        count(picks, ids[j]) > m,
        ({
            let s = max_usage_upto(ids, dist, picks, bd, m, j);
            &&& shaped(ids, picks.len() as int, s)
            &&& forall|c: int| 0 <= c < picks.len() && #[trigger] s.0[c] == picks[c] ==> s.1[c] == bd[c]
            &&& forall|c: int|
                0 <= c < picks.len() && #[trigger] s.0[c] != picks[c] ==> count(picks, s.0[c]) < m
                    && exists|k: int| 0 <= k < j && ids[k] == picks[c]
        }),
    ensures
        ({
            let s = max_usage_upto(ids, dist, picks, bd, m, j);
            &&& cell_order(s.0, s.1, ids[j]) == cell_order(picks, bd, ids[j])
            &&& count(s.0, ids[j]) == count(picks, ids[j])
            &&& is_cell_order(cell_order(picks, bd, ids[j]), s.0, s.1, ids[j])
        }),
{
    let s = max_usage_upto(ids, dist, picks, bd, m, j);
    let t = ids[j];
    let o = cell_order(picks, bd, t);
    lemma_cell_order(picks, bd, t);
    assert forall|c: int| 0 <= c < picks.len() implies (#[trigger] s.0[c] == t <==> picks[c] == t) && (picks[c] == t ==> s.1[c] == bd[c]) by {
        if s.0[c] != picks[c] {
            let k0 = choose|k: int| 0 <= k < j && ids[k] == picks[c];
            assert(ids[k0] != ids[j]);
            assert(count(picks, s.0[c]) < m);
        }
    }
    assert forall|i: int, i2: int| 0 <= i < i2 < o.len() implies key_less(s.1, #[trigger] o[i] as int, #[trigger] o[i2] as int) by {
        assert(key_less(bd, o[i] as int, o[i2] as int));
        let a = o[i] as int;
        let b = o[i2] as int;
        assert(picks[a] == t && picks[b] == t);
        assert(s.0[a] == t && s.0[b] == t);
        assert(s.1[a] == bd[a] && s.1[b] == bd[b]);
    }
    assert forall|i: int| 0 <= i < o.len() implies #[trigger] o[i] < s.0.len() && s.0[o[i] as int] == t by {
        assert(picks[o[i] as int] == t);
    }
    assert forall|c: int| 0 <= c < s.0.len() && s.0[c] == t implies o.contains(c as usize) by {
        assert(picks[c] == t);
    }
    assert(is_cell_order(o, s.0, s.1, t));
    crate::assign::lemma_cell_order_is(o, s.0, s.1, t);
    lemma_cell_order(s.0, s.1, t);
}

/// The cap pass on its own, for a cap that can hold every cell: no tile
/// ends above the cap; a tile that started within the cap keeps all its
/// cells; an over-cap tile keeps exactly its `m` best-fitting cells (least
/// key, then lowest cell index); a moved cell goes to a tile that started
/// below the cap and holds the distance to it as its key; every other cell
/// keeps its key.
pub proof fn law_cap_pass(ids: Seq<TileId>, dist: Seq<Seq<u128>>, picks: Seq<TileId>, bd: Seq<u128>, m: u32)
    requires
        distinct_ids(ids),
        matrix_ok(ids, dist),
        dist.len() == picks.len(),
        picks.len() <= usize::MAX,
        shaped(ids, picks.len() as int, (picks, bd)),
        m >= 1,
        m * ids.len() >= picks.len(),
    ensures
        ({
            let s = max_usage_pass(ids, dist, picks, bd, m);
            &&& shaped(ids, picks.len() as int, s)
            &&& capped(s.0, m as int)
            &&& moves_carry_keys(ids, dist, (picks, bd), s)
            &&& forall|c: int| 0 <= c < picks.len() && #[trigger] s.0[c] == picks[c] ==> s.1[c] == bd[c]
            &&& forall|c: int|
                0 <= c < picks.len() && count(picks, picks[c]) <= m ==> #[trigger] s.0[c] == picks[c]
            &&& forall|c: int| 0 <= c < picks.len() && #[trigger] s.0[c] != picks[c] ==> count(picks, s.0[c]) < m
            &&& forall|k: int, i: int|
                0 <= k < ids.len() && count(picks, ids[k]) > m && 0 <= i < cell_order(picks, bd, ids[k]).len()
                    ==> (s.0[#[trigger] cell_order(picks, bd, ids[k])[i] as int] == ids[k] <==> i < m)
        }),
{
    lemma_cap_cells(ids, dist, picks, bd, m, ids.len() as int);
    lemma_max_usage_pass(ids, dist, picks, bd, m);
    let s = max_usage_pass(ids, dist, picks, bd, m);
    assert forall|c: int| 0 <= c < picks.len() implies (#[trigger] s.0[c] == picks[c] && s.1[c] == bd[c]) || carries(
        ids,
        dist[c],
        s.0[c],
        s.1[c],
    ) by {}
    assert forall|c: int| 0 <= c < picks.len() && count(picks, picks[c]) <= m implies #[trigger] s.0[c] == picks[c] by {}
}

/// After the cap pass every tile is within the cap.
proof fn lemma_max_usage_pass(
    ids: Seq<TileId>,
    dist: Seq<Seq<u128>>,
    picks: Seq<TileId>,
    bd: Seq<u128>,
    m: u32,
)
    requires
        distinct_ids(ids),
        matrix_ok(ids, dist),
        dist.len() == picks.len(),
        picks.len() <= usize::MAX,
        shaped(ids, picks.len() as int, (picks, bd)),
        m >= 1,
        m * ids.len() >= picks.len(),
    ensures
        shaped(ids, picks.len() as int, max_usage_pass(ids, dist, picks, bd, m)),
        capped(max_usage_pass(ids, dist, picks, bd, m).0, m as int),
{
    lemma_max_usage_upto(ids, dist, picks, bd, m, ids.len() as int);
    lemma_capped_from_ids(max_usage_pass(ids, dist, picks, bd, m).0, ids, m as int);
}

/// Cells that miss one of the index's ids but are at least as many as the
/// index's tiles hold some id twice.
proof fn lemma_pigeonhole(s: Seq<TileId>, ids: Seq<TileId>, id: TileId)
    requires
        in_ids(s, ids),
        ids.contains(id),
        count(s, id) == 0,
        s.len() >= ids.len(),
    ensures
        exists|i: int, j: int| 0 <= i < j < s.len() && s[i] == s[j],
{
    if s.no_duplicates() {
        s.unique_seq_to_set();
        ids.lemma_cardinality_of_set();
        vstd::seq_lib::seq_to_set_is_finite(ids);
        let big = ids.to_set().remove(id);
        vstd::set::axiom_set_remove_len(ids.to_set(), id);
        vstd::set::axiom_set_remove_finite(ids.to_set(), id);
        assert(ids.to_set().contains(id));
        assert(s.to_set().subset_of(big)) by {
            assert forall|x: TileId| s.to_set().contains(x) implies big.contains(x) by {
                let c = choose|c: int| 0 <= c < s.len() && s[c] == x;
                assert(ids.contains(s[c]));
                lemma_count_zero(s, id, c);
            }
        }
        vstd::set_lib::lemma_len_subset(s.to_set(), big);
        assert(false);
    } else {
        let (i, j) = choose|i: int, j: int|
            0 <= i < s.len() && 0 <= j < s.len() && i != j && s[i] == s[j];
        if i < j {
            assert(0 <= i < j < s.len() && s[i] == s[j]);
        } else {
            assert(0 <= j < i < s.len() && s[j] == s[i]);
        }
    }
}

/// The least-regret host search finds a host exactly when some cell is
/// unlocked and shares its tile with another cell; the host it finds is such a cell.
proof fn lemma_host_upto(
    dist: Seq<Seq<u128>>,
    picks: Seq<TileId>,
    bd: Seq<u128>,
    locked: Seq<bool>,
    j: int,
    k: int,
)
    requires
        0 <= k <= picks.len(),
    ensures
        host_upto(dist, picks, bd, locked, j, k) is None <==> forall|c: int|
            0 <= c < k ==> #[trigger] locked[c] || count(picks, picks[c]) <= 1,
        host_upto(dist, picks, bd, locked, j, k) matches Some(h) ==> 0 <= h.0 < k && !locked[h.0]
            && count(picks, picks[h.0]) > 1,
    decreases k,
{
    if k > 0 {
        lemma_host_upto(dist, picks, bd, locked, j, k - 1);
    }
}

/// What the coverage pass keeps true while it walks the tiles: every tile
/// seen so far is used, no used tile becomes unused, a locked cell's tile is
/// used exactly once, and counts only grow for tiles that had none.
proof fn lemma_coverage_upto(
    ids: Seq<TileId>,
    dist: Seq<Seq<u128>>,
    picks: Seq<TileId>,
    bd: Seq<u128>,
    j: int,
)
    requires
        matrix_ok(ids, dist),
        dist.len() == picks.len(),
        shaped(ids, picks.len() as int, (picks, bd)),
        picks.len() >= ids.len(),
        0 <= j <= ids.len(),
    ensures
        ({
            let s = coverage_upto(ids, dist, picks, bd, j);
            &&& shaped(ids, picks.len() as int, (s.0, s.1))
            &&& s.2.len() == picks.len()
            &&& forall|k: int| 0 <= k < j ==> #[trigger] count(s.0, ids[k]) >= 1
            &&& forall|x: TileId| count(picks, x) >= 1 ==> #[trigger] count(s.0, x) >= 1
            &&& forall|c: int| 0 <= c < picks.len() && #[trigger] s.2[c] ==> count(s.0, s.0[c]) == 1
            &&& forall|x: TileId| #[trigger] count(s.0, x) <= count(picks, x) || count(s.0, x) <= 1
        }),
    decreases j,
{
    let n = picks.len() as int;
    if j > 0 {
        lemma_coverage_upto(ids, dist, picks, bd, j - 1);
        let s = coverage_upto(ids, dist, picks, bd, j - 1);
        let id = ids[j - 1];
        if count(s.0, id) == 0 {
            assert(ids.contains(id));
            lemma_pigeonhole(s.0, ids, id);
            let (c1, c2) = choose|i: int, k: int| 0 <= i < k < s.0.len() && s.0[i] == s.0[k];
            lemma_count_two(s.0, c1, c2);
            lemma_host_upto(dist, s.0, s.1, s.2, j - 1, n);
            assert(!s.2[c1]);
            let h = host_upto(dist, s.0, s.1, s.2, j - 1, n)->Some_0;
            let c = h.0;
            let old = s.0[c];
            lemma_move(ids, n, (s.0, s.1), c, id, dist[c][j - 1]);
            let t = coverage_tile(ids, dist, s, j - 1);
            assert(t.0 == s.0.update(c, id));
            assert(old != id) by {
                lemma_count_zero(s.0, id, c);
            }
            assert(count(t.0, id) == 1);
            assert(count(t.0, old) + 1 == count(s.0, old));
            assert forall|k: int| 0 <= k < j implies #[trigger] count(t.0, ids[k]) >= 1 by {
                assert(count(t.0, ids[k]) + (if old == ids[k] { 1int } else { 0int }) == count(s.0, ids[k]) + (if id == ids[k] { 1int } else { 0int }));
            }
            assert forall|x: TileId| count(picks, x) >= 1 implies #[trigger] count(t.0, x) >= 1 by {
                assert(count(t.0, x) + (if old == x { 1int } else { 0int }) == count(s.0, x) + (if id == x { 1int } else { 0int }));
            }
            assert forall|c3: int| 0 <= c3 < n && #[trigger] t.2[c3] implies count(t.0, t.0[c3]) == 1 by {
                if c3 != c {
                    assert(s.2[c3]);
                    let z = s.0[c3];
                    assert(t.0[c3] == z);
                    assert(count(s.0, z) == 1);
                    assert(z != old);
                    assert(z != id) by {
                        lemma_count_pos(s.0, c3);
                    }
                    assert(count(t.0, z) + (if old == z { 1int } else { 0int }) == count(s.0, z) + (if id == z { 1int } else { 0int }));
                }
            }
            assert forall|x: TileId| #[trigger] count(t.0, x) <= count(picks, x) || count(t.0, x) <= 1 by {
                assert(count(t.0, x) + (if old == x { 1int } else { 0int }) == count(s.0, x) + (if id == x { 1int } else { 0int }));
                assert(count(s.0, x) <= count(picks, x) || count(s.0, x) <= 1);
            }
        }
    }
}

/// The coverage pass keeps the shape; when it runs, every tile is used
/// afterwards; in every case it keeps used tiles used and pushes no tile
/// beyond its earlier count or 1.
proof fn lemma_coverage_pass(ids: Seq<TileId>, dist: Seq<Seq<u128>>, picks: Seq<TileId>, bd: Seq<u128>)
    requires
        matrix_ok(ids, dist),
        dist.len() == picks.len(),
        shaped(ids, picks.len() as int, (picks, bd)),
    ensures
        ({
            let s = coverage_pass(ids, dist, picks, bd);
            &&& shaped(ids, picks.len() as int, s)
            &&& picks.len() >= ids.len() && ids.len() >= 2 ==> forall|k: int|
                0 <= k < ids.len() ==> #[trigger] count(s.0, ids[k]) >= 1
            &&& forall|x: TileId| count(picks, x) >= 1 ==> #[trigger] count(s.0, x) >= 1
            &&& forall|x: TileId| #[trigger] count(s.0, x) <= count(picks, x) || count(s.0, x) <= 1
        }),
{
    if ids.len() >= 2 && picks.len() >= ids.len() {
        lemma_coverage_upto(ids, dist, picks, bd, ids.len() as int);
    }
}

/// The adjacency pass keeps the shape; under a cap it pushes no tile over
/// the cap; under coverage it leaves no used tile unused.
proof fn lemma_adjacent_upto(
    ids: Seq<TileId>,
    dist: Seq<Seq<u128>>,
    picks: Seq<TileId>,
    bd: Seq<u128>,
    cols: int,
    cap: Option<u32>,
    ensure_all: bool,
    k: int,
)
    requires
        matrix_ok(ids, dist),
        dist.len() == picks.len(),
        shaped(ids, picks.len() as int, (picks, bd)),
        cols > 0,
        0 <= k <= picks.len(),
    ensures
        ({
            let s = adjacent_upto(ids, dist, picks, bd, cols, cap, ensure_all, k);
            &&& shaped(ids, picks.len() as int, s)
            &&& (cap is Some && capped(picks, cap->Some_0 as int)) ==> capped(s.0, cap->Some_0 as int)
            &&& ensure_all ==> forall|x: TileId| count(picks, x) >= 1 ==> #[trigger] count(s.0, x) >= 1
        }),
    decreases k,
{
    if k > 0 {
        lemma_adjacent_upto(ids, dist, picks, bd, cols, cap, ensure_all, k - 1);
        let s = adjacent_upto(ids, dist, picks, bd, cols, cap, ensure_all, k - 1);
        let c = k - 1;
        let t = adjacent_cell(ids, dist, s, c, cols, cap, ensure_all);
        let p = s.0;
        let col = c % cols;
        let row = c / cols;
        let cur = p[c];
        let dup = (col > 0 && p[c - 1] == cur) || (row > 0 && p[c - cols] == cur);
        if dup && !(ensure_all && count(p, cur) <= 1) {
            let excl = crate::assign::neighbour_excl(p, c, cols);
            lemma_best_of_member(ids, dist[c], excl, cap, p);
            if let Some(b) = best_of(ids, dist[c], excl, cap, p) {
                lemma_move(ids, picks.len() as int, s, c, b.0, b.1);
                assert(t.0 == p.update(c, b.0));
                if let Some(m) = cap {
                    if capped(picks, m as int) {
                        assert forall|x: TileId| #[trigger] count(t.0, x) <= m by {
                            assert(count(t.0, x) + (if cur == x { 1int } else { 0int }) == count(p, x) + (if b.0 == x { 1int } else { 0int }));
                            assert(count(p, x) <= m);
                        }
                    }
                }
                if ensure_all {
                    assert forall|x: TileId| count(picks, x) >= 1 implies #[trigger] count(t.0, x) >= 1 by {
                        assert(count(t.0, x) + (if cur == x { 1int } else { 0int }) == count(p, x) + (if b.0 == x { 1int } else { 0int }));
                        assert(count(p, x) >= 1);
                    }
                }
            }
        }
    }
}

/// The tile a search returns comes with its own key from the row.
proof fn lemma_best_of_carries(
    ids: Seq<TileId>,
    row: Seq<u128>,
    excl: Seq<TileId>,
    cap: Option<u32>,
    picks: Seq<TileId>,
)
    requires
        row.len() == ids.len(),
    ensures
        best_of(ids, row, excl, cap, picks) matches Some(b) ==> carries(ids, row, b.0, b.1),
{
    lemma_best_upto(ids, row, excl, cap, picks, ids.len() as int);
    if let Some(b) = best_of(ids, row, excl, cap, picks) {
        let p = choose|p: int|
            0 <= p < ids.len() && admits(ids[p], excl, cap, picks) && b == (ids[p], row[p]) && (
            forall|q: int|
                0 <= q < ids.len() && admits(ids[q], excl, cap, picks) ==> row[p]
                    <= #[trigger] row[q]) && (forall|q: int|
                0 <= q < p && admits(ids[q], excl, cap, picks) ==> row[p] < #[trigger] row[q]);
        assert(ids[p] == b.0 && row[p] == b.1);
    }
}

/// Writing a carried key into one cell keeps every cell keyed.
proof fn lemma_step_carries(
    ids: Seq<TileId>,
    dist: Seq<Seq<u128>>,
    before: (Seq<TileId>, Seq<u128>),
    s: (Seq<TileId>, Seq<u128>),
    c: int,
    v: TileId,
    d: u128,
)
    requires
        s.0.len() == before.0.len(),
        s.1.len() == before.0.len(),
        moves_carry_keys(ids, dist, before, s),
        0 <= c < before.0.len(),
        carries(ids, dist[c], v, d),
    ensures
        moves_carry_keys(ids, dist, before, (s.0.update(c, v), s.1.update(c, d))),
{
    let t = (s.0.update(c, v), s.1.update(c, d));
    assert forall|c2: int| 0 <= c2 < before.0.len() implies (#[trigger] t.0[c2] == before.0[c2] && t.1[c2]
        == before.1[c2]) || carries(ids, dist[c2], t.0[c2], t.1[c2]) by {
        if c2 != c {
            assert(t.0[c2] == s.0[c2] && t.1[c2] == s.1[c2]);
            assert((s.0[c2] == before.0[c2] && s.1[c2] == before.1[c2]) || carries(ids, dist[c2], s.0[c2], s.1[c2]));
        }
    }
}

/// Every cell the coverage pass changes holds the key of its new tile.
proof fn lemma_coverage_upto_keys(
    ids: Seq<TileId>,
    dist: Seq<Seq<u128>>,
    picks: Seq<TileId>,
    bd: Seq<u128>,
    j: int,
)
    requires
        matrix_ok(ids, dist),
        dist.len() == picks.len(),
        bd.len() == picks.len(),
        0 <= j <= ids.len(),
    ensures
        ({
            let s = coverage_upto(ids, dist, picks, bd, j);
            &&& s.0.len() == picks.len()
            &&& s.1.len() == picks.len()
            &&& s.2.len() == picks.len()
            &&& moves_carry_keys(ids, dist, (picks, bd), (s.0, s.1))
        }),
    decreases j,
{
    let n = picks.len() as int;
    if j > 0 {
        lemma_coverage_upto_keys(ids, dist, picks, bd, j - 1);
        let s = coverage_upto(ids, dist, picks, bd, j - 1);
        let id = ids[j - 1];
        if count(s.0, id) == 0 {
            lemma_host_upto(dist, s.0, s.1, s.2, j - 1, n);
            if let Some(h) = host_upto(dist, s.0, s.1, s.2, j - 1, n) {
                let c = h.0;
                assert(dist[c].len() == ids.len());
                assert(carries(ids, dist[c], id, dist[c][j - 1]));
                lemma_step_carries(ids, dist, (picks, bd), (s.0, s.1), c, id, dist[c][j - 1]);
            }
        }
    } else {
        let s = coverage_upto(ids, dist, picks, bd, j);
        assert forall|c: int| 0 <= c < n implies (#[trigger] s.0[c] == picks[c] && s.1[c] == bd[c]) || carries(ids, dist[c], s.0[c], s.1[c]) by {}
    }
}

/// Every cell the adjacency pass changes holds the key of its new tile.
proof fn lemma_adjacent_upto_keys(
    ids: Seq<TileId>,
    dist: Seq<Seq<u128>>,
    picks: Seq<TileId>,
    bd: Seq<u128>,
    cols: int,
    cap: Option<u32>,
    ensure_all: bool,
    k: int,
)
    requires
        matrix_ok(ids, dist),
        dist.len() == picks.len(),
        bd.len() == picks.len(),
        cols > 0,
        0 <= k <= picks.len(),
    ensures
        ({
            let s = adjacent_upto(ids, dist, picks, bd, cols, cap, ensure_all, k);
            &&& s.0.len() == picks.len()
            &&& s.1.len() == picks.len()
            &&& moves_carry_keys(ids, dist, (picks, bd), s)
        }),
    decreases k,
{
    if k > 0 {
        lemma_adjacent_upto_keys(ids, dist, picks, bd, cols, cap, ensure_all, k - 1);
        let s = adjacent_upto(ids, dist, picks, bd, cols, cap, ensure_all, k - 1);
        let c = k - 1;
        let p = s.0;
        let excl = crate::assign::neighbour_excl(p, c, cols);
        lemma_best_of_carries(ids, dist[c], excl, cap, p);
        if let Some(b) = best_of(ids, dist[c], excl, cap, p) {
            lemma_step_carries(ids, dist, (picks, bd), s, c, b.0, b.1);
        }
    } else {
        let s = adjacent_upto(ids, dist, picks, bd, cols, cap, ensure_all, k);
        assert forall|c: int| 0 <= c < picks.len() implies (#[trigger] s.0[c] == picks[c] && s.1[c] == bd[c]) || carries(ids, dist[c], s.0[c], s.1[c]) by {}
    }
}

/// A cell the coverage step may take over: not locked, and its tile is
/// placed more than once (so moving it orphans nothing).
pub open spec fn host_eligible(picks: Seq<TileId>, locked: Seq<bool>, c: int) -> bool {
    !locked[c] && count(picks, picks[c]) > 1
}

/// The key increase of switching cell `c` to tile position `j`.
pub open spec fn regret(dist: Seq<Seq<u128>>, bd: Seq<u128>, c: int, j: int) -> int {
    dist[c][j] - bd[c]
}

/// The host search returns an eligible cell of least regret, earliest on ties.
proof fn lemma_host_least(
    dist: Seq<Seq<u128>>,
    picks: Seq<TileId>,
    bd: Seq<u128>,
    locked: Seq<bool>,
    j: int,
    k: int,
)
    requires
        0 <= k <= picks.len(),
    ensures
        host_upto(dist, picks, bd, locked, j, k) matches Some(h) ==> {
            &&& 0 <= h.0 < k
            &&& host_eligible(picks, locked, h.0)
            &&& h.1 == regret(dist, bd, h.0, j)
            &&& forall|c: int|
                0 <= c < k && #[trigger] host_eligible(picks, locked, c) ==> h.1 <= regret(dist, bd, c, j)
            &&& forall|c: int|
                0 <= c < h.0 && #[trigger] host_eligible(picks, locked, c) ==> h.1 < regret(dist, bd, c, j)
        },
        host_upto(dist, picks, bd, locked, j, k) is None ==> forall|c: int|
            0 <= c < k ==> !#[trigger] host_eligible(picks, locked, c),
    decreases k,
{
    if k > 0 {
        lemma_host_least(dist, picks, bd, locked, j, k - 1);
    }
}

/// The coverage step for tile position `j`: a tile already placed, or one
/// with no eligible host, changes nothing; otherwise the tile takes over the
/// eligible cell (unlocked, its tile placed more than once) whose key grows
/// least by the switch, the earliest such cell on ties, and that cell is
/// locked and keeps the distance to its new tile as its key.
pub proof fn law_coverage_least_regret(
    ids: Seq<TileId>,
    dist: Seq<Seq<u128>>,
    s: (Seq<TileId>, Seq<u128>, Seq<bool>),
    j: int,
)
    requires
        matrix_ok(ids, dist),
        0 <= j < ids.len(),
        s.0.len() == dist.len(),
        s.1.len() == dist.len(),
        s.2.len() == dist.len(),
    ensures
        ({
            let t = coverage_tile(ids, dist, s, j);
            &&& (count(s.0, ids[j]) > 0 || forall|c: int|
                0 <= c < s.0.len() ==> !#[trigger] host_eligible(s.0, s.2, c)) ==> t == s
            &&& (count(s.0, ids[j]) == 0 && exists|c: int|
                0 <= c < s.0.len() && #[trigger] host_eligible(s.0, s.2, c)) ==> exists|h: int|
                0 <= h < s.0.len() && host_eligible(s.0, s.2, h) && t == (
                    s.0.update(h, ids[j]),
                    s.1.update(h, dist[h][j]),
                    s.2.update(h, true),
                ) && (forall|c: int|
                    0 <= c < s.0.len() && #[trigger] host_eligible(s.0, s.2, c) ==> dist[h][j] - s.1[h]
                        <= dist[c][j] - s.1[c]) && (forall|c: int|
                    0 <= c < h && #[trigger] host_eligible(s.0, s.2, c) ==> dist[h][j] - s.1[h]
                        < dist[c][j] - s.1[c])
        }),
{
    let n = s.0.len() as int;
    lemma_host_least(dist, s.0, s.1, s.2, j, n);
    if count(s.0, ids[j]) == 0 {
        if let Some(h) = host_upto(dist, s.0, s.1, s.2, j, n) {
            let hc = h.0;
            assert forall|c: int|
                0 <= c < n && #[trigger] host_eligible(s.0, s.2, c) implies dist[hc][j] - s.1[hc]
                <= dist[c][j] - s.1[c] by {
                assert(h.1 <= regret(dist, s.1, c, j));
            }
            assert forall|c: int|
                0 <= c < hc && #[trigger] host_eligible(s.0, s.2, c) implies dist[hc][j] - s.1[hc]
                < dist[c][j] - s.1[c] by {
                assert(h.1 < regret(dist, s.1, c, j));
            }
        }
    }
}

/// `s.push(v)` holds exactly what `s` holds and `v`.
proof fn lemma_push_contains(s: Seq<TileId>, v: TileId, x: TileId)
    ensures
        s.push(v).contains(x) <==> (s.contains(x) || v == x),
{
    let t = s.push(v);
    if s.contains(x) {
        let i = choose|i: int| 0 <= i < s.len() && s[i] == x;
        assert(t[i] == x);
    }
    if v == x {
        assert(t[s.len() as int] == x);
    }
    if t.contains(x) {
        let i = choose|i: int| 0 <= i < t.len() && t[i] == x;
        if i < s.len() {
            assert(s[i] == x);
        }
    }
}

/// Tile `id` differs from cell `c`'s own tile and from the tiles of its
/// left, upper, right and lower neighbours (those inside a `cols`-wide grid).
pub open spec fn clear_of_neighbours(p: Seq<TileId>, c: int, cols: int, id: TileId) -> bool {
    &&& id != p[c]
    &&& c % cols > 0 ==> id != p[c - 1]
    &&& c / cols > 0 ==> id != p[c - cols]
    &&& c % cols + 1 < cols ==> id != p[c + 1]
    &&& c + cols < p.len() ==> id != p[c + cols]
}

/// Tile `id` has room under the cap in `p`.
pub open spec fn has_room(p: Seq<TileId>, cap: Option<u32>, id: TileId) -> bool {
    match cap {
        Some(m) => count(p, id) < m,
        None => true,
    }
}

proof fn lemma_neighbour_excl(p: Seq<TileId>, c: int, cols: int, x: TileId)
    ensures
        crate::assign::neighbour_excl(p, c, cols).contains(x) <==> !clear_of_neighbours(p, c, cols, x),
{
    let n = p.len();
    let col = c % cols;
    let row = c / cols;
    let s0 = seq![p[c]];
    assert(s0.contains(x) <==> x == p[c]) by {
        if x == p[c] {
            assert(s0[0] == x);
        }
    }
    let s1 = if col > 0 { s0.push(p[c - 1]) } else { s0 };
    lemma_push_contains(s0, p[c - 1], x);
    let s2 = if row > 0 { s1.push(p[c - cols]) } else { s1 };
    lemma_push_contains(s1, p[c - cols], x);
    let s3 = if col + 1 < cols { s2.push(p[c + 1]) } else { s2 };
    lemma_push_contains(s2, p[c + 1], x);
    lemma_push_contains(s3, p[c + cols], x);
}

/// The adjacency step at cell `c`: only cell `c` can change, and it changes
/// only when it equals its left or upper neighbour and (under coverage) its
/// tile is placed more than once. It then moves to a tile used by neither
/// itself nor any of its neighbours, with room under the cap, of least key
/// among all such tiles, and keeps the distance to it as its key; when such
/// a tile exists, the cell does move.
pub proof fn law_adjacent_move(
    ids: Seq<TileId>,
    dist: Seq<Seq<u128>>,
    s: (Seq<TileId>, Seq<u128>),
    c: int,
    cols: int,
    cap: Option<u32>,
    ensure_all: bool,
)
    requires
        matrix_ok(ids, dist),
        s.0.len() == dist.len(),
        s.1.len() == dist.len(),
        0 <= c < dist.len(),
        cols > 0,
    ensures
        ({
            let t = adjacent_cell(ids, dist, s, c, cols, cap, ensure_all);
            let p = s.0;
            let dup = (c % cols > 0 && p[c - 1] == p[c]) || (c / cols > 0 && p[c - cols] == p[c]);
            let may_move = dup && !(ensure_all && count(p, p[c]) <= 1);
            &&& t.0 == p.update(c, t.0[c])
            &&& t.1 == s.1.update(c, t.1[c])
            &&& t.0[c] == p[c] ==> t == s
            &&& t.0[c] != p[c] ==> {
                &&& may_move
                &&& clear_of_neighbours(p, c, cols, t.0[c])
                &&& has_room(p, cap, t.0[c])
                &&& carries(ids, dist[c], t.0[c], t.1[c])
                &&& forall|q: int|
                    0 <= q < ids.len() && clear_of_neighbours(p, c, cols, ids[q]) && has_room(p, cap, ids[q])
                        ==> t.1[c] <= #[trigger] dist[c][q]
            }
            &&& (may_move && exists|q: int|
                0 <= q < ids.len() && clear_of_neighbours(p, c, cols, #[trigger] ids[q]) && has_room(p, cap, ids[q]))
                ==> t.0[c] != p[c]
        }),
{
    let p = s.0;
    let excl = crate::assign::neighbour_excl(p, c, cols);
    let row = dist[c];
    lemma_best_upto(ids, row, excl, cap, p, ids.len() as int);
    assert forall|x: TileId| excl.contains(x) <==> !clear_of_neighbours(p, c, cols, x) by {
        lemma_neighbour_excl(p, c, cols, x);
    }
    assert forall|q: int| 0 <= q < ids.len() implies (admits(#[trigger] ids[q], excl, cap, p) <==> (
    clear_of_neighbours(p, c, cols, ids[q]) && has_room(p, cap, ids[q]))) by {}
    if let Some(b) = best_of(ids, row, excl, cap, p) {
        let pb = choose|pb: int|
            0 <= pb < ids.len() && admits(ids[pb], excl, cap, p) && b == (ids[pb], row[pb]) && (
            forall|q: int|
                0 <= q < ids.len() && admits(ids[q], excl, cap, p) ==> row[pb]
                    <= #[trigger] row[q]) && (forall|q: int|
                0 <= q < pb && admits(ids[q], excl, cap, p) ==> row[pb] < #[trigger] row[q]);
        assert(carries(ids, dist[c], b.0, b.1));
        assert(b.0 != p[c]);
    }
    let t = adjacent_cell(ids, dist, s, c, cols, cap, ensure_all);
    if t.0[c] == p[c] {
        assert(t.0 =~= p);
        assert(t.1 =~= s.1);
    } else {
        assert(t.0 =~= p.update(c, t.0[c]));
    }
    assert(t.0 =~= p.update(c, t.0[c]));
    assert(t.1 =~= s.1.update(c, t.1[c]));
}

/// The nearest tile: with at least one tile, the answer is some tile
/// `ids[q]` with its own key `row[q]`, no tile has a smaller key, and every
/// earlier tile has a larger one (ties keep the earliest tile).
pub proof fn law_nearest(ids: Seq<TileId>, row: Seq<u128>)
    requires
        row.len() == ids.len(),
        ids.len() > 0,
    ensures
        spec_nearest(ids, row) is Some,
        exists|q: int|
            0 <= q < ids.len() && #[trigger] ids[q] == spec_nearest(ids, row)->Some_0.0 && row[q]
                == spec_nearest(ids, row)->Some_0.1 && (forall|r: int|
                0 <= r < ids.len() ==> row[q] <= #[trigger] row[r]) && (forall|r: int|
                0 <= r < q ==> row[q] < #[trigger] row[r]),
{
    lemma_best_upto(ids, row, Seq::empty(), None, Seq::empty(), ids.len() as int);
    assert(admits(ids[0], Seq::empty(), None, Seq::empty()));
    assert forall|r: int| 0 <= r < ids.len() implies admits(#[trigger] ids[r], Seq::empty(), None, Seq::<TileId>::empty()) by {}
}

/// The greedy start is shaped: one nearest index tile per cell.
proof fn lemma_greedy_shaped(ids: Seq<TileId>, dist: Seq<Seq<u128>>)
    requires
        matrix_ok(ids, dist),
        dist.len() > 0 ==> ids.len() > 0,
    ensures
        shaped(ids, dist.len() as int, greedy(ids, dist)),
{
    let g = greedy(ids, dist);
    assert forall|c: int| 0 <= c < g.0.len() implies ids.contains(#[trigger] g.0[c]) by {
        lemma_best_upto(ids, dist[c], Seq::empty(), None, Seq::empty(), ids.len() as int);
        assert(admits(ids[0], Seq::empty(), None, Seq::empty()));
        lemma_best_of_member(ids, dist[c], Seq::empty(), None, Seq::empty());
    }
}

/// Shape of every stage of a request that passes the checks.
proof fn lemma_stages_shaped(ids: Seq<TileId>, dist: Seq<Seq<u128>>, cols: u32, params: MosaicParams)
    requires
        matrix_ok(ids, dist),
        dist.len() <= usize::MAX,
        dist.len() > 0 ==> ids.len() > 0,
    ensures
        in_ids(spec_picks(ids, dist, cols, params), ids),
        spec_picks(ids, dist, cols, params).len() == dist.len(),
{
    let n = dist.len() as int;
    let g = greedy(ids, dist);
    lemma_greedy_shaped(ids, dist);
    let s1 = match params.max_tile_usage {
        Some(m) => max_usage_pass(ids, dist, g.0, g.1, m),
        None => g,
    };
    assert(shaped(ids, n, s1)) by {
        if let Some(m) = params.max_tile_usage {
            lemma_max_usage_shaped(ids, dist, g.0, g.1, m, ids.len() as int);
        }
    }
    let s2 = if params.ensure_all_tiles {
        coverage_pass(ids, dist, s1.0, s1.1)
    } else {
        s1
    };
    assert(shaped(ids, n, s2)) by {
        if params.ensure_all_tiles {
            lemma_coverage_pass(ids, dist, s1.0, s1.1);
        }
    }
    if params.avoid_adjacent_duplicates && ids.len() >= 2 && cols > 0 {
        lemma_adjacent_upto(
            ids,
            dist,
            s2.0,
            s2.1,
            cols as int,
            params.max_tile_usage,
            params.ensure_all_tiles,
            n,
        );
    }
}

/// The cap pass keeps the shape for any cap (no feasibility needed).
proof fn lemma_max_usage_shaped(
    ids: Seq<TileId>,
    dist: Seq<Seq<u128>>,
    picks: Seq<TileId>,
    bd: Seq<u128>,
    m: u32,
    j: int,
)
    requires
        matrix_ok(ids, dist),
        dist.len() == picks.len(),
        shaped(ids, picks.len() as int, (picks, bd)),
        picks.len() <= usize::MAX,
        0 <= j <= ids.len(),
    ensures
        shaped(ids, picks.len() as int, max_usage_upto(ids, dist, picks, bd, m, j)),
    decreases j,
{
    if j > 0 {
        lemma_max_usage_shaped(ids, dist, picks, bd, m, j - 1);
        let s = max_usage_upto(ids, dist, picks, bd, m, j - 1);
        let id = ids[j - 1];
        if count(s.0, id) > m {
            lemma_cell_order(s.0, s.1, id);
            let o = cell_order(s.0, s.1, id);
            lemma_reassign_shaped(ids, dist, s.0, s.1, m, o, o.len() as int);
        }
    }
}

proof fn lemma_reassign_shaped(
    ids: Seq<TileId>,
    dist: Seq<Seq<u128>>,
    picks: Seq<TileId>,
    bd: Seq<u128>,
    m: u32,
    o: Seq<usize>,
    k: int,
)
    requires
        matrix_ok(ids, dist),
        dist.len() == picks.len(),
        shaped(ids, picks.len() as int, (picks, bd)),
        forall|i: int| 0 <= i < o.len() ==> #[trigger] o[i] < picks.len(),
        k <= o.len(),
    ensures
        shaped(ids, picks.len() as int, reassign_upto(ids, dist, picks, bd, m, o, k)),
    decreases k,
{
    if k > m {
        lemma_reassign_shaped(ids, dist, picks, bd, m, o, k - 1);
        let s = reassign_upto(ids, dist, picks, bd, m, o, k - 1);
        let c = o[k - 1] as int;
        lemma_best_of_member(ids, dist[c], Seq::empty(), Some(m), s.0);
        if let Some(b) = best_of(ids, dist[c], Seq::empty(), Some(m), s.0) {
            lemma_move(ids, picks.len() as int, s, c, b.0, b.1);
        }
    }
}

/// The inputs the engine accepts: one key per tile in every row and a
/// machine-sized cell count.
pub open spec fn assign_input_ok(ids: Seq<TileId>, dist: Seq<Seq<u128>>) -> bool {
    &&& matrix_ok(ids, dist)
    &&& dist.len() <= usize::MAX
}

/// Shape: the assignment succeeds exactly when the cap is non-zero and can
/// fill the grid and there is a tile for a non-empty grid; it then gives
/// every cell exactly one tile, and that tile is one of the index's ids.
pub proof fn law_assign_shape(ids: Seq<TileId>, dist: Seq<Seq<u128>>, cols: u32, params: MosaicParams)
    requires
        assign_input_ok(ids, dist),
    ensures
        spec_assign(ids, dist, cols, params) is Ok <==> (params.max_tile_usage != Some(0u32) && !(
        params.max_tile_usage is Some && params.max_tile_usage->Some_0 * ids.len() < dist.len())
            && !(dist.len() > 0 && ids.len() == 0)),
        spec_assign(ids, dist, cols, params) matches Ok(p) ==> p.len() == dist.len() && forall|c: int|
            0 <= c < p.len() ==> ids.contains(#[trigger] p[c]),
{
    if spec_assign(ids, dist, cols, params) is Ok {
        lemma_stages_shaped(ids, dist, cols, params);
    }
}

/// Usage cap: when `max_tile_usage` is `Some(m)` and the assignment
/// succeeds, no tile is placed more than `m` times, whichever other
/// constraints are on. Tile ids must be distinct (with a repeated id the
/// repeated tiles share one count and the cap can be unreachable).
pub proof fn law_usage_cap(ids: Seq<TileId>, dist: Seq<Seq<u128>>, cols: u32, params: MosaicParams)
    requires
        assign_input_ok(ids, dist),
        distinct_ids(ids),
        params.max_tile_usage is Some,
    ensures
        spec_assign(ids, dist, cols, params) matches Ok(p) ==> forall|x: TileId|
            #[trigger] count(p, x) <= params.max_tile_usage->Some_0,
{
    if spec_assign(ids, dist, cols, params) is Ok {
        let m = params.max_tile_usage->Some_0;
        let n = dist.len() as int;
        let g = greedy(ids, dist);
        lemma_greedy_shaped(ids, dist);
        lemma_max_usage_pass(ids, dist, g.0, g.1, m);
        let s1 = max_usage_pass(ids, dist, g.0, g.1, m);
        let s2 = if params.ensure_all_tiles {
            coverage_pass(ids, dist, s1.0, s1.1)
        } else {
            s1
        };
        assert(shaped(ids, n, s2) && capped(s2.0, m as int)) by {
            if params.ensure_all_tiles {
                lemma_coverage_pass(ids, dist, s1.0, s1.1);
                assert forall|x: TileId| #[trigger] count(s2.0, x) <= m by {
                    assert(count(s1.0, x) <= m);
                }
            }
        }
        if params.avoid_adjacent_duplicates && ids.len() >= 2 && cols > 0 {
            lemma_adjacent_upto(ids, dist, s2.0, s2.1, cols as int, params.max_tile_usage, params.ensure_all_tiles, n);
        }
        let p = spec_picks(ids, dist, cols, params);
        assert(capped(p, m as int));
    }
}

/// Coverage: with `ensure_all_tiles` and at least as many cells as tiles, a
/// successful assignment places every tile of the index at least once,
/// whichever other constraints are on.
pub proof fn law_coverage(ids: Seq<TileId>, dist: Seq<Seq<u128>>, cols: u32, params: MosaicParams)
    requires
        assign_input_ok(ids, dist),
        params.ensure_all_tiles,
        dist.len() >= ids.len(),
    ensures
        spec_assign(ids, dist, cols, params) matches Ok(p) ==> forall|k: int|
            0 <= k < ids.len() ==> #[trigger] count(p, ids[k]) >= 1,
{
    if spec_assign(ids, dist, cols, params) is Ok && ids.len() > 0 {
        let n = dist.len() as int;
        let g = greedy(ids, dist);
        lemma_greedy_shaped(ids, dist);
        let s1 = match params.max_tile_usage {
            Some(m) => max_usage_pass(ids, dist, g.0, g.1, m),
            None => g,
        };
        assert(shaped(ids, n, s1)) by {
            if let Some(m) = params.max_tile_usage {
                lemma_max_usage_shaped(ids, dist, g.0, g.1, m, ids.len() as int);
            }
        }
        lemma_coverage_pass(ids, dist, s1.0, s1.1);
        let s2 = coverage_pass(ids, dist, s1.0, s1.1);
        let p = spec_picks(ids, dist, cols, params);
        if ids.len() == 1 {
            lemma_stages_shaped(ids, dist, cols, params);
            assert(ids.contains(p[0]));
            assert(p[0] == ids[0]);
            lemma_count_pos(p, 0);
        } else {
            if params.avoid_adjacent_duplicates && cols > 0 {
                lemma_adjacent_upto(ids, dist, s2.0, s2.1, cols as int, params.max_tile_usage, true, n);
                assert forall|k: int| 0 <= k < ids.len() implies #[trigger] count(p, ids[k]) >= 1 by {
                    assert(count(s2.0, ids[k]) >= 1);
                }
            }
        }
    }
}

/// Greedy baseline: with no constraint switched on, every cell gets a tile
/// of least distance, and among equally near tiles the earliest in the index.
pub proof fn law_greedy_nearest(ids: Seq<TileId>, dist: Seq<Seq<u128>>, cols: u32, params: MosaicParams)
    requires
        assign_input_ok(ids, dist),
        params.max_tile_usage is None,
        !params.ensure_all_tiles,
        !params.avoid_adjacent_duplicates,
    ensures
        spec_assign(ids, dist, cols, params) matches Ok(p) ==> forall|c: int|
            0 <= c < dist.len() ==> exists|q: int|
                0 <= q < ids.len() && #[trigger] p[c] == ids[q] && (forall|r: int|
                    0 <= r < ids.len() ==> dist[c][q] <= #[trigger] dist[c][r]) && (forall|r: int|
                    0 <= r < q ==> dist[c][q] < #[trigger] dist[c][r]),
{
    if spec_assign(ids, dist, cols, params) is Ok {
        let p = spec_picks(ids, dist, cols, params);
        assert forall|c: int| 0 <= c < dist.len() implies exists|q: int|
            0 <= q < ids.len() && #[trigger] p[c] == ids[q] && (forall|r: int|
                0 <= r < ids.len() ==> dist[c][q] <= #[trigger] dist[c][r]) && (forall|r: int|
                0 <= r < q ==> dist[c][q] < #[trigger] dist[c][r]) by {
            lemma_best_upto(ids, dist[c], Seq::empty(), None, Seq::empty(), ids.len() as int);
            assert(admits(ids[0], Seq::empty(), None, Seq::empty()));
            assert forall|r: int| 0 <= r < ids.len() implies admits(#[trigger] ids[r], Seq::empty(), None, Seq::<TileId>::empty()) by {}
        }
    }
}

/// The coverage pass on its own: when it runs (at least two tiles and as
/// many cells as tiles) every tile is placed afterwards; otherwise nothing
/// changes. In every case no placed tile becomes unused, no tile is pushed
/// over a cap of at least 1, the picks stay index ids, and a cell that
/// changes holds the distance to its new tile as its key.
pub proof fn law_coverage_pass(
    ids: Seq<TileId>,
    dist: Seq<Seq<u128>>,
    picks: Seq<TileId>,
    bd: Seq<u128>,
    m: int,
)
    requires
        matrix_ok(ids, dist),
        dist.len() == picks.len(),
        shaped(ids, picks.len() as int, (picks, bd)),
    ensures
        ({
            let s = coverage_pass(ids, dist, picks, bd);
            &&& shaped(ids, picks.len() as int, s)
            &&& picks.len() >= ids.len() && ids.len() >= 2 ==> forall|k: int|
                0 <= k < ids.len() ==> #[trigger] count(s.0, ids[k]) >= 1
            &&& !(picks.len() >= ids.len() && ids.len() >= 2) ==> s == (picks, bd)
            &&& forall|x: TileId| count(picks, x) >= 1 ==> #[trigger] count(s.0, x) >= 1
            &&& m >= 1 && capped(picks, m) ==> capped(s.0, m)
            &&& moves_carry_keys(ids, dist, (picks, bd), s)
        }),
{
    lemma_coverage_pass(ids, dist, picks, bd);
    let s = coverage_pass(ids, dist, picks, bd);
    if ids.len() >= 2 && picks.len() >= ids.len() {
        lemma_coverage_upto_keys(ids, dist, picks, bd, ids.len() as int);
    } else {
        assert forall|c: int| 0 <= c < picks.len() implies (#[trigger] s.0[c] == picks[c] && s.1[c] == bd[c]) || carries(ids, dist[c], s.0[c], s.1[c]) by {}
    }
    if m >= 1 && capped(picks, m) {
        assert forall|x: TileId| #[trigger] count(s.0, x) <= m by {
            assert(count(picks, x) <= m);
        }
    }
}

/// The adjacency pass on its own: it keeps every pick an index id, pushes
/// no tile over its cap, under coverage leaves no placed tile unused, and a
/// cell that changes holds the distance to its new tile as its key.
pub proof fn law_adjacent_pass(
    ids: Seq<TileId>,
    dist: Seq<Seq<u128>>,
    picks: Seq<TileId>,
    bd: Seq<u128>,
    cols: int,
    cap: Option<u32>,
    ensure_all: bool,
)
    requires
        matrix_ok(ids, dist),
        dist.len() == picks.len(),
        shaped(ids, picks.len() as int, (picks, bd)),
        cols >= 0,
    ensures
        ({
            let s = adjacent_pass(ids, dist, picks, bd, cols, cap, ensure_all);
            &&& shaped(ids, picks.len() as int, s)
            &&& (cap is Some && capped(picks, cap->Some_0 as int)) ==> capped(s.0, cap->Some_0 as int)
            &&& ensure_all ==> forall|x: TileId| count(picks, x) >= 1 ==> #[trigger] count(s.0, x) >= 1
            &&& moves_carry_keys(ids, dist, (picks, bd), s)
        }),
{
    let s = adjacent_pass(ids, dist, picks, bd, cols, cap, ensure_all);
    if ids.len() >= 2 && cols != 0 {
        lemma_adjacent_upto(ids, dist, picks, bd, cols, cap, ensure_all, picks.len() as int);
        lemma_adjacent_upto_keys(ids, dist, picks, bd, cols, cap, ensure_all, picks.len() as int);
    } else {
        assert forall|c: int| 0 <= c < picks.len() implies (#[trigger] s.0[c] == picks[c] && s.1[c] == bd[c]) || carries(ids, dist[c], s.0[c], s.1[c]) by {}
    }
}
} // verus!
