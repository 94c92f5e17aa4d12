//! Tile assignment: nearest match per cell, then the ordered constraint
//! passes (usage cap, coverage, adjacent-duplicate avoidance).
//!
//! Distances arrive as a matrix `dist[cell][tile]` of non-negative integer
//! keys, tiles in index order. The front end derives each key from the
//! single-precision feature distance as `round(distance * DISTANCE_SCALE)`:
//! every distance in `2^-9 .. 2^96` is a multiple of `2^-32` and its key
//! fits in `u128`, so keys there are exact and order and subtract exactly
//! like the distances.
use vstd::prelude::*;

use crate::error::KakeraError;
use crate::grid::MosaicParams;

verus! {

/// Adapter-assigned tile identity. The engine never interprets it.
pub type TileId = u32;

/// Fixed-point scale of the distance keys (`2^32`): a key is the feature
/// distance times this factor, rounded.
pub const DISTANCE_SCALE: u128 = 4294967296u128;

/// Number of occurrences of `id` in `s`.
pub open spec fn count(s: Seq<TileId>, id: TileId) -> nat
    decreases s.len(),
{
    if s.len() == 0 {
        0
    } else {
        count(s.drop_last(), id) + (if s.last() == id {
            1nat
        } else {
            0nat
        })
    }
}

pub proof fn lemma_count_le_len(s: Seq<TileId>, id: TileId)
    ensures
        count(s, id) <= s.len(),
    decreases s.len(),
{
    if s.len() > 0 {
        lemma_count_le_len(s.drop_last(), id);
    }
}

pub proof fn lemma_count_update(s: Seq<TileId>, i: int, v: TileId, id: TileId)
    requires
        0 <= i < s.len(),
    ensures
        count(s.update(i, v), id) + (if s[i] == id {
            1int
        } else {
            0int
        }) == count(s, id) + (if v == id {
            1int
        } else {
            0int
        }),
    decreases s.len(),
{
    let t = s.update(i, v);
    if i == s.len() - 1 {
        assert(t.drop_last() =~= s.drop_last());
    } else {
        assert(t.drop_last() =~= s.drop_last().update(i, v));
        lemma_count_update(s.drop_last(), i, v, id);
    }
}

pub proof fn lemma_count_pos(s: Seq<TileId>, i: int)
    requires
        0 <= i < s.len(),
    ensures
        count(s, s[i]) >= 1,
    decreases s.len(),
{
    if i < s.len() - 1 {
        assert(s.drop_last()[i] == s[i]);
        lemma_count_pos(s.drop_last(), i);
    }
}

/// Two different cells holding the same id make its count at least 2.
pub proof fn lemma_count_two(s: Seq<TileId>, i: int, j: int)
    requires
        0 <= i < j < s.len(),
        s[i] == s[j],
    ensures
        count(s, s[i]) >= 2,
    decreases s.len(),
{
    if j < s.len() - 1 {
        assert(s.drop_last()[i] == s[i]);
        assert(s.drop_last()[j] == s[j]);
        lemma_count_two(s.drop_last(), i, j);
    } else {
        assert(s.drop_last()[i] == s[i]);
        lemma_count_pos(s.drop_last(), i);
    }
}

pub proof fn lemma_count_zero(s: Seq<TileId>, id: TileId, i: int)
    requires
        count(s, id) == 0,
        0 <= i < s.len(),
    ensures
        s[i] != id,
{
    if s[i] == id {
        lemma_count_pos(s, i);
    }
}

/// Tile `id` may take a cell: it is not excluded and, under a cap, it is
/// placed fewer than `cap` times in `picks`.
pub open spec fn admits(id: TileId, excl: Seq<TileId>, cap: Option<u32>, picks: Seq<TileId>) -> bool {
    &&& !excl.contains(id)
    &&& match cap {
        Some(m) => count(picks, id) < m,
        None => true,
    }
}

/// Lowest-key admitted tile among the first `k` tiles, as `(id, key)`; ties
/// keep the earlier tile.
pub open spec fn best_upto(
    ids: Seq<TileId>,
    row: Seq<u128>,
    excl: Seq<TileId>,
    cap: Option<u32>,
    picks: Seq<TileId>,
    k: int,
) -> Option<(TileId, u128)>
    decreases k,
{
    if k <= 0 {
        None
    } else {
        let prev = best_upto(ids, row, excl, cap, picks, k - 1);
        if !admits(ids[k - 1], excl, cap, picks) {
            prev
        } else {
            match prev {
                Some(b) => if row[k - 1] >= b.1 {
                    prev
                } else {
                    Some((ids[k - 1], row[k - 1]))
                },
                None => Some((ids[k - 1], row[k - 1])),
            }
        }
    }
}

/// Lowest-key admitted tile over the whole index.
pub open spec fn best_of(
    ids: Seq<TileId>,
    row: Seq<u128>,
    excl: Seq<TileId>,
    cap: Option<u32>,
    picks: Seq<TileId>,
) -> Option<(TileId, u128)> {
    best_upto(ids, row, excl, cap, picks, ids.len() as int)
}

/// The nearest tile: lowest key, earliest on ties.
pub open spec fn spec_nearest(ids: Seq<TileId>, row: Seq<u128>) -> Option<(TileId, u128)> {
    best_of(ids, row, Seq::empty(), None, Seq::empty())
}

/// What the best-tile search returns: `None` exactly when no tile among the
/// first `k` is admitted; otherwise an admitted tile `ids[p]` with its key
/// `row[p]`, no admitted tile has a smaller key, and every admitted tile
/// before `p` has a larger one.
pub proof fn lemma_best_upto(
    ids: Seq<TileId>,
    row: Seq<u128>,
    excl: Seq<TileId>,
    cap: Option<u32>,
    picks: Seq<TileId>,
    k: int,
)
    requires
        0 <= k <= ids.len(),
        row.len() == ids.len(),
    ensures
        best_upto(ids, row, excl, cap, picks, k) is None <==> (forall|q: int|
            0 <= q < k ==> !#[trigger] admits(ids[q], excl, cap, picks)),
        best_upto(ids, row, excl, cap, picks, k) matches Some(b) ==> exists|p: int|
            0 <= p < k && admits(ids[p], excl, cap, picks) && b == (ids[p], row[p]) && (forall|q: int|
                0 <= q < k && admits(ids[q], excl, cap, picks) ==> row[p] <= #[trigger] row[q])
                && (forall|q: int|
                0 <= q < p && admits(ids[q], excl, cap, picks) ==> row[p] < #[trigger] row[q]),
    decreases k,
{
    if k > 0 {
        lemma_best_upto(ids, row, excl, cap, picks, k - 1);
        let prev = best_upto(ids, row, excl, cap, picks, k - 1);
        if admits(ids[k - 1], excl, cap, picks) {
            match prev {
                Some(b) => {
                    let p = choose|p: int|
                        0 <= p < k - 1 && admits(ids[p], excl, cap, picks) && b == (ids[p], row[p])
                            && (forall|q: int|
                            0 <= q < k - 1 && admits(ids[q], excl, cap, picks) ==> row[p]
                                <= #[trigger] row[q]) && (forall|q: int|
                            0 <= q < p && admits(ids[q], excl, cap, picks) ==> row[p]
                                < #[trigger] row[q]);
                    if row[k - 1] >= b.1 {
                        assert(0 <= p < k && admits(ids[p], excl, cap, picks));
                    } else {
                        let p2 = k - 1;
                        assert forall|q: int|
                            0 <= q < k && admits(ids[q], excl, cap, picks) implies row[p2]
                            <= #[trigger] row[q] by {
                            if q < k - 1 {
                                assert(row[p] <= row[q]);
                            }
                        }
                        assert forall|q: int|
                            0 <= q < p2 && admits(ids[q], excl, cap, picks) implies row[p2]
                            < #[trigger] row[q] by {
                            assert(row[p] <= row[q]);
                        }
                    }
                },
                None => {
                    let p2 = k - 1;
                    assert forall|q: int|
                        0 <= q < p2 && admits(ids[q], excl, cap, picks) implies row[p2]
                        < #[trigger] row[q] by {
                        assert(!admits(ids[q], excl, cap, picks));
                    }
                    assert forall|q: int|
                        0 <= q < k && admits(ids[q], excl, cap, picks) implies row[p2]
                        <= #[trigger] row[q] by {
                        if q < k - 1 {
                            assert(!admits(ids[q], excl, cap, picks));
                        }
                    }
                },
            }
        }
    }
}

/// The tile a search returns is one of the index's ids and is admitted.
pub proof fn lemma_best_of_member(
    ids: Seq<TileId>,
    row: Seq<u128>,
    excl: Seq<TileId>,
    cap: Option<u32>,
    picks: Seq<TileId>,
)
    requires
        row.len() == ids.len(),
    ensures
        best_of(ids, row, excl, cap, picks) matches Some(b) ==> ids.contains(b.0) && admits(
            b.0,
            excl,
            cap,
            picks,
        ),
{
    lemma_best_upto(ids, row, excl, cap, picks, ids.len() as int);
    if let Some(b) = best_of(ids, row, excl, cap, picks) {
        let p = choose|p: int|
            0 <= p < ids.len() && admits(ids[p], excl, cap, picks) && b == (ids[p], row[p]) && (
            forall|q: int|
                0 <= q < ids.len() && admits(ids[q], excl, cap, picks) ==> row[p]
                    <= #[trigger] row[q]) && (forall|q: int|
                0 <= q < p && admits(ids[q], excl, cap, picks) ==> row[p] < #[trigger] row[q]);
        assert(ids[p] == b.0);
    }
}

/// Whether `id` occurs in `v`.
fn contains_id(v: &Vec<TileId>, id: TileId) -> (r: bool)
    ensures
        r == v@.contains(id),
{
    let mut i: usize = 0;
    while i < v.len()
        invariant
            i <= v@.len(),
            forall|j: int| 0 <= j < i ==> v@[j] != id,
        decreases v@.len() - i,
    {
        if v[i] == id {
            return true;
        }
        i = i + 1;
    }
    false
}

/// `usage[j]` is how often tile `ids[j]` occurs in `picks`.
pub open spec fn usage_ok(usage: Seq<usize>, ids: Seq<TileId>, picks: Seq<TileId>) -> bool {
    &&& usage.len() == ids.len()
    &&& forall|j: int| 0 <= j < ids.len() ==> #[trigger] usage[j] == count(picks, ids[j])
}

/// Position of the lowest-distance admitted tile, deterministic: index
/// order, ties keep the earlier tile. Under a cap, `usage` holds the
/// placement counts of `picks` per tile position.
pub fn best_tile_where(
    ids: &Vec<TileId>,
    row: &Vec<u128>,
    excl: &Vec<TileId>,
    cap: Option<u32>,
    usage: &Vec<usize>,
    Ghost(picks): Ghost<Seq<TileId>>,
) -> (r: Option<usize>)
    requires
        row@.len() == ids@.len(),
        cap is Some ==> usage_ok(usage@, ids@, picks),
    ensures
        r is None <==> best_of(ids@, row@, excl@, cap, picks) is None,
        r matches Some(p) ==> p < ids@.len() && best_of(ids@, row@, excl@, cap, picks) == Some(
            (ids@[p as int], row@[p as int]),
        ),
{
    let mut best: Option<usize> = None;
    let mut k: usize = 0;
    while k < ids.len()
        invariant
            k <= ids@.len(),
            row@.len() == ids@.len(),
            cap is Some ==> usage_ok(usage@, ids@, picks),
            best is None <==> best_upto(ids@, row@, excl@, cap, picks, k as int) is None,
            best matches Some(p) ==> p < k && best_upto(ids@, row@, excl@, cap, picks, k as int)
                == Some((ids@[p as int], row@[p as int])),
        decreases ids@.len() - k,
    {
        let id = ids[k];
        let allowed = !contains_id(excl, id) && match cap {
            Some(m) => usage[k] < m as usize,
            None => true,
        };
        if allowed {
            match best {
                Some(p) => {
                    if row[k] < row[p] {
                        best = Some(k);
                    }
                },
                None => {
                    best = Some(k);
                },
            }
        }
        k = k + 1;
    }
    best
}

/// Nearest tile together with its distance key. `Err(EmptyIndex)` if there
/// is no tile.
pub fn nearest_with_dist(ids: &Vec<TileId>, row: &Vec<u128>) -> (r: Result<(TileId, u128), KakeraError>)
    requires
        row@.len() == ids@.len(),
    ensures
        ids@.len() == 0 ==> r == Err::<(TileId, u128), KakeraError>(KakeraError::EmptyIndex),
        ids@.len() > 0 ==> spec_nearest(ids@, row@) is Some && r == Ok::<
            (TileId, u128),
            KakeraError,
        >(spec_nearest(ids@, row@)->Some_0),
{
    let mut best: Option<(TileId, u128)> = None;
    let mut k: usize = 0;
    while k < ids.len()
        invariant
            k <= ids@.len(),
            row@.len() == ids@.len(),
            best == best_upto(ids@, row@, Seq::empty(), None, Seq::empty(), k as int),
        decreases ids@.len() - k,
    {
        let d = row[k];
        match best {
            Some(b) => {
                if d < b.1 {
                    best = Some((ids[k], d));
                }
            },
            None => {
                best = Some((ids[k], d));
            },
        }
        k = k + 1;
    }
    proof {
        lemma_best_upto(ids@, row@, Seq::empty(), None, Seq::empty(), ids@.len() as int);
        if ids@.len() > 0 {
            assert(admits(ids@[0], Seq::empty(), None, Seq::empty()));
        }
    }
    match best {
        Some(b) => Ok(b),
        None => Err(KakeraError::EmptyIndex),
    }
}

/// Nearest tile id by distance key. `Err(EmptyIndex)` if there is no tile.
pub fn nearest(ids: &Vec<TileId>, row: &Vec<u128>) -> (r: Result<TileId, KakeraError>)
    requires
        row@.len() == ids@.len(),
    ensures
        ids@.len() == 0 ==> r == Err::<TileId, KakeraError>(KakeraError::EmptyIndex),
        ids@.len() > 0 ==> spec_nearest(ids@, row@) is Some && r == Ok::<TileId, KakeraError>(
            spec_nearest(ids@, row@)->Some_0.0,
        ),
{
    match nearest_with_dist(ids, row) {
        Ok(b) => Ok(b.0),
        Err(e) => Err(e),
    }
}


/// The distance rows as sequences.
pub open spec fn rows_of(dist: Seq<Vec<u128>>) -> Seq<Seq<u128>> {
    dist.map_values(|r: Vec<u128>| r@)
}

/// Every row of the distance matrix has one key per tile.
pub open spec fn matrix_ok(ids: Seq<TileId>, dist: Seq<Seq<u128>>) -> bool {
    forall|c: int| 0 <= c < dist.len() ==> #[trigger] dist[c].len() == ids.len()
}

/// Working state of the passes: `picks[c]` is tile `ids[pos[c]]`, `bd[c]`
/// its distance key, and `usage` the placement count per tile position.
pub open spec fn state_ok(
    ids: Seq<TileId>,
    n: int,
    picks: Seq<TileId>,
    bd: Seq<u128>,
    pos: Seq<usize>,
    usage: Seq<usize>,
) -> bool {
    &&& picks.len() == n
    &&& bd.len() == n
    &&& pos.len() == n
    &&& forall|c: int| 0 <= c < n ==> #[trigger] pos[c] < ids.len() && ids[pos[c] as int] == picks[c]
    &&& usage_ok(usage, ids, picks)
}

/// Placement count of every tile position.
pub fn usage_counts(ids: &Vec<TileId>, picks: &Vec<TileId>) -> (r: Vec<usize>)
    ensures
        usage_ok(r@, ids@, picks@),
{
    let mut usage: Vec<usize> = Vec::new();
    let mut j: usize = 0;
    while j < ids.len()
        invariant
            j <= ids@.len(),
            usage@.len() == j,
            forall|q: int| 0 <= q < j ==> #[trigger] usage@[q] == count(picks@, ids@[q]),
        decreases ids@.len() - j,
    {
        let id = ids[j];
        let mut n: usize = 0;
        let mut c: usize = 0;
        while c < picks.len()
            invariant
                c <= picks@.len(),
                n == count(picks@.subrange(0, c as int), id),
            decreases picks@.len() - c,
        {
            proof {
                let sub = picks@.subrange(0, c as int + 1);
                assert(sub.drop_last() =~= picks@.subrange(0, c as int));
                lemma_count_le_len(picks@.subrange(0, c as int), id);
            }
            if picks[c] == id {
                n = n + 1;
            }
            c = c + 1;
        }
        proof {
            assert(picks@.subrange(0, picks@.len() as int) =~= picks@);
        }
        usage.push(n);
        j = j + 1;
    }
    usage
}

/// Moves cell `c` onto tile position `p` with distance key `d`, keeping
/// the placement counts current.
fn move_pick(
    ids: &Vec<TileId>,
    picks: &mut Vec<TileId>,
    bd: &mut Vec<u128>,
    pos: &mut Vec<usize>,
    usage: &mut Vec<usize>,
    c: usize,
    p: usize,
    d: u128,
)
    requires
        state_ok(ids@, old(picks)@.len() as int, old(picks)@, old(bd)@, old(pos)@, old(usage)@),
        c < old(picks)@.len(),
        p < ids@.len(),
    ensures
        state_ok(ids@, old(picks)@.len() as int, final(picks)@, final(bd)@, final(pos)@, final(usage)@),
        final(picks)@ == old(picks)@.update(c as int, ids@[p as int]),
        final(bd)@ == old(bd)@.update(c as int, d),
{
    let old_id = picks[c];
    let new_id = ids[p];
    let len = picks.len();
    let ghost before = picks@;
    picks[c] = new_id;
    bd[c] = d;
    pos[c] = p;
    let ghost after = picks@;
    let mut j: usize = 0;
    while j < ids.len()
        invariant
            j <= ids@.len(),
            picks@ == after,
            after == before.update(c as int, new_id),
            after.len() == len,
            c < before.len(),
            before[c as int] == old_id,
            usage@.len() == ids@.len(),
            forall|q: int| 0 <= q < j ==> #[trigger] usage@[q] == count(after, ids@[q]),
            forall|q: int| j <= q < ids@.len() ==> #[trigger] usage@[q] == count(before, ids@[q]),
        decreases ids@.len() - j,
    {
        let id = ids[j];
        proof {
            lemma_count_update(before, c as int, new_id, id);
            lemma_count_le_len(after, id);
        }
        if id == old_id && id != new_id {
            usage[j] = usage[j] - 1;
        } else if id != old_id && id == new_id {
            usage[j] = usage[j] + 1;
        }
        j = j + 1;
    }
}

/// `a` comes before `b`: smaller key first, cell index breaking ties.
pub open spec fn key_less(bd: Seq<u128>, a: int, b: int) -> bool {
    bd[a] < bd[b] || (bd[a] == bd[b] && a < b)
}

/// `order` lists exactly the cells on tile `id`, in increasing key order.
pub open spec fn is_cell_order(order: Seq<usize>, picks: Seq<TileId>, bd: Seq<u128>, id: TileId) -> bool {
    &&& forall|i: int|
        0 <= i < order.len() ==> #[trigger] order[i] < picks.len() && picks[order[i] as int] == id
    &&& forall|c: int| 0 <= c < picks.len() && picks[c] == id ==> order.contains(c as usize)
    &&& forall|i: int, j: int|
        0 <= i < j < order.len() ==> key_less(bd, #[trigger] order[i] as int, #[trigger] order[j] as int)
}

/// The cells on tile `id`, best fit first.
pub open spec fn cell_order(picks: Seq<TileId>, bd: Seq<u128>, id: TileId) -> Seq<usize> {
    choose|o: Seq<usize>| is_cell_order(o, picks, bd, id)
}

/// Two sequences sorted strictly by `key_less` with the same elements are equal.
proof fn lemma_sorted_unique(bd: Seq<u128>, o1: Seq<usize>, o2: Seq<usize>)
    requires
        forall|i: int, j: int|
            0 <= i < j < o1.len() ==> key_less(bd, #[trigger] o1[i] as int, #[trigger] o1[j] as int),
        forall|i: int, j: int|
            0 <= i < j < o2.len() ==> key_less(bd, #[trigger] o2[i] as int, #[trigger] o2[j] as int),
        forall|x: usize| o1.contains(x) <==> o2.contains(x),
    ensures
        o1 == o2,
    decreases o1.len(),
{
    if o1.len() == 0 {
        if o2.len() > 0 {
            assert(o2.contains(o2[0]));
        }
        assert(o1 =~= o2);
    } else {
        assert(o1.contains(o1[0]));
        assert(o2.len() > 0);
        assert(o2.contains(o2[0]));
        let i = choose|i: int| 0 <= i < o1.len() && o1[i] == o2[0];
        let j = choose|j: int| 0 <= j < o2.len() && o2[j] == o1[0];
        if i > 0 && j > 0 {
            assert(key_less(bd, o1[0] as int, o1[i] as int));
            assert(key_less(bd, o2[0] as int, o2[j] as int));
            assert(false);
        } else if i > 0 {
            assert(key_less(bd, o1[0] as int, o1[i] as int));
            assert(false);
        } else if j > 0 {
            assert(key_less(bd, o2[0] as int, o2[j] as int));
            assert(false);
        }
        assert(o1[0] == o2[0]);
        let t1 = o1.drop_first();
        let t2 = o2.drop_first();
        assert forall|x: usize| t1.contains(x) <==> t2.contains(x) by {
            if t1.contains(x) {
                let a = choose|a: int| 0 <= a < t1.len() && t1[a] == x;
                assert(o1[a + 1] == x);
                assert(key_less(bd, o1[0] as int, o1[a + 1] as int));
                assert(o2.contains(x));
                let b = choose|b: int| 0 <= b < o2.len() && o2[b] == x;
                assert(b != 0);
                assert(t2[b - 1] == x);
            }
            if t2.contains(x) {
                let a = choose|a: int| 0 <= a < t2.len() && t2[a] == x;
                assert(o2[a + 1] == x);
                assert(key_less(bd, o2[0] as int, o2[a + 1] as int));
                assert(o1.contains(x));
                let b = choose|b: int| 0 <= b < o1.len() && o1[b] == x;
                assert(b != 0);
                assert(t1[b - 1] == x);
            }
        }
        assert forall|i: int, j: int| 0 <= i < j < t1.len() implies key_less(
            bd,
            #[trigger] t1[i] as int,
            #[trigger] t1[j] as int,
        ) by {
            assert(t1[i] == o1[i + 1] && t1[j] == o1[j + 1]);
        }
        assert forall|i: int, j: int| 0 <= i < j < t2.len() implies key_less(
            bd,
            #[trigger] t2[i] as int,
            #[trigger] t2[j] as int,
        ) by {
            assert(t2[i] == o2[i + 1] && t2[j] == o2[j + 1]);
        }
        lemma_sorted_unique(bd, t1, t2);
        assert(o1 =~= o2) by {
            assert forall|k: int| 0 <= k < o1.len() implies o1[k] == o2[k] by {
                if k > 0 {
                    assert(o1[k] == t1[k - 1]);
                    assert(o2[k] == t2[k - 1]);
                }
            }
        }
    }
}

/// Any cell order is the cell order.
pub proof fn lemma_cell_order_is(o: Seq<usize>, picks: Seq<TileId>, bd: Seq<u128>, id: TileId)
    requires
        is_cell_order(o, picks, bd, id),
        bd.len() == picks.len(),
    ensures
        cell_order(picks, bd, id) == o,
{
    let o2 = cell_order(picks, bd, id);
    assert(is_cell_order(o2, picks, bd, id));
    assert forall|x: usize| o.contains(x) <==> o2.contains(x) by {
        if o.contains(x) {
            let a = choose|a: int| 0 <= a < o.len() && o[a] == x;
            assert(picks[x as int] == id);
        }
        if o2.contains(x) {
            let a = choose|a: int| 0 <= a < o2.len() && o2[a] == x;
            assert(picks[x as int] == id);
        }
    }
    lemma_sorted_unique(bd, o, o2);
}

/// Inserting cell `c` (larger than every listed cell) just before the first
/// listed cell with a larger key keeps the list sorted and complete.
pub proof fn lemma_insert_in_order(
    before: Seq<usize>,
    after: Seq<usize>,
    p: int,
    c: int,
    picks: Seq<TileId>,
    bd: Seq<u128>,
    id: TileId,
)
    requires
        0 <= p <= before.len(),
        0 <= c < picks.len(),
        c <= usize::MAX,
        bd.len() == picks.len(),
        picks[c] == id,
        after == before.insert(p, c as usize),
        forall|i: int| 0 <= i < before.len() ==> #[trigger] before[i] < c && picks[before[i] as int] == id,
        forall|c2: int| 0 <= c2 < c && picks[c2] == id ==> before.contains(c2 as usize),
        forall|i: int, j: int|
            0 <= i < j < before.len() ==> key_less(bd, #[trigger] before[i] as int, #[trigger] before[j] as int),
        forall|i: int| 0 <= i < p ==> bd[#[trigger] before[i] as int] <= bd[c],
        p < before.len() ==> bd[c] < bd[before[p] as int],
    ensures
        forall|i: int| 0 <= i < after.len() ==> #[trigger] after[i] < c + 1 && picks[after[i] as int] == id,
        forall|c2: int| 0 <= c2 < c + 1 && picks[c2] == id ==> after.contains(c2 as usize),
        forall|i: int, j: int|
            0 <= i < j < after.len() ==> key_less(bd, #[trigger] after[i] as int, #[trigger] after[j] as int),
{
    assert forall|i: int| p <= i < before.len() implies bd[c] < bd[#[trigger] before[i] as int] by {
        if i > p {
            assert(key_less(bd, before[p] as int, before[i] as int));
        }
    }
    assert forall|i: int| 0 <= i < after.len() implies #[trigger] after[i] < c + 1 && picks[after[i] as int] == id by {
        if i < p {
            assert(after[i] == before[i]);
        } else if i > p {
            assert(after[i] == before[i - 1]);
        }
    }
    assert forall|c2: int| 0 <= c2 < c + 1 && picks[c2] == id implies after.contains(c2 as usize) by {
        if c2 < c {
            let a = choose|a: int| 0 <= a < before.len() && before[a] == c2 as usize;
            if a < p {
                assert(after[a] == c2 as usize);
            } else {
                assert(after[a + 1] == c2 as usize);
            }
        } else {
            assert(after[p] == c2 as usize);
        }
    }
    assert forall|i: int, j: int| 0 <= i < j < after.len() implies key_less(
        bd,
        #[trigger] after[i] as int,
        #[trigger] after[j] as int,
    ) by {
        if j < p {
            assert(after[i] == before[i] && after[j] == before[j]);
        } else if j == p {
            assert(after[i] == before[i]);
        } else if i == p {
            assert(after[j] == before[j - 1]);
        } else if i < p {
            assert(after[i] == before[i] && after[j] == before[j - 1]);
        } else {
            assert(after[i] == before[i - 1] && after[j] == before[j - 1]);
        }
    }
}

/// The cells on tile `id`, sorted best fit first (key, then cell index).
fn cells_on_tile(picks: &Vec<TileId>, bd: &Vec<u128>, id: TileId) -> (r: Vec<usize>)
    requires
        bd@.len() == picks@.len(),
    ensures
        is_cell_order(r@, picks@, bd@, id),
        r@ == cell_order(picks@, bd@, id),
{
    let mut order: Vec<usize> = Vec::new();
    let mut c: usize = 0;
    while c < picks.len()
        invariant
            c <= picks@.len(),
            bd@.len() == picks@.len(),
            forall|i: int|
                0 <= i < order@.len() ==> #[trigger] order@[i] < c && picks@[order@[i] as int] == id,
            forall|c2: int| 0 <= c2 < c && picks@[c2] == id ==> order@.contains(c2 as usize),
            forall|i: int, j: int|
                0 <= i < j < order@.len() ==> key_less(
                    bd@,
                    #[trigger] order@[i] as int,
                    #[trigger] order@[j] as int,
                ),
        decreases picks@.len() - c,
    {
        if picks[c] == id {
            let d = bd[c];
            let mut p: usize = 0;
            while p < order.len() && bd[order[p]] <= d
                invariant
                    p <= order@.len(),
                    forall|i: int| 0 <= i < order@.len() ==> #[trigger] order@[i] < c,
                    bd@.len() == picks@.len(),
                    c < picks@.len(),
                    d == bd@[c as int],
                    forall|i: int| 0 <= i < p ==> bd@[#[trigger] order@[i] as int] <= d,
                decreases order@.len() - p,
            {
                p = p + 1;
            }
            let ghost before = order@;
            order.insert(p, c);
            proof {
                lemma_insert_in_order(before, order@, p as int, c as int, picks@, bd@, id);
            }
        }
        c = c + 1;
    }
    proof {
        lemma_cell_order_is(order@, picks@, bd@, id);
    }
    order
}

/// The reassignment of the cells after the first `cap` in `order`, up to
/// position `k`: each moves to the nearest tile still under the cap.
pub open spec fn reassign_upto(
    ids: Seq<TileId>,
    dist: Seq<Seq<u128>>,
    picks: Seq<TileId>,
    bd: Seq<u128>,
    cap: u32,
    order: Seq<usize>,
    k: int,
) -> (Seq<TileId>, Seq<u128>)
    decreases k,
{
    if k <= cap {
        (picks, bd)
    } else {
        let s = reassign_upto(ids, dist, picks, bd, cap, order, k - 1);
        let c = order[k - 1] as int;
        match best_of(ids, dist[c], Seq::empty(), Some(cap), s.0) {
            Some(b) => (s.0.update(c, b.0), s.1.update(c, b.1)),
            None => s,
        }
    }
}

/// Capping one tile: if it is placed more than `cap` times, it keeps its
/// `cap` best-fitting cells and the rest are reassigned in fit order.
pub open spec fn max_usage_tile(
    ids: Seq<TileId>,
    dist: Seq<Seq<u128>>,
    picks: Seq<TileId>,
    bd: Seq<u128>,
    cap: u32,
    id: TileId,
) -> (Seq<TileId>, Seq<u128>) {
    if count(picks, id) <= cap {
        (picks, bd)
    } else {
        let o = cell_order(picks, bd, id);
        reassign_upto(ids, dist, picks, bd, cap, o, o.len() as int)
    }
}

/// The cap pass over the first `j` tiles, in index order.
pub open spec fn max_usage_upto(
    ids: Seq<TileId>,
    dist: Seq<Seq<u128>>,
    picks: Seq<TileId>,
    bd: Seq<u128>,
    cap: u32,
    j: int,
) -> (Seq<TileId>, Seq<u128>)
    decreases j,
{
    if j <= 0 {
        (picks, bd)
    } else {
        let s = max_usage_upto(ids, dist, picks, bd, cap, j - 1);
        max_usage_tile(ids, dist, s.0, s.1, cap, ids[j - 1])
    }
}

/// The whole cap pass.
pub open spec fn max_usage_pass(
    ids: Seq<TileId>,
    dist: Seq<Seq<u128>>,
    picks: Seq<TileId>,
    bd: Seq<u128>,
    cap: u32,
) -> (Seq<TileId>, Seq<u128>) {
    max_usage_upto(ids, dist, picks, bd, cap, ids.len() as int)
}

/// Enforce `max_tile_usage`: for every over-cap tile, keep its `cap`
/// best-fitting cells and reassign the rest to the nearest tile that still
/// has spare capacity.
fn apply_max_usage(
    ids: &Vec<TileId>,
    dist: &Vec<Vec<u128>>,
    picks: &mut Vec<TileId>,
    bd: &mut Vec<u128>,
    pos: &mut Vec<usize>,
    usage: &mut Vec<usize>,
    cap: u32,
)
    requires
        matrix_ok(ids@, rows_of(dist@)),
        state_ok(ids@, dist@.len() as int, old(picks)@, old(bd)@, old(pos)@, old(usage)@),
    ensures
        state_ok(ids@, dist@.len() as int, final(picks)@, final(bd)@, final(pos)@, final(usage)@),
        (final(picks)@, final(bd)@) == max_usage_pass(
            ids@,
            rows_of(dist@),
            old(picks)@,
            old(bd)@,
            cap,
        ),
{
    let ghost rows = rows_of(dist@);
    let ghost n = dist@.len() as int;
    let ghost p0 = picks@;
    let ghost b0 = bd@;
    let empty: Vec<TileId> = Vec::new();
    let mut j: usize = 0;
    while j < ids.len()
        invariant
            j <= ids@.len(),
            rows == rows_of(dist@),
            n == dist@.len(),
            matrix_ok(ids@, rows),
            empty@ == Seq::<TileId>::empty(),
            state_ok(ids@, n, picks@, bd@, pos@, usage@),
            (picks@, bd@) == max_usage_upto(ids@, rows, p0, b0, cap, j as int),
        decreases ids@.len() - j,
    {
        if usage[j] > cap as usize {
            let order = cells_on_tile(picks, bd, ids[j]);
            let ghost ps = picks@;
            let ghost bs = bd@;
            let mut k: usize = cap as usize;
            while k < order.len()
                invariant
                    rows == rows_of(dist@),
                    n == dist@.len(),
                    matrix_ok(ids@, rows),
                    empty@ == Seq::<TileId>::empty(),
                    is_cell_order(order@, ps, bs, ids@[j as int]),
                    ps.len() == n,
                    k >= cap,
                    k <= order@.len() || k == cap,
                    state_ok(ids@, n, picks@, bd@, pos@, usage@),
                    (picks@, bd@) == reassign_upto(ids@, rows, ps, bs, cap, order@, k as int),
                decreases order@.len() - k,
            {
                let c = order[k];
                proof {
                    assert(order@[k as int] < ps.len());
                    assert(rows[c as int] == dist@[c as int]@);
                }
                let row = &dist[c];
                match best_tile_where(ids, row, &empty, Some(cap), usage, Ghost(picks@)) {
                    Some(p) => {
                        let d = row[p];
                        move_pick(ids, picks, bd, pos, usage, c, p, d);
                    },
                    None => {},
                }
                k = k + 1;
            }
        }
        j = j + 1;
    }
}

/// Least-regret host among the first `k` cells for tile position `j`: a
/// cell that is not locked and whose tile is placed more than once; regret
/// is the key increase of switching it to `j`; ties keep the earlier cell.
pub open spec fn host_upto(
    dist: Seq<Seq<u128>>,
    picks: Seq<TileId>,
    bd: Seq<u128>,
    locked: Seq<bool>,
    j: int,
    k: int,
) -> Option<(int, int)>
    decreases k,
{
    if k <= 0 {
        None
    } else {
        let prev = host_upto(dist, picks, bd, locked, j, k - 1);
        let c = k - 1;
        if locked[c] || count(picks, picks[c]) <= 1 {
            prev
        } else {
            let regret = dist[c][j] - bd[c];
            match prev {
                Some(b) => if regret < b.1 {
                    Some((c, regret))
                } else {
                    prev
                },
                None => Some((c, regret)),
            }
        }
    }
}

/// The integer with sign flag `neg` and magnitude `mag`.
pub open spec fn signed(neg: bool, mag: u128) -> int {
    if neg {
        -(mag as int)
    } else {
        mag as int
    }
}

/// Compares two sign-magnitude integers.
fn signed_less(n1: bool, m1: u128, n2: bool, m2: u128) -> (r: bool)
    ensures
        r == (signed(n1, m1) < signed(n2, m2)),
{
    if n1 && n2 {
        m2 < m1
    } else if n1 {
        !(m1 == 0 && m2 == 0)
    } else if n2 {
        false
    } else {
        m1 < m2
    }
}

/// Coverage step for tile position `j`: an unused tile takes over its
/// least-regret host cell, which is then locked.
pub open spec fn coverage_tile(
    ids: Seq<TileId>,
    dist: Seq<Seq<u128>>,
    s: (Seq<TileId>, Seq<u128>, Seq<bool>),
    j: int,
) -> (Seq<TileId>, Seq<u128>, Seq<bool>) {
    if count(s.0, ids[j]) > 0 {
        s
    } else {
        match host_upto(dist, s.0, s.1, s.2, j, s.0.len() as int) {
            Some(h) => (s.0.update(h.0, ids[j]), s.1.update(h.0, dist[h.0][j]), s.2.update(h.0, true)),
            None => s,
        }
    }
}

/// The coverage pass over the first `j` tiles, in index order.
pub open spec fn coverage_upto(
    ids: Seq<TileId>,
    dist: Seq<Seq<u128>>,
    picks: Seq<TileId>,
    bd: Seq<u128>,
    j: int,
) -> (Seq<TileId>, Seq<u128>, Seq<bool>)
    decreases j,
{
    if j <= 0 {
        (picks, bd, Seq::new(picks.len(), |i: int| false))
    } else {
        coverage_tile(ids, dist, coverage_upto(ids, dist, picks, bd, j - 1), j - 1)
    }
}

/// The whole coverage pass; a no-op with fewer than two tiles or fewer
/// cells than tiles.
pub open spec fn coverage_pass(
    ids: Seq<TileId>,
    dist: Seq<Seq<u128>>,
    picks: Seq<TileId>,
    bd: Seq<u128>,
) -> (Seq<TileId>, Seq<u128>) {
    if ids.len() < 2 || picks.len() < ids.len() {
        (picks, bd)
    } else {
        let s = coverage_upto(ids, dist, picks, bd, ids.len() as int);
        (s.0, s.1)
    }
}

/// For each unused tile, take over the non-locked cell where swapping in
/// this tile costs the least extra distance, displacing only a tile that is
/// currently used more than once.
fn ensure_coverage(
    ids: &Vec<TileId>,
    dist: &Vec<Vec<u128>>,
    picks: &mut Vec<TileId>,
    bd: &mut Vec<u128>,
    pos: &mut Vec<usize>,
    usage: &mut Vec<usize>,
)
    requires
        matrix_ok(ids@, rows_of(dist@)),
        state_ok(ids@, dist@.len() as int, old(picks)@, old(bd)@, old(pos)@, old(usage)@),
    ensures
        state_ok(ids@, dist@.len() as int, final(picks)@, final(bd)@, final(pos)@, final(usage)@),
        (final(picks)@, final(bd)@) == coverage_pass(ids@, rows_of(dist@), old(picks)@, old(bd)@),
{
    let ghost rows = rows_of(dist@);
    let ghost p0 = picks@;
    let ghost b0 = bd@;
    let n = picks.len();
    let t = ids.len();
    if t < 2 || n < t {
        return ;
    }
    let mut locked: Vec<bool> = Vec::new();
    let mut i: usize = 0;
    while i < n
        invariant
            i <= n,
            locked@.len() == i,
            forall|q: int| 0 <= q < i ==> !#[trigger] locked@[q],
        decreases n - i,
    {
        locked.push(false);
        i = i + 1;
    }
    proof {
        assert(locked@ =~= Seq::new(p0.len(), |i: int| false));
    }
    let mut j: usize = 0;
    while j < t
        invariant
            j <= t,
            t == ids@.len(),
            n == dist@.len(),
            n == p0.len(),
            rows == rows_of(dist@),
            matrix_ok(ids@, rows),
            state_ok(ids@, n as int, picks@, bd@, pos@, usage@),
            locked@.len() == n,
            (picks@, bd@, locked@) == coverage_upto(ids@, rows, p0, b0, j as int),
        decreases t - j,
    {
        if usage[j] == 0 {
            let mut best: Option<(usize, bool, u128)> = None;
            let mut c: usize = 0;
            while c < n
                invariant
                    c <= n,
                    j < t,
                    t == ids@.len(),
                    n == dist@.len(),
                    rows == rows_of(dist@),
                    matrix_ok(ids@, rows),
                    state_ok(ids@, n as int, picks@, bd@, pos@, usage@),
                    locked@.len() == n,
                    best is None <==> host_upto(rows, picks@, bd@, locked@, j as int, c as int) is None,
                    best matches Some(b) ==> b.0 < c && host_upto(
                        rows,
                        picks@,
                        bd@,
                        locked@,
                        j as int,
                        c as int,
                    ) == Some((b.0 as int, signed(b.1, b.2))),
                decreases n - c,
            {
                let pc = pos[c];
                if !locked[c] && usage[pc] > 1 {
                    proof {
                        assert(rows[c as int] == dist@[c as int]@);
                    }
                    let d = dist[c][j];
                    let cur = bd[c];
                    let (neg, mag) = if d >= cur {
                        (false, d - cur)
                    } else {
                        (true, cur - d)
                    };
                    match best {
                        Some(b) => {
                            if signed_less(neg, mag, b.1, b.2) {
                                best = Some((c, neg, mag));
                            }
                        },
                        None => {
                            best = Some((c, neg, mag));
                        },
                    }
                }
                c = c + 1;
            }
            match best {
                Some(b) => {
                    let h = b.0;
                    proof {
                        assert(rows[h as int] == dist@[h as int]@);
                    }
                    let d = dist[h][j];
                    move_pick(ids, picks, bd, pos, usage, h, j, d);
                    locked[h] = true;
                },
                None => {},
            }
        }
        j = j + 1;
    }
}

/// Tiles a cell must not switch to when breaking a duplicate: its own and
/// those of its left, upper, right and lower neighbours.
pub open spec fn neighbour_excl(picks: Seq<TileId>, c: int, cols: int) -> Seq<TileId> {
    let n = picks.len();
    let col = c % cols;
    let row = c / cols;
    let s0 = seq![picks[c]];
    let s1 = if col > 0 {
        s0.push(picks[c - 1])
    } else {
        s0
    };
    let s2 = if row > 0 {
        s1.push(picks[c - cols])
    } else {
        s1
    };
    let s3 = if col + 1 < cols {
        s2.push(picks[c + 1])
    } else {
        s2
    };
    if c + cols < n {
        s3.push(picks[c + cols])
    } else {
        s3
    }
}

/// Adjacency step for cell `c`: a cell equal to its left or upper neighbour
/// moves to the nearest tile used by none of its neighbours (within the cap,
/// and never orphaning a tile under coverage).
pub open spec fn adjacent_cell(
    ids: Seq<TileId>,
    dist: Seq<Seq<u128>>,
    s: (Seq<TileId>, Seq<u128>),
    c: int,
    cols: int,
    cap: Option<u32>,
    ensure_all: bool,
) -> (Seq<TileId>, Seq<u128>) {
    let p = s.0;
    let col = c % cols;
    let row = c / cols;
    let cur = p[c];
    let dup = (col > 0 && p[c - 1] == cur) || (row > 0 && p[c - cols] == cur);
    if !dup {
        s
    } else if ensure_all && count(p, cur) <= 1 {
        s
    } else {
        match best_of(ids, dist[c], neighbour_excl(p, c, cols), cap, p) {
            Some(b) => (p.update(c, b.0), s.1.update(c, b.1)),
            None => s,
        }
    }
}

/// The adjacency pass over the first `k` cells, in row-major order.
pub open spec fn adjacent_upto(
    ids: Seq<TileId>,
    dist: Seq<Seq<u128>>,
    picks: Seq<TileId>,
    bd: Seq<u128>,
    cols: int,
    cap: Option<u32>,
    ensure_all: bool,
    k: int,
) -> (Seq<TileId>, Seq<u128>)
    decreases k,
{
    if k <= 0 {
        (picks, bd)
    } else {
        adjacent_cell(
            ids,
            dist,
            adjacent_upto(ids, dist, picks, bd, cols, cap, ensure_all, k - 1),
            k - 1,
            cols,
            cap,
            ensure_all,
        )
    }
}

/// The whole adjacency pass; a no-op with fewer than two tiles or no columns.
pub open spec fn adjacent_pass(
    ids: Seq<TileId>,
    dist: Seq<Seq<u128>>,
    picks: Seq<TileId>,
    bd: Seq<u128>,
    cols: int,
    cap: Option<u32>,
    ensure_all: bool,
) -> (Seq<TileId>, Seq<u128>) {
    if ids.len() < 2 || cols == 0 {
        (picks, bd)
    } else {
        adjacent_upto(ids, dist, picks, bd, cols, cap, ensure_all, picks.len() as int)
    }
}

/// Best-effort: change cells equal to an already-decided left/up neighbour
/// to a different nearby tile, without breaking the cap or (under
/// `ensure_all`) orphaning a tile.
fn avoid_adjacent(
    ids: &Vec<TileId>,
    dist: &Vec<Vec<u128>>,
    picks: &mut Vec<TileId>,
    bd: &mut Vec<u128>,
    pos: &mut Vec<usize>,
    usage: &mut Vec<usize>,
    cols: u32,
    cap: Option<u32>,
    ensure_all: bool,
)
    requires
        matrix_ok(ids@, rows_of(dist@)),
        state_ok(ids@, dist@.len() as int, old(picks)@, old(bd)@, old(pos)@, old(usage)@),
        cols > 0 ==> (dist@.len() as int) % (cols as int) == 0,
    ensures
        state_ok(ids@, dist@.len() as int, final(picks)@, final(bd)@, final(pos)@, final(usage)@),
        (final(picks)@, final(bd)@) == adjacent_pass(
            ids@,
            rows_of(dist@),
            old(picks)@,
            old(bd)@,
            cols as int,
            cap,
            ensure_all,
        ),
{
    let ghost rows = rows_of(dist@);
    let ghost p0 = picks@;
    let ghost b0 = bd@;
    if ids.len() < 2 || cols == 0 {
        return ;
    }
    let w = cols as usize;
    let n = picks.len();
    let mut c: usize = 0;
    while c < n
        invariant
            c <= n,
            w == cols as usize,
            w > 0,
            n == dist@.len(),
            (n as int) % (w as int) == 0,
            rows == rows_of(dist@),
            matrix_ok(ids@, rows),
            state_ok(ids@, n as int, picks@, bd@, pos@, usage@),
            (picks@, bd@) == adjacent_upto(ids@, rows, p0, b0, w as int, cap, ensure_all, c as int),
        decreases n - c,
    {
        let col = c % w;
        let row = c / w;
        proof {
            vstd::arithmetic::div_mod::lemma_fundamental_div_mod(c as int, w as int);
            vstd::arithmetic::div_mod::lemma_fundamental_div_mod(n as int, w as int);
            assert(row * w + col == c) by (nonlinear_arith)
                requires
                    c == w * row + col,
            ;
            if row > 0 {
                assert(row * w >= w) by (nonlinear_arith)
                    requires
                        row >= 1,
                        w > 0,
                ;
            }
            if col + 1 < w {
                assert(c + 1 < n) by (nonlinear_arith)
                    requires
                        c == w * row + col,
                        col + 1 < w,
                        c < n,
                        n == w * (n / w),
                ;
            }
        }
        let cur = picks[c];
        let left_dup = col > 0 && picks[c - 1] == cur;
        let up_dup = row > 0 && picks[c - w] == cur;
        if left_dup || up_dup {
            let pc = pos[c];
            if !(ensure_all && usage[pc] <= 1) {
                let mut excl: Vec<TileId> = Vec::new();
                excl.push(cur);
                if col > 0 {
                    excl.push(picks[c - 1]);
                }
                if row > 0 {
                    excl.push(picks[c - w]);
                }
                if col + 1 < w {
                    excl.push(picks[c + 1]);
                }
                if w < n - c {
                    excl.push(picks[c + w]);
                }
                proof {
                    assert(excl@ =~= neighbour_excl(picks@, c as int, w as int));
                    assert(rows[c as int] == dist@[c as int]@);
                }
                let row_d = &dist[c];
                match best_tile_where(ids, row_d, &excl, cap, usage, Ghost(picks@)) {
                    Some(p) => {
                        let d = row_d[p];
                        move_pick(ids, picks, bd, pos, usage, c, p, d);
                    },
                    None => {},
                }
            }
        }
        c = c + 1;
    }
}

/// Greedy start: every cell on its nearest tile.
pub open spec fn greedy(ids: Seq<TileId>, dist: Seq<Seq<u128>>) -> (Seq<TileId>, Seq<u128>) {
    (
        Seq::new(dist.len(), |c: int| spec_nearest(ids, dist[c])->Some_0.0),
        Seq::new(dist.len(), |c: int| spec_nearest(ids, dist[c])->Some_0.1),
    )
}

/// The picks of a request that passes the checks: greedy nearest per cell,
/// then cap, coverage and adjacency passes in that order.
pub open spec fn spec_picks(
    ids: Seq<TileId>,
    dist: Seq<Seq<u128>>,
    cols: u32,
    params: MosaicParams,
) -> Seq<TileId> {
    let g = greedy(ids, dist);
    let s1 = match params.max_tile_usage {
        Some(m) => max_usage_pass(ids, dist, g.0, g.1, m),
        None => g,
    };
    let s2 = if params.ensure_all_tiles {
        coverage_pass(ids, dist, s1.0, s1.1)
    } else {
        s1
    };
    let s3 = if params.avoid_adjacent_duplicates {
        adjacent_pass(
            ids,
            dist,
            s2.0,
            s2.1,
            cols as int,
            params.max_tile_usage,
            params.ensure_all_tiles,
        )
    } else {
        s2
    };
    s3.0
}

/// Outcome of assigning tiles to `dist.len()` cells laid out `cols` wide.
pub open spec fn spec_assign(
    ids: Seq<TileId>,
    dist: Seq<Seq<u128>>,
    cols: u32,
    params: MosaicParams,
) -> Result<Seq<TileId>, KakeraError> {
    let n = dist.len();
    let t = ids.len();
    if params.max_tile_usage == Some(0u32) {
        Err(KakeraError::InvalidMaxTileUsage { max: 0 })
    } else if params.max_tile_usage is Some && params.max_tile_usage->Some_0 * t < n {
        Err(
            KakeraError::MaxTileUsageTooSmall {
                max: params.max_tile_usage->Some_0,
                tiles: t as usize,
                cells: n as usize,
            },
        )
    } else if n > 0 && t == 0 {
        Err(KakeraError::EmptyIndex)
    } else {
        Ok(spec_picks(ids, dist, cols, params))
    }
}

/// Greedy nearest tile per cell, with positions and counts.
fn greedy_picks(ids: &Vec<TileId>, dist: &Vec<Vec<u128>>) -> (r: (Vec<TileId>, Vec<u128>, Vec<usize>))
    requires
        matrix_ok(ids@, rows_of(dist@)),
        dist@.len() > 0 ==> ids@.len() > 0,
    ensures
        (r.0@, r.1@) == greedy(ids@, rows_of(dist@)),
        r.2@.len() == dist@.len(),
        forall|c: int|
            0 <= c < dist@.len() ==> #[trigger] r.2@[c] < ids@.len() && ids@[r.2@[c] as int] == r.0@[c],
{
    let ghost rows = rows_of(dist@);
    let empty: Vec<TileId> = Vec::new();
    let no_usage: Vec<usize> = Vec::new();
    let mut picks: Vec<TileId> = Vec::new();
    let mut bd: Vec<u128> = Vec::new();
    let mut pos: Vec<usize> = Vec::new();
    let mut c: usize = 0;
    while c < dist.len()
        invariant
            c <= dist@.len(),
            dist@.len() > 0 ==> ids@.len() > 0,
            rows == rows_of(dist@),
            matrix_ok(ids@, rows),
            empty@ == Seq::<TileId>::empty(),
            picks@.len() == c,
            bd@.len() == c,
            pos@.len() == c,
            forall|q: int| 0 <= q < c ==> #[trigger] picks@[q] == spec_nearest(ids@, rows[q])->Some_0.0,
            forall|q: int| 0 <= q < c ==> #[trigger] bd@[q] == spec_nearest(ids@, rows[q])->Some_0.1,
            forall|q: int| 0 <= q < c ==> #[trigger] pos@[q] < ids@.len() && ids@[pos@[q] as int] == picks@[q],
        decreases dist@.len() - c,
    {
        proof {
            assert(rows[c as int] == dist@[c as int]@);
            lemma_best_upto(ids@, rows[c as int], Seq::empty(), None, Seq::empty(), ids@.len() as int);
            assert(admits(ids@[0], Seq::empty(), None, Seq::empty()));
        }
        let row = &dist[c];
        let found = best_tile_where(ids, row, &empty, None, &no_usage, Ghost(Seq::empty()));
        let p = found.unwrap();
        picks.push(ids[p]);
        bd.push(row[p]);
        pos.push(p);
        c = c + 1;
    }
    proof {
        assert(picks@ =~= greedy(ids@, rows).0);
        assert(bd@ =~= greedy(ids@, rows).1);
    }
    (picks, bd, pos)
}

/// Greedy nearest per cell, then ordered constraint layers:
/// max-usage cap (hard, may error) -> coverage (hard when feasible) ->
/// adjacent-duplicate avoidance (best-effort). Order is significant.
///
/// `dist[c][j]` is the distance key of cell `c` (row-major, `cols` wide) to
/// tile `ids[j]`.
pub fn assign_picks(ids: &Vec<TileId>, dist: &Vec<Vec<u128>>, cols: u32, params: &MosaicParams) -> (r:
    Result<Vec<TileId>, KakeraError>)
    requires
        matrix_ok(ids@, rows_of(dist@)),
        params.avoid_adjacent_duplicates && cols > 0 ==> (dist@.len() as int) % (cols as int) == 0,
    ensures
        r matches Ok(v) ==> spec_assign(ids@, rows_of(dist@), cols, *params) == Ok::<
            Seq<TileId>,
            KakeraError,
        >(v@),
        r matches Err(e) ==> spec_assign(ids@, rows_of(dist@), cols, *params) == Err::<
            Seq<TileId>,
            KakeraError,
        >(e),
{
    let n = dist.len();
    let t = ids.len();
    let cap = match params.max_tile_usage {
        Some(m) => {
            if m == 0 {
                return Err(KakeraError::InvalidMaxTileUsage { max: 0 });
            }
            proof {
                assert((m as u128) * (t as u128) <= u32::MAX * usize::MAX) by (nonlinear_arith)
                    requires
                        m <= u32::MAX,
                        t <= usize::MAX,
                ;
            }
            if (m as u128) * (t as u128) < n as u128 {
                return Err(KakeraError::MaxTileUsageTooSmall { max: m, tiles: t, cells: n });
            }
            Some(m)
        },
        None => None,
    };
    if n > 0 && t == 0 {
        return Err(KakeraError::EmptyIndex);
    }
    let (mut picks, mut bd, mut pos) = greedy_picks(ids, dist);
    let mut usage = usage_counts(ids, &picks);
    if let Some(m) = cap {
        apply_max_usage(ids, dist, &mut picks, &mut bd, &mut pos, &mut usage, m);
    }
    if params.ensure_all_tiles {
        ensure_coverage(ids, dist, &mut picks, &mut bd, &mut pos, &mut usage);
    }
    if params.avoid_adjacent_duplicates {
        avoid_adjacent(
            ids,
            dist,
            &mut picks,
            &mut bd,
            &mut pos,
            &mut usage,
            cols,
            cap,
            params.ensure_all_tiles,
        );
    }
    Ok(picks)
}

/// Position of the first tile carrying `id`, if any.
pub fn position_of(ids: &Vec<TileId>, id: TileId) -> (r: Option<usize>)
    ensures
        r is None <==> !ids@.contains(id),
        r matches Some(p) ==> p < ids@.len() && ids@[p as int] == id && forall|q: int|
            0 <= q < p ==> ids@[q] != id,
{
    let mut k: usize = 0;
    while k < ids.len()
        invariant
            k <= ids@.len(),
            forall|q: int| 0 <= q < k ==> ids@[q] != id,
        decreases ids@.len() - k,
    {
        if ids[k] == id {
            return Some(k);
        }
        k = k + 1;
    }
    None
}
} // verus!
