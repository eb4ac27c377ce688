//! Survey: deterministic thinning of candidate tiles to a minimum spacing,
//! and the hex neighbourhood a spatial predicate walks.

use vstd::prelude::*;
use vstd::relations::{sorted_by, total_ordering};
use crate::lattice::{fits_i32, hex_dist, key_view};
use crate::noise::{hash_u64, spec_hash_u64};

verus! {

broadcast use vstd::seq_lib::group_to_multiset_ensures;

/// The priority a candidate draws under a seed.
pub open spec fn priority(p: (i32, i32), seed: u64) -> u64 {
    spec_hash_u64(p.0 as i64, p.1 as i64, seed)
}

/// Whether `p` ranks no later than `q`: higher priority first, ties (which
/// only equal priorities can make) settled by coordinates.
pub open spec fn ranks_before(p: (i32, i32), q: (i32, i32), seed: u64) -> bool {
    priority(p, seed) > priority(q, seed) || (priority(p, seed) == priority(q, seed) && (p.0 < q.0
        || (p.0 == q.0 && p.1 <= q.1)))
}

/// The ranking as a relation.
pub open spec fn ranking(seed: u64) -> spec_fn((i32, i32), (i32, i32)) -> bool {
    |p: (i32, i32), q: (i32, i32)| ranks_before(p, q, seed)
}

/// Candidates in the order they are considered: by priority, highest first.
pub open spec fn ranked(candidates: Seq<(i32, i32)>, seed: u64) -> Seq<(i32, i32)> {
    candidates.sort_by(ranking(seed))
}

/// Hex distance between two tiles.
pub open spec fn tile_dist(p: (i32, i32), q: (i32, i32)) -> int {
    hex_dist(p.0 - q.0, p.1 - q.1)
}

/// Whether `p` lies nearer than `dist` to some tile of `kept`.
pub open spec fn too_close(kept: Seq<(i32, i32)>, p: (i32, i32), dist: int) -> bool {
    exists|j: int| 0 <= j < kept.len() && tile_dist(p, #[trigger] kept[j]) < dist
}

/// Greedy exclusion over `order`: each tile is kept unless it lies nearer
/// than `dist` to one already kept.
pub open spec fn greedy(order: Seq<(i32, i32)>, dist: int) -> Seq<(i32, i32)>
    decreases order.len(),
{
    if order.len() == 0 {
        Seq::empty()
    } else {
        let kept = greedy(order.drop_last(), dist);
        if too_close(kept, order.last(), dist) { kept } else { kept.push(order.last()) }
    }
}

/// The candidates that survive thinning to `distance` under `seed`. The
/// distance is read as an `i32`, as the thinning compares it.
pub open spec fn thinned(candidates: Seq<(i32, i32)>, distance: u32, seed: u64) -> Seq<(i32, i32)> {
    greedy(ranked(candidates, seed), (distance as i32) as int)
}

/// Every pair of candidates is close enough that their hex distance can be
/// taken in `i32`.
pub open spec fn spread_fits(candidates: Seq<(i32, i32)>) -> bool {
    forall|p: (i32, i32), q: (i32, i32)| candidates.contains(p) && candidates.contains(q)
        ==> fits_i32(p.0 - q.0, p.1 - q.1)
}

/// The ranking is a total order.
pub proof fn lemma_ranking_total(seed: u64)
    ensures
        total_ordering(ranking(seed)),
{
}

/// Hex distance between two tiles.
pub fn hex_distance(q1: i32, r1: i32, q2: i32, r2: i32) -> (d: i32)
    requires
        fits_i32(q1 - q2, r1 - r2),
    ensures
        d == hex_dist(q1 - q2, r1 - r2),
{
    let dq = q1 - q2;
    let dr = r1 - r2;
    let s = dq + dr;
    let x = if dq < 0 { -dq } else { dq };
    let y = if dr < 0 { -dr } else { dr };
    let z = if s < 0 { -s } else { s };
    let m = if x >= y { x } else { y };
    if m >= z { m } else { z }
}

/// The candidates in ranked order: an insertion sort on the ranking.
pub(crate) fn rank_candidates(candidates: &[(i32, i32)], seed: u64) -> (sorted: Vec<(i32, i32)>)
    ensures
        sorted@ == ranked(candidates@, seed),
{
    let mut sorted: Vec<(i32, i32)> = Vec::new();
    let mut prios: Vec<u64> = Vec::new();
    let ghost leq = ranking(seed);
    proof { lemma_ranking_total(seed); }
    let mut t: usize = 0;
    while t < candidates.len()
        invariant
            t <= candidates@.len(),
            leq == ranking(seed),
            total_ordering(leq),
            sorted@.to_multiset() == candidates@.take(t as int).to_multiset(),
            sorted_by(sorted@, leq),
            prios@.len() == sorted@.len(),
            forall|i: int| 0 <= i < sorted@.len() ==> #[trigger] prios@[i] == priority(sorted@[i], seed),
        decreases candidates@.len() - t,
    {
        let x = candidates[t];
        let hx = hash_u64(x.0 as i64, x.1 as i64, seed);
        let mut pos: usize = 0;
        while pos < sorted.len()
            && !(hx > prios[pos] || (hx == prios[pos] && (x.0 < sorted[pos].0
                || (x.0 == sorted[pos].0 && x.1 <= sorted[pos].1))))
            invariant
                pos <= sorted@.len(),
                prios@.len() == sorted@.len(),
                hx == priority(x, seed),
                forall|i: int| 0 <= i < sorted@.len() ==> #[trigger] prios@[i] == priority(sorted@[i], seed),
                forall|i: int| 0 <= i < pos ==> !ranks_before(x, #[trigger] sorted@[i], seed),
            decreases sorted@.len() - pos,
        {
            pos = pos + 1;
        }
        let ghost before = sorted@;
        let ghost before_p = prios@;
        proof {
            assert(candidates@.take(t as int + 1) =~= candidates@.take(t as int).push(x));
        }
        sorted.insert(pos, x);
        prios.insert(pos, hx);
        proof {
            assert(sorted@ == before.insert(pos as int, x));
            assert forall|i: int, j: int| 0 <= i < j < sorted@.len() implies
                #[trigger] leq(sorted@[i], sorted@[j]) by {
                if j < pos {
                    assert(sorted@[i] == before[i] && sorted@[j] == before[j]);
                } else if j == pos {
                    assert(sorted@[i] == before[i]);
                    assert(!ranks_before(x, before[i], seed));
                } else if i == pos {
                    assert(sorted@[j] == before[j - 1]);
                    assert(ranks_before(x, before[pos as int], seed));
                    if j - 1 > pos {
                        assert(leq(before[pos as int], before[j - 1]));
                    }
                } else if i < pos {
                    assert(sorted@[i] == before[i] && sorted@[j] == before[j - 1]);
                } else {
                    assert(sorted@[i] == before[i - 1] && sorted@[j] == before[j - 1]);
                }
            }
            assert forall|i: int| 0 <= i < sorted@.len() implies #[trigger] prios@[i] == priority(sorted@[i], seed) by {
                if i < pos {
                    assert(prios@[i] == before_p[i] && sorted@[i] == before[i]);
                } else if i == pos {
                } else {
                    assert(prios@[i] == before_p[i - 1] && sorted@[i] == before[i - 1]);
                }
            }
        }
        t = t + 1;
    }
    proof {
        assert(candidates@.take(candidates@.len() as int) =~= candidates@);
        candidates@.lemma_sort_by_ensures(leq);
        vstd::seq_lib::lemma_sorted_unique(sorted@, candidates@.sort_by(leq), leq);
    }
    sorted
}


/// Greedy exclusion over `order`, in `i32`.
pub(crate) fn keep_spaced(order: &Vec<(i32, i32)>, dist: i32) -> (kept: Vec<(i32, i32)>)
    requires
        spread_fits(order@),
    ensures
        kept@ == greedy(order@, dist as int),
{
    let mut selected: Vec<(i32, i32)> = Vec::new();
    let mut t: usize = 0;
    proof { assert(order@.take(0) =~= Seq::<(i32, i32)>::empty()); }
    while t < order.len()
        invariant
            t <= order@.len(),
            spread_fits(order@),
            selected@ == greedy(order@.take(t as int), dist as int),
            forall|i: int| 0 <= i < selected@.len() ==> order@.contains(#[trigger] selected@[i]),
        decreases order@.len() - t,
    {
        let (q, r) = order[t];
        assert(order@.contains((q, r)));
        let mut too = false;
        let mut j: usize = 0;
        while j < selected.len()
            invariant
                j <= selected@.len(),
                spread_fits(order@),
                order@.contains((q, r)),
                forall|i: int| 0 <= i < selected@.len() ==> order@.contains(#[trigger] selected@[i]),
                too == exists|i: int| 0 <= i < j && tile_dist((q, r), #[trigger] selected@[i]) < dist,
            decreases selected@.len() - j,
        {
            let (sq, sr) = selected[j];
            assert(order@.contains(selected@[j as int]));
            if hex_distance(q, r, sq, sr) < dist {
                too = true;
            }
            j = j + 1;
        }
        proof {
            assert(order@.take(t as int + 1).drop_last() =~= order@.take(t as int));
            assert(order@.take(t as int + 1).last() == (q, r));
            assert(too == too_close(selected@, (q, r), dist as int));
        }
        if !too {
            selected.push((q, r));
        }
        t = t + 1;
    }
    proof { assert(order@.take(order@.len() as int) =~= order@); }
    selected
}

/// Thins candidate tiles to a minimum spacing: each candidate draws a
/// priority from its coordinates and the seed, and, highest first, is kept
/// unless it lies nearer than `distance` to a candidate already kept.
pub fn apply_min_spacing(candidates: &[(i32, i32)], distance: u32, seed: u64) -> (selected: Vec<(i32, i32)>)
    requires
        spread_fits(candidates@),
    ensures
        selected@ == thinned(candidates@, distance, seed),
{
    let dist = distance as i32;
    let order = rank_candidates(candidates, seed);
    proof {
        lemma_ranking_total(seed);
        candidates@.lemma_sort_by_ensures(ranking(seed));
    }
    keep_spaced(&order, dist)
}

/// Hex distance reads the same from either tile.
pub proof fn lemma_tile_dist_symmetric(p: (i32, i32), q: (i32, i32))
    ensures
        tile_dist(p, q) == tile_dist(q, p),
        tile_dist(p, p) == 0,
{
}

/// Greedy exclusion keeps tiles of the order, each pair at least `dist`
/// apart, and leaves out only tiles that lie nearer than `dist` to a kept
/// one.
pub proof fn lemma_greedy(order: Seq<(i32, i32)>, dist: int)
    ensures
        forall|i: int| 0 <= i < greedy(order, dist).len() ==> order.contains(#[trigger] greedy(order, dist)[i]),
        forall|i: int, j: int| 0 <= i < j < greedy(order, dist).len() ==>
            tile_dist(#[trigger] greedy(order, dist)[i], #[trigger] greedy(order, dist)[j]) >= dist,
        forall|x: (i32, i32)| order.contains(x) ==>
            greedy(order, dist).contains(x) || too_close(greedy(order, dist), x, dist),
    decreases order.len(),
{
    if order.len() > 0 {
        let prev = order.drop_last();
        let x = order.last();
        lemma_greedy(prev, dist);
        let kept = greedy(prev, dist);
        let out = greedy(order, dist);
        assert forall|i: int| 0 <= i < out.len() implies order.contains(#[trigger] out[i]) by {
            if i < kept.len() {
                assert(out[i] == kept[i]);
                let k = choose|k: int| 0 <= k < prev.len() && prev[k] == kept[i];
                assert(order[k] == prev[k]);
            } else {
                assert(out[i] == x);
                assert(order[order.len() - 1] == x);
            }
        }
        assert forall|i: int, j: int| 0 <= i < j < out.len() implies
            tile_dist(#[trigger] out[i], #[trigger] out[j]) >= dist by {
            if j < kept.len() {
                assert(out[i] == kept[i] && out[j] == kept[j]);
            } else {
                assert(out[j] == x && out[i] == kept[i]);
                assert(!too_close(kept, x, dist));
                lemma_tile_dist_symmetric(kept[i], x);
                assert(tile_dist(x, kept[i]) >= dist);
            }
        }
        assert forall|y: (i32, i32)| order.contains(y) implies
            out.contains(y) || too_close(out, y, dist) by {
            if y == x {
                if too_close(kept, x, dist) {
                    assert(out == kept);
                } else {
                    assert(out[out.len() - 1] == x);
                }
            } else {
                let k = choose|k: int| 0 <= k < order.len() && order[k] == y;
                assert(k < prev.len());
                assert(prev[k] == y);
                assert(prev.contains(y));
                if kept.contains(y) {
                    let i = choose|i: int| 0 <= i < kept.len() && kept[i] == y;
                    assert(out[i] == y);
                } else {
                    let i = choose|i: int| 0 <= i < kept.len() && tile_dist(y, #[trigger] kept[i]) < dist;
                    assert(out[i] == kept[i]);
                }
            }
        }
    }
}

/// **Every pair of tiles that survive thinning lies at least `distance`
/// apart, and every survivor is a candidate.**
pub proof fn law_thinning_keeps_spacing(candidates: Seq<(i32, i32)>, distance: u32, seed: u64)
    ensures
        forall|i: int, j: int| 0 <= i < j < thinned(candidates, distance, seed).len() ==>
            tile_dist(#[trigger] thinned(candidates, distance, seed)[i], #[trigger] thinned(candidates, distance, seed)[j])
                >= (distance as i32) as int,
        forall|i: int| 0 <= i < thinned(candidates, distance, seed).len() ==>
            candidates.contains(#[trigger] thinned(candidates, distance, seed)[i]),
{
    let order = ranked(candidates, seed);
    lemma_ranking_total(seed);
    candidates.lemma_sort_by_ensures(ranking(seed));
    lemma_greedy(order, (distance as i32) as int);
}

/// **Thinning drops a candidate only for one kept within `distance` of it.**
pub proof fn law_thinning_covers(candidates: Seq<(i32, i32)>, distance: u32, seed: u64)
    ensures
        forall|x: (i32, i32)| candidates.contains(x) ==>
            thinned(candidates, distance, seed).contains(x)
            || too_close(thinned(candidates, distance, seed), x, (distance as i32) as int),
{
    let order = ranked(candidates, seed);
    lemma_ranking_total(seed);
    candidates.lemma_sort_by_ensures(ranking(seed));
    lemma_greedy(order, (distance as i32) as int);
    assert forall|x: (i32, i32)| candidates.contains(x) implies order.contains(x) by {
        assert(candidates.to_multiset().count(x) > 0);
    }
}

/// Greedy exclusion over an order sorted by a relation keeps its tiles in
/// that order.
proof fn lemma_greedy_sorted(order: Seq<(i32, i32)>, dist: int, seed: u64)
    requires
        sorted_by(order, ranking(seed)),
    ensures
        sorted_by(greedy(order, dist), ranking(seed)),
    decreases order.len(),
{
    if order.len() > 0 {
        let prev = order.drop_last();
        let x = order.last();
        assert(sorted_by(prev, ranking(seed))) by {
            assert forall|i: int, j: int| 0 <= i < j < prev.len() implies #[trigger] ranking(seed)(prev[i], prev[j]) by {
                assert(prev[i] == order[i] && prev[j] == order[j]);
            }
        }
        lemma_greedy_sorted(prev, dist, seed);
        lemma_greedy(prev, dist);
        let kept = greedy(prev, dist);
        let out = greedy(order, dist);
        assert forall|i: int, j: int| 0 <= i < j < out.len() implies #[trigger] ranking(seed)(out[i], out[j]) by {
            if j < kept.len() {
                assert(out[i] == kept[i] && out[j] == kept[j]);
            } else {
                assert(out[j] == x && out[i] == kept[i]);
                assert(prev.contains(kept[i]));
                let k = choose|k: int| 0 <= k < prev.len() && prev[k] == kept[i];
                assert(order[k] == kept[i]);
                assert(ranking(seed)(order[k], order[order.len() - 1]));
            }
        }
    }
}

/// **Survivors come in priority order: each ranks before every later one,
/// higher priority first and equal priorities by coordinates.**
pub proof fn law_thinning_keeps_priority_order(candidates: Seq<(i32, i32)>, distance: u32, seed: u64)
    ensures
        forall|i: int, j: int| 0 <= i < j < thinned(candidates, distance, seed).len() ==>
            ranks_before(#[trigger] thinned(candidates, distance, seed)[i], #[trigger] thinned(candidates, distance, seed)[j], seed),
{
    lemma_ranking_total(seed);
    candidates.lemma_sort_by_ensures(ranking(seed));
    lemma_greedy_sorted(ranked(candidates, seed), (distance as i32) as int, seed);
    let out = thinned(candidates, distance, seed);
    assert forall|i: int, j: int| 0 <= i < j < out.len() implies ranks_before(#[trigger] out[i], #[trigger] out[j], seed) by {
        assert(ranking(seed)(out[i], out[j]));
    }
}

/// **Which candidates survive, and in what order, does not depend on the
/// order the candidates came in.**
pub proof fn law_thinning_ignores_input_order(a: Seq<(i32, i32)>, b: Seq<(i32, i32)>, distance: u32, seed: u64)
    requires
        a.to_multiset() == b.to_multiset(),
    ensures
        thinned(a, distance, seed) == thinned(b, distance, seed),
{
    lemma_ranking_total(seed);
    a.lemma_sort_by_ensures(ranking(seed));
    b.lemma_sort_by_ensures(ranking(seed));
    vstd::seq_lib::lemma_sorted_unique(ranked(a, seed), ranked(b, seed), ranking(seed));
    assert(ranked(a, seed) == ranked(b, seed));
}


/// The six tiles around `(q, r)`, in the order a neighbour walk reads them.
pub open spec fn neighbours_of(q: int, r: int) -> Seq<(int, int)> {
    seq![(q + 1, r), (q - 1, r), (q, r + 1), (q, r - 1), (q + 1, r - 1), (q - 1, r + 1)]
}

/// The six hex neighbours of a tile.
pub fn hex_neighbors(q: i32, r: i32) -> (out: Vec<(i32, i32)>)
    requires
        i32::MIN < q < i32::MAX,
        i32::MIN < r < i32::MAX,
    ensures
        out@.map_values(|p: (i32, i32)| key_view(p)) == neighbours_of(q as int, r as int),
{
    let out = vec![
        (q + 1, r), (q - 1, r),
        (q, r + 1), (q, r - 1),
        (q + 1, r - 1), (q - 1, r + 1),
    ];
    assert(out@.map_values(|p: (i32, i32)| key_view(p)) =~= neighbours_of(q as int, r as int));
    out
}

/// **A tile's neighbours are exactly the tiles one step away, six of them,
/// all distinct.**
pub proof fn law_neighbours_are_one_step(q: int, r: int)
    ensures
        neighbours_of(q, r).len() == 6,
        forall|p: (int, int)| neighbours_of(q, r).contains(p) <==> hex_dist(p.0 - q, p.1 - r) == 1,
        forall|i: int, j: int| 0 <= i < j < 6 ==> neighbours_of(q, r)[i] != neighbours_of(q, r)[j],
{
    let n = neighbours_of(q, r);
    assert forall|p: (int, int)| n.contains(p) <==> hex_dist(p.0 - q, p.1 - r) == 1 by {
        if hex_dist(p.0 - q, p.1 - r) == 1 {
            let (dq, dr) = (p.0 - q, p.1 - r);
            if dq == 1 && dr == 0 { assert(n[0] == p); }
            else if dq == -1 && dr == 0 { assert(n[1] == p); }
            else if dq == 0 && dr == 1 { assert(n[2] == p); }
            else if dq == 0 && dr == -1 { assert(n[3] == p); }
            else if dq == 1 && dr == -1 { assert(n[4] == p); }
            else { assert(n[5] == p); }
        }
        if n.contains(p) {
            let i = choose|i: int| 0 <= i < n.len() && n[i] == p;
            assert(0 <= i < 6);
        }
    }
}

} // verus!
