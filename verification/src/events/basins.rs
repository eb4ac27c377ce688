//! Closed ground: the basins the flood leaves, each the flooded nodes at
//! one fill that touch, and the sill each spills over.

use vstd::prelude::*;
use crate::events::drainage::Kind;
use crate::microplates::orphans::{connected, is_root, labels_pieces, lemma_one_root, lemma_root_is_start, mutual, pieces};

verus! {

/// The links of node `a` among its first `i` neighbour slots: a flooded
/// node to a flooded neighbour at the same fill.
pub open spec fn fill_links_upto(kind: Seq<Kind>, nbrs: Seq<[Option<usize>; 6]>, fill: Seq<[bool; 6]>, a: int, i: int) -> Seq<usize>
    decreases i,
{
    if i <= 0 {
        Seq::empty()
    } else {
        let prev = fill_links_upto(kind, nbrs, fill, a, i - 1);
        match nbrs[a]@[i - 1] {
            Some(m) => if kind[a] == Kind::Basin && kind[m as int] == Kind::Basin && fill[a]@[i - 1] { prev.push(m) } else { prev },
            None => prev,
        }
    }
}

/// The basin graph: each node linked to its flooded neighbours at its fill.
pub open spec fn basin_graph(kind: Seq<Kind>, nbrs: Seq<[Option<usize>; 6]>, fill: Seq<[bool; 6]>) -> Seq<Seq<usize>> {
    Seq::new(kind.len(), |a: int| fill_links_upto(kind, nbrs, fill, a, 6))
}

/// One plate under every node, so that pieces are cut by the links alone.
pub open spec fn level(n: nat) -> Seq<u64> {
    Seq::new(n, |i: int| 0u64)
}

/// Nodes `a` and `b` lie in one basin.
pub open spec fn same_basin(kind: Seq<Kind>, nbrs: Seq<[Option<usize>; 6]>, fill: Seq<[bool; 6]>, a: int, b: int) -> bool {
    connected(level(kind.len()), basin_graph(kind, nbrs, fill), a, b)
}

/// `r` is the least node of a basin.
pub open spec fn is_basin_root(kind: Seq<Kind>, nbrs: Seq<[Option<usize>; 6]>, fill: Seq<[bool; 6]>, r: int) -> bool {
    kind[r] == Kind::Basin && is_root(level(kind.len()), basin_graph(kind, nbrs, fill), r)
}

/// The least nodes of the basins among the first `k` nodes, in order.
pub open spec fn basin_roots_upto(kind: Seq<Kind>, nbrs: Seq<[Option<usize>; 6]>, fill: Seq<[bool; 6]>, k: int) -> Seq<int>
    decreases k,
{
    if k <= 0 {
        Seq::empty()
    } else {
        let prev = basin_roots_upto(kind, nbrs, fill, k - 1);
        if is_basin_root(kind, nbrs, fill, k - 1) { prev.push(k - 1) } else { prev }
    }
}

/// The nodes of the basin of `r` among the first `k` nodes, in order.
pub open spec fn members_upto(kind: Seq<Kind>, nbrs: Seq<[Option<usize>; 6]>, fill: Seq<[bool; 6]>, r: int, k: int) -> Seq<usize>
    decreases k,
{
    if k <= 0 {
        Seq::empty()
    } else {
        let prev = members_upto(kind, nbrs, fill, r, k - 1);
        if same_basin(kind, nbrs, fill, r, k - 1) { prev.push((k - 1) as usize) } else { prev }
    }
}

/// Where a basin spills: the node the flood entered its first member by,
/// going through its members in order, that lies outside closed ground;
/// none where that node is at the window's edge.
pub open spec fn spill(kind: Seq<Kind>, parent: Seq<Option<usize>>, members: Seq<usize>) -> Option<usize>
    decreases members.len(),
{
    if members.len() == 0 {
        None
    } else {
        match parent[members[0] as int] {
            Some(p) => if kind[p as int] != Kind::Basin {
                if kind[p as int] == Kind::Edge { None } else { Some(p) }
            } else {
                spill(kind, parent, members.drop_first())
            },
            None => spill(kind, parent, members.drop_first()),
        }
    }
}

/// Every neighbour slot names a node, and the fill links are mutual.
pub open spec fn fill_mutual(kind: Seq<Kind>, nbrs: Seq<[Option<usize>; 6]>, fill: Seq<[bool; 6]>) -> bool {
    &&& nbrs.len() == kind.len()
    &&& fill.len() == kind.len()
    &&& kind.len() < usize::MAX
    &&& forall|a: int, i: int| 0 <= a < kind.len() && 0 <= i < 6 && (#[trigger] nbrs[a]@[i]) is Some
            ==> nbrs[a]@[i].unwrap() < kind.len()
    &&& mutual(basin_graph(kind, nbrs, fill))
}

/// A fill link joins two flooded nodes.
proof fn lemma_fill_link(kind: Seq<Kind>, nbrs: Seq<[Option<usize>; 6]>, fill: Seq<[bool; 6]>, a: int, i: int, m: usize)
    requires
        fill_links_upto(kind, nbrs, fill, a, i).contains(m),
    ensures
        kind[a] == Kind::Basin,
        kind[m as int] == Kind::Basin,
    decreases i,
{
    if i > 0 {
        let prev = fill_links_upto(kind, nbrs, fill, a, i - 1);
        if prev.contains(m) {
            lemma_fill_link(kind, nbrs, fill, a, i - 1, m);
        } else {
            let cur = fill_links_upto(kind, nbrs, fill, a, i);
            let t = choose|t: int| 0 <= t < cur.len() && cur[t] == m;
            if t < prev.len() {
                assert(prev[t] == m);
            }
        }
    }
}

/// Two different nodes of one basin are both flooded.
proof fn lemma_basin_flooded(kind: Seq<Kind>, nbrs: Seq<[Option<usize>; 6]>, fill: Seq<[bool; 6]>, a: int, b: int)
    requires
        kind.len() <= usize::MAX,
        same_basin(kind, nbrs, fill, a, b),
        a != b,
    ensures
        kind[a] == Kind::Basin,
        kind[b] == Kind::Basin,
{
    let g = basin_graph(kind, nbrs, fill);
    let p = level(kind.len());
    let w = choose|w: Seq<int>| #[trigger] crate::microplates::orphans::is_walk(p, g, w) && w[0] == a && w.last() == b;
    assert(w.len() >= 2);
    assert(crate::microplates::orphans::link(p, g, w[0], w[1]));
    assert(g[w[0]] == fill_links_upto(kind, nbrs, fill, w[0], 6));
    lemma_fill_link(kind, nbrs, fill, w[0], 6, w[1] as usize);
    let l = w.len() - 2;
    assert(crate::microplates::orphans::link(p, g, w[l], w[l + 1]));
    assert(g[w[l]] == fill_links_upto(kind, nbrs, fill, w[l], 6));
    lemma_fill_link(kind, nbrs, fill, w[l], 6, w[l + 1] as usize);
}

/// The basin graph of a window: each node's flooded neighbours at its fill.
fn fill_adjacency(kind: &[Kind], nbrs: &Vec<[Option<usize>; 6]>, fill: &Vec<[bool; 6]>) -> (adj: Vec<Vec<usize>>)
    requires
        fill_mutual(kind@, nbrs@, fill@),
    ensures
        adj@.map_values(|v: Vec<usize>| v@) == basin_graph(kind@, nbrs@, fill@),
{
    let n = kind.len();
    let mut adj: Vec<Vec<usize>> = Vec::new();
    let mut a: usize = 0;
    while a < n
        invariant
            a <= n,
            n == kind@.len(),
            fill_mutual(kind@, nbrs@, fill@),
            adj@.len() == a,
            forall|j: int| 0 <= j < a ==> (#[trigger] adj@[j])@ == fill_links_upto(kind@, nbrs@, fill@, j, 6),
        decreases n - a,
    {
        let mut links: Vec<usize> = Vec::new();
        let mut i: usize = 0;
        while i < 6
            invariant
                a < n,
                n == kind@.len(),
                fill_mutual(kind@, nbrs@, fill@),
                i <= 6,
                links@ == fill_links_upto(kind@, nbrs@, fill@, a as int, i as int),
            decreases 6 - i,
        {
            match nbrs[a][i] {
                Some(m) => {
                    assert(nbrs@[a as int]@[i as int] is Some);
                    if matches!(kind[a], Kind::Basin) && matches!(kind[m], Kind::Basin) && fill[a][i] {
                        links.push(m);
                    }
                },
                None => {},
            }
            i = i + 1;
        }
        adj.push(links);
        a = a + 1;
    }
    proof {
        assert(adj@.map_values(|v: Vec<usize>| v@) =~= basin_graph(kind@, nbrs@, fill@));
    }
    adj
}

/// The basin roots come in order, each a basin root, and every basin root
/// is among them.
proof fn lemma_basin_roots(kind: Seq<Kind>, nbrs: Seq<[Option<usize>; 6]>, fill: Seq<[bool; 6]>, k: int)
    requires
        0 <= k,
    ensures
        forall|i: int| 0 <= i < basin_roots_upto(kind, nbrs, fill, k).len() ==> {
            let r = #[trigger] basin_roots_upto(kind, nbrs, fill, k)[i];
            0 <= r < k && is_basin_root(kind, nbrs, fill, r)
        },
        forall|i: int, j: int| 0 <= i < j < basin_roots_upto(kind, nbrs, fill, k).len()
            ==> #[trigger] basin_roots_upto(kind, nbrs, fill, k)[i] < #[trigger] basin_roots_upto(kind, nbrs, fill, k)[j],
        forall|r: int| 0 <= r < k && #[trigger] is_basin_root(kind, nbrs, fill, r) ==> exists|i: int|
            0 <= i < basin_roots_upto(kind, nbrs, fill, k).len() && basin_roots_upto(kind, nbrs, fill, k)[i] == r,
    decreases k,
{
    if k > 0 {
        lemma_basin_roots(kind, nbrs, fill, k - 1);
        let prev = basin_roots_upto(kind, nbrs, fill, k - 1);
        let cur = basin_roots_upto(kind, nbrs, fill, k);
        if is_basin_root(kind, nbrs, fill, k - 1) {
            assert(cur == prev.push(k - 1));
            assert forall|i: int| 0 <= i < cur.len() implies {
                let r = #[trigger] cur[i];
                0 <= r < k && is_basin_root(kind, nbrs, fill, r)
            } by {
                if i < prev.len() {
                    assert(cur[i] == prev[i]);
                }
            }
            assert forall|i: int, j: int| 0 <= i < j < cur.len() implies #[trigger] cur[i] < #[trigger] cur[j] by {
                assert(cur[i] == prev[i]);
                if j < prev.len() {
                    assert(cur[j] == prev[j]);
                }
            }
            assert forall|r: int| 0 <= r < k && #[trigger] is_basin_root(kind, nbrs, fill, r) implies exists|i: int|
                0 <= i < cur.len() && cur[i] == r by {
                if r == k - 1 {
                    assert(cur[prev.len() as int] == r);
                } else {
                    let i = choose|i: int| 0 <= i < prev.len() && prev[i] == r;
                    assert(cur[i] == r);
                }
            }
        } else {
            assert(cur == prev);
        }
    }
}

/// A basin's members below `k` are nodes below `k`, in order.
proof fn lemma_members_below(kind: Seq<Kind>, nbrs: Seq<[Option<usize>; 6]>, fill: Seq<[bool; 6]>, r: int, k: int)
    requires
        0 <= k <= usize::MAX,
    ensures
        forall|t: int| 0 <= t < members_upto(kind, nbrs, fill, r, k).len()
            ==> (#[trigger] members_upto(kind, nbrs, fill, r, k)[t]) < k,
    decreases k,
{
    if k > 0 {
        lemma_members_below(kind, nbrs, fill, r, k - 1);
        let prev = members_upto(kind, nbrs, fill, r, k - 1);
        let cur = members_upto(kind, nbrs, fill, r, k);
        if same_basin(kind, nbrs, fill, r, k - 1) {
            assert(cur == prev.push((k - 1) as usize));
            assert forall|t: int| 0 <= t < cur.len() implies (#[trigger] cur[t]) < k by {
                if t < prev.len() {
                    assert(cur[t] == prev[t]);
                }
            }
        }
    }
}

/// The basins of a routed window, each the flooded nodes at one fill that
/// touch, in the order of their least node, with their nodes in order and
/// the node each spills over; and each node's basin, none for open ground.
pub fn basins(kind: &[Kind], nbrs: &Vec<[Option<usize>; 6]>, fill: &Vec<[bool; 6]>, parent: &[Option<usize>])
    -> (res: (Vec<Option<usize>>, Vec<(Vec<usize>, Option<usize>)>))
    requires
        fill_mutual(kind@, nbrs@, fill@),
        parent@.len() == kind@.len(),
        forall|k: int| 0 <= k < parent@.len() && (#[trigger] parent@[k]) is Some ==> parent@[k].unwrap() < kind@.len(),
    ensures
        res.1@.len() == basin_roots_upto(kind@, nbrs@, fill@, kind@.len() as int).len(),
        forall|b: int| 0 <= b < res.1@.len() ==> {
            let r = basin_roots_upto(kind@, nbrs@, fill@, kind@.len() as int)[b];
            &&& (#[trigger] res.1@[b]).0@ == members_upto(kind@, nbrs@, fill@, r, kind@.len() as int)
            &&& res.1@[b].1 == spill(kind@, parent@, res.1@[b].0@)
        },
        res.0@.len() == kind@.len(),
        forall|x: int| 0 <= x < kind@.len() ==> ((#[trigger] res.0@[x]) is Some <==> kind@[x] == Kind::Basin),
        forall|x: int| 0 <= x < kind@.len() && (#[trigger] res.0@[x]) is Some ==> {
            let b = res.0@[x].unwrap() as int;
            &&& b < res.1@.len()
            &&& same_basin(kind@, nbrs@, fill@, basin_roots_upto(kind@, nbrs@, fill@, kind@.len() as int)[b], x)
        },
{
    let ghost g = basin_graph(kind@, nbrs@, fill@);
    let n = kind.len();
    let adj = fill_adjacency(kind, nbrs, fill);
    let mut flat: Vec<u64> = Vec::new();
    let mut i: usize = 0;
    while i < n
        invariant
            i <= n,
            flat@.len() == i,
            forall|j: int| 0 <= j < i ==> #[trigger] flat@[j] == 0,
        decreases n - i,
    {
        flat.push(0);
        i = i + 1;
    }
    proof { assert(flat@ =~= level(n as nat)); }
    let (label, starts) = pieces(&flat, &adj);
    let ghost p = level(n as nat);
    let mut basin_of: Vec<Option<usize>> = Vec::new();
    let mut i: usize = 0;
    while i < n
        invariant
            i <= n,
            basin_of@.len() == i,
            forall|j: int| 0 <= j < i ==> #[trigger] basin_of@[j] is None,
        decreases n - i,
    {
        basin_of.push(None);
        i = i + 1;
    }
    let mut out: Vec<(Vec<usize>, Option<usize>)> = Vec::new();
    let mut c: usize = 0;
    while c < n
        invariant
            c <= n,
            n == kind@.len(),
            g == basin_graph(kind@, nbrs@, fill@),
            p == level(n as nat),
            fill_mutual(kind@, nbrs@, fill@),
            parent@.len() == n,
            forall|k: int| 0 <= k < parent@.len() && (#[trigger] parent@[k]) is Some ==> parent@[k].unwrap() < n,
            labels_pieces(p, g, label@, starts@),
            basin_of@.len() == n,
            out@.len() == basin_roots_upto(kind@, nbrs@, fill@, c as int).len(),
            forall|b: int| 0 <= b < out@.len() ==> {
                let r = basin_roots_upto(kind@, nbrs@, fill@, c as int)[b];
                &&& (#[trigger] out@[b]).0@ == members_upto(kind@, nbrs@, fill@, r, n as int)
                &&& out@[b].1 == spill(kind@, parent@, out@[b].0@)
            },
            forall|x: int| 0 <= x < n && (#[trigger] basin_of@[x]) is Some ==> {
                let b = basin_of@[x].unwrap() as int;
                &&& b < out@.len()
                &&& same_basin(kind@, nbrs@, fill@, basin_roots_upto(kind@, nbrs@, fill@, c as int)[b], x)
            },
            forall|x: int| 0 <= x < n && (#[trigger] basin_of@[x]) is None ==> forall|b: int| 0 <= b < out@.len()
                ==> !same_basin(kind@, nbrs@, fill@, #[trigger] basin_roots_upto(kind@, nbrs@, fill@, c as int)[b], x),
        decreases n - c,
    {
        let ghost prev = basin_roots_upto(kind@, nbrs@, fill@, c as int);
        let k = label[c];
        proof {
            lemma_root_is_start(p, g, label@, starts@, c as int);
            lemma_basin_roots(kind@, nbrs@, fill@, c as int);
        }
        if starts[k] == c && matches!(kind[c], Kind::Basin) {
            let ghost bo0 = basin_of@;
            let b = out.len();
            proof {
                assert(is_basin_root(kind@, nbrs@, fill@, c as int));
                assert(basin_roots_upto(kind@, nbrs@, fill@, c as int + 1) == prev.push(c as int));
                assert forall|y: int| 0 <= y < n && same_basin(kind@, nbrs@, fill@, c as int, y) implies bo0[y] is None by {
                    if bo0[y] is Some {
                        let bb = bo0[y].unwrap() as int;
                        let r = prev[bb];
                        assert(same_basin(kind@, nbrs@, fill@, r, y));
                        crate::microplates::orphans::lemma_connected_sym(p, g, c as int, y);
                        crate::microplates::orphans::lemma_connected_trans(p, g, r, y, c as int);
                        lemma_one_root(p, g, r, c as int);
                        assert(r < c);
                    }
                }
            }
            let mut members: Vec<usize> = Vec::new();
            let mut x: usize = 0;
            while x < n
                invariant
                    x <= n,
                    c < n,
                    n == kind@.len(),
                    g == basin_graph(kind@, nbrs@, fill@),
                    p == level(n as nat),
                    labels_pieces(p, g, label@, starts@),
                    k == label@[c as int],
                    b == out@.len(),
                    basin_of@.len() == n,
                    bo0.len() == n,
                    members@ == members_upto(kind@, nbrs@, fill@, c as int, x as int),
                    forall|y: int| 0 <= y < n ==> #[trigger] basin_of@[y] == if y < x && same_basin(kind@, nbrs@, fill@, c as int, y) {
                        Some(b)
                    } else {
                        bo0[y]
                    },
                decreases n - x,
            {
                proof { assert((label@[x as int] == k) == same_basin(kind@, nbrs@, fill@, c as int, x as int)); }
                if label[x] == k {
                    members.push(x);
                    basin_of.set(x, Some(b));
                }
                x = x + 1;
            }
            proof { lemma_members_below(kind@, nbrs@, fill@, c as int, n as int); }
            let ghost ms = members@;
            proof { assert(ms.skip(0) =~= ms); }
            let mut outlet: Option<usize> = None;
            let mut t: usize = 0;
            while t < members.len()
                invariant_except_break
                    t <= ms.len(),
                    ms == members@,
                    n == kind@.len(),
                    parent@.len() == n,
                    forall|k: int| 0 <= k < parent@.len() && (#[trigger] parent@[k]) is Some ==> parent@[k].unwrap() < n,
                    forall|u: int| 0 <= u < ms.len() ==> #[trigger] ms[u] < n,
                    spill(kind@, parent@, ms) == spill(kind@, parent@, ms.skip(t as int)),
                    outlet is None,
                ensures
                    outlet == spill(kind@, parent@, ms),
                decreases ms.len() - t,
            {
                let m = members[t];
                proof {
                    assert(ms.skip(t as int)[0] == m);
                    assert(ms.skip(t as int).drop_first() =~= ms.skip(t as int + 1));
                }
                match parent[m] {
                    Some(q) => {
                        if !matches!(kind[q], Kind::Basin) {
                            outlet = if matches!(kind[q], Kind::Edge) { None } else { Some(q) };
                            break;
                        }
                    },
                    None => {},
                }
                t = t + 1;
            }
            proof {
                if t == ms.len() {
                    assert(ms.skip(t as int).len() == 0);
                }
            }
            out.push((members, outlet));
        } else {
            proof {
                assert(!is_basin_root(kind@, nbrs@, fill@, c as int));
                assert(basin_roots_upto(kind@, nbrs@, fill@, c as int + 1) == prev);
            }
        }
        c = c + 1;
    }
    proof {
        lemma_basin_roots(kind@, nbrs@, fill@, n as int);
        let roots = basin_roots_upto(kind@, nbrs@, fill@, n as int);
        assert forall|x: int| 0 <= x < n implies ((#[trigger] basin_of@[x]) is Some <==> kind@[x] == Kind::Basin) by {
            if basin_of@[x] is Some {
                let r = roots[basin_of@[x].unwrap() as int];
                if r != x {
                    lemma_basin_flooded(kind@, nbrs@, fill@, r, x);
                }
            }
            if kind@[x] == Kind::Basin {
                let r0 = starts@[label@[x] as int] as int;
                lemma_root_is_start(p, g, label@, starts@, r0);
                assert(label@[r0] == label@[x]);
                if r0 != x {
                    lemma_basin_flooded(kind@, nbrs@, fill@, r0, x);
                }
                assert(is_basin_root(kind@, nbrs@, fill@, r0));
                let i = choose|i: int| 0 <= i < roots.len() && roots[i] == r0;
                assert(same_basin(kind@, nbrs@, fill@, roots[i], x));
            }
        }
    }
    (basin_of, out)
}

/// A basin's members are the nodes of its basin.
proof fn lemma_member_in_basin(kind: Seq<Kind>, nbrs: Seq<[Option<usize>; 6]>, fill: Seq<[bool; 6]>, r: int, k: int, t: int)
    requires
        0 <= k <= usize::MAX,
        0 <= t < members_upto(kind, nbrs, fill, r, k).len(),
    ensures
        same_basin(kind, nbrs, fill, r, members_upto(kind, nbrs, fill, r, k)[t] as int),
    decreases k,
{
    let prev = members_upto(kind, nbrs, fill, r, k - 1);
    if t < prev.len() {
        lemma_member_in_basin(kind, nbrs, fill, r, k - 1, t);
        if same_basin(kind, nbrs, fill, r, k - 1) {
            assert(members_upto(kind, nbrs, fill, r, k)[t] == prev[t]);
        }
    }
}

/// **Basins share no node: two different basins of a window have no
/// member in common.**
pub proof fn law_basins_are_disjoint(kind: Seq<Kind>, nbrs: Seq<[Option<usize>; 6]>, fill: Seq<[bool; 6]>, r1: int, r2: int)
    requires
        fill_mutual(kind, nbrs, fill),
        is_basin_root(kind, nbrs, fill, r1),
        is_basin_root(kind, nbrs, fill, r2),
        r1 != r2,
    ensures
        forall|t1: int, t2: int| 0 <= t1 < members_upto(kind, nbrs, fill, r1, kind.len() as int).len()
            && 0 <= t2 < members_upto(kind, nbrs, fill, r2, kind.len() as int).len()
            ==> #[trigger] members_upto(kind, nbrs, fill, r1, kind.len() as int)[t1]
                != #[trigger] members_upto(kind, nbrs, fill, r2, kind.len() as int)[t2],
{
    let n = kind.len() as int;
    let g = basin_graph(kind, nbrs, fill);
    let p = level(kind.len());
    assert forall|t1: int, t2: int| 0 <= t1 < members_upto(kind, nbrs, fill, r1, n).len()
        && 0 <= t2 < members_upto(kind, nbrs, fill, r2, n).len()
        implies #[trigger] members_upto(kind, nbrs, fill, r1, n)[t1]
            != #[trigger] members_upto(kind, nbrs, fill, r2, n)[t2] by {
        let x = members_upto(kind, nbrs, fill, r1, n)[t1] as int;
        lemma_member_in_basin(kind, nbrs, fill, r1, n, t1);
        lemma_member_in_basin(kind, nbrs, fill, r2, n, t2);
        if x == members_upto(kind, nbrs, fill, r2, n)[t2] as int {
            crate::microplates::orphans::lemma_connected_sym(p, g, r2, x);
            crate::microplates::orphans::lemma_connected_trans(p, g, r1, x, r2);
            lemma_one_root(p, g, r1, r2);
        }
    }
}
} // verus!
