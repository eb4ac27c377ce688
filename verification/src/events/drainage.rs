//! Drainage: what each routed node is, and the reaches a river network
//! breaks into once every node knows where its water goes.

use vstd::prelude::*;
use crate::lattice::{dir, NodeKey, DIRECTIONS};

verus! {

broadcast use vstd::seq_lib::group_seq_properties;

/// Where a reach's last node sends its water.
#[derive(Clone, Copy, Debug, PartialEq, Eq)]
pub enum Terminus {
    /// Into another reach: a confluence, or the same channel in the next cell.
    Continues,
    Sea,
    /// At the lowest node of closed ground, the pit: the water gathers
    /// there and leaves over the sill, but the river ends.
    Basin,
    /// Off the edge of the window that routed it.
    Edge,
}

/// What a routed node is.
#[derive(Clone, Copy, Debug, PartialEq, Eq)]
pub enum Kind {
    /// Below sea level: a sink.
    Sea,
    /// A land node with a neighbour outside the window: an exit.
    Edge,
    Land,
    /// Closed ground under the flood's fill: its water runs down the
    /// ground to the basin's pit, and leaves over the rim from there.
    Basin,
}

/// Whether a node carries a river: land, or closed ground.
pub open spec fn wet(kind: Seq<Kind>, k: int) -> bool {
    kind[k] == Kind::Land || kind[k] == Kind::Basin
}

/// The pit of closed ground: a flooded node whose water leaves the basin,
/// or goes nowhere.
pub open spec fn is_pit(kind: Seq<Kind>, down: Seq<Option<usize>>, k: int) -> bool {
    kind[k] == Kind::Basin && match down[k] {
        None => true,
        Some(d) => kind[d as int] != Kind::Basin,
    }
}

/// Whether node `j`'s river runs on into node `d`: it carries a river, is
/// not a pit, and `d` receives its larger share.
pub open spec fn feeds(kind: Seq<Kind>, down: Seq<Option<usize>>, j: int, d: int) -> bool {
    wet(kind, j) && !is_pit(kind, down, j) && down[j] == Some(d as usize)
}

/// How many of the first `k` nodes feed `d`.
pub open spec fn inflow_before(kind: Seq<Kind>, down: Seq<Option<usize>>, d: int, k: int) -> int
    decreases k,
{
    if k <= 0 {
        0
    } else {
        inflow_before(kind, down, d, k - 1) + if feeds(kind, down, k - 1, d) { 1int } else { 0int }
    }
}

/// How many nodes feed `d`.
pub open spec fn inflow(kind: Seq<Kind>, down: Seq<Option<usize>>, d: int) -> int {
    inflow_before(kind, down, d, kind.len() as int)
}

/// Whether some pit's water leaves over `d`: `d` is a basin's sill.
pub open spec fn pit_drains_to(kind: Seq<Kind>, down: Seq<Option<usize>>, d: int) -> bool {
    exists|j: int| 0 <= j < kind.len() && is_pit(kind, down, j) && down[j] == Some(d as usize)
}

/// A reach starts at a source, a confluence, or a basin's sill: a node
/// carrying a river that is not fed by exactly one river, or that a pit
/// drains to.
pub open spec fn is_head(kind: Seq<Kind>, down: Seq<Option<usize>>, k: int) -> bool {
    wet(kind, k) && (inflow(kind, down, k) != 1 || pit_drains_to(kind, down, k))
}

/// The rest of a reach from `cur`: the nodes it runs on through, and how it
/// ends. `fuel` bounds the walk; a reach never needs more than there are
/// nodes.
pub open spec fn walk(kind: Seq<Kind>, down: Seq<Option<usize>>, cur: int, fuel: nat) -> (Seq<usize>, Terminus)
    decreases fuel,
{
    if fuel == 0 {
        (Seq::empty(), Terminus::Edge)
    } else if is_pit(kind, down, cur) {
        (Seq::empty(), Terminus::Basin)
    } else {
        match down[cur] {
            None => (Seq::empty(), Terminus::Edge),
            Some(d) => {
                if kind[d as int] == Kind::Sea {
                    (Seq::empty(), Terminus::Sea)
                } else if kind[d as int] == Kind::Edge {
                    (Seq::empty(), Terminus::Edge)
                } else if is_head(kind, down, d as int) {
                    (Seq::empty(), Terminus::Continues)
                } else {
                    let rest = walk(kind, down, d as int, (fuel - 1) as nat);
                    (seq![d] + rest.0, rest.1)
                }
            },
        }
    }
}

/// The reach that starts at head `k`.
pub open spec fn reach_of(kind: Seq<Kind>, down: Seq<Option<usize>>, k: int) -> (Seq<usize>, Terminus) {
    let rest = walk(kind, down, k, kind.len() as nat);
    (seq![k as usize] + rest.0, rest.1)
}

/// The reaches of the first `k` nodes' heads, in node order.
pub open spec fn reaches_upto(kind: Seq<Kind>, down: Seq<Option<usize>>, k: int) -> Seq<(Seq<usize>, Terminus)>
    decreases k,
{
    if k <= 0 {
        Seq::empty()
    } else {
        let prev = reaches_upto(kind, down, k - 1);
        if is_head(kind, down, k - 1) { prev.push(reach_of(kind, down, k - 1)) } else { prev }
    }
}

/// How a reach whose last node is `last` ends: at the pit it ends in the
/// basin; otherwise at the sea, a head it runs into, or off the window.
pub open spec fn ends_as(kind: Seq<Kind>, down: Seq<Option<usize>>, last: int, end: Terminus) -> bool {
    match end {
        Terminus::Basin => is_pit(kind, down, last),
        Terminus::Sea => !is_pit(kind, down, last) && down[last].is_some()
            && kind[down[last].unwrap() as int] == Kind::Sea,
        Terminus::Edge => !is_pit(kind, down, last) && (down[last].is_none()
            || kind[down[last].unwrap() as int] == Kind::Edge),
        Terminus::Continues => !is_pit(kind, down, last) && down[last].is_some()
            && is_head(kind, down, down[last].unwrap() as int),
    }
}

/// A well-formed reach: it starts at a head, runs on only into river nodes
/// its river alone feeds, visits no node twice, and ends as its last node
/// says.
pub open spec fn reach_shape(kind: Seq<Kind>, down: Seq<Option<usize>>, nodes: Seq<usize>, end: Terminus) -> bool {
    &&& nodes.len() >= 1
    &&& nodes[0] < kind.len()
    &&& is_head(kind, down, nodes[0] as int)
    &&& nodes.no_duplicates()
    &&& forall|t: int| 0 <= t < nodes.len() ==> wet(kind, #[trigger] nodes[t] as int)
    &&& forall|t: int| 1 <= t < nodes.len() ==> feeds(kind, down, nodes[t - 1] as int, #[trigger] nodes[t] as int)
            && !is_head(kind, down, nodes[t] as int) && nodes[t] < kind.len()
    &&& ends_as(kind, down, nodes.last() as int, end)
}

/// Every node's larger share goes to a node of the window.
pub open spec fn well_routed(kind: Seq<Kind>, down: Seq<Option<usize>>) -> bool {
    &&& kind.len() == down.len()
    &&& forall|k: int| 0 <= k < down.len() && (#[trigger] down[k]).is_some() ==> down[k].unwrap() < kind.len()
}

/// The feeders counted so far never outnumber the nodes looked at.
proof fn lemma_inflow_bounded(kind: Seq<Kind>, down: Seq<Option<usize>>, d: int, k: int)
    requires
        k >= 0,
    ensures
        0 <= inflow_before(kind, down, d, k) <= k,
    decreases k,
{
    if k > 0 {
        lemma_inflow_bounded(kind, down, d, k - 1);
    }
}

/// Two different feeders make a confluence.
proof fn lemma_two_feeders(kind: Seq<Kind>, down: Seq<Option<usize>>, d: int, a: int, b: int, k: int)
    requires
        0 <= a < k,
        0 <= b < k,
        a != b,
        feeds(kind, down, a, d),
        feeds(kind, down, b, d),
    ensures
        inflow_before(kind, down, d, k) >= 2,
    decreases k,
{
    lemma_inflow_bounded(kind, down, d, k - 1);
    if a == k - 1 || b == k - 1 {
        let other = if a == k - 1 { b } else { a };
        lemma_inflow_one(kind, down, d, other, k - 1);
    } else {
        lemma_two_feeders(kind, down, d, a, b, k - 1);
    }
}

/// One feeder makes an inflow.
proof fn lemma_inflow_one(kind: Seq<Kind>, down: Seq<Option<usize>>, d: int, a: int, k: int)
    requires
        0 <= a < k,
        feeds(kind, down, a, d),
    ensures
        inflow_before(kind, down, d, k) >= 1,
    decreases k,
{
    lemma_inflow_bounded(kind, down, d, k - 1);
    if a < k - 1 {
        lemma_inflow_one(kind, down, d, a, k - 1);
    }
}

/// A sequence of distinct nodes of the window holds no more nodes than the
/// window.
proof fn lemma_distinct_bounded(s: Seq<usize>, n: int)
    requires
        s.no_duplicates(),
        forall|i: int| 0 <= i < s.len() ==> #[trigger] s[i] < n,
        n >= 0,
    ensures
        s.len() <= n,
{
    let ints = s.map_values(|x: usize| x as int);
    assert(ints.no_duplicates()) by {
        assert forall|i: int, j: int| 0 <= i < ints.len() && 0 <= j < ints.len() && i != j implies ints[i] != ints[j] by {
            assert(s[i] != s[j]);
        }
    }
    ints.unique_seq_to_set();
    vstd::set_lib::lemma_int_range(0, n);
    assert(ints.to_set().subset_of(vstd::set_lib::set_int_range(0, n))) by {
        assert forall|x: int| ints.to_set().contains(x) implies vstd::set_lib::set_int_range(0, n).contains(x) by {
            let i = choose|i: int| 0 <= i < ints.len() && ints[i] == x;
            assert(s[i] < n);
        }
    }
    vstd::set_lib::lemma_len_subset(ints.to_set(), vstd::set_lib::set_int_range(0, n));
}

fn pit(kind: &[Kind], down: &[Option<usize>], k: usize) -> (p: bool)
    requires
        well_routed(kind@, down@),
        k < kind@.len(),
    ensures
        p == is_pit(kind@, down@, k as int),
{
    match kind[k] {
        Kind::Basin => match down[k] {
            None => true,
            Some(d) => !matches!(kind[d], Kind::Basin),
        },
        _ => false,
    }
}

/// The reaches a routed window breaks into: a head is a source, a
/// confluence, or a basin's sill; a reach runs down each node's larger share
/// to the next head, the sea, the window's edge, or through closed ground to
/// its pit, and ends there.
pub fn reaches(kind: &[Kind], down: &[Option<usize>]) -> (out: Vec<(Vec<usize>, Terminus)>)
    requires
        well_routed(kind@, down@),
        kind@.len() < u32::MAX,
    ensures
        out@.map_values(|r: (Vec<usize>, Terminus)| (r.0@, r.1)) == reaches_upto(kind@, down@, kind@.len() as int),
        forall|i: int| 0 <= i < out@.len() ==> reach_shape(kind@, down@, (#[trigger] out@[i]).0@, out@[i].1),
{
    let n = kind.len();
    let ghost ks = kind@;
    let ghost ds = down@;
    let mut inflows: Vec<u32> = Vec::new();
    let mut from_pit: Vec<bool> = Vec::new();
    let mut i: usize = 0;
    while i < n
        invariant
            i <= n,
            n == ks.len(),
            inflows@.len() == i,
            from_pit@.len() == i,
            forall|j: int| 0 <= j < i ==> #[trigger] inflows@[j] == 0,
            forall|j: int| 0 <= j < i ==> #[trigger] from_pit@[j] == false,
        decreases n - i,
    {
        inflows.push(0);
        from_pit.push(false);
        i = i + 1;
    }
    let mut k: usize = 0;
    assert forall|d: int| 0 <= d < n implies #[trigger] from_pit@[d] == exists|j: int| 0 <= j < 0 && is_pit(ks, ds, j)
        && ds[j] == Some(d as usize) by {
        assert(from_pit@[d] == false);
    }
    while k < n
        invariant
            k <= n,
            n == ks.len(),
            ks == kind@,
            ds == down@,
            n < u32::MAX,
            well_routed(ks, ds),
            inflows@.len() == n,
            from_pit@.len() == n,
            forall|d: int| 0 <= d < n ==> #[trigger] inflows@[d] == inflow_before(ks, ds, d, k as int),
            forall|d: int| 0 <= d < n ==> #[trigger] from_pit@[d] == exists|j: int| 0 <= j < k && is_pit(ks, ds, j)
                && ds[j] == Some(d as usize),
        decreases n - k,
    {
        let p = pit(kind, down, k);
        if let Some(d) = down[k] {
            if p {
                from_pit.set(d, true);
            } else if matches!(kind[k], Kind::Land | Kind::Basin) {
                proof { lemma_inflow_bounded(ks, ds, d as int, k as int); }
                let c = inflows[d];
                inflows.set(d, c + 1);
            }
        }
        proof {
            assert forall|d: int| 0 <= d < n implies #[trigger] from_pit@[d] == exists|j: int| 0 <= j < k + 1
                && is_pit(ks, ds, j) && ds[j] == Some(d as usize) by {
                if is_pit(ks, ds, k as int) && ds[k as int] == Some(d as usize) {
                    assert(0 <= k < k + 1 && is_pit(ks, ds, k as int) && ds[k as int] == Some(d as usize));
                }
            }
        }
        k = k + 1;
    }
    assert forall|d: int| 0 <= d < n implies #[trigger] from_pit@[d] == pit_drains_to(ks, ds, d) by {}
    let mut out: Vec<(Vec<usize>, Terminus)> = Vec::new();
    let mut k: usize = 0;
    while k < n
        invariant
            k <= n,
            n == ks.len(),
            ks == kind@,
            ds == down@,
            well_routed(ks, ds),
            inflows@.len() == n,
            from_pit@.len() == n,
            forall|d: int| 0 <= d < n ==> #[trigger] inflows@[d] == inflow(ks, ds, d),
            forall|d: int| 0 <= d < n ==> #[trigger] from_pit@[d] == pit_drains_to(ks, ds, d),
            out@.map_values(|r: (Vec<usize>, Terminus)| (r.0@, r.1)) == reaches_upto(ks, ds, k as int),
            forall|i: int| 0 <= i < out@.len() ==> reach_shape(ks, ds, (#[trigger] out@[i]).0@, out@[i].1),
        decreases n - k,
    {
        let head_k = matches!(kind[k], Kind::Land | Kind::Basin) && (inflows[k] != 1 || from_pit[k]);
        assert(head_k == is_head(ks, ds, k as int));
        if head_k {
            let mut nodes: Vec<usize> = Vec::new();
            nodes.push(k);
            let mut cur = k;
            let end;
            loop
                invariant_except_break
                    n == ks.len(),
                    ks == kind@,
                    ds == down@,
                    well_routed(ks, ds),
                    inflows@.len() == n,
                    from_pit@.len() == n,
                    forall|d: int| 0 <= d < n ==> #[trigger] inflows@[d] == inflow(ks, ds, d),
                    forall|d: int| 0 <= d < n ==> #[trigger] from_pit@[d] == pit_drains_to(ks, ds, d),
                    k < n,
                    is_head(ks, ds, k as int),
                    nodes@.len() >= 1,
                    nodes@[0] == k,
                    cur == nodes@.last(),
                    nodes@.no_duplicates(),
                    forall|t: int| 0 <= t < nodes@.len() ==> #[trigger] nodes@[t] < n,
                    forall|t: int| 0 <= t < nodes@.len() ==> wet(ks, #[trigger] nodes@[t] as int),
                    forall|t: int| 1 <= t < nodes@.len() ==> !is_head(ks, ds, #[trigger] nodes@[t] as int),
                    forall|t: int| 1 <= t < nodes@.len() ==> feeds(ks, ds, nodes@[t - 1] as int, #[trigger] nodes@[t] as int),
                    nodes@.len() <= n,
                    walk(ks, ds, k as int, n as nat) == (
                        nodes@.drop_first() + walk(ks, ds, cur as int, (n + 1 - nodes@.len()) as nat).0,
                        walk(ks, ds, cur as int, (n + 1 - nodes@.len()) as nat).1,
                    ),
                ensures
                    reach_of(ks, ds, k as int) == (nodes@, end),
                    reach_shape(ks, ds, nodes@, end),
                decreases n + 1 - nodes@.len(),
            {
                let ghost fuel = (n + 1 - nodes@.len()) as nat;
                assert(fuel >= 1);
                if pit(kind, down, cur) {
                    end = Terminus::Basin;
                    assert(nodes@ =~= seq![k] + nodes@.drop_first());
                    break;
                }
                let d = match down[cur] {
                    None => {
                        end = Terminus::Edge;
                        assert(nodes@ =~= seq![k] + nodes@.drop_first());
                        break;
                    },
                    Some(d) => d,
                };
                match kind[d] {
                    Kind::Sea => {
                        end = Terminus::Sea;
                        assert(nodes@ =~= seq![k] + nodes@.drop_first());
                        break;
                    },
                    Kind::Edge => {
                        end = Terminus::Edge;
                        assert(nodes@ =~= seq![k] + nodes@.drop_first());
                        break;
                    },
                    _ => {
                        let head_d = inflows[d] != 1 || from_pit[d];
                        assert(head_d == is_head(ks, ds, d as int));
                        if head_d {
                            end = Terminus::Continues;
                            assert(nodes@ =~= seq![k] + nodes@.drop_first());
                            break;
                        }
                        proof {
                            assert(feeds(ks, ds, cur as int, d as int));
                            assert(!nodes@.contains(d)) by {
                                if nodes@.contains(d) {
                                    let i = choose|i: int| 0 <= i < nodes@.len() && nodes@[i] == d;
                                    if i == 0 {
                                        assert(is_head(ks, ds, d as int));
                                    } else {
                                        let prev = nodes@[i - 1];
                                        assert(feeds(ks, ds, prev as int, d as int));
                                        assert(prev != cur);
                                        lemma_two_feeders(ks, ds, d as int, prev as int, cur as int, n as int);
                                    }
                                }
                            }
                            let rest = walk(ks, ds, d as int, (fuel - 1) as nat);
                            assert(walk(ks, ds, cur as int, fuel) == (seq![d] + rest.0, rest.1));
                        }
                        let ghost before = nodes@;
                        nodes.push(d);
                        proof {
                            assert(nodes@.drop_first() =~= before.drop_first().push(d));
                            assert(nodes@.drop_first() + walk(ks, ds, d as int, (fuel - 1) as nat).0
                                =~= before.drop_first() + (seq![d] + walk(ks, ds, d as int, (fuel - 1) as nat).0));
                            lemma_distinct_bounded(nodes@, n as int);
                        }
                        cur = d;
                    },
                }
            }
            out.push((nodes, end));
        }
        proof {
            assert(out@.map_values(|r: (Vec<usize>, Terminus)| (r.0@, r.1)) =~= reaches_upto(ks, ds, k as int + 1));
        }
        k = k + 1;
    }
    out
}

/// A walk on from a well-formed start of a reach finishes a well-formed
/// reach: each step adds a river node its predecessor alone feeds, none
/// twice, so the fuel the walk was given is never what stops it.
proof fn lemma_walk_shape(kind: Seq<Kind>, down: Seq<Option<usize>>, prefix: Seq<usize>, cur: int, fuel: nat)
    requires
        well_routed(kind, down),
        kind.len() <= usize::MAX,
        prefix.len() >= 1,
        prefix[0] < kind.len(),
        is_head(kind, down, prefix[0] as int),
        cur == prefix.last(),
        prefix.no_duplicates(),
        forall|t: int| 0 <= t < prefix.len() ==> #[trigger] prefix[t] < kind.len(),
        forall|t: int| 0 <= t < prefix.len() ==> wet(kind, #[trigger] prefix[t] as int),
        forall|t: int| 1 <= t < prefix.len() ==> !is_head(kind, down, #[trigger] prefix[t] as int),
        forall|t: int| 1 <= t < prefix.len() ==> feeds(kind, down, prefix[t - 1] as int, #[trigger] prefix[t] as int),
        prefix.len() <= kind.len(),
        fuel == kind.len() + 1 - prefix.len(),
    ensures
        reach_shape(kind, down, prefix + walk(kind, down, cur, fuel).0, walk(kind, down, cur, fuel).1),
    decreases fuel,
{
    let n = kind.len();
    let w = walk(kind, down, cur, fuel);
    if is_pit(kind, down, cur) || down[cur].is_none() {
        assert(prefix + w.0 =~= prefix);
    } else {
        let d = down[cur].unwrap();
        if kind[d as int] == Kind::Sea || kind[d as int] == Kind::Edge || is_head(kind, down, d as int) {
            assert(prefix + w.0 =~= prefix);
        } else {
            assert(feeds(kind, down, cur, d as int));
            assert(!prefix.contains(d)) by {
                if prefix.contains(d) {
                    let i = choose|i: int| 0 <= i < prefix.len() && prefix[i] == d;
                    if i > 0 {
                        let prev = prefix[i - 1];
                        assert(prev != cur);
                        lemma_two_feeders(kind, down, d as int, prev as int, cur, n as int);
                    }
                }
            }
            let next = prefix.push(d);
            assert(next.no_duplicates());
            lemma_distinct_bounded(next, n as int);
            let rest = walk(kind, down, d as int, (fuel - 1) as nat);
            assert(w == (seq![d] + rest.0, rest.1));
            assert(prefix + w.0 =~= next + rest.0);
            lemma_walk_shape(kind, down, next, d as int, (fuel - 1) as nat);
        }
    }
}

/// The reach a head starts is well-formed.
pub proof fn lemma_reach_of_shape(kind: Seq<Kind>, down: Seq<Option<usize>>, h: int)
    requires
        well_routed(kind, down),
        kind.len() <= usize::MAX,
        0 <= h < kind.len(),
        is_head(kind, down, h),
    ensures
        reach_shape(kind, down, reach_of(kind, down, h).0, reach_of(kind, down, h).1),
        reach_of(kind, down, h).0[0] == h,
{
    let prefix = seq![h as usize];
    lemma_walk_shape(kind, down, prefix, h, kind.len() as nat);
}

/// The reaches of the first `k` nodes are the reaches of their heads, one
/// each, in node order.
proof fn lemma_reaches_upto(kind: Seq<Kind>, down: Seq<Option<usize>>, k: int)
    requires
        0 <= k <= kind.len(),
        kind.len() <= usize::MAX,
    ensures
        forall|i: int| 0 <= i < reaches_upto(kind, down, k).len() ==> {
            let h = (#[trigger] reaches_upto(kind, down, k)[i]).0[0] as int;
            &&& 0 <= h < k
            &&& is_head(kind, down, h)
            &&& reaches_upto(kind, down, k)[i] == reach_of(kind, down, h)
        },
        forall|i: int, j: int| 0 <= i < j < reaches_upto(kind, down, k).len()
            ==> (#[trigger] reaches_upto(kind, down, k)[i]).0[0] < (#[trigger] reaches_upto(kind, down, k)[j]).0[0],
        forall|h: int| 0 <= h < k && #[trigger] is_head(kind, down, h)
            ==> exists|i: int| 0 <= i < reaches_upto(kind, down, k).len() && reaches_upto(kind, down, k)[i].0[0] == h,
    decreases k,
{
    if k > 0 {
        lemma_reaches_upto(kind, down, k - 1);
        let prev = reaches_upto(kind, down, k - 1);
        let rs = reaches_upto(kind, down, k);
        if is_head(kind, down, k - 1) {
            assert(rs == prev.push(reach_of(kind, down, k - 1)));
            assert(reach_of(kind, down, k - 1).0[0] == k - 1);
            assert forall|h: int| 0 <= h < k && #[trigger] is_head(kind, down, h)
                implies exists|i: int| 0 <= i < rs.len() && rs[i].0[0] == h by {
                if h == k - 1 {
                    assert(rs[prev.len() as int].0[0] == h);
                } else {
                    let i = choose|i: int| 0 <= i < prev.len() && prev[i].0[0] == h;
                    assert(rs[i] == prev[i]);
                }
            }
        }
    }
}

/// One feeder at least is a feeder found.
proof fn lemma_feeder_of(kind: Seq<Kind>, down: Seq<Option<usize>>, d: int, k: int)
    requires
        k >= 0,
        inflow_before(kind, down, d, k) >= 1,
    ensures
        exists|j: int| 0 <= j < k && feeds(kind, down, j, d),
    decreases k,
{
    if k > 0 && !feeds(kind, down, k - 1, d) {
        lemma_feeder_of(kind, down, d, k - 1);
    }
}

/// Two places that hold one node are one place.
proof fn lemma_one_place(kind: Seq<Kind>, down: Seq<Option<usize>>, i: int, t: int, i2: int, t2: int)
    requires
        well_routed(kind, down),
        kind.len() <= usize::MAX,
        0 <= i < reaches_upto(kind, down, kind.len() as int).len(),
        0 <= i2 < reaches_upto(kind, down, kind.len() as int).len(),
        0 <= t < reaches_upto(kind, down, kind.len() as int)[i].0.len(),
        0 <= t2 < reaches_upto(kind, down, kind.len() as int)[i2].0.len(),
        reaches_upto(kind, down, kind.len() as int)[i].0[t] == reaches_upto(kind, down, kind.len() as int)[i2].0[t2],
    ensures
        i == i2,
        t == t2,
    decreases t,
{
    let n = kind.len() as int;
    let rs = reaches_upto(kind, down, n);
    lemma_reaches_upto(kind, down, n);
    let a = rs[i];
    let b = rs[i2];
    lemma_reach_of_shape(kind, down, a.0[0] as int);
    lemma_reach_of_shape(kind, down, b.0[0] as int);
    assert(reach_shape(kind, down, a.0, a.1));
    assert(reach_shape(kind, down, b.0, b.1));
    let x = a.0[t];
    if t == 0 && t2 == 0 {
        if i < i2 {
            assert(rs[i].0[0] < rs[i2].0[0]);
        } else if i2 < i {
            assert(rs[i2].0[0] < rs[i].0[0]);
        }
    } else if t == 0 {
        assert(!is_head(kind, down, b.0[t2] as int));
    } else if t2 == 0 {
        assert(!is_head(kind, down, a.0[t] as int));
    } else {
        let p = a.0[t - 1];
        let p2 = b.0[t2 - 1];
        assert(feeds(kind, down, p as int, x as int));
        assert(feeds(kind, down, p2 as int, x as int));
        assert(wet(kind, x as int) && !is_head(kind, down, x as int));
        if p != p2 {
            lemma_two_feeders(kind, down, x as int, p as int, p2 as int, n);
        }
        lemma_one_place(kind, down, i, t - 1, i2, t2 - 1);
    }
}

/// **No river node lies on two reaches, or twice on one: every place a
/// reach holds is the only place that holds its node.**
pub proof fn law_reaches_share_no_node(kind: Seq<Kind>, down: Seq<Option<usize>>)
    requires
        well_routed(kind, down),
        kind.len() <= usize::MAX,
    ensures
        forall|i: int, t: int, i2: int, t2: int|
            0 <= i < reaches_upto(kind, down, kind.len() as int).len()
            && 0 <= i2 < reaches_upto(kind, down, kind.len() as int).len()
            && 0 <= t < reaches_upto(kind, down, kind.len() as int)[i].0.len()
            && 0 <= t2 < reaches_upto(kind, down, kind.len() as int)[i2].0.len()
            && #[trigger] reaches_upto(kind, down, kind.len() as int)[i].0[t]
                == #[trigger] reaches_upto(kind, down, kind.len() as int)[i2].0[t2]
            ==> i == i2 && t == t2,
{
    assert forall|i: int, t: int, i2: int, t2: int|
        0 <= i < reaches_upto(kind, down, kind.len() as int).len()
        && 0 <= i2 < reaches_upto(kind, down, kind.len() as int).len()
        && 0 <= t < reaches_upto(kind, down, kind.len() as int)[i].0.len()
        && 0 <= t2 < reaches_upto(kind, down, kind.len() as int)[i2].0.len()
        && #[trigger] reaches_upto(kind, down, kind.len() as int)[i].0[t]
            == #[trigger] reaches_upto(kind, down, kind.len() as int)[i2].0[t2]
        implies i == i2 && t == t2 by {
        lemma_one_place(kind, down, i, t, i2, t2);
    }
}

/// A river node whose water can be traced up to a head lies on a reach.
proof fn lemma_covered(kind: Seq<Kind>, down: Seq<Option<usize>>, rank: Seq<nat>, x: int)
    requires
        well_routed(kind, down),
        kind.len() <= usize::MAX,
        rank.len() == kind.len(),
        forall|j: int, d: int| 0 <= j < kind.len() && 0 <= d < kind.len() && #[trigger] feeds(kind, down, j, d)
            ==> rank[j] < rank[d],
        0 <= x < kind.len(),
        wet(kind, x),
    ensures
        exists|i: int, t: int| 0 <= i < reaches_upto(kind, down, kind.len() as int).len()
            && 0 <= t < reaches_upto(kind, down, kind.len() as int)[i].0.len()
            && reaches_upto(kind, down, kind.len() as int)[i].0[t] == x,
    decreases rank[x],
{
    let n = kind.len() as int;
    let rs = reaches_upto(kind, down, n);
    lemma_reaches_upto(kind, down, n);
    if is_head(kind, down, x) {
        let i = choose|i: int| 0 <= i < rs.len() && rs[i].0[0] == x;
        assert(rs[i].0[0] == x);
    } else {
        lemma_feeder_of(kind, down, x, n);
        let p = choose|j: int| 0 <= j < n && feeds(kind, down, j, x);
        assert(rank[p] < rank[x]);
        lemma_covered(kind, down, rank, p);
        let (i, t) = choose|i: int, t: int| 0 <= i < rs.len() && 0 <= t < rs[i].0.len() && rs[i].0[t] == p;
        let r = rs[i];
        lemma_reach_of_shape(kind, down, r.0[0] as int);
        assert(reach_shape(kind, down, r.0, r.1));
        if t + 1 == r.0.len() {
            assert(r.0.last() == p);
            assert(ends_as(kind, down, p, r.1));
        } else {
            assert(feeds(kind, down, r.0[t] as int, r.0[t + 1] as int));
            assert(r.0[t + 1] == x);
        }
    }
}

/// **Where water never runs in a circle, every river node lies on a reach:
/// the reaches cover the network.** The order `rank` witnesses that a
/// node's river only ever runs on into a node ranked higher.
pub proof fn law_reaches_cover_the_rivers(kind: Seq<Kind>, down: Seq<Option<usize>>, rank: Seq<nat>)
    requires
        well_routed(kind, down),
        kind.len() <= usize::MAX,
        rank.len() == kind.len(),
        forall|j: int, d: int| 0 <= j < kind.len() && 0 <= d < kind.len() && #[trigger] feeds(kind, down, j, d)
            ==> rank[j] < rank[d],
    ensures
        forall|x: int| 0 <= x < kind.len() && #[trigger] wet(kind, x) ==> exists|i: int, t: int|
            0 <= i < reaches_upto(kind, down, kind.len() as int).len()
            && 0 <= t < reaches_upto(kind, down, kind.len() as int)[i].0.len()
            && reaches_upto(kind, down, kind.len() as int)[i].0[t] == x,
{
    assert forall|x: int| 0 <= x < kind.len() && #[trigger] wet(kind, x) implies exists|i: int, t: int|
        0 <= i < reaches_upto(kind, down, kind.len() as int).len()
        && 0 <= t < reaches_upto(kind, down, kind.len() as int)[i].0.len()
        && reaches_upto(kind, down, kind.len() as int)[i].0[t] == x by {
        lemma_covered(kind, down, rank, x);
    }
}


/// Where a node's base level comes from, walking down its river: the node
/// itself when it is the pit of closed ground; else, down its larger share,
/// the first node that is cut (its ground holds), or the pit the river runs
/// down to; `None` for the sea, where water leaves the window too. `fuel`
/// bounds the walk; a walk never needs more than there are nodes.
pub open spec fn base_source(kind: Seq<Kind>, down: Seq<Option<usize>>, cut: Seq<bool>, k: int, fuel: nat) -> Option<usize>
    decreases fuel,
{
    if fuel == 0 {
        None
    } else if is_pit(kind, down, k) {
        Some(k as usize)
    } else {
        match down[k] {
            None => None,
            Some(d) => {
                if kind[d as int] == Kind::Sea || kind[d as int] == Kind::Edge {
                    None
                } else if cut[d as int] {
                    Some(d)
                } else {
                    base_source(kind, down, cut, d as int, (fuel - 1) as nat)
                }
            },
        }
    }
}

/// The node whose ground is each node's base level, what a river there
/// cuts toward and never below: the pit of closed ground, the first cut
/// node down its larger share, or `None` for the sea level.
pub fn base_sources(kind: &[Kind], down: &[Option<usize>], cut: &[bool]) -> (out: Vec<Option<usize>>)
    requires
        well_routed(kind@, down@),
        cut@.len() == kind@.len(),
    ensures
        out@.len() == kind@.len(),
        forall|k: int| 0 <= k < kind@.len() ==> #[trigger] out@[k] == base_source(kind@, down@, cut@, k, kind@.len() as nat),
{
    let n = kind.len();
    let mut out: Vec<Option<usize>> = Vec::new();
    let mut k: usize = 0;
    while k < n
        invariant
            k <= n,
            n == kind@.len(),
            well_routed(kind@, down@),
            cut@.len() == n,
            out@.len() == k,
            forall|j: int| 0 <= j < k ==> #[trigger] out@[j] == base_source(kind@, down@, cut@, j, n as nat),
        decreases n - k,
    {
        let mut cur = k;
        let mut fuel = n;
        let found: Option<usize>;
        loop
            invariant_except_break
                cur < n,
                fuel <= n,
                n == kind@.len(),
                well_routed(kind@, down@),
                cut@.len() == n,
                base_source(kind@, down@, cut@, k as int, n as nat) == base_source(kind@, down@, cut@, cur as int, fuel as nat),
            ensures
                found == base_source(kind@, down@, cut@, k as int, n as nat),
            decreases fuel,
        {
            if fuel == 0 {
                found = None;
                break;
            }
            if pit(kind, down, cur) {
                found = Some(cur);
                break;
            }
            match down[cur] {
                None => {
                    found = None;
                    break;
                },
                Some(d) => {
                    if matches!(kind[d], Kind::Sea | Kind::Edge) {
                        found = None;
                        break;
                    } else if cut[d] {
                        found = Some(d);
                        break;
                    }
                    cur = d;
                    fuel = fuel - 1;
                },
            }
        }
        out.push(found);
        k = k + 1;
    }
    out
}

// ── Laws of heads and base levels ───────────────────────────────────────────

/// Two feeders counted are two feeders found.
proof fn lemma_two_found(kind: Seq<Kind>, down: Seq<Option<usize>>, d: int, k: int)
    requires
        k >= 0,
        inflow_before(kind, down, d, k) >= 2,
    ensures
        exists|a: int, b: int| 0 <= a < k && 0 <= b < k && a != b && feeds(kind, down, a, d) && feeds(kind, down, b, d),
    decreases k,
{
    if k > 0 {
        if feeds(kind, down, k - 1, d) {
            lemma_feeder_of(kind, down, d, k - 1);
            let a = choose|j: int| 0 <= j < k - 1 && feeds(kind, down, j, d);
            assert(0 <= a < k && 0 <= k - 1 < k && a != k - 1 && feeds(kind, down, a, d) && feeds(kind, down, k - 1, d));
        } else {
            lemma_two_found(kind, down, d, k - 1);
            let (a, b) = choose|a: int, b: int| 0 <= a < k - 1 && 0 <= b < k - 1 && a != b
                && feeds(kind, down, a, d) && feeds(kind, down, b, d);
            assert(0 <= a < k && 0 <= b < k && a != b && feeds(kind, down, a, d) && feeds(kind, down, b, d));
        }
    }
}

/// **A reach starts at exactly the river nodes that are a source (nothing
/// runs into them), a confluence (two rivers run into them), or a basin's
/// sill (the water of closed ground leaves over them).**
pub proof fn law_reaches_start_at_heads(kind: Seq<Kind>, down: Seq<Option<usize>>)
    requires
        well_routed(kind, down),
        kind.len() <= usize::MAX,
    ensures
        forall|d: int| 0 <= d < kind.len() ==> (
            (exists|i: int| 0 <= i < reaches_upto(kind, down, kind.len() as int).len()
                && (#[trigger] reaches_upto(kind, down, kind.len() as int)[i]).0[0] == d)
            <==> (wet(kind, d) && (
                (forall|j: int| 0 <= j < kind.len() ==> !#[trigger] feeds(kind, down, j, d))
                || (exists|a: int, b: int| 0 <= a < kind.len() && 0 <= b < kind.len() && a != b
                    && #[trigger] feeds(kind, down, a, d) && #[trigger] feeds(kind, down, b, d))
                || (exists|j: int| 0 <= j < kind.len() && kind[j] == Kind::Basin
                    && #[trigger] down[j] == Some(d as usize) && kind[d] != Kind::Basin)))),
{
    let n = kind.len() as int;
    let rs = reaches_upto(kind, down, n);
    lemma_reaches_upto(kind, down, n);
    assert forall|d: int| 0 <= d < kind.len() implies (
        (exists|i: int| 0 <= i < rs.len() && (#[trigger] rs[i]).0[0] == d)
        <==> (wet(kind, d) && (
            (forall|j: int| 0 <= j < kind.len() ==> !#[trigger] feeds(kind, down, j, d))
            || (exists|a: int, b: int| 0 <= a < kind.len() && 0 <= b < kind.len() && a != b
                && #[trigger] feeds(kind, down, a, d) && #[trigger] feeds(kind, down, b, d))
            || (exists|j: int| 0 <= j < kind.len() && kind[j] == Kind::Basin
                && #[trigger] down[j] == Some(d as usize) && kind[d] != Kind::Basin)))) by {
        let none = forall|j: int| 0 <= j < kind.len() ==> !#[trigger] feeds(kind, down, j, d);
        let two = exists|a: int, b: int| 0 <= a < kind.len() && 0 <= b < kind.len() && a != b
            && #[trigger] feeds(kind, down, a, d) && #[trigger] feeds(kind, down, b, d);
        let sill = exists|j: int| 0 <= j < kind.len() && kind[j] == Kind::Basin
            && #[trigger] down[j] == Some(d as usize) && kind[d] != Kind::Basin;
        lemma_inflow_bounded(kind, down, d, n);
        if inflow(kind, down, d) == 0 {
            assert(none) by {
                assert forall|j: int| 0 <= j < kind.len() implies !#[trigger] feeds(kind, down, j, d) by {
                    if feeds(kind, down, j, d) {
                        lemma_inflow_one(kind, down, d, j, n);
                    }
                }
            }
        } else if inflow(kind, down, d) >= 2 {
            lemma_two_found(kind, down, d, n);
        } else {
            lemma_feeder_of(kind, down, d, n);
            let a = choose|j: int| 0 <= j < n && feeds(kind, down, j, d);
            assert(!none);
            assert(!two) by {
                if two {
                    let (x, y) = choose|x: int, y: int| 0 <= x < kind.len() && 0 <= y < kind.len() && x != y
                        && #[trigger] feeds(kind, down, x, d) && #[trigger] feeds(kind, down, y, d);
                    lemma_two_feeders(kind, down, d, x, y, n);
                }
            }
        }
        assert(pit_drains_to(kind, down, d) == sill) by {
            if pit_drains_to(kind, down, d) {
                let j = choose|j: int| 0 <= j < kind.len() && is_pit(kind, down, j) && down[j] == Some(d as usize);
                assert(0 <= j < kind.len() && kind[j] == Kind::Basin && down[j] == Some(d as usize) && kind[d] != Kind::Basin);
            }
            if sill {
                let j = choose|j: int| 0 <= j < kind.len() && kind[j] == Kind::Basin
                    && #[trigger] down[j] == Some(d as usize) && kind[d] != Kind::Basin;
                assert(is_pit(kind, down, j));
            }
        }
        assert(is_head(kind, down, d) == (wet(kind, d) && (none || two || sill)));
        if is_head(kind, down, d) {
            let i = choose|i: int| 0 <= i < rs.len() && rs[i].0[0] == d;
            assert(0 <= i < rs.len() && rs[i].0[0] == d);
        }
        if exists|i: int| 0 <= i < rs.len() && (#[trigger] rs[i]).0[0] == d {
            let i = choose|i: int| 0 <= i < rs.len() && (#[trigger] rs[i]).0[0] == d;
            assert(is_head(kind, down, rs[i].0[0] as int));
        }
    }
}

/// A walk down larger shares: each node's water runs on into the next, no
/// node it leaves is a pit, no node it enters is the sea or an exit, and
/// none it passes through on the way is cut.
pub open spec fn clear_descent(kind: Seq<Kind>, down: Seq<Option<usize>>, cut: Seq<bool>, path: Seq<usize>) -> bool {
    &&& path.len() >= 1
    &&& forall|t: int| 0 <= t < path.len() ==> #[trigger] path[t] < kind.len()
    &&& forall|t: int| 0 <= t < path.len() - 1 ==>
            down[#[trigger] path[t] as int] == Some(path[t + 1]) && !is_pit(kind, down, path[t] as int)
    &&& forall|t: int| 1 <= t < path.len() ==>
            kind[#[trigger] path[t] as int] != Kind::Sea && kind[path[t] as int] != Kind::Edge
    &&& forall|t: int| 1 <= t < path.len() - 1 ==> !cut[#[trigger] path[t] as int]
}

/// Walking a clear descent to a pit, or to a cut node past its start, finds
/// that node; walking it to where the water leaves the window finds none.
proof fn lemma_descent(kind: Seq<Kind>, down: Seq<Option<usize>>, cut: Seq<bool>, path: Seq<usize>, fuel: nat)
    requires
        clear_descent(kind, down, cut, path),
        fuel >= path.len(),
    ensures
        is_pit(kind, down, path.last() as int) || (path.len() >= 2 && cut[path.last() as int])
            ==> base_source(kind, down, cut, path[0] as int, fuel) == Some(path.last()),
        !is_pit(kind, down, path.last() as int) && !(path.len() >= 2 && cut[path.last() as int])
            && (down[path.last() as int] is None
                || kind[down[path.last() as int].unwrap() as int] == Kind::Sea
                || kind[down[path.last() as int].unwrap() as int] == Kind::Edge)
            ==> base_source(kind, down, cut, path[0] as int, fuel) == None::<usize>,
    decreases path.len(),
{
    if path.len() >= 2 {
        let rest = path.drop_first();
        assert(path[0] < kind.len());
        assert(down[path[0] as int] == Some(path[1]) && !is_pit(kind, down, path[0] as int));
        assert(kind[path[1] as int] != Kind::Sea && kind[path[1] as int] != Kind::Edge);
        assert(clear_descent(kind, down, cut, rest)) by {
            assert forall|t: int| 0 <= t < rest.len() - 1 implies
                down[#[trigger] rest[t] as int] == Some(rest[t + 1]) && !is_pit(kind, down, rest[t] as int) by {
                assert(rest[t] == path[t + 1] && rest[t + 1] == path[t + 2]);
            }
            assert forall|t: int| 1 <= t < rest.len() implies
                kind[#[trigger] rest[t] as int] != Kind::Sea && kind[rest[t] as int] != Kind::Edge by {
                assert(rest[t] == path[t + 1]);
            }
            assert forall|t: int| 1 <= t < rest.len() - 1 implies !cut[#[trigger] rest[t] as int] by {
                assert(rest[t] == path[t + 1]);
            }
            assert forall|t: int| 0 <= t < rest.len() implies #[trigger] rest[t] < kind.len() by {
                assert(rest[t] == path[t + 1]);
            }
        }
        assert(rest.last() == path.last());
        if path.len() > 2 {
            assert(!cut[path[1] as int]);
        }
        lemma_descent(kind, down, cut, rest, (fuel - 1) as nat);
    }
}

/// **A node's base level comes from the first place its water stops going
/// down: the node itself if it is a pit, else the first node down its
/// larger shares that is cut or is the pit of closed ground, whatever
/// closed ground it runs through on the way.** `path` is the walk there.
pub proof fn law_base_is_where_the_water_stops(kind: Seq<Kind>, down: Seq<Option<usize>>, cut: Seq<bool>, path: Seq<usize>)
    requires
        clear_descent(kind, down, cut, path),
        path.len() <= kind.len(),
        is_pit(kind, down, path.last() as int) || (path.len() >= 2 && cut[path.last() as int]),
    ensures
        base_source(kind, down, cut, path[0] as int, kind.len() as nat) == Some(path.last()),
{
    lemma_descent(kind, down, cut, path, kind.len() as nat);
}

/// **Water that leaves the window, into the sea, off an exit or off the
/// routed ground, before it meets a pit or a cut node has the sea's level:
/// no base source.** `path` is the walk there.
pub proof fn law_base_of_water_that_leaves(kind: Seq<Kind>, down: Seq<Option<usize>>, cut: Seq<bool>, path: Seq<usize>)
    requires
        clear_descent(kind, down, cut, path),
        path.len() <= kind.len(),
        !is_pit(kind, down, path.last() as int),
        path.len() >= 2 ==> !cut[path.last() as int],
        down[path.last() as int] is None
            || kind[down[path.last() as int].unwrap() as int] == Kind::Sea
            || kind[down[path.last() as int].unwrap() as int] == Kind::Edge,
    ensures
        base_source(kind, down, cut, path[0] as int, kind.len() as nat) == None::<usize>,
{
    lemma_descent(kind, down, cut, path, kind.len() as nat);
}

/// Whatever a walk with `fuel` finds is a pit or a cut node of the window.
proof fn lemma_base_found(kind: Seq<Kind>, down: Seq<Option<usize>>, cut: Seq<bool>, k: int, fuel: nat)
    requires
        well_routed(kind, down),
        kind.len() <= usize::MAX,
        0 <= k < kind.len(),
    ensures
        base_source(kind, down, cut, k, fuel) matches Some(b) ==> b < kind.len()
            && (is_pit(kind, down, b as int) || cut[b as int]),
    decreases fuel,
{
    if fuel > 0 && !is_pit(kind, down, k) {
        if let Some(d) = down[k] {
            assert(down[k].is_some() && down[k].unwrap() == d);
            assert(d < kind.len());
            lemma_base_found(kind, down, cut, d as int, (fuel - 1) as nat);
        }
    }
}

/// **Every base source is a pit of closed ground or a cut node.**
pub proof fn law_base_is_a_pit_or_cut(kind: Seq<Kind>, down: Seq<Option<usize>>, cut: Seq<bool>)
    requires
        well_routed(kind, down),
        kind.len() <= usize::MAX,
    ensures
        forall|k: int| 0 <= k < kind.len() ==>
            (#[trigger] base_source(kind, down, cut, k, kind.len() as nat) matches Some(b) ==> b < kind.len()
                && (is_pit(kind, down, b as int) || cut[b as int])),
{
    assert forall|k: int| 0 <= k < kind.len() implies
        (#[trigger] base_source(kind, down, cut, k, kind.len() as nat) matches Some(b) ==> b < kind.len()
            && (is_pit(kind, down, b as int) || cut[b as int])) by {
        lemma_base_found(kind, down, cut, k, kind.len() as nat);
    }
}

/// Whether node `m` of a window lies one step along direction `i` from
/// node `k`.
pub open spec fn steps_to(keys: Seq<NodeKey>, k: int, i: int, m: int) -> bool {
    keys[m].0 == keys[k].0 + dir(i).0 && keys[m].1 == keys[k].1 + dir(i).1
}

/// The neighbour of node `k` along direction `i`: the last node of the
/// window at that key, if any.
pub open spec fn neighbour_at(keys: Seq<NodeKey>, k: int, i: int) -> Option<usize> {
    if exists|m: int| 0 <= m < keys.len() && steps_to(keys, k, i, m) {
        Some((choose|m: int| 0 <= m < keys.len() && steps_to(keys, k, i, m)
            && forall|m2: int| m < m2 < keys.len() ==> !#[trigger] steps_to(keys, k, i, m2)) as usize)
    } else {
        None
    }
}

/// Every key of the window has its six neighbours' keys in `i32`.
pub open spec fn keys_inside(keys: Seq<NodeKey>) -> bool {
    forall|k: int| 0 <= k < keys.len() ==> i32::MIN < (#[trigger] keys[k]).0 < i32::MAX && i32::MIN < keys[k].1 < i32::MAX
}

/// Each node's neighbours in the window, by index, in the lattice's
/// direction order.
pub fn node_neighbours(keys: &Vec<NodeKey>) -> (out: Vec<[Option<usize>; 6]>)
    requires
        keys_inside(keys@),
    ensures
        out@.len() == keys@.len(),
        forall|k: int, i: int| 0 <= k < keys@.len() && 0 <= i < 6 ==> #[trigger] out@[k]@[i] == neighbour_at(keys@, k, i),
{
    let n = keys.len();
    let mut out: Vec<[Option<usize>; 6]> = Vec::new();
    let mut k: usize = 0;
    while k < n
        invariant
            k <= n,
            n == keys@.len(),
            keys_inside(keys@),
            out@.len() == k,
            forall|j: int, i: int| 0 <= j < k && 0 <= i < 6 ==> #[trigger] out@[j]@[i] == neighbour_at(keys@, j, i),
        decreases n - k,
    {
        let mut row: [Option<usize>; 6] = [None; 6];
        let mut i: usize = 0;
        while i < 6
            invariant
                k < n,
                n == keys@.len(),
                keys_inside(keys@),
                i <= 6,
                forall|ii: int| 0 <= ii < i ==> #[trigger] row@[ii] == neighbour_at(keys@, k as int, ii),
            decreases 6 - i,
        {
            let d = DIRECTIONS[i];
            assert(d.0 == dir(i as int).0 && d.1 == dir(i as int).1);
            let (tq, tr) = (keys[k].0 + d.0, keys[k].1 + d.1);
            let mut found: Option<usize> = None;
            let mut m: usize = 0;
            while m < n
                invariant
                    k < n,
                    i < 6,
                    m <= n,
                    n == keys@.len(),
                    tq == keys@[k as int].0 + dir(i as int).0,
                    tr == keys@[k as int].1 + dir(i as int).1,
                    found matches Some(f) ==> f < m && steps_to(keys@, k as int, i as int, f as int)
                        && forall|m2: int| f < m2 < m ==> !#[trigger] steps_to(keys@, k as int, i as int, m2),
                    found is None ==> forall|m2: int| 0 <= m2 < m ==> !#[trigger] steps_to(keys@, k as int, i as int, m2),
                decreases n - m,
            {
                if keys[m].0 == tq && keys[m].1 == tr {
                    found = Some(m);
                }
                m = m + 1;
            }
            proof {
                match found {
                    Some(f) => {
                        let w = choose|w: int| 0 <= w < keys@.len() && steps_to(keys@, k as int, i as int, w)
                            && forall|m2: int| w < m2 < keys@.len() ==> !#[trigger] steps_to(keys@, k as int, i as int, m2);
                        assert(steps_to(keys@, k as int, i as int, f as int));
                        if w < f {
                            assert(!steps_to(keys@, k as int, i as int, f as int));
                        } else if f < w {
                            assert(!steps_to(keys@, k as int, i as int, w));
                        }
                    },
                    None => {},
                }
            }
            row[i] = found;
            i = i + 1;
        }
        out.push(row);
        k = k + 1;
    }
    out
}

/// **Neighbours are mutual: where the window holds each key once, a node's
/// neighbour along a direction has the node as its neighbour along the
/// opposite one.**
pub proof fn law_neighbours_are_mutual(keys: Seq<NodeKey>, k: int, i: int)
    requires
        keys.no_duplicates(),
        keys.len() <= usize::MAX,
        0 <= k < keys.len(),
        0 <= i < 6,
    ensures
        neighbour_at(keys, k, i) matches Some(m) ==> neighbour_at(keys, m as int, (i + 3) % 6) == Some(k as usize),
{
    if exists|m: int| 0 <= m < keys.len() && steps_to(keys, k, i, m) {
        lemma_last_step(keys, k, i, keys.len() as int);
        let m = choose|m: int| 0 <= m < keys.len() && steps_to(keys, k, i, m)
            && forall|m2: int| m < m2 < keys.len() ==> !#[trigger] steps_to(keys, k, i, m2);
        let j = (i + 3) % 6;
        assert(steps_to(keys, m, j, k));
        lemma_last_step(keys, m, j, keys.len() as int);
        let w = choose|w: int| 0 <= w < keys.len() && steps_to(keys, m, j, w)
            && forall|m2: int| w < m2 < keys.len() ==> !#[trigger] steps_to(keys, m, j, m2);
        assert(keys[w] == keys[k]);
        assert(w == k);
        assert(neighbour_at(keys, k, i) == Some(m as usize));
        assert((m as usize) as int == m);
    }
}

/// Where some node below `hi` lies a step away, a last one below `hi` does.
proof fn lemma_last_step(keys: Seq<NodeKey>, k: int, i: int, hi: int)
    requires
        hi <= keys.len(),
        exists|m: int| 0 <= m < hi && steps_to(keys, k, i, m),
    ensures
        exists|m: int| 0 <= m < hi && steps_to(keys, k, i, m)
            && forall|m2: int| m < m2 < hi ==> !#[trigger] steps_to(keys, k, i, m2),
    decreases hi,
{
    if steps_to(keys, k, i, hi - 1) {
        assert(forall|m2: int| hi - 1 < m2 < hi ==> !#[trigger] steps_to(keys, k, i, m2));
    } else {
        let m = choose|m: int| 0 <= m < hi && steps_to(keys, k, i, m);
        assert(0 <= m < hi - 1);
        lemma_last_step(keys, k, i, hi - 1);
        let w = choose|w: int| 0 <= w < hi - 1 && steps_to(keys, k, i, w)
            && forall|m2: int| w < m2 < hi - 1 ==> !#[trigger] steps_to(keys, k, i, m2);
        assert(forall|m2: int| w < m2 < hi ==> !#[trigger] steps_to(keys, k, i, m2));
    }
}

/// A run of a reach that one cell owns: its nodes, the node its water
/// joins past its tail, and how it ends.
pub type OwnedRun = (Seq<usize>, Option<usize>, Terminus);

/// The owned runs of a reach from position `pos` on, with `run` the owned
/// nodes gathered since the last unowned one: a run closes at an unowned
/// node or the reach's last node, ends as the reach does only when it holds
/// that last node, and joins whatever its tail drains to unless it ends in
/// a basin. Read whole, the runs are the reach's maximal owned stretches
/// (`law_owned_runs_are_stretches`).
pub open spec fn split_from(nodes: Seq<usize>, end: Terminus, owned: Seq<bool>, down: Seq<Option<usize>>, pos: int, run: Seq<usize>) -> Seq<OwnedRun>
    decreases nodes.len() - pos,
{
    if pos >= nodes.len() || pos < 0 {
        Seq::empty()
    } else {
        let k = nodes[pos];
        let run1 = if owned[k as int] { run.push(k) } else { run };
        let last = pos + 1 == nodes.len();
        if (!owned[k as int] || last) && run1.len() > 0 {
            let tail = run1.last();
            let e = if last && tail == k { end } else { Terminus::Continues };
            let joins = if e == Terminus::Basin { None } else { down[tail as int] };
            seq![(run1, joins, e)] + split_from(nodes, end, owned, down, pos + 1, Seq::empty())
        } else {
            split_from(nodes, end, owned, down, pos + 1, run1)
        }
    }
}

/// The owned runs of every reach, reach by reach.
pub open spec fn owned_runs_of(reaches: Seq<(Seq<usize>, Terminus)>, owned: Seq<bool>, down: Seq<Option<usize>>) -> Seq<OwnedRun>
    decreases reaches.len(),
{
    if reaches.len() == 0 {
        Seq::empty()
    } else {
        owned_runs_of(reaches.drop_last(), owned, down)
            + split_from(reaches.last().0, reaches.last().1, owned, down, 0, Seq::empty())
    }
}

/// The nodes of a list of runs, in order.
pub open spec fn run_nodes(runs: Seq<OwnedRun>) -> Seq<usize>
    decreases runs.len(),
{
    if runs.len() == 0 { Seq::empty() } else { run_nodes(runs.drop_last()) + runs.last().0 }
}

/// A cell's share of every reach: each reach's nodes that the cell owns,
/// broken into runs at the nodes it does not.
pub fn owned_runs(reaches: &Vec<(Vec<usize>, Terminus)>, owned: &[bool], down: &[Option<usize>]) -> (out: Vec<(Vec<usize>, Option<usize>, Terminus)>)
    requires
        owned@.len() == down@.len(),
        forall|i: int, t: int| 0 <= i < reaches@.len() && 0 <= t < reaches@[i].0@.len()
            ==> #[trigger] reaches@[i].0@[t] < owned@.len(),
    ensures
        out@.map_values(|r: (Vec<usize>, Option<usize>, Terminus)| (r.0@, r.1, r.2))
            == owned_runs_of(reaches@.map_values(|r: (Vec<usize>, Terminus)| (r.0@, r.1)), owned@, down@),
{
    let ghost rs = reaches@.map_values(|r: (Vec<usize>, Terminus)| (r.0@, r.1));
    let mut out: Vec<(Vec<usize>, Option<usize>, Terminus)> = Vec::new();
    let mut i: usize = 0;
    while i < reaches.len()
        invariant
            i <= reaches@.len(),
            rs == reaches@.map_values(|r: (Vec<usize>, Terminus)| (r.0@, r.1)),
            owned@.len() == down@.len(),
            forall|i: int, t: int| 0 <= i < reaches@.len() && 0 <= t < reaches@[i].0@.len()
                ==> #[trigger] reaches@[i].0@[t] < owned@.len(),
            out@.map_values(|r: (Vec<usize>, Option<usize>, Terminus)| (r.0@, r.1, r.2))
                == owned_runs_of(rs.take(i as int), owned@, down@),
        decreases reaches@.len() - i,
    {
        let nodes = &reaches[i].0;
        let end = reaches[i].1;
        let ghost ns = nodes@;
        let ghost before = out@.map_values(|r: (Vec<usize>, Option<usize>, Terminus)| (r.0@, r.1, r.2));
        let mut run: Vec<usize> = Vec::new();
        let mut pos: usize = 0;
        while pos < nodes.len()
            invariant
                pos <= ns.len(),
                ns == nodes@,
                ns == reaches@[i as int].0@,
                end == reaches@[i as int].1,
                i < reaches@.len(),
                owned@.len() == down@.len(),
                forall|i: int, t: int| 0 <= i < reaches@.len() && 0 <= t < reaches@[i].0@.len()
                    ==> #[trigger] reaches@[i].0@[t] < owned@.len(),
                forall|t: int| 0 <= t < run@.len() ==> #[trigger] run@[t] < owned@.len(),
                out@.map_values(|r: (Vec<usize>, Option<usize>, Terminus)| (r.0@, r.1, r.2)) + split_from(ns, end, owned@, down@, pos as int, run@)
                    == before + split_from(ns, end, owned@, down@, 0, Seq::empty()),
            decreases ns.len() - pos,
        {
            let k = nodes[pos];
            assert(k < owned@.len()) by { assert(reaches@[i as int].0@[pos as int] == k); }
            let ghost run0 = run@;
            let ghost mid = out@.map_values(|r: (Vec<usize>, Option<usize>, Terminus)| (r.0@, r.1, r.2));
            if owned[k] {
                run.push(k);
            }
            let last = pos + 1 == nodes.len();
            if (!owned[k] || last) && run.len() > 0 {
                let tail = run[run.len() - 1];
                let e = if last && tail == k { end } else { Terminus::Continues };
                let joins = if matches!(e, Terminus::Basin) { None } else { down[tail] };
                let closed = run;
                run = Vec::new();
                out.push((closed, joins, e));
                proof {
                    assert(out@.map_values(|r: (Vec<usize>, Option<usize>, Terminus)| (r.0@, r.1, r.2))
                        =~= mid.push((closed@, joins, e)));
                    assert(split_from(ns, end, owned@, down@, pos as int, run0)
                        == seq![(closed@, joins, e)] + split_from(ns, end, owned@, down@, pos as int + 1, Seq::empty()));
                    assert(mid.push((closed@, joins, e)) + split_from(ns, end, owned@, down@, pos as int + 1, Seq::empty())
                        =~= mid + (seq![(closed@, joins, e)] + split_from(ns, end, owned@, down@, pos as int + 1, Seq::empty())));
                    assert(run@ =~= Seq::<usize>::empty());
                }
            } else {
                proof {
                    assert(split_from(ns, end, owned@, down@, pos as int, run0)
                        == split_from(ns, end, owned@, down@, pos as int + 1, run@));
                }
            }
            pos = pos + 1;
        }
        proof {
            assert(rs.take(i as int + 1).drop_last() =~= rs.take(i as int));
            assert(rs.take(i as int + 1).last() == (ns, end));
        }
        i = i + 1;
    }
    proof { assert(rs.take(reaches@.len() as int) =~= rs); }
    out
}

/// Splitting from `pos` with `run` gathered yields `run` and then the
/// owned nodes left, in order.
proof fn lemma_split_nodes(nodes: Seq<usize>, end: Terminus, owned: Seq<bool>, down: Seq<Option<usize>>, pos: int, run: Seq<usize>)
    requires
        0 <= pos <= nodes.len(),
        forall|t: int| 0 <= t < nodes.len() ==> #[trigger] nodes[t] < owned.len(),
    ensures
        run_nodes(split_from(nodes, end, owned, down, pos, run)) + (if pos >= nodes.len() { run } else { Seq::empty() })
            == run + nodes.subrange(pos, nodes.len() as int).filter(|k: usize| owned[k as int]),
    decreases nodes.len() - pos,
{
    let f = |k: usize| owned[k as int];
    if pos >= nodes.len() {
        assert(nodes.subrange(pos, nodes.len() as int) =~= Seq::<usize>::empty());
        assert(Seq::<usize>::empty().filter(f) =~= Seq::<usize>::empty());
        assert(run_nodes(Seq::<OwnedRun>::empty()) == Seq::<usize>::empty());
        assert(Seq::<usize>::empty() + run =~= run + Seq::<usize>::empty());
    } else {
        let k = nodes[pos];
        let rest = nodes.subrange(pos + 1, nodes.len() as int);
        assert(nodes.subrange(pos, nodes.len() as int) =~= seq![k] + rest);
        lemma_filter_cons(k, rest, f);
        let run1 = if owned[k as int] { run.push(k) } else { run };
        assert(run + (seq![k] + rest).filter(f) =~= run1 + rest.filter(f));
        let last = pos + 1 == nodes.len();
        if (!owned[k as int] || last) && run1.len() > 0 {
            let tail = run1.last();
            let e = if last && tail == k { end } else { Terminus::Continues };
            let joins = if e == Terminus::Basin { None } else { down[tail as int] };
            let tailruns = split_from(nodes, end, owned, down, pos + 1, Seq::empty());
            lemma_split_nodes(nodes, end, owned, down, pos + 1, Seq::empty());
            lemma_run_nodes_prepend((run1, joins, e), tailruns);
            if pos + 1 >= nodes.len() {
                assert(rest =~= Seq::<usize>::empty());
                assert(rest.filter(f) =~= Seq::<usize>::empty());
                assert(run_nodes(tailruns) + Seq::<usize>::empty() =~= Seq::<usize>::empty() + Seq::<usize>::empty());
            } else {
                assert(run_nodes(tailruns) =~= Seq::<usize>::empty() + rest.filter(f));
            }
            assert(run_nodes(split_from(nodes, end, owned, down, pos, run)) =~= run1 + run_nodes(tailruns));
        } else {
            lemma_split_nodes(nodes, end, owned, down, pos + 1, run1);
            if pos + 1 >= nodes.len() {
                assert(run1.len() == 0);
                assert(rest =~= Seq::<usize>::empty());
                assert(rest.filter(f) =~= Seq::<usize>::empty());
            }
        }
    }
}

/// The nodes of a list of runs led by one more run.
proof fn lemma_run_nodes_prepend(first: OwnedRun, runs: Seq<OwnedRun>)
    ensures
        run_nodes(seq![first] + runs) == first.0 + run_nodes(runs),
    decreases runs.len(),
{
    if runs.len() == 0 {
        assert(seq![first] + runs =~= seq![first]);
        assert(seq![first].drop_last() =~= Seq::<OwnedRun>::empty());
        assert(first.0 + Seq::<usize>::empty() =~= first.0);
        assert(Seq::<usize>::empty() + first.0 =~= first.0);
    } else {
        assert((seq![first] + runs).drop_last() =~= seq![first] + runs.drop_last());
        lemma_run_nodes_prepend(first, runs.drop_last());
        assert((seq![first] + runs).last() == runs.last());
        assert(first.0 + run_nodes(runs.drop_last()) + runs.last().0 =~= first.0 + (run_nodes(runs.drop_last()) + runs.last().0));
    }
}

/// Filtering a sequence led by one element.
proof fn lemma_filter_cons(k: usize, rest: Seq<usize>, f: spec_fn(usize) -> bool)
    ensures
        (seq![k] + rest).filter(f) == if f(k) { seq![k] + rest.filter(f) } else { rest.filter(f) },
    decreases rest.len(),
{
    reveal(Seq::filter);
    if rest.len() == 0 {
        assert(seq![k] + rest =~= seq![k]);
        assert(seq![k].drop_last() =~= Seq::<usize>::empty());
        assert(Seq::<usize>::empty().filter(f) =~= Seq::<usize>::empty());
        assert(seq![k] + Seq::<usize>::empty() =~= seq![k]);
    } else {
        assert((seq![k] + rest).drop_last() =~= seq![k] + rest.drop_last());
        lemma_filter_cons(k, rest.drop_last(), f);
        assert((seq![k] + rest).last() == rest.last());
        if f(rest.last()) {
            assert(seq![k] + rest.drop_last().filter(f).push(rest.last()) =~= (seq![k] + rest.drop_last().filter(f)).push(rest.last()));
        }
    }
}

/// **A cell's runs hold exactly the nodes of each reach that it owns, in
/// reach order: no owned node is lost or doubled, and no unowned one
/// enters.**
pub proof fn law_owned_runs_hold_the_owned_nodes(nodes: Seq<usize>, end: Terminus, owned: Seq<bool>, down: Seq<Option<usize>>)
    requires
        forall|t: int| 0 <= t < nodes.len() ==> #[trigger] nodes[t] < owned.len(),
    ensures
        run_nodes(split_from(nodes, end, owned, down, 0, Seq::empty())) == nodes.filter(|k: usize| owned[k as int]),
{
    lemma_split_nodes(nodes, end, owned, down, 0, Seq::empty());
    assert(nodes.subrange(0, nodes.len() as int) =~= nodes);
    if nodes.len() == 0 {
        assert(nodes.filter(|k: usize| owned[k as int]) =~= Seq::<usize>::empty()) by {
            reveal(Seq::filter);
        }
        assert(run_nodes(split_from(nodes, end, owned, down, 0, Seq::empty())) == Seq::<usize>::empty());
    } else {
        assert(run_nodes(split_from(nodes, end, owned, down, 0, Seq::empty())) + Seq::<usize>::empty()
            == run_nodes(split_from(nodes, end, owned, down, 0, Seq::empty())));
        assert(Seq::<usize>::empty() + nodes.filter(|k: usize| owned[k as int]) =~= nodes.filter(|k: usize| owned[k as int]));
    }
}


/// What a cell publishes of a run: it holds at least one node, every node
/// it holds is one the cell owns and carries a river, and a run ending in
/// a basin joins nothing.
pub open spec fn published_run(kind: Seq<Kind>, owned: Seq<bool>, run: OwnedRun) -> bool {
    &&& run.0.len() > 0
    &&& forall|t: int| 0 <= t < run.0.len() ==> owned[(#[trigger] run.0[t]) as int] && wet(kind, run.0[t] as int)
    &&& run.2 == Terminus::Basin ==> run.1 is None
}

/// Splitting a reach of river nodes, with a run gathered of owned river
/// nodes, publishes only such runs.
proof fn lemma_split_published(nodes: Seq<usize>, end: Terminus, kind: Seq<Kind>, owned: Seq<bool>, down: Seq<Option<usize>>, pos: int, run: Seq<usize>)
    requires
        forall|t: int| 0 <= t < nodes.len() ==> (#[trigger] nodes[t]) < owned.len() && wet(kind, nodes[t] as int),
        forall|t: int| 0 <= t < run.len() ==> owned[(#[trigger] run[t]) as int] && wet(kind, run[t] as int),
    ensures
        forall|i: int| 0 <= i < split_from(nodes, end, owned, down, pos, run).len()
            ==> published_run(kind, owned, #[trigger] split_from(nodes, end, owned, down, pos, run)[i]),
    decreases nodes.len() - pos,
{
    if 0 <= pos < nodes.len() {
        let k = nodes[pos];
        let run1 = if owned[k as int] { run.push(k) } else { run };
        assert forall|t: int| 0 <= t < run1.len() implies owned[(#[trigger] run1[t]) as int] && wet(kind, run1[t] as int) by {
            if t < run.len() {
                assert(run1[t] == run[t]);
            }
        }
        let last = pos + 1 == nodes.len();
        if (!owned[k as int] || last) && run1.len() > 0 {
            lemma_split_published(nodes, end, kind, owned, down, pos + 1, Seq::empty());
            let tail = run1.last();
            let e = if last && tail == k { end } else { Terminus::Continues };
            let joins = if e == Terminus::Basin { None } else { down[tail as int] };
            let rest = split_from(nodes, end, owned, down, pos + 1, Seq::empty());
            assert(split_from(nodes, end, owned, down, pos, run) == seq![(run1, joins, e)] + rest);
            assert(published_run(kind, owned, (run1, joins, e)));
            assert forall|i: int| 0 <= i < split_from(nodes, end, owned, down, pos, run).len()
                implies published_run(kind, owned, #[trigger] split_from(nodes, end, owned, down, pos, run)[i]) by {
                if i > 0 {
                    assert(split_from(nodes, end, owned, down, pos, run)[i] == rest[i - 1]);
                }
            }
        } else {
            lemma_split_published(nodes, end, kind, owned, down, pos + 1, run1);
            assert(split_from(nodes, end, owned, down, pos, run) == split_from(nodes, end, owned, down, pos + 1, run1));
        }
    }
}

/// Nodes `s..e` of a reach are a maximal stretch of nodes a cell owns:
/// all owned, with an unowned node or the reach's end on either side.
pub open spec fn owned_stretch(nodes: Seq<usize>, owned: Seq<bool>, s: int, e: int) -> bool {
    &&& 0 <= s < e <= nodes.len()
    &&& forall|t: int| s <= t < e ==> owned[(#[trigger] nodes[t]) as int]
    &&& s == 0 || !owned[nodes[s - 1] as int]
    &&& e == nodes.len() || !owned[nodes[e] as int]
}

/// The run a stretch `s..e` of a reach publishes: its nodes; an end as the
/// reach's own when the stretch holds the reach's last node, else the
/// river continues; and the node its tail drains to, unless it ends in a
/// basin.
pub open spec fn stretch_run(nodes: Seq<usize>, end: Terminus, down: Seq<Option<usize>>, s: int, e: int) -> OwnedRun {
    let ending = if e == nodes.len() { end } else { Terminus::Continues };
    (nodes.subrange(s, e), if ending == Terminus::Basin { None } else { down[nodes[e - 1] as int] }, ending)
}

/// The run is the one some maximal owned stretch of the reach publishes.
pub open spec fn stretch_of(nodes: Seq<usize>, end: Terminus, owned: Seq<bool>, down: Seq<Option<usize>>, run: OwnedRun) -> bool {
    exists|s: int, e: int| #[trigger] owned_stretch(nodes, owned, s, e) && run == stretch_run(nodes, end, down, s, e)
}

/// Splitting from `pos`, with the owned nodes since `start` gathered,
/// closes only maximal owned stretches.
proof fn lemma_split_stretches(nodes: Seq<usize>, end: Terminus, owned: Seq<bool>, down: Seq<Option<usize>>, pos: int, start: int)
    requires
        forall|t: int| 0 <= t < nodes.len() ==> #[trigger] nodes[t] < owned.len(),
        0 <= start <= pos <= nodes.len(),
        forall|t: int| start <= t < pos ==> owned[(#[trigger] nodes[t]) as int],
        start == 0 || !owned[nodes[start - 1] as int],
    ensures
        forall|i: int| 0 <= i < split_from(nodes, end, owned, down, pos, nodes.subrange(start, pos)).len() ==>
            stretch_of(nodes, end, owned, down, #[trigger] split_from(nodes, end, owned, down, pos, nodes.subrange(start, pos))[i]),
    decreases nodes.len() - pos,
{
    let run = nodes.subrange(start, pos);
    let out = split_from(nodes, end, owned, down, pos, run);
    if pos < nodes.len() {
        let k = nodes[pos];
        let last = pos + 1 == nodes.len();
        if owned[k as int] {
            let run1 = run.push(k);
            assert(run1 =~= nodes.subrange(start, pos + 1));
            if last {
                assert(split_from(nodes, end, owned, down, pos + 1, Seq::empty()) =~= Seq::<OwnedRun>::empty());
                let r = (run1, if end == Terminus::Basin { None } else { down[k as int] }, end);
                assert(out =~= seq![r]);
                assert forall|i: int| 0 <= i < out.len() implies
                    stretch_of(nodes, end, owned, down, #[trigger] out[i]) by {
                    assert(owned_stretch(nodes, owned, start, pos + 1));
                    assert(out[i] == stretch_run(nodes, end, down, start, pos + 1));
                }
            } else {
                lemma_split_stretches(nodes, end, owned, down, pos + 1, start);
                let next = split_from(nodes, end, owned, down, pos + 1, nodes.subrange(start, pos + 1));
                assert(out == next);
                assert forall|i: int| 0 <= i < out.len() implies
                    stretch_of(nodes, end, owned, down, #[trigger] out[i]) by {
                    assert(out[i] == next[i]);
                }
            }
        } else {
            assert(nodes.subrange(pos + 1, pos + 1) =~= Seq::<usize>::empty());
            lemma_split_stretches(nodes, end, owned, down, pos + 1, pos + 1);
            let rest = split_from(nodes, end, owned, down, pos + 1, Seq::empty());
            if start < pos {
                let tail = nodes[pos - 1];
                assert(run.last() == tail);
                assert(owned[tail as int]);
                let r = (run, down[tail as int], Terminus::Continues);
                assert(out == seq![r] + rest);
                assert forall|i: int| 0 <= i < out.len() implies
                    stretch_of(nodes, end, owned, down, #[trigger] out[i]) by {
                    if i == 0 {
                        assert(owned_stretch(nodes, owned, start, pos));
                        assert(out[i] == stretch_run(nodes, end, down, start, pos));
                    } else {
                        assert(out[i] == rest[i - 1]);
                    }
                }
            } else {
                assert(run =~= Seq::<usize>::empty());
                assert(out == rest);
                assert forall|i: int| 0 <= i < out.len() implies
                    stretch_of(nodes, end, owned, down, #[trigger] out[i]) by {
                    assert(out[i] == rest[i]);
                }
            }
        }
    }
}

/// **Each run a cell publishes of a reach is a maximal stretch of nodes it
/// owns, ending as the reach does only when it holds the reach's last node,
/// and joining what its tail drains to unless it ends in a basin.** With
/// the runs holding exactly the owned nodes in reach order, they are the
/// reach's maximal owned stretches, one run each.
pub proof fn law_owned_runs_are_stretches(nodes: Seq<usize>, end: Terminus, owned: Seq<bool>, down: Seq<Option<usize>>)
    requires
        forall|t: int| 0 <= t < nodes.len() ==> #[trigger] nodes[t] < owned.len(),
    ensures
        forall|i: int| 0 <= i < split_from(nodes, end, owned, down, 0, Seq::empty()).len() ==>
            stretch_of(nodes, end, owned, down, #[trigger] split_from(nodes, end, owned, down, 0, Seq::empty())[i]),
{
    assert(nodes.subrange(0, 0) =~= Seq::<usize>::empty());
    lemma_split_stretches(nodes, end, owned, down, 0, 0);
    let out = split_from(nodes, end, owned, down, 0, Seq::empty());
    assert forall|i: int| 0 <= i < out.len() implies
        stretch_of(nodes, end, owned, down, #[trigger] out[i]) by {
        assert(out[i] == split_from(nodes, end, owned, down, 0, nodes.subrange(0, 0))[i]);
    }
}

/// **What a cell publishes of the river network: each run of the reaches
/// of a routed window holds at least one node, only nodes the cell owns
/// that carry a river, and a run ending in a basin joins nothing.**
pub proof fn law_owned_runs_are_published(kind: Seq<Kind>, down: Seq<Option<usize>>, owned: Seq<bool>)
    requires
        well_routed(kind, down),
        kind.len() <= usize::MAX,
        owned.len() == kind.len(),
    ensures
        forall|i: int| 0 <= i < owned_runs_of(reaches_upto(kind, down, kind.len() as int), owned, down).len()
            ==> published_run(kind, owned, #[trigger] owned_runs_of(reaches_upto(kind, down, kind.len() as int), owned, down)[i]),
{
    let rs = reaches_upto(kind, down, kind.len() as int);
    lemma_reaches_upto(kind, down, kind.len() as int);
    assert forall|i: int, t: int| 0 <= i < rs.len() && 0 <= t < rs[i].0.len()
        implies (#[trigger] rs[i].0[t]) < owned.len() && wet(kind, rs[i].0[t] as int) by {
        lemma_reach_of_shape(kind, down, rs[i].0[0] as int);
    }
    lemma_runs_of_published(rs, kind, owned, down);
}

/// The runs of reaches of river nodes are published runs.
proof fn lemma_runs_of_published(rs: Seq<(Seq<usize>, Terminus)>, kind: Seq<Kind>, owned: Seq<bool>, down: Seq<Option<usize>>)
    requires
        forall|i: int, t: int| 0 <= i < rs.len() && 0 <= t < rs[i].0.len()
            ==> (#[trigger] rs[i].0[t]) < owned.len() && wet(kind, rs[i].0[t] as int),
    ensures
        forall|i: int| 0 <= i < owned_runs_of(rs, owned, down).len()
            ==> published_run(kind, owned, #[trigger] owned_runs_of(rs, owned, down)[i]),
    decreases rs.len(),
{
    if rs.len() > 0 {
        let prev = rs.drop_last();
        assert forall|i: int, t: int| 0 <= i < prev.len() && 0 <= t < prev[i].0.len()
            implies (#[trigger] prev[i].0[t]) < owned.len() && wet(kind, prev[i].0[t] as int) by {
            assert(prev[i] == rs[i]);
        }
        lemma_runs_of_published(prev, kind, owned, down);
        let last = rs.last();
        assert forall|t: int| 0 <= t < last.0.len() implies (#[trigger] last.0[t]) < owned.len() && wet(kind, last.0[t] as int) by {
            assert(rs[rs.len() - 1] == last);
        }
        lemma_split_published(last.0, last.1, kind, owned, down, 0, Seq::empty());
        let a = owned_runs_of(prev, owned, down);
        let b = split_from(last.0, last.1, owned, down, 0, Seq::empty());
        assert(owned_runs_of(rs, owned, down) == a + b);
        assert forall|i: int| 0 <= i < (a + b).len() implies published_run(kind, owned, #[trigger] (a + b)[i]) by {
            if i < a.len() {
                assert((a + b)[i] == a[i]);
            } else {
                assert((a + b)[i] == b[i - a.len()]);
            }
        }
    }
}
} // verus!
