//! The world lattice: the hex node lattice every outline is drawn on.
//!
//! A straight line between two nodes is drawn as runs along the lattice's
//! directions. The path between two nodes is a pure function of the two,
//! and the same from either end.

use vstd::prelude::*;

verus! {

/// A node's lattice coordinates. Its tile is `(i × NODE_SPACING, j × NODE_SPACING)`.
pub type NodeKey = (i32, i32);

/// Node spacing in tiles.
pub const NODE_SPACING: i32 = 525;

/// Nodes a coast or a front runs straight before it may turn.
pub const RUN_MIN: i32 = 5;

/// Hex distance of an axial displacement: the largest of the three cube
/// components in magnitude.
pub open spec fn hex_dist(dq: int, dr: int) -> int {
    let (a, b, c) = (
        if dq < 0 { -dq } else { dq },
        if dr < 0 { -dr } else { dr },
        if dq + dr < 0 { -(dq + dr) } else { dq + dr },
    );
    if a >= b && a >= c { a } else if b >= c { b } else { c }
}

/// Whether a displacement's components, and their sum, can be negated
/// without leaving `i32`.
pub open spec fn fits_i32(dq: int, dr: int) -> bool {
    &&& i32::MIN < dq <= i32::MAX
    &&& i32::MIN < dr <= i32::MAX
    &&& i32::MIN < dq + dr <= i32::MAX
}

/// Hex distance between two nodes.
pub fn hex_distance(a: NodeKey, b: NodeKey) -> (d: i32)
    requires
        fits_i32(a.0 - b.0, a.1 - b.1),
    ensures
        d == hex_dist(a.0 - b.0, a.1 - b.1),
{
    let (dq, dr) = (a.0 - b.0, a.1 - b.1);
    let s = dq + dr;
    let x = if dq < 0 { -dq } else { dq };
    let y = if dr < 0 { -dr } else { dr };
    let z = if s < 0 { -s } else { s };
    let m = if x >= y { x } else { y };
    if m >= z { m } else { z }
}


/// The six neighbours in angular order, 60° apart from `+x` round to `300°`,
/// so consecutive entries bound one facet.
pub const DIRECTIONS: [(i32, i32); 6] = [(1, 0), (0, 1), (-1, 1), (-1, 0), (0, -1), (1, -1)];

/// The `i`-th lattice direction, as [`DIRECTIONS`] holds it.
pub open spec fn dir(i: int) -> (int, int) {
    if i == 0 { (1, 0) }
    else if i == 1 { (0, 1) }
    else if i == 2 { (-1, 1) }
    else if i == 3 { (-1, 0) }
    else if i == 4 { (0, -1) }
    else { (1, -1) }
}

/// The direction after `i` in angular order.
pub open spec fn next_dir(i: int) -> int {
    if i == 5 { 0 } else { i + 1 }
}

/// Steps along direction `i` and along the direction after it that compose
/// `(dq, dr)`. Two adjacent directions span the plane with determinant one,
/// so the solution is unique and each coefficient is a signed component of
/// the displacement or of its sum.
pub open spec fn coefficients(i: int, dq: int, dr: int) -> (int, int) {
    if i == 0 { (dq, dr) }
    else if i == 1 { (dq + dr, -dq) }
    else if i == 2 { (dr, -dq - dr) }
    else if i == 3 { (-dq, -dr) }
    else if i == 4 { (-dq - dr, dq) }
    else { (-dr, dq + dr) }
}

/// Whether `(dq, dr)` lies in the closed sextant between direction `i` and
/// the one after it.
pub open spec fn in_sextant(i: int, dq: int, dr: int) -> bool {
    coefficients(i, dq, dr).0 >= 0 && coefficients(i, dq, dr).1 >= 0
}

/// The first sextant, in angular order, that holds `(dq, dr)`.
pub open spec fn sextant(dq: int, dr: int) -> int {
    if in_sextant(0, dq, dr) { 0 }
    else if in_sextant(1, dq, dr) { 1 }
    else if in_sextant(2, dq, dr) { 2 }
    else if in_sextant(3, dq, dr) { 3 }
    else if in_sextant(4, dq, dr) { 4 }
    else { 5 }
}

/// Cramer's rule over two adjacent directions gives [`coefficients`]: the
/// determinant is one, and each product below is a signed component.
pub proof fn lemma_cramer(i: int, dq: int, dr: int)
    by (nonlinear_arith)
    requires
        0 <= i < 6,
    ensures
        dir(i).0 * dir(next_dir(i)).1 - dir(i).1 * dir(next_dir(i)).0 == 1,
        -1 <= dir(i).0 * dir(next_dir(i)).1 <= 1,
        -1 <= dir(i).1 * dir(next_dir(i)).0 <= 1,
        ({ let p = dq * dir(next_dir(i)).1; p == 0 || p == dq || p == -dq }),
        ({ let p = dr * dir(next_dir(i)).0; p == 0 || p == dr || p == -dr }),
        ({ let p = dir(i).0 * dr; p == 0 || p == dr || p == -dr }),
        ({ let p = dir(i).1 * dq; p == 0 || p == dq || p == -dq }),
        (dq * dir(next_dir(i)).1 - dr * dir(next_dir(i)).0) * 1 == coefficients(i, dq, dr).0,
        (dir(i).0 * dr - dir(i).1 * dq) * 1 == coefficients(i, dq, dr).1,
{
    if i == 0 {
    } else if i == 1 {
    } else if i == 2 {
    } else if i == 3 {
    } else if i == 4 {
    } else {
    }
}

/// Every axial displacement lies in some sextant, and its two coefficients
/// recompose it and sum to its hex distance.
pub proof fn lemma_sextant(dq: int, dr: int)
    by (nonlinear_arith)
    ensures
        0 <= sextant(dq, dr) < 6,
        in_sextant(sextant(dq, dr), dq, dr),
        ({
            let i = sextant(dq, dr);
            let (m, n) = coefficients(i, dq, dr);
            &&& m * dir(i).0 + n * dir(next_dir(i)).0 == dq
            &&& m * dir(i).1 + n * dir(next_dir(i)).1 == dr
            &&& m + n == hex_dist(dq, dr)
        }),
{
    if in_sextant(0, dq, dr) {
        assert(sextant(dq, dr) == 0);
    } else if in_sextant(1, dq, dr) {
        assert(sextant(dq, dr) == 1);
    } else if in_sextant(2, dq, dr) {
        assert(sextant(dq, dr) == 2);
    } else if in_sextant(3, dq, dr) {
        assert(sextant(dq, dr) == 3);
    } else if in_sextant(4, dq, dr) {
        assert(sextant(dq, dr) == 4);
    } else {
        assert(sextant(dq, dr) == 5);
    }
}

/// The two lattice directions that bracket a displacement, with how many
/// steps of each compose it: the first sextant in angular order holding it.
pub fn decompose(dq: i32, dr: i32) -> (res: ((usize, i32), (usize, i32)))
    requires
        fits_i32(dq as int, dr as int),
    ensures
        res.0.0 == sextant(dq as int, dr as int),
        res.1.0 == next_dir(res.0.0 as int),
        res.0.1 == coefficients(res.0.0 as int, dq as int, dr as int).0,
        res.1.1 == coefficients(res.0.0 as int, dq as int, dr as int).1,
        res.0.1 >= 0,
        res.1.1 >= 0,
{
    proof { lemma_sextant(dq as int, dr as int); }
    let mut i: usize = 0;
    while i < 6
        invariant
            0 <= i <= sextant(dq as int, dr as int),
            0 <= sextant(dq as int, dr as int) < 6,
            in_sextant(sextant(dq as int, dr as int), dq as int, dr as int),
            fits_i32(dq as int, dr as int),
        decreases 6 - i,
    {
        let j = if i == 5 { 0 } else { i + 1 };
        let (a, b) = (DIRECTIONS[i], DIRECTIONS[j]);
        assert(a.0 == dir(i as int).0 && a.1 == dir(i as int).1 && b.0 == dir(j as int).0 && b.1 == dir(j as int).1);
        proof { lemma_cramer(i as int, dq as int, dr as int); }
        let det = a.0 * b.1 - a.1 * b.0;
        let m = (dq * b.1 - dr * b.0) * det;
        let n = (a.0 * dr - a.1 * dq) * det;
        if m >= 0 && n >= 0 {
            return ((i, m), (j, n));
        }
        i = i + 1;
    }
    proof { assert(false); }
    ((0, 0), (1, 0))
}


// ── Runs ────────────────────────────────────────────────────────────────────

/// The `i`-th of `parts` shares of `total`: as even as integers allow, the
/// remainder on the first shares.
pub open spec fn share_of(total: int, parts: int, i: int) -> int {
    total / parts + if i < total % parts { 1int } else { 0int }
}

/// The first `j` shares of `total` summed.
pub open spec fn shares_before(total: int, parts: int, j: int) -> int {
    j * (total / parts) + if j < total % parts { j } else { total % parts }
}

/// Adding the next share extends the sum, and all `parts` shares make the
/// total.
pub proof fn lemma_shares(total: int, parts: int, j: int)
    requires
        total >= 0,
        parts > 0,
        0 <= j,
    ensures
        shares_before(total, parts, j + 1) == shares_before(total, parts, j) + share_of(total, parts, j),
        shares_before(total, parts, parts) == total,
        0 <= shares_before(total, parts, j),
        j <= parts ==> shares_before(total, parts, j) <= total,
        share_of(total, parts, j) >= total / parts,
        share_of(total, parts, j) >= 0,
{
    let q = total / parts;
    let rem = total % parts;
    assert((j + 1) * q == j * q + q) by (nonlinear_arith);
    assert(parts * q + rem == total) by (nonlinear_arith)
        requires q == total / parts, rem == total % parts, parts > 0;
    assert(0 <= q) by (nonlinear_arith) requires q == total / parts, total >= 0, parts > 0;
    assert(0 <= j * q) by (nonlinear_arith) requires 0 <= j, 0 <= q;
    if j <= parts {
        assert(j * q <= parts * q) by (nonlinear_arith) requires j <= parts, 0 <= q;
    }
}

/// The `i`-th of `parts` shares of `total`: as even as integers allow, the
/// remainder on the first runs.
fn share(total: i32, parts: i32, i: i32) -> (s: i32)
    requires
        total >= 0,
        parts > 0,
        total / parts < i32::MAX || i >= total % parts,
    ensures
        s == share_of(total as int, parts as int, i as int),
{
    total / parts + if i < total % parts { 1 } else { 0 }
}

/// The alternation count the path settles on: start from as many minor runs
/// as `RUN_MIN` allows the minor steps, at least one, and give one back while
/// the major runs would fall under `RUN_MIN`.
pub open spec fn settle(a: int, k: int) -> int
    decreases k,
{
    if k > 1 && a / (k + 1) < RUN_MIN as int { settle(a, k - 1) } else { k }
}

/// Minor runs in a path with `a` major and `b` minor steps.
pub open spec fn alternations(a: int, b: int) -> int {
    settle(a, if b / (RUN_MIN as int) > 1 { b / (RUN_MIN as int) } else { 1 })
}

/// The runs of a path, as direction and length: `k + 1` major runs with `k`
/// minor runs between them, each a share of its steps.
pub open spec fn run_plan(major: int, minor: int, a: int, b: int, k: int) -> Seq<(int, int)> {
    Seq::new((2 * k + 1) as nat, |j: int|
        if j % 2 == 0 { (major, share_of(a, k + 1, j / 2)) } else { (minor, share_of(b, k, j / 2)) })
}

/// The step directions the runs spell out, in order.
pub open spec fn expand(runs: Seq<(int, int)>) -> Seq<int>
    decreases runs.len(),
{
    if runs.len() == 0 {
        Seq::empty()
    } else {
        expand(runs.drop_last()) + Seq::new(runs.last().1 as nat, |t: int| runs.last().0)
    }
}

/// The node one step along direction `d` from `p`.
pub open spec fn step(p: (int, int), d: int) -> (int, int) {
    (p.0 + dir(d).0, p.1 + dir(d).1)
}

/// The nodes visited walking `steps` from `from`, both ends included.
pub open spec fn trace(from: (int, int), steps: Seq<int>) -> Seq<(int, int)>
    decreases steps.len(),
{
    if steps.len() == 0 {
        seq![from]
    } else {
        let p = trace(from, steps.drop_last());
        p.push(step(p.last(), steps.last()))
    }
}

/// The two directions and their step counts for a displacement: the one
/// with more steps is the major.
pub open spec fn bracket(dq: int, dr: int) -> (int, int, int, int) {
    let i = sextant(dq, dr);
    let (m, n) = coefficients(i, dq, dr);
    if m >= n { (i, next_dir(i), m, n) } else { (next_dir(i), i, n, m) }
}

/// The runs of the path drawn from `from` to `to`.
pub open spec fn path_runs(from: (int, int), to: (int, int)) -> Seq<(int, int)> {
    let (major, minor, a, b) = bracket(to.0 - from.0, to.1 - from.1);
    run_plan(major, minor, a, b, alternations(a, b))
}

/// The path drawn outward from `from`.
pub open spec fn drawn(from: (int, int), to: (int, int)) -> Seq<(int, int)> {
    trace(from, expand(path_runs(from, to)))
}

/// Lexicographic order on nodes.
pub open spec fn key_less(a: (int, int), b: (int, int)) -> bool {
    a.0 < b.0 || (a.0 == b.0 && a.1 < b.1)
}

/// The chain of nodes from one node to another: drawn from the lesser node,
/// and reversed when `from` is the greater.
pub open spec fn chain(from: (int, int), to: (int, int)) -> Seq<(int, int)> {
    if key_less(to, from) { drawn(to, from).reverse() } else { drawn(from, to) }
}

/// The sum of the steps' directions.
pub open spec fn displacement(steps: Seq<int>) -> (int, int)
    decreases steps.len(),
{
    if steps.len() == 0 {
        (0, 0)
    } else {
        let d = displacement(steps.drop_last());
        (d.0 + dir(steps.last()).0, d.1 + dir(steps.last()).1)
    }
}

/// A walk visits one node more than it takes steps, starts where it is
/// told, moves one direction per step, and ends displaced by the steps'
/// sum.
pub proof fn lemma_trace(from: (int, int), steps: Seq<int>)
    ensures
        trace(from, steps).len() == steps.len() + 1,
        trace(from, steps)[0] == from,
        forall|t: int| 0 <= t < steps.len() ==>
            #[trigger] trace(from, steps)[t + 1] == step(trace(from, steps)[t], steps[t]),
        trace(from, steps).last() == (from.0 + displacement(steps).0, from.1 + displacement(steps).1),
    decreases steps.len(),
{
    if steps.len() > 0 {
        let prev = steps.drop_last();
        lemma_trace(from, prev);
        assert forall|t: int| 0 <= t < steps.len() implies
            #[trigger] trace(from, steps)[t + 1] == step(trace(from, steps)[t], steps[t]) by {
            if t < steps.len() - 1 {
                assert(trace(from, prev)[t + 1] == step(trace(from, prev)[t], prev[t]));
            }
        }
    }
}

/// `c` steps along one direction.
pub open spec fn repeat(c: int, d: int) -> Seq<int> {
    Seq::new(c as nat, |t: int| d)
}

/// Appending `c` steps along `d` moves the end by `c` times `d`.
pub proof fn lemma_displacement_repeat(s: Seq<int>, c: int, d: int)
    requires
        c >= 0,
    ensures
        displacement(s + repeat(c, d)) == (displacement(s).0 + c * dir(d).0, displacement(s).1 + c * dir(d).1),
    decreases c,
{
    if c == 0 {
        assert(s + repeat(c, d) =~= s);
    } else {
        assert((s + repeat(c, d)).drop_last() =~= s + repeat(c - 1, d));
        lemma_displacement_repeat(s, c - 1, d);
        assert((c - 1) * dir(d).0 + dir(d).0 == c * dir(d).0) by (nonlinear_arith);
        assert((c - 1) * dir(d).1 + dir(d).1 == c * dir(d).1) by (nonlinear_arith);
    }
}

/// The settled alternation count is at least one and at most where it
/// started.
pub proof fn lemma_settle(a: int, k: int)
    requires
        k >= 1,
    ensures
        1 <= settle(a, k) <= k,
        settle(a, k) > 1 ==> a / (settle(a, k) + 1) >= RUN_MIN as int,
    decreases k,
{
    if k > 1 && a / (k + 1) < RUN_MIN as int {
        lemma_settle(a, k - 1);
    }
}

/// The first `r` runs of a plan: how many steps they take, and where they
/// lead, by how many major and minor steps they hold.
pub proof fn lemma_plan_prefix(major: int, minor: int, a: int, b: int, k: int, r: int)
    requires
        a >= 0,
        b >= 0,
        k >= 1,
        0 <= r <= 2 * k + 1,
    ensures
        ({
            let steps = expand(run_plan(major, minor, a, b, k).take(r));
            let mm = shares_before(a, k + 1, (r + 1) / 2);
            let nn = shares_before(b, k, r / 2);
            &&& steps.len() == mm + nn
            &&& displacement(steps) == (mm * dir(major).0 + nn * dir(minor).0, mm * dir(major).1 + nn * dir(minor).1)
        }),
    decreases r,
{
    let plan = run_plan(major, minor, a, b, k);
    if r > 0 {
        lemma_plan_prefix(major, minor, a, b, k, r - 1);
        let prev = plan.take(r - 1);
        assert(plan.take(r).drop_last() =~= prev);
        let run = plan[r - 1];
        let j = (r - 1) / 2;
        lemma_shares(a, k + 1, j);
        lemma_shares(b, k, j);
        assert(expand(plan.take(r)) == expand(prev) + repeat(run.1, run.0));
        lemma_displacement_repeat(expand(prev), run.1, run.0);
        assert(expand(plan.take(r)).len() == expand(prev).len() + run.1);
        let mm0 = shares_before(a, k + 1, r / 2);
        let nn0 = shares_before(b, k, (r - 1) / 2);
        if (r - 1) % 2 == 0 {
            assert(r / 2 == j && (r + 1) / 2 == j + 1);
            assert(run == (major, share_of(a, k + 1, j)));
            assert(mm0 * dir(major).0 + run.1 * dir(major).0 == (mm0 + run.1) * dir(major).0) by (nonlinear_arith);
            assert(mm0 * dir(major).1 + run.1 * dir(major).1 == (mm0 + run.1) * dir(major).1) by (nonlinear_arith);
            assert(shares_before(a, k + 1, (r + 1) / 2) == mm0 + run.1);
            assert(shares_before(b, k, r / 2) == nn0);
            assert(expand(plan.take(r)).len() == mm0 + run.1 + nn0);
            assert(displacement(expand(plan.take(r))) == ((mm0 + run.1) * dir(major).0 + nn0 * dir(minor).0, (mm0 + run.1) * dir(major).1 + nn0 * dir(minor).1));
        } else {
            assert(r / 2 == j + 1 && (r + 1) / 2 == j + 1 && r / 2 == (r - 1 + 1) / 2);
            assert(run == (minor, share_of(b, k, j)));
            assert(nn0 * dir(minor).0 + run.1 * dir(minor).0 == (nn0 + run.1) * dir(minor).0) by (nonlinear_arith);
            assert(nn0 * dir(minor).1 + run.1 * dir(minor).1 == (nn0 + run.1) * dir(minor).1) by (nonlinear_arith);
            assert(shares_before(a, k + 1, (r + 1) / 2) == mm0);
            assert(shares_before(b, k, r / 2) == nn0 + run.1);
            assert(expand(plan.take(r)).len() == mm0 + run.1 + nn0);
            assert(displacement(expand(plan.take(r))) == (mm0 * dir(major).0 + (nn0 + run.1) * dir(minor).0, mm0 * dir(major).1 + (nn0 + run.1) * dir(minor).1));
        }
    } else {
        assert(plan.take(0) =~= Seq::<(int, int)>::empty());
        lemma_shares(a, k + 1, 0);
        lemma_shares(b, k, 0);
        assert(shares_before(a, k + 1, 0) == 0 && shares_before(b, k, 0) == 0);
        assert(expand(plan.take(0)) =~= Seq::<int>::empty());
        let mm = shares_before(a, k + 1, 0);
        let nn = shares_before(b, k, 0);
        assert(mm * dir(major).0 + nn * dir(minor).0 == 0) by (nonlinear_arith) requires mm == 0, nn == 0;
        assert(mm * dir(major).1 + nn * dir(minor).1 == 0) by (nonlinear_arith) requires mm == 0, nn == 0;
    }
}

/// A node's coordinates as integers.
pub open spec fn key_view(p: NodeKey) -> (int, int) {
    (p.0 as int, p.1 as int)
}


/// Every lattice direction is one node long, and so is its reverse.
pub proof fn lemma_dir_unit(i: int)
    by (nonlinear_arith)
    requires
        0 <= i < 6,
    ensures
        hex_dist(dir(i).0, dir(i).1) == 1,
        hex_dist(-dir(i).0, -dir(i).1) == 1,
        dir(i).0 * dir(next_dir(i)).0 >= 0,
        dir(i).1 * dir(next_dir(i)).1 >= 0,
        -1 <= dir(i).0 <= 1,
        -1 <= dir(i).1 <= 1,
{
    if i == 0 {
    } else if i == 1 {
    } else if i == 2 {
    } else if i == 3 {
    } else if i == 4 {
    } else {
    }
}

/// Hex distance does not see which end a displacement is measured from.
pub proof fn lemma_hex_dist_symmetric(dq: int, dr: int)
    ensures
        hex_dist(dq, dr) == hex_dist(-dq, -dr),
        hex_dist(dq, dr) >= 0,
{
}

/// The drawn path's steps number the hex distance, and lead to the target.
pub proof fn lemma_drawn_steps(from: (int, int), to: (int, int))
    ensures
        ({
            let steps = expand(path_runs(from, to));
            &&& steps.len() == hex_dist(to.0 - from.0, to.1 - from.1)
            &&& displacement(steps) == (to.0 - from.0, to.1 - from.1)
            &&& forall|t: int| 0 <= t < steps.len() ==> 0 <= #[trigger] steps[t] < 6
        }),
{
    let (dq, dr) = (to.0 - from.0, to.1 - from.1);
    lemma_sextant(dq, dr);
    let i = sextant(dq, dr);
    let (m, n) = coefficients(i, dq, dr);
    let (major, minor, a, b) = bracket(dq, dr);
    let k0 = if b / (RUN_MIN as int) > 1 { b / (RUN_MIN as int) } else { 1 };
    lemma_settle(a, k0);
    let k = alternations(a, b);
    let plan = run_plan(major, minor, a, b, k);
    lemma_plan_prefix(major, minor, a, b, k, 2 * k + 1);
    assert(plan.take(2 * k + 1) =~= plan);
    lemma_shares(a, k + 1, k + 1);
    lemma_shares(b, k, k);
    assert((2 * k + 1 + 1) / 2 == k + 1 && (2 * k + 1) / 2 == k);
    lemma_expand_dirs(plan);
}

/// The steps a plan spells out are directions, when its runs are.
pub proof fn lemma_expand_dirs(runs: Seq<(int, int)>)
    requires
        forall|j: int| 0 <= j < runs.len() ==> 0 <= #[trigger] runs[j].0 < 6,
    ensures
        forall|t: int| 0 <= t < expand(runs).len() ==> 0 <= #[trigger] expand(runs)[t] < 6,
    decreases runs.len(),
{
    if runs.len() > 0 {
        let prev = runs.drop_last();
        assert forall|j: int| 0 <= j < prev.len() implies 0 <= #[trigger] prev[j].0 < 6 by {
            assert(prev[j] == runs[j]);
        }
        lemma_expand_dirs(prev);
        assert(0 <= runs[runs.len() - 1].0 < 6);
        let e = expand(runs);
        let ep = expand(prev);
        assert(e == ep + repeat(runs.last().1, runs.last().0));
        assert forall|t: int| 0 <= t < e.len() implies 0 <= #[trigger] e[t] < 6 by {
            if t < ep.len() {
                assert(e[t] == ep[t]);
            } else {
                assert(e[t] == runs.last().0);
            }
        }
    }
}

/// **A path runs from its start to its end, one lattice step at a time, in
/// exactly as many steps as the hex distance between them.**
pub proof fn law_chain_connects(from: (int, int), to: (int, int))
    ensures
        chain(from, to).len() == hex_dist(to.0 - from.0, to.1 - from.1) + 1,
        chain(from, to)[0] == from,
        chain(from, to).last() == to,
        forall|t: int| 0 <= t < chain(from, to).len() - 1 ==>
            hex_dist(#[trigger] chain(from, to)[t + 1].0 - chain(from, to)[t].0,
                chain(from, to)[t + 1].1 - chain(from, to)[t].1) == 1,
{
    if key_less(to, from) {
        let steps = expand(path_runs(to, from));
        lemma_drawn_steps(to, from);
        lemma_trace(to, steps);
        lemma_hex_dist_symmetric(to.0 - from.0, to.1 - from.1);
        let d = drawn(to, from);
        let c = chain(from, to);
        assert(c == d.reverse());
        assert forall|t: int| 0 <= t < c.len() - 1 implies
            hex_dist(#[trigger] c[t + 1].0 - c[t].0, c[t + 1].1 - c[t].1) == 1 by {
            let u = d.len() - 2 - t;
            assert(d[u + 1] == step(d[u], steps[u]));
            lemma_dir_unit(steps[u]);
            assert(c[t] == d[u + 1] && c[t + 1] == d[u]);
        }
    } else {
        let steps = expand(path_runs(from, to));
        lemma_drawn_steps(from, to);
        lemma_trace(from, steps);
        let c = chain(from, to);
        assert forall|t: int| 0 <= t < c.len() - 1 implies
            hex_dist(#[trigger] c[t + 1].0 - c[t].0, c[t + 1].1 - c[t].1) == 1 by {
            assert(c[t + 1] == step(c[t], steps[t]));
            lemma_dir_unit(steps[t]);
        }
    }
}

/// **The path between two nodes is the same chain from either end.**
pub proof fn law_chain_reverses(from: (int, int), to: (int, int))
    ensures
        chain(to, from).reverse() == chain(from, to),
{
    if key_less(to, from) {
        assert(chain(to, from) == drawn(to, from));
        assert(chain(from, to) == drawn(to, from).reverse());
    } else if key_less(from, to) {
        assert(chain(to, from) == drawn(from, to).reverse());
        assert(drawn(from, to).reverse().reverse() =~= drawn(from, to));
    } else {
        assert(from == to);
        let steps = expand(path_runs(from, to));
        lemma_drawn_steps(from, to);
        lemma_trace(from, steps);
        assert(drawn(from, to).len() == 1);
        assert(drawn(from, to).reverse() =~= drawn(from, to));
    }
}

/// **A path holds each run for `RUN_MIN` nodes wherever the counts allow:**
/// every major run when the path alternates more than once or has
/// `2 × RUN_MIN` major steps, and every minor run when it has `RUN_MIN`
/// minor steps.
pub proof fn law_runs_are_long(from: (int, int), to: (int, int))
    ensures
        ({
            let (major, minor, a, b) = bracket(to.0 - from.0, to.1 - from.1);
            let k = alternations(a, b);
            let runs = path_runs(from, to);
            &&& runs.len() == 2 * k + 1
            &&& forall|j: int| 0 <= j < runs.len() && j % 2 == 0 && (k > 1 || a >= 2 * RUN_MIN)
                    ==> #[trigger] runs[j].1 >= RUN_MIN
            &&& forall|j: int| 0 <= j < runs.len() && j % 2 == 1 && b >= RUN_MIN
                    ==> #[trigger] runs[j].1 >= RUN_MIN
        }),
{
    let (dq, dr) = (to.0 - from.0, to.1 - from.1);
    lemma_sextant(dq, dr);
    let (major, minor, a, b) = bracket(dq, dr);
    let k0 = if b / (RUN_MIN as int) > 1 { b / (RUN_MIN as int) } else { 1 };
    lemma_settle(a, k0);
    let k = alternations(a, b);
    let runs = path_runs(from, to);
    assert forall|j: int| 0 <= j < runs.len() && j % 2 == 0 && (k > 1 || a >= 2 * RUN_MIN)
        implies #[trigger] runs[j].1 >= RUN_MIN by {
        lemma_shares(a, k + 1, j / 2);
        if k == 1 {
            assert(a / 2 >= 5) by (nonlinear_arith) requires a >= 10;
        }
    }
    assert forall|j: int| 0 <= j < runs.len() && j % 2 == 1 && b >= RUN_MIN
        implies #[trigger] runs[j].1 >= RUN_MIN by {
        lemma_shares(b, k, j / 2);
        assert(b / k >= 5) by (nonlinear_arith)
            requires b >= 5, 1 <= k <= k0, k0 == (if b / 5 > 1 { b / 5 } else { 1 });
    }
}


/// Adjacent directions move each coordinate the same way, so a mix of
/// their steps stays between the two ends of the whole walk.
proof fn lemma_between(mm: int, nn: int, a: int, b: int, x: int, y: int)
    by (nonlinear_arith)
    requires
        0 <= mm <= a,
        0 <= nn <= b,
        -1 <= x <= 1,
        -1 <= y <= 1,
        x * y >= 0,
    ensures
        0 <= mm * x + nn * y <= a * x + b * y || a * x + b * y <= mm * x + nn * y <= 0,
{
}

/// A node's tile: its lattice coordinates scaled by the node spacing.
pub fn node_tile(key: NodeKey) -> (tile: (i32, i32))
    requires
        i32::MIN <= key.0 * NODE_SPACING <= i32::MAX,
        i32::MIN <= key.1 * NODE_SPACING <= i32::MAX,
    ensures
        tile.0 == key.0 * NODE_SPACING,
        tile.1 == key.1 * NODE_SPACING,
{
    (key.0 * NODE_SPACING, key.1 * NODE_SPACING)
}

/// The path from the lesser node outward, as runs along the two directions
/// that bracket the line.
fn draw(from: NodeKey, to: NodeKey) -> (path: Vec<NodeKey>)
    requires
        fits_i32(to.0 - from.0, to.1 - from.1),
    ensures
        path@.map_values(|p: NodeKey| key_view(p)) == drawn(key_view(from), key_view(to)),
{
    let ghost fv = key_view(from);
    let ghost tv = key_view(to);
    let ((di, m), (dj, n)) = decompose(to.0 - from.0, to.1 - from.1);
    proof { lemma_sextant(tv.0 - fv.0, tv.1 - fv.1); }
    let (major, minor, a, b) = if m >= n { (di, dj, m, n) } else { (dj, di, n, m) };
    assert(bracket(tv.0 - fv.0, tv.1 - fv.1) == (major as int, minor as int, a as int, b as int));
    // k minor runs sit between k+1 major runs. As many alternations as keep
    // every run at RUN_MIN, at least one.
    let mut k: i32 = if b / RUN_MIN > 1 { b / RUN_MIN } else { 1 };
    let ghost k0 = k as int;
    proof { lemma_settle(a as int, k0); }
    while k > 1 && a / (k + 1) < RUN_MIN
        invariant
            1 <= k <= k0,
            a >= 0,
            k0 <= i32::MAX / 4,
            settle(a as int, k as int) == settle(a as int, k0),
        decreases k,
    {
        assert(settle(a as int, k as int) == settle(a as int, k as int - 1));
        k = k - 1;
    }
    let ghost plan = run_plan(major as int, minor as int, a as int, b as int, k as int);
    assert(plan == path_runs(fv, tv));
    proof {
        lemma_settle(a as int, k as int);
    }
    let mut runs: Vec<(usize, i32)> = Vec::new();
    let mut i: i32 = 0;
    while i <= k
        invariant
            0 <= i <= k + 1,
            1 <= k <= i32::MAX / 4,
            a >= 0,
            b >= 0,
            major < 6,
            minor < 6,
            plan == run_plan(major as int, minor as int, a as int, b as int, k as int),
            runs@.len() == 2 * i - (if i > k { 1int } else { 0 }),
            forall|j: int| 0 <= j < runs@.len() ==>
                (#[trigger] runs@[j].0 as int, runs@[j].1 as int) == plan[j],
        decreases k + 1 - i,
    {
        assert((a as int) / (k as int + 1) < i32::MAX) by (nonlinear_arith) requires a >= 0, k >= 1;
        assert((b as int) / (k as int) < i32::MAX || i >= (b as int) % (k as int)) by (nonlinear_arith) requires b >= 0, k >= 1, i >= 0;
        runs.push((major, share(a, k + 1, i)));
        if i < k {
            runs.push((minor, share(b, k, i)));
        }
        proof {
            assert forall|j: int| 0 <= j < runs@.len() implies
                (#[trigger] runs@[j].0 as int, runs@[j].1 as int) == plan[j] by {
                if j >= 2 * i {
                    assert(j % 2 == 0 ==> j / 2 == i);
                    assert(j % 2 == 1 ==> j / 2 == i);
                }
            }
        }
        i = i + 1;
    }
    assert(runs@.len() == plan.len());
    let ghost dmaj = dir(major as int);
    let ghost dmin = dir(minor as int);
    proof {
        lemma_dir_unit(major as int);
        lemma_dir_unit(minor as int);
        lemma_sextant(tv.0 - fv.0, tv.1 - fv.1);
    }
    assert(a * dmaj.0 + b * dmin.0 == tv.0 - fv.0 && a * dmaj.1 + b * dmin.1 == tv.1 - fv.1);
    assert(dmaj.0 * dmin.0 >= 0 && dmaj.1 * dmin.1 >= 0) by {
        if m >= n {
            lemma_dir_unit(di as int);
        } else {
            lemma_dir_unit(dj as int);
            assert(dmaj.0 * dmin.0 == dmin.0 * dmaj.0) by (nonlinear_arith);
            assert(dmaj.1 * dmin.1 == dmin.1 * dmaj.1) by (nonlinear_arith);
        }
    }
    let mut path: Vec<NodeKey> = Vec::new();
    path.push(from);
    let mut at = from;
    let mut r: usize = 0;
    let ghost mut mm: int = 0;
    let ghost mut nn: int = 0;
    proof {
        lemma_shares(a as int, k + 1, 0);
        lemma_shares(b as int, k as int, 0);
        assert(plan.take(0) =~= Seq::<(int, int)>::empty());
        assert(expand(plan.take(0)) =~= Seq::<int>::empty());
        assert(path@.map_values(|p: NodeKey| key_view(p)) =~= seq![fv]);
    }
    while r < runs.len()
        invariant
            runs@.len() == plan.len(),
            plan.len() == 2 * k + 1,
            1 <= k <= i32::MAX / 4,
            a >= 0,
            b >= 0,
            forall|j: int| 0 <= j < runs@.len() ==>
                (#[trigger] runs@[j].0 as int, runs@[j].1 as int) == plan[j],
            plan == run_plan(major as int, minor as int, a as int, b as int, k as int),
            major < 6,
            minor < 6,
            dmaj == dir(major as int),
            dmin == dir(minor as int),
            -1 <= dmaj.0 <= 1 && -1 <= dmaj.1 <= 1,
            -1 <= dmin.0 <= 1 && -1 <= dmin.1 <= 1,
            dmaj.0 * dmin.0 >= 0 && dmaj.1 * dmin.1 >= 0,
            a * dmaj.0 + b * dmin.0 == tv.0 - fv.0,
            a * dmaj.1 + b * dmin.1 == tv.1 - fv.1,
            fv == key_view(from),
            tv == key_view(to),
            0 <= r <= runs@.len(),
            mm == shares_before(a as int, k + 1, (r as int + 1) / 2),
            nn == shares_before(b as int, k as int, r as int / 2),
            key_view(at) == (fv.0 + mm * dmaj.0 + nn * dmin.0, fv.1 + mm * dmaj.1 + nn * dmin.1),
            path@.map_values(|p: NodeKey| key_view(p)) == trace(fv, expand(plan.take(r as int))),
            path@.len() > 0,
            path@.last() == at,
        decreases runs@.len() - r,
    {
        let (d_idx, count) = runs[r];
        let d = DIRECTIONS[d_idx];
        let ghost dv = dir(d_idx as int);
        assert(d.0 == dv.0 && d.1 == dv.1);
        let ghost j = r as int / 2;
        proof {
            lemma_shares(a as int, k + 1, j);
            lemma_shares(b as int, k as int, j);
            lemma_shares(a as int, k + 1, j + 1);
            lemma_shares(b as int, k as int, j + 1);
            if r % 2 == 0 {
                assert(j <= k);
                assert(plan[r as int] == (major as int, share_of(a as int, k + 1, j)));
                assert((r as int + 1) / 2 == j && (r as int + 2) / 2 == j + 1);
                assert(shares_before(a as int, k + 1, j + 1) <= a);
            } else {
                assert(j < k);
                assert(plan[r as int] == (minor as int, share_of(b as int, k as int, j)));
                assert((r as int + 1) / 2 == j + 1 && (r as int + 1) / 2 == (r as int + 2) / 2);
                assert(shares_before(b as int, k as int, j + 1) <= b);
            }
        }
        let ghost base = expand(plan.take(r as int));
        let mut c: i32 = 0;
        while c < count
            invariant
                0 <= c <= count,
                count as int == plan[r as int].1,
                d_idx as int == plan[r as int].0,
                dv == dir(d_idx as int),
                d.0 == dv.0 && d.1 == dv.1,
                r < runs@.len(),
                r % 2 == 0 ==> d_idx == major && mm + count <= a,
                r % 2 == 1 ==> d_idx == minor && nn + count <= b,
                0 <= mm,
                0 <= nn,
                mm <= a,
                nn <= b,
                -1 <= dmaj.0 <= 1 && -1 <= dmaj.1 <= 1,
                -1 <= dmin.0 <= 1 && -1 <= dmin.1 <= 1,
                dmaj.0 * dmin.0 >= 0 && dmaj.1 * dmin.1 >= 0,
                a * dmaj.0 + b * dmin.0 == tv.0 - fv.0,
                a * dmaj.1 + b * dmin.1 == tv.1 - fv.1,
                fv == key_view(from),
                tv == key_view(to),
                dmaj == dir(major as int),
                dmin == dir(minor as int),
                key_view(at) == (
                    fv.0 + (if r % 2 == 0 { mm + c } else { mm }) * dmaj.0 + (if r % 2 == 1 { nn + c } else { nn }) * dmin.0,
                    fv.1 + (if r % 2 == 0 { mm + c } else { mm }) * dmaj.1 + (if r % 2 == 1 { nn + c } else { nn }) * dmin.1,
                ),
                path@.map_values(|p: NodeKey| key_view(p)) == trace(fv, base + repeat(c as int, d_idx as int)),
                path@.len() > 0,
                path@.last() == at,
            decreases count - c,
        {
            let ghost m1 = if r % 2 == 0 { mm + c + 1 } else { mm };
            let ghost n1 = if r % 2 == 1 { nn + c + 1 } else { nn };
            proof {
                lemma_between(m1, n1, a as int, b as int, dmaj.0, dmin.0);
                lemma_between(m1, n1, a as int, b as int, dmaj.1, dmin.1);
                if r % 2 == 0 {
                    assert(m1 * dmaj.0 == (mm + c) * dmaj.0 + dmaj.0) by (nonlinear_arith) requires m1 == mm + c + 1;
                    assert(m1 * dmaj.1 == (mm + c) * dmaj.1 + dmaj.1) by (nonlinear_arith) requires m1 == mm + c + 1;
                } else {
                    assert(n1 * dmin.0 == (nn + c) * dmin.0 + dmin.0) by (nonlinear_arith) requires n1 == nn + c + 1;
                    assert(n1 * dmin.1 == (nn + c) * dmin.1 + dmin.1) by (nonlinear_arith) requires n1 == nn + c + 1;
                }
            }
            let ghost old_view = path@.map_values(|p: NodeKey| key_view(p));
            at = (at.0 + d.0, at.1 + d.1);
            path.push(at);
            proof {
                let s0 = base + repeat(c as int, d_idx as int);
                let s1 = base + repeat(c as int + 1, d_idx as int);
                assert(s1.drop_last() =~= s0);
                assert(s1.last() == d_idx as int);
                lemma_trace(fv, s0);
                assert(old_view.last() == key_view(path@[path@.len() - 2]));
                assert(path@.map_values(|p: NodeKey| key_view(p)) =~= old_view.push(key_view(at)));
                assert(trace(fv, s1) == trace(fv, s0).push(step(trace(fv, s0).last(), d_idx as int)));
            }
            c = c + 1;
        }
        proof {
            assert(plan.take(r as int + 1).drop_last() =~= plan.take(r as int));
            assert(plan.take(r as int + 1).last() == plan[r as int]);
            assert(expand(plan.take(r as int + 1)) == base + repeat(count as int, d_idx as int));
            if r % 2 == 0 {
                mm = mm + count;
            } else {
                nn = nn + count;
            }
        }
        r = r + 1;
    }
    proof {
        assert(plan.take(r as int) =~= plan);
    }
    path
}

/// Reverses a chain of nodes.
fn reversed(v: &Vec<NodeKey>) -> (out: Vec<NodeKey>)
    ensures
        out@ == v@.reverse(),
{
    let mut out: Vec<NodeKey> = Vec::new();
    let mut i = v.len();
    while i > 0
        invariant
            i <= v@.len(),
            out@.len() == v@.len() - i,
            forall|j: int| 0 <= j < out@.len() ==> #[trigger] out@[j] == v@[v@.len() - 1 - j],
        decreases i,
    {
        i = i - 1;
        out.push(v[i]);
    }
    assert(out@ =~= v@.reverse());
    out
}

/// The chain of nodes from one node to another, drawn as runs along the two
/// directions that bracket the line: the direction with more steps opens and
/// closes the path and the other alternates with it, each run at least
/// [`RUN_MIN`] nodes wherever the counts allow. The chain includes both ends
/// and is the same chain reversed from the other end.
pub fn lattice_path(from: NodeKey, to: NodeKey) -> (path: Vec<NodeKey>)
    requires
        fits_i32(to.0 - from.0, to.1 - from.1),
    ensures
        path@.map_values(|p: NodeKey| key_view(p)) == chain(key_view(from), key_view(to)),
{
    if to.0 < from.0 || (to.0 == from.0 && to.1 < from.1) {
        let drawn_back = draw(to, from);
        let path = reversed(&drawn_back);
        proof {
            assert(path@.map_values(|p: NodeKey| key_view(p))
                =~= drawn_back@.map_values(|p: NodeKey| key_view(p)).reverse());
        }
        path
    } else {
        draw(from, to)
    }
}


// ── Swing ───────────────────────────────────────────────────────────────────
//
// A node `x` major and `y` minor steps along a path of `a` major and `b`
// minor steps stands off its line by `b·x − a·y` in cross-product units.
// Within a run that offset only grows (a major run) or only shrinks (a
// minor run), so the nodes farthest out are the corners between runs. The
// corners are bounded for every count a path of up to 252 steps can
// have, by the bit-vector solver, and the rest follows by induction over
// the runs.

/// After `m` major runs and the `n = m − 1` minor runs between them, the
/// offset `b·x − a·y` is at most zero or its square at most
/// `RUN_MIN² (a² + ab + b²)`, for settled counts in machine integers.
#[verifier::rlimit(100)]
proof fn lemma_corner_up(a: u8, b: u8, k: u8, qa: u8, ra: u8, qb: u8, rb: u8, m: u8, n: u8)
    requires
        b <= a,
        a + b <= 252,
        1 <= k,
        a == qa * (k + 1) + ra,
        ra < k + 1,
        b == qb * k + rb,
        rb < k,
        k == 1 || (5 * k <= b && 5 * (k + 1) <= a),
        b < 5 * (k + 1) || a < 5 * (k + 2),
        1 <= m,
        m <= k + 1,
        n + 1 == m,
    ensures
        ({
            let v = b * (m * qa + (if m < ra { m } else { ra })) - a * (n * qb + (if n < rb { n } else { rb }));
            v <= 0 || v * v <= 25 * (a * a + a * b + b * b)
        }),
{
    if m < ra && n < rb {
        assert({
            let v = b * (m * qa + m) - a * (n * qb + n);
            v <= 0 || v * v <= 25 * (a * a + a * b + b * b)
        }) by (bit_vector)
            requires
                b <= a,
                a + b <= 252,
                1 <= k,
                a == qa * (k + 1) + ra,
                ra < k + 1,
                b == qb * k + rb,
                rb < k,
                k == 1 || (5 * k <= b && 5 * (k + 1) <= a),
                b < 5 * (k + 1) || a < 5 * (k + 2),
                1 <= m,
                m <= k + 1,
                n + 1 == m,
                m < ra,
                n < rb;
    } else if m < ra && n >= rb {
        assert({
            let v = b * (m * qa + m) - a * (n * qb + rb);
            v <= 0 || v * v <= 25 * (a * a + a * b + b * b)
        }) by (bit_vector)
            requires
                b <= a,
                a + b <= 252,
                1 <= k,
                a == qa * (k + 1) + ra,
                ra < k + 1,
                b == qb * k + rb,
                rb < k,
                k == 1 || (5 * k <= b && 5 * (k + 1) <= a),
                b < 5 * (k + 1) || a < 5 * (k + 2),
                1 <= m,
                m <= k + 1,
                n + 1 == m,
                m < ra,
                n >= rb;
    } else if m >= ra && n < rb {
        assert({
            let v = b * (m * qa + ra) - a * (n * qb + n);
            v <= 0 || v * v <= 25 * (a * a + a * b + b * b)
        }) by (bit_vector)
            requires
                b <= a,
                a + b <= 252,
                1 <= k,
                a == qa * (k + 1) + ra,
                ra < k + 1,
                b == qb * k + rb,
                rb < k,
                k == 1 || (5 * k <= b && 5 * (k + 1) <= a),
                b < 5 * (k + 1) || a < 5 * (k + 2),
                1 <= m,
                m <= k + 1,
                n + 1 == m,
                m >= ra,
                n < rb;
    } else if m >= ra && n >= rb {
        assert({
            let v = b * (m * qa + ra) - a * (n * qb + rb);
            v <= 0 || v * v <= 25 * (a * a + a * b + b * b)
        }) by (bit_vector)
            requires
                b <= a,
                a + b <= 252,
                1 <= k,
                a == qa * (k + 1) + ra,
                ra < k + 1,
                b == qb * k + rb,
                rb < k,
                k == 1 || (5 * k <= b && 5 * (k + 1) <= a),
                b < 5 * (k + 1) || a < 5 * (k + 2),
                1 <= m,
                m <= k + 1,
                n + 1 == m,
                m >= ra,
                n >= rb;
    }
}

/// After `m` major runs and as many minor runs, the offset `b·x − a·y` is
/// at least zero or its square at most `RUN_MIN² (a² + ab + b²)`, for
/// settled counts in machine integers.
#[verifier::rlimit(100)]
proof fn lemma_corner_down(a: u8, b: u8, k: u8, qa: u8, ra: u8, qb: u8, rb: u8, m: u8)
    requires
        b <= a,
        a + b <= 252,
        1 <= k,
        a == qa * (k + 1) + ra,
        ra < k + 1,
        b == qb * k + rb,
        rb < k,
        k == 1 || (5 * k <= b && 5 * (k + 1) <= a),
        b < 5 * (k + 1) || a < 5 * (k + 2),
        1 <= m,
        m <= k,
    ensures
        ({
            let v = a * (m * qb + (if m < rb { m } else { rb })) - b * (m * qa + (if m < ra { m } else { ra }));
            v <= 0 || v * v <= 25 * (a * a + a * b + b * b)
        }),
{
    if m < ra && m < rb {
        assert({
            let v = a * (m * qb + m) - b * (m * qa + m);
            v <= 0 || v * v <= 25 * (a * a + a * b + b * b)
        }) by (bit_vector)
            requires
                b <= a,
                a + b <= 252,
                1 <= k,
                a == qa * (k + 1) + ra,
                ra < k + 1,
                b == qb * k + rb,
                rb < k,
                k == 1 || (5 * k <= b && 5 * (k + 1) <= a),
                b < 5 * (k + 1) || a < 5 * (k + 2),
                1 <= m,
                m <= k,
                m < ra,
                m < rb;
    } else if m < ra && m >= rb {
        assert({
            let v = a * (m * qb + rb) - b * (m * qa + m);
            v <= 0 || v * v <= 25 * (a * a + a * b + b * b)
        }) by (bit_vector)
            requires
                b <= a,
                a + b <= 252,
                1 <= k,
                a == qa * (k + 1) + ra,
                ra < k + 1,
                b == qb * k + rb,
                rb < k,
                k == 1 || (5 * k <= b && 5 * (k + 1) <= a),
                b < 5 * (k + 1) || a < 5 * (k + 2),
                1 <= m,
                m <= k,
                m < ra,
                m >= rb;
    } else if m >= ra && m < rb {
        assert({
            let v = a * (m * qb + m) - b * (m * qa + ra);
            v <= 0 || v * v <= 25 * (a * a + a * b + b * b)
        }) by (bit_vector)
            requires
                b <= a,
                a + b <= 252,
                1 <= k,
                a == qa * (k + 1) + ra,
                ra < k + 1,
                b == qb * k + rb,
                rb < k,
                k == 1 || (5 * k <= b && 5 * (k + 1) <= a),
                b < 5 * (k + 1) || a < 5 * (k + 2),
                1 <= m,
                m <= k,
                m >= ra,
                m < rb;
    } else if m >= ra && m >= rb {
        assert({
            let v = a * (m * qb + rb) - b * (m * qa + ra);
            v <= 0 || v * v <= 25 * (a * a + a * b + b * b)
        }) by (bit_vector)
            requires
                b <= a,
                a + b <= 252,
                1 <= k,
                a == qa * (k + 1) + ra,
                ra < k + 1,
                b == qb * k + rb,
                rb < k,
                k == 1 || (5 * k <= b && 5 * (k + 1) <= a),
                b < 5 * (k + 1) || a < 5 * (k + 2),
                1 <= m,
                m <= k,
                m >= ra,
                m >= rb;
    }
}

/// The cross product of two displacements: one for two adjacent lattice
/// directions taken in angular order.
pub open spec fn cross(p: (int, int), q: (int, int)) -> int {
    p.0 * q.1 - p.1 * q.0
}

/// A displacement's squared length, in node steps squared.
pub open spec fn hex_norm(d: (int, int)) -> int {
    d.0 * d.0 + d.0 * d.1 + d.1 * d.1
}

/// Node `p` stands no farther from the straight line through `from` and
/// `to` than `RUN_MIN` node steps square to a lattice direction, the
/// `PATH_SWING` of the world: its distance from the line is
/// `|cross| / √hex_norm` node spacings times sin 60°.
pub open spec fn near_line(from: (int, int), to: (int, int), p: (int, int)) -> bool {
    let d = (p.0 - from.0, p.1 - from.1);
    let t = (to.0 - from.0, to.1 - from.1);
    cross(d, t) * cross(d, t) <= (RUN_MIN as int) * (RUN_MIN as int) * hex_norm(t)
}

/// Scaling by a unit or by zero.
proof fn lemma_unit_scale(x: int, c: int)
    by (nonlinear_arith)
    requires
        -1 <= c <= 1,
    ensures
        x * c == if c == 1 { x } else if c == -1 { -x } else { 0 },
{
}

/// Measured along two adjacent directions, a node `x` major and `y` minor
/// steps out stands `±(x·b − y·a)` from the line to `a` major and `b` minor
/// steps, in cross-product units, and that line is `a² + ab + b²` long
/// squared.
proof fn lemma_metric(major: int, minor: int, x: int, y: int, a: int, b: int)
    requires
        0 <= major < 6,
        0 <= minor < 6,
        minor == next_dir(major) || major == next_dir(minor),
    ensures
        ({
            let p = (x * dir(major).0 + y * dir(minor).0, x * dir(major).1 + y * dir(minor).1);
            let t = (a * dir(major).0 + b * dir(minor).0, a * dir(major).1 + b * dir(minor).1);
            &&& (cross(p, t) == x * b - y * a || cross(p, t) == y * a - x * b)
            &&& hex_norm(t) == a * a + a * b + b * b
        }),
{
    let (m0, m1) = dir(major);
    let (n0, n1) = dir(minor);
    lemma_dir_unit(major);
    lemma_dir_unit(minor);
    lemma_unit_scale(x, m0);
    lemma_unit_scale(x, m1);
    lemma_unit_scale(y, n0);
    lemma_unit_scale(y, n1);
    lemma_unit_scale(a, m0);
    lemma_unit_scale(a, m1);
    lemma_unit_scale(b, n0);
    lemma_unit_scale(b, n1);
    if major == 0 && minor == 1 {
        assert((x) * (b) - (y) * (a) == x * b - y * a) by (nonlinear_arith);
        assert((a) * (a) + (a) * (b) + (b) * (b) == a * a + a * b + b * b) by (nonlinear_arith);
    } else if major == 0 && minor == 5 {
        assert((x + y) * (-b) - (-y) * (a + b) == y * a - x * b) by (nonlinear_arith);
        assert((a + b) * (a + b) + (a + b) * (-b) + (-b) * (-b) == a * a + a * b + b * b) by (nonlinear_arith);
    } else if major == 1 && minor == 2 {
        assert((-y) * (a + b) - (x + y) * (-b) == x * b - y * a) by (nonlinear_arith);
        assert((-b) * (-b) + (-b) * (a + b) + (a + b) * (a + b) == a * a + a * b + b * b) by (nonlinear_arith);
    } else if major == 1 && minor == 0 {
        assert((y) * (a) - (x) * (b) == y * a - x * b) by (nonlinear_arith);
        assert((b) * (b) + (b) * (a) + (a) * (a) == a * a + a * b + b * b) by (nonlinear_arith);
    } else if major == 2 && minor == 3 {
        assert((-x - y) * (a) - (x) * (-a - b) == x * b - y * a) by (nonlinear_arith);
        assert((-a - b) * (-a - b) + (-a - b) * (a) + (a) * (a) == a * a + a * b + b * b) by (nonlinear_arith);
    } else if major == 2 && minor == 1 {
        assert((-x) * (a + b) - (x + y) * (-a) == y * a - x * b) by (nonlinear_arith);
        assert((-a) * (-a) + (-a) * (a + b) + (a + b) * (a + b) == a * a + a * b + b * b) by (nonlinear_arith);
    } else if major == 3 && minor == 4 {
        assert((-x) * (-b) - (-y) * (-a) == x * b - y * a) by (nonlinear_arith);
        assert((-a) * (-a) + (-a) * (-b) + (-b) * (-b) == a * a + a * b + b * b) by (nonlinear_arith);
    } else if major == 3 && minor == 2 {
        assert((-x - y) * (b) - (y) * (-a - b) == y * a - x * b) by (nonlinear_arith);
        assert((-a - b) * (-a - b) + (-a - b) * (b) + (b) * (b) == a * a + a * b + b * b) by (nonlinear_arith);
    } else if major == 4 && minor == 5 {
        assert((y) * (-a - b) - (-x - y) * (b) == x * b - y * a) by (nonlinear_arith);
        assert((b) * (b) + (b) * (-a - b) + (-a - b) * (-a - b) == a * a + a * b + b * b) by (nonlinear_arith);
    } else if major == 4 && minor == 3 {
        assert((-y) * (-a) - (-x) * (-b) == y * a - x * b) by (nonlinear_arith);
        assert((-b) * (-b) + (-b) * (-a) + (-a) * (-a) == a * a + a * b + b * b) by (nonlinear_arith);
    } else if major == 5 && minor == 0 {
        assert((x + y) * (-a) - (-x) * (a + b) == x * b - y * a) by (nonlinear_arith);
        assert((a + b) * (a + b) + (a + b) * (-a) + (-a) * (-a) == a * a + a * b + b * b) by (nonlinear_arith);
    } else if major == 5 && minor == 4 {
        assert((x) * (-a - b) - (-x - y) * (a) == y * a - x * b) by (nonlinear_arith);
        assert((a) * (a) + (a) * (-a - b) + (-a - b) * (-a - b) == a * a + a * b + b * b) by (nonlinear_arith);
    }
}

/// Walking `c` more steps along `d` keeps the nodes already visited and
/// adds a straight run from the last of them.
proof fn lemma_trace_repeat(from: (int, int), s: Seq<int>, c: int, d: int)
    requires
        c >= 0,
    ensures
        trace(from, s + repeat(c, d)).len() == s.len() + c + 1,
        forall|t: int| 0 <= t <= s.len() ==> #[trigger] trace(from, s + repeat(c, d))[t] == trace(from, s)[t],
        forall|u: int| 0 <= u <= c ==> #[trigger] trace(from, s + repeat(c, d))[s.len() + u]
            == (trace(from, s).last().0 + u * dir(d).0, trace(from, s).last().1 + u * dir(d).1),
    decreases c,
{
    lemma_trace(from, s);
    let e = s + repeat(c, d);
    let tr = trace(from, e);
    if c == 0 {
        assert(e =~= s);
        assert forall|u: int| 0 <= u <= c implies #[trigger] tr[s.len() + u]
            == (trace(from, s).last().0 + u * dir(d).0, trace(from, s).last().1 + u * dir(d).1) by {
            assert(u == 0);
        }
    } else {
        let s1 = s + repeat(c - 1, d);
        assert(e.drop_last() =~= s1);
        assert(e.last() == d);
        lemma_trace_repeat(from, s, c - 1, d);
        let tr1 = trace(from, s1);
        assert(tr == tr1.push(step(tr1.last(), d)));
        assert forall|t: int| 0 <= t <= s.len() implies #[trigger] tr[t] == trace(from, s)[t] by {
            assert(tr[t] == tr1[t]);
        }
        assert forall|u: int| 0 <= u <= c implies #[trigger] tr[s.len() + u]
            == (trace(from, s).last().0 + u * dir(d).0, trace(from, s).last().1 + u * dir(d).1) by {
            if u < c {
                assert(tr[s.len() + u] == tr1[s.len() + u]);
            } else {
                assert(tr1.last() == tr1[s.len() + (c - 1)]);
                assert((c - 1) * dir(d).0 + dir(d).0 == c * dir(d).0) by (nonlinear_arith);
                assert((c - 1) * dir(d).1 + dir(d).1 == c * dir(d).1) by (nonlinear_arith);
            }
        }
    }
}

/// Settling stops where it started, or where one more alternation would
/// leave the major runs under `RUN_MIN`.
proof fn lemma_settle_stops(a: int, k: int)
    requires
        k >= 1,
    ensures
        settle(a, k) == k || a / (settle(a, k) + 2) < RUN_MIN as int,
    decreases k,
{
    if k > 1 && a / (k + 1) < RUN_MIN as int {
        lemma_settle_stops(a, k - 1);
    }
}

/// What the alternation count guarantees of a path's step counts: no more
/// minor runs than `RUN_MIN` allows the minor steps, major runs of
/// `RUN_MIN` each when it alternates more than once, and as many
/// alternations as both allow.
spec fn settled(a: int, b: int, k: int) -> bool {
    &&& 0 <= b <= a
    &&& 1 <= k
    &&& (k == 1 || (5 * k <= b && 5 * (k + 1) <= a))
    &&& (b < 5 * (k + 1) || a < 5 * (k + 2))
}

/// After `m` major runs and the minor runs between them, a node's offset
/// from the line is at most zero, or within the swing.
proof fn lemma_corner_high(a: int, b: int, k: int, m: int)
    requires
        settled(a, b, k),
        a + b <= 252,
        1 <= m <= k + 1,
    ensures
        ({
            let v = b * shares_before(a, k + 1, m) - a * shares_before(b, k, m - 1);
            v <= 0 || v * v <= 25 * (a * a + a * b + b * b)
        }),
{
    let kk = k + 1;
    let qa = a / kk;
    let ra = a % kk;
    let qb = b / k;
    let rb = b % k;
    vstd::arithmetic::div_mod::lemma_fundamental_div_mod(a, kk);
    vstd::arithmetic::div_mod::lemma_mod_pos_bound(a, kk);
    vstd::arithmetic::div_mod::lemma_fundamental_div_mod(b, k);
    vstd::arithmetic::div_mod::lemma_mod_pos_bound(b, k);
    assert(0 <= qa <= a) by (nonlinear_arith)
        requires a == kk * qa + ra, 0 <= ra < kk, kk >= 1, a >= 0;
    assert(0 <= qb <= b) by (nonlinear_arith)
        requires b == k * qb + rb, 0 <= rb < k, k >= 1, b >= 0;
    assert(k <= 252);
    lemma_corner_up(a as u8, b as u8, k as u8, qa as u8, ra as u8, qb as u8, rb as u8, m as u8, (m - 1) as u8);
}

/// After `m` major and `m` minor runs, a node's offset from the line is at
/// least zero, or within the swing.
proof fn lemma_corner_low(a: int, b: int, k: int, m: int)
    requires
        settled(a, b, k),
        a + b <= 252,
        1 <= m <= k,
    ensures
        ({
            let w = a * shares_before(b, k, m) - b * shares_before(a, k + 1, m);
            w <= 0 || w * w <= 25 * (a * a + a * b + b * b)
        }),
{
    let kk = k + 1;
    let qa = a / kk;
    let ra = a % kk;
    let qb = b / k;
    let rb = b % k;
    vstd::arithmetic::div_mod::lemma_fundamental_div_mod(a, kk);
    vstd::arithmetic::div_mod::lemma_mod_pos_bound(a, kk);
    vstd::arithmetic::div_mod::lemma_fundamental_div_mod(b, k);
    vstd::arithmetic::div_mod::lemma_mod_pos_bound(b, k);
    assert(0 <= qa <= a) by (nonlinear_arith)
        requires a == kk * qa + ra, 0 <= ra < kk, kk >= 1, a >= 0;
    assert(0 <= qb <= b) by (nonlinear_arith)
        requires b == k * qb + rb, 0 <= rb < k, k >= 1, b >= 0;
    assert(k <= 252);
    lemma_corner_down(a as u8, b as u8, k as u8, qa as u8, ra as u8, qb as u8, rb as u8, m as u8);
}

/// A value between two corner values keeps within the swing when both
/// corners do on its side of the line.
proof fn lemma_between_corners(v: int, lo: int, hi: int, n: int)
    by (nonlinear_arith)
    requires
        lo <= v <= hi,
        hi <= 0 || hi * hi <= n,
        -lo <= 0 || (-lo) * (-lo) <= n,
        n >= 0,
    ensures
        v * v <= n,
{
    if v >= 0 {
        assert(v * v <= hi * hi);
    } else {
        assert(v * v <= (-lo) * (-lo));
    }
}

/// Every node the first `r` runs of a plan visit stands within the swing of
/// the line, when the plan's counts are settled.
#[verifier::rlimit(50)]
proof fn lemma_near_prefix(
    from: (int, int),
    to: (int, int),
    major: int,
    minor: int,
    a: int,
    b: int,
    k: int,
    r: int,
)
    requires
        0 <= major < 6,
        0 <= minor < 6,
        minor == next_dir(major) || major == next_dir(minor),
        to == (from.0 + a * dir(major).0 + b * dir(minor).0, from.1 + a * dir(major).1 + b * dir(minor).1),
        settled(a, b, k),
        a + b <= 252,
        0 <= r <= 2 * k + 1,
    ensures
        forall|t: int| 0 <= t < trace(from, expand(run_plan(major, minor, a, b, k).take(r))).len() ==>
            near_line(from, to, #[trigger] trace(from, expand(run_plan(major, minor, a, b, k).take(r)))[t]),
    decreases r,
{
    let plan = run_plan(major, minor, a, b, k);
    let steps = expand(plan.take(r));
    let tr = trace(from, steps);
    let n = a * a + a * b + b * b;
    assert(n >= 0) by (nonlinear_arith) requires a >= 0, b >= 0, n == a * a + a * b + b * b;
    lemma_trace(from, steps);
    if r == 0 {
        assert(plan.take(0) =~= Seq::<(int, int)>::empty());
        assert(steps.len() == 0);
        lemma_metric(major, minor, 0, 0, a, b);
        let t0 = (to.0 - from.0, to.1 - from.1);
        assert(hex_norm(t0) == n);
        assert(cross((0, 0), t0) == 0);
        assert(near_line(from, to, from));
        assert forall|t: int| 0 <= t < tr.len() implies near_line(from, to, #[trigger] tr[t]) by {
            assert(tr[t] == from);
        }
    } else {
        lemma_near_prefix(from, to, major, minor, a, b, k, r - 1);
        let prev = expand(plan.take(r - 1));
        let run = plan[r - 1];
        assert(plan.take(r).drop_last() =~= plan.take(r - 1));
        assert(steps == prev + repeat(run.1, run.0));
        lemma_plan_prefix(major, minor, a, b, k, r - 1);
        lemma_trace(from, prev);
        let j = (r - 1) / 2;
        lemma_shares(a, k + 1, j);
        lemma_shares(b, k, j);
        let tr0 = trace(from, prev);
        let mm = shares_before(a, k + 1, r / 2);
        let nn = shares_before(b, k, (r - 1) / 2);
        assert(r / 2 == (r - 1 + 1) / 2);
        assert(tr0.last() == (from.0 + mm * dir(major).0 + nn * dir(minor).0, from.1 + mm * dir(major).1 + nn * dir(minor).1));
        assert(run.1 >= 0);
        lemma_trace_repeat(from, prev, run.1, run.0);
        assert forall|t: int| 0 <= t < tr.len() implies near_line(from, to, #[trigger] tr[t]) by {
            if t <= prev.len() {
                assert(tr[t] == tr0[t]);
            } else {
                let u = t - prev.len();
                assert(tr[prev.len() + u] == (tr0.last().0 + u * dir(run.0).0, tr0.last().1 + u * dir(run.0).1));
                if (r - 1) % 2 == 0 {
                    assert(run == (major, share_of(a, k + 1, j)));
                    assert(r / 2 == j);
                    let x = mm + u;
                    let y = nn;
                    assert(mm * dir(major).0 + u * dir(major).0 == x * dir(major).0) by (nonlinear_arith)
                        requires x == mm + u;
                    assert(mm * dir(major).1 + u * dir(major).1 == x * dir(major).1) by (nonlinear_arith)
                        requires x == mm + u;
                    lemma_metric(major, minor, x, y, a, b);
                    let v = x * b - y * a;
                    let lo = b * mm - a * nn;
                    let hi = b * shares_before(a, k + 1, j + 1) - a * nn;
                    assert(0 <= u * b <= run.1 * b) by (nonlinear_arith) requires 0 <= u <= run.1, b >= 0;
                    assert(v == lo + u * b) by (nonlinear_arith) requires v == x * b - y * a, x == mm + u, y == nn, lo == b * mm - a * nn;
                    assert(hi == lo + run.1 * b) by (nonlinear_arith)
                        requires hi == b * (mm + run.1) - a * nn, lo == b * mm - a * nn;
                    lemma_corner_high(a, b, k, j + 1);
                    if j == 0 {
                        assert(mm == 0 && nn == 0);
                        assert(lo == 0) by (nonlinear_arith) requires lo == b * mm - a * nn, mm == 0, nn == 0;
                    } else {
                        lemma_corner_low(a, b, k, j);
                    }
                    lemma_between_corners(v, lo, hi, 25 * n);
                    assert(v * v == (y * a - x * b) * (y * a - x * b)) by (nonlinear_arith) requires v == x * b - y * a;
                } else {
                    assert(run == (minor, share_of(b, k, j)));
                    assert(r / 2 == j + 1);
                    let x = mm;
                    let y = nn + u;
                    assert(nn * dir(minor).0 + u * dir(minor).0 == y * dir(minor).0) by (nonlinear_arith)
                        requires y == nn + u;
                    assert(nn * dir(minor).1 + u * dir(minor).1 == y * dir(minor).1) by (nonlinear_arith)
                        requires y == nn + u;
                    lemma_metric(major, minor, x, y, a, b);
                    let v = x * b - y * a;
                    let hi = b * mm - a * nn;
                    let lo = b * mm - a * shares_before(b, k, j + 1);
                    assert(0 <= u * a <= run.1 * a) by (nonlinear_arith) requires 0 <= u <= run.1, a >= 0;
                    assert(v == hi - u * a) by (nonlinear_arith) requires v == x * b - y * a, x == mm, y == nn + u, hi == b * mm - a * nn;
                    assert(lo == hi - run.1 * a) by (nonlinear_arith)
                        requires lo == b * mm - a * (nn + run.1), hi == b * mm - a * nn;
                    lemma_corner_high(a, b, k, j + 1);
                    lemma_corner_low(a, b, k, j + 1);
                    lemma_between_corners(v, lo, hi, 25 * n);
                    assert(v * v == (y * a - x * b) * (y * a - x * b)) by (nonlinear_arith) requires v == x * b - y * a;
                }
            }
        }
    }
}

/// Every node of the path drawn outward from `from` stands within the
/// swing of the line.
proof fn lemma_drawn_near(from: (int, int), to: (int, int))
    requires
        hex_dist(to.0 - from.0, to.1 - from.1) <= 252,
    ensures
        forall|t: int| 0 <= t < drawn(from, to).len() ==> near_line(from, to, #[trigger] drawn(from, to)[t]),
{
    let (dq, dr) = (to.0 - from.0, to.1 - from.1);
    lemma_sextant(dq, dr);
    let (major, minor, a, b) = bracket(dq, dr);
    let k0 = if b / 5 > 1 { b / 5 } else { 1 };
    lemma_settle(a, k0);
    lemma_settle_stops(a, k0);
    let k = alternations(a, b);
    assert(k == settle(a, k0));
    if k > 1 {
        vstd::arithmetic::div_mod::lemma_fundamental_div_mod(a, k + 1);
        vstd::arithmetic::div_mod::lemma_mod_pos_bound(a, k + 1);
        assert(5 * (k + 1) <= a) by (nonlinear_arith)
            requires a == (k + 1) * (a / (k + 1)) + a % (k + 1), a % (k + 1) >= 0, a / (k + 1) >= 5, k >= 1;
    }
    if k != k0 {
        vstd::arithmetic::div_mod::lemma_fundamental_div_mod(a, k + 2);
        vstd::arithmetic::div_mod::lemma_mod_pos_bound(a, k + 2);
        assert(a < 5 * (k + 2)) by (nonlinear_arith)
            requires a == (k + 2) * (a / (k + 2)) + a % (k + 2), a % (k + 2) < k + 2, a / (k + 2) < 5, k >= 1;
    }
    assert(settled(a, b, k));
    let plan = run_plan(major, minor, a, b, k);
    lemma_near_prefix(from, to, major, minor, a, b, k, 2 * k + 1);
    assert(plan.take(2 * k + 1) =~= plan);
}

/// Standing near a line does not depend on which end it is measured from.
proof fn lemma_near_line_flip(from: (int, int), to: (int, int), p: (int, int))
    ensures
        near_line(to, from, p) == near_line(from, to, p),
{
    let t = (to.0 - from.0, to.1 - from.1);
    let d = (p.0 - from.0, p.1 - from.1);
    let d2 = (p.0 - to.0, p.1 - to.1);
    let t2 = (from.0 - to.0, from.1 - to.1);
    assert(cross(d2, t2) == -cross(d, t)) by (nonlinear_arith)
        requires d2 == (d.0 - t.0, d.1 - t.1), t2 == (-t.0, -t.1);
    assert(hex_norm(t2) == hex_norm(t)) by (nonlinear_arith) requires t2 == (-t.0, -t.1);
    assert(cross(d2, t2) * cross(d2, t2) == cross(d, t) * cross(d, t)) by (nonlinear_arith)
        requires cross(d2, t2) == -cross(d, t);
}

/// **No node of a path stands farther from the straight line between its
/// ends than `RUN_MIN` node steps square to a lattice direction — the
/// world's `PATH_SWING` — on every line of up to 252 node steps**, well
/// past the longest plate edge. Longer lines can stray past it: the path
/// 133 steps along one direction and 120 along the next strays farther.
pub proof fn law_paths_stay_near_their_lines(from: (int, int), to: (int, int))
    requires
        hex_dist(to.0 - from.0, to.1 - from.1) <= 252,
    ensures
        forall|t: int| 0 <= t < chain(from, to).len() ==> near_line(from, to, #[trigger] chain(from, to)[t]),
{
    if key_less(to, from) {
        lemma_hex_dist_symmetric(to.0 - from.0, to.1 - from.1);
        assert(hex_dist(from.0 - to.0, from.1 - to.1) == hex_dist(to.0 - from.0, to.1 - from.1));
        lemma_drawn_near(to, from);
        let d = drawn(to, from);
        let c = chain(from, to);
        assert(c == d.reverse());
        assert forall|t: int| 0 <= t < c.len() implies near_line(from, to, #[trigger] c[t]) by {
            assert(c[t] == d[d.len() - 1 - t]);
            lemma_near_line_flip(from, to, c[t]);
        }
    } else {
        lemma_drawn_near(from, to);
    }
}


// ── Shape ───────────────────────────────────────────────────────────────────

/// The first step a list of runs spells out is along its first run, when
/// that run has a step and no run has fewer than none.
proof fn lemma_expand_first(runs: Seq<(int, int)>)
    requires
        runs.len() > 0,
        runs[0].1 >= 1,
        forall|j: int| 0 <= j < runs.len() ==> #[trigger] runs[j].1 >= 0,
    ensures
        expand(runs).len() >= 1,
        expand(runs)[0] == runs[0].0,
    decreases runs.len(),
{
    let prev = runs.drop_last();
    let last = runs.last();
    assert(expand(runs) == expand(prev) + repeat(last.1, last.0));
    if runs.len() == 1 {
        assert(prev =~= Seq::<(int, int)>::empty());
        assert(expand(prev) =~= Seq::<int>::empty());
        assert(last == runs[0]);
        assert(expand(runs)[0] == repeat(last.1, last.0)[0]);
    } else {
        assert forall|j: int| 0 <= j < prev.len() implies #[trigger] prev[j].1 >= 0 by {
            assert(prev[j] == runs[j]);
        }
        assert(prev[0] == runs[0]);
        lemma_expand_first(prev);
        assert(runs[runs.len() - 1].1 >= 0);
        assert(expand(runs)[0] == expand(prev)[0]);
    }
}

/// The last step a list of runs spells out is along its last run, when
/// that run has a step.
proof fn lemma_expand_last(runs: Seq<(int, int)>)
    requires
        runs.len() > 0,
        runs.last().1 >= 1,
    ensures
        expand(runs).len() >= 1,
        expand(runs).last() == runs.last().0,
{
    let prev = runs.drop_last();
    let last = runs.last();
    assert(expand(runs) == expand(prev) + repeat(last.1, last.0));
}

/// **The direction with more steps opens and closes a path**: the first
/// and the last of its steps run along the major direction, on every path
/// but the one of a step along each of two directions, which has one step
/// of each.
pub proof fn law_major_opens_and_closes(from: (int, int), to: (int, int))
    requires
        hex_dist(to.0 - from.0, to.1 - from.1) >= 1,
        !(bracket(to.0 - from.0, to.1 - from.1).2 == 1 && bracket(to.0 - from.0, to.1 - from.1).3 == 1),
    ensures
        expand(path_runs(from, to)).len() >= 1,
        expand(path_runs(from, to))[0] == bracket(to.0 - from.0, to.1 - from.1).0,
        expand(path_runs(from, to)).last() == bracket(to.0 - from.0, to.1 - from.1).0,
{
    let (dq, dr) = (to.0 - from.0, to.1 - from.1);
    lemma_sextant(dq, dr);
    let (major, minor, a, b) = bracket(dq, dr);
    let k0 = if b / (RUN_MIN as int) > 1 { b / (RUN_MIN as int) } else { 1 };
    lemma_settle(a, k0);
    let k = alternations(a, b);
    let kk = k + 1;
    let plan = run_plan(major, minor, a, b, k);
    assert(plan == path_runs(from, to));
    assert(a >= 1);
    assert forall|j: int| 0 <= j < plan.len() implies #[trigger] plan[j].1 >= 0 by {
        lemma_shares(a, kk, j / 2);
        lemma_shares(b, k, j / 2);
    }
    vstd::arithmetic::div_mod::lemma_fundamental_div_mod(a, kk);
    vstd::arithmetic::div_mod::lemma_mod_pos_bound(a, kk);
    let q = a / kk;
    let rem = a % kk;
    assert(q >= 1 || rem >= 1) by (nonlinear_arith)
        requires a == kk * q + rem, a >= 1, kk >= 1, 0 <= rem;
    assert(plan[0] == (major, share_of(a, kk, 0)));
    lemma_expand_first(plan);
    let last = plan[2 * k];
    assert(plan.last() == last);
    assert(last == (major, share_of(a, kk, k)));
    assert(share_of(a, kk, k) == q);
    if a >= kk {
        assert(q >= 1) by (nonlinear_arith) requires a == kk * q + rem, a >= kk, 0 <= rem < kk;
        lemma_expand_last(plan);
    } else {
        assert(k == 1) by {
            if k > 1 {
                assert(5 * kk <= a) by (nonlinear_arith) requires a == kk * q + rem, q >= 5, rem >= 0, kk >= 1;
            }
        }
        assert(a == 1 && b == 0);
        assert(q == 0 && rem == 1) by (nonlinear_arith) requires a == kk * q + rem, 0 <= rem < kk, kk == 2, a == 1;
        assert(plan =~= seq![(major, 1int), (minor, 0int), (major, 0int)]);
        assert(plan.drop_last() =~= seq![(major, 1int), (minor, 0int)]);
        assert(plan.drop_last().drop_last() =~= seq![(major, 1int)]);
        let s2 = plan.drop_last().drop_last();
        let s1 = plan.drop_last();
        assert(s2.drop_last() =~= Seq::<(int, int)>::empty());
        assert(expand(s2.drop_last()) =~= Seq::<int>::empty());
        assert(repeat(1, major) =~= seq![major]);
        assert(repeat(0, minor) =~= Seq::<int>::empty());
        assert(repeat(0, major) =~= Seq::<int>::empty());
        assert(expand(s2) == expand(s2.drop_last()) + repeat(1, major));
        assert(expand(s2) =~= seq![major]);
        assert(expand(s1) == expand(s2) + repeat(0, minor));
        assert(expand(s1) =~= seq![major]);
        assert(expand(plan) == expand(s1) + repeat(0, major));
        assert(expand(plan) =~= seq![major]);
    }
}

/// Over two adjacent directions, `x` and `y` steps forward lead `x + y`
/// nodes away.
proof fn lemma_mix_dist(major: int, minor: int, x: int, y: int)
    requires
        0 <= major < 6,
        0 <= minor < 6,
        minor == next_dir(major) || major == next_dir(minor),
        x >= 0,
        y >= 0,
    ensures
        hex_dist(x * dir(major).0 + y * dir(minor).0, x * dir(major).1 + y * dir(minor).1) == x + y,
{
    let (m0, m1) = dir(major);
    let (n0, n1) = dir(minor);
    lemma_dir_unit(major);
    lemma_dir_unit(minor);
    lemma_unit_scale(x, m0);
    lemma_unit_scale(x, m1);
    lemma_unit_scale(y, n0);
    lemma_unit_scale(y, n1);
}

/// The `t`-th node the first `r` runs of a plan visit stands `t` nodes from
/// the start.
#[verifier::rlimit(50)]
proof fn lemma_prefix_dist(from: (int, int), major: int, minor: int, a: int, b: int, k: int, r: int)
    requires
        0 <= major < 6,
        0 <= minor < 6,
        minor == next_dir(major) || major == next_dir(minor),
        a >= 0,
        b >= 0,
        k >= 1,
        0 <= r <= 2 * k + 1,
    ensures
        forall|t: int| 0 <= t < trace(from, expand(run_plan(major, minor, a, b, k).take(r))).len() ==>
            hex_dist(#[trigger] trace(from, expand(run_plan(major, minor, a, b, k).take(r)))[t].0 - from.0,
                trace(from, expand(run_plan(major, minor, a, b, k).take(r)))[t].1 - from.1) == t,
    decreases r,
{
    let plan = run_plan(major, minor, a, b, k);
    let steps = expand(plan.take(r));
    let tr = trace(from, steps);
    lemma_trace(from, steps);
    if r == 0 {
        assert(plan.take(0) =~= Seq::<(int, int)>::empty());
        assert(steps.len() == 0);
        assert forall|t: int| 0 <= t < tr.len() implies
            hex_dist(#[trigger] tr[t].0 - from.0, tr[t].1 - from.1) == t by {
            assert(tr[t] == from);
        }
    } else {
        lemma_prefix_dist(from, major, minor, a, b, k, r - 1);
        let prev = expand(plan.take(r - 1));
        let run = plan[r - 1];
        assert(plan.take(r).drop_last() =~= plan.take(r - 1));
        assert(steps == prev + repeat(run.1, run.0));
        lemma_plan_prefix(major, minor, a, b, k, r - 1);
        lemma_trace(from, prev);
        let j = (r - 1) / 2;
        lemma_shares(a, k + 1, j);
        lemma_shares(b, k, j);
        lemma_shares(a, k + 1, r / 2);
        lemma_shares(b, k, (r - 1) / 2);
        let tr0 = trace(from, prev);
        let mm = shares_before(a, k + 1, r / 2);
        let nn = shares_before(b, k, (r - 1) / 2);
        assert(tr0.last() == (from.0 + mm * dir(major).0 + nn * dir(minor).0, from.1 + mm * dir(major).1 + nn * dir(minor).1));
        assert(run.1 >= 0);
        lemma_trace_repeat(from, prev, run.1, run.0);
        assert forall|t: int| 0 <= t < tr.len() implies
            hex_dist(#[trigger] tr[t].0 - from.0, tr[t].1 - from.1) == t by {
            if t <= prev.len() {
                assert(tr[t] == tr0[t]);
            } else {
                let u = t - prev.len();
                assert(tr[prev.len() + u] == (tr0.last().0 + u * dir(run.0).0, tr0.last().1 + u * dir(run.0).1));
                if (r - 1) % 2 == 0 {
                    assert(run.0 == major);
                    let x = mm + u;
                    assert(mm * dir(major).0 + u * dir(major).0 == x * dir(major).0) by (nonlinear_arith)
                        requires x == mm + u;
                    assert(mm * dir(major).1 + u * dir(major).1 == x * dir(major).1) by (nonlinear_arith)
                        requires x == mm + u;
                    lemma_mix_dist(major, minor, x, nn);
                } else {
                    assert(run.0 == minor);
                    let y = nn + u;
                    assert(nn * dir(minor).0 + u * dir(minor).0 == y * dir(minor).0) by (nonlinear_arith)
                        requires y == nn + u;
                    assert(nn * dir(minor).1 + u * dir(minor).1 == y * dir(minor).1) by (nonlinear_arith)
                        requires y == nn + u;
                    lemma_mix_dist(major, minor, mm, y);
                }
            }
        }
    }
}

/// **A path never visits a node twice.**
pub proof fn law_chain_never_repeats(from: (int, int), to: (int, int))
    ensures
        forall|i: int, j: int| 0 <= i < j < chain(from, to).len() ==> #[trigger] chain(from, to)[i] != #[trigger] chain(from, to)[j],
{
    let (lo, hi) = if key_less(to, from) { (to, from) } else { (from, to) };
    let (dq, dr) = (hi.0 - lo.0, hi.1 - lo.1);
    lemma_sextant(dq, dr);
    let (major, minor, a, b) = bracket(dq, dr);
    let k0 = if b / (RUN_MIN as int) > 1 { b / (RUN_MIN as int) } else { 1 };
    lemma_settle(a, k0);
    let k = alternations(a, b);
    let plan = run_plan(major, minor, a, b, k);
    lemma_prefix_dist(lo, major, minor, a, b, k, 2 * k + 1);
    assert(plan.take(2 * k + 1) =~= plan);
    let d = drawn(lo, hi);
    assert(d == trace(lo, expand(plan.take(2 * k + 1))));
    let c = chain(from, to);
    let n = d.len();
    if key_less(to, from) {
        assert(c == d.reverse());
        assert forall|i: int, j: int| 0 <= i < j < c.len() implies #[trigger] c[i] != #[trigger] c[j] by {
            assert(c[i] == d[n - 1 - i] && c[j] == d[n - 1 - j]);
            assert(hex_dist(d[n - 1 - i].0 - lo.0, d[n - 1 - i].1 - lo.1) == n - 1 - i);
            assert(hex_dist(d[n - 1 - j].0 - lo.0, d[n - 1 - j].1 - lo.1) == n - 1 - j);
        }
    } else {
        assert(c == d);
        assert forall|i: int, j: int| 0 <= i < j < c.len() implies #[trigger] c[i] != #[trigger] c[j] by {
            assert(hex_dist(d[i].0 - lo.0, d[i].1 - lo.1) == i);
            assert(hex_dist(d[j].0 - lo.0, d[j].1 - lo.1) == j);
        }
    }
}

} // verus!
