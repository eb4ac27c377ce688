//! Orphan correction. A macro plate owns micro cells; where its cells fall
//! apart into pieces, the largest piece is the plate's body and every other
//! piece, a fragment, goes to the plate that surrounds it most.
//!
//! Cells are numbered in the order of their ids, each with its neighbours
//! on the micro grid; two neighbours on one plate are one piece.

use vstd::prelude::*;

verus! {

/// Every neighbour is a cell, and neighbours are mutual.
pub open spec fn mutual(nbrs: Seq<Seq<usize>>) -> bool {
    &&& nbrs.len() <= usize::MAX
    &&& forall|a: int, i: int| 0 <= a < nbrs.len() && 0 <= i < nbrs[a].len() ==> {
        &&& (#[trigger] nbrs[a][i]) < nbrs.len()
        &&& nbrs[nbrs[a][i] as int].contains(a as usize)
    }
}

/// Cell `b` neighbours cell `a` on `a`'s plate.
pub open spec fn link(plate: Seq<u64>, nbrs: Seq<Seq<usize>>, a: int, b: int) -> bool {
    &&& 0 <= a < nbrs.len()
    &&& 0 <= b < nbrs.len()
    &&& nbrs[a].contains(b as usize)
    &&& plate[a] == plate[b]
}

/// A walk over one plate: cells in range, each a neighbour of the last on
/// the same plate.
pub open spec fn is_walk(plate: Seq<u64>, nbrs: Seq<Seq<usize>>, w: Seq<int>) -> bool {
    &&& w.len() >= 1
    &&& forall|i: int| 0 <= i < w.len() ==> 0 <= #[trigger] w[i] < nbrs.len()
    &&& forall|i: int| 0 <= i < w.len() - 1 ==> link(plate, nbrs, #[trigger] w[i], w[i + 1])
}

/// Cells `a` and `b` lie in one piece of one plate.
pub open spec fn connected(plate: Seq<u64>, nbrs: Seq<Seq<usize>>, a: int, b: int) -> bool {
    exists|w: Seq<int>| #[trigger] is_walk(plate, nbrs, w) && w[0] == a && w.last() == b
}

/// A cell lies in its own piece.
pub proof fn lemma_connected_refl(plate: Seq<u64>, nbrs: Seq<Seq<usize>>, a: int)
    requires
        0 <= a < nbrs.len(),
    ensures
        connected(plate, nbrs, a, a),
{
    let w = seq![a];
    assert(is_walk(plate, nbrs, w));
}

/// A piece reaches on over a link.
pub proof fn lemma_connected_step(plate: Seq<u64>, nbrs: Seq<Seq<usize>>, a: int, b: int, c: int)
    requires
        connected(plate, nbrs, a, b),
        link(plate, nbrs, b, c),
    ensures
        connected(plate, nbrs, a, c),
{
    let w = choose|w: Seq<int>| #[trigger] is_walk(plate, nbrs, w) && w[0] == a && w.last() == b;
    let w2 = w.push(c);
    assert forall|i: int| 0 <= i < w2.len() - 1 implies link(plate, nbrs, #[trigger] w2[i], w2[i + 1]) by {
        if i < w.len() - 1 {
            assert(w2[i] == w[i] && w2[i + 1] == w[i + 1]);
        }
    }
    assert(is_walk(plate, nbrs, w2));
}

/// Links run both ways between mutual neighbours.
proof fn lemma_link_back(plate: Seq<u64>, nbrs: Seq<Seq<usize>>, a: int, b: int)
    requires
        mutual(nbrs),
        link(plate, nbrs, a, b),
    ensures
        link(plate, nbrs, b, a),
{
    let i = choose|i: int| 0 <= i < nbrs[a].len() && nbrs[a][i] == b as usize;
    assert(nbrs[a][i] < nbrs.len());
}

/// A walk read backwards is a walk.
proof fn lemma_walk_back(plate: Seq<u64>, nbrs: Seq<Seq<usize>>, w: Seq<int>)
    requires
        mutual(nbrs),
        is_walk(plate, nbrs, w),
    ensures
        is_walk(plate, nbrs, w.reverse()),
{
    let r = w.reverse();
    assert forall|i: int| 0 <= i < r.len() - 1 implies link(plate, nbrs, #[trigger] r[i], r[i + 1]) by {
        let j = w.len() - 2 - i;
        assert(link(plate, nbrs, w[j], w[j + 1]));
        assert(r[i] == w[j + 1] && r[i + 1] == w[j]);
        lemma_link_back(plate, nbrs, w[j], w[j + 1]);
    }
    assert forall|i: int| 0 <= i < r.len() implies 0 <= #[trigger] r[i] < nbrs.len() by {
        assert(r[i] == w[w.len() - 1 - i]);
    }
}

/// Pieces are symmetric.
pub proof fn lemma_connected_sym(plate: Seq<u64>, nbrs: Seq<Seq<usize>>, a: int, b: int)
    requires
        mutual(nbrs),
        connected(plate, nbrs, a, b),
    ensures
        connected(plate, nbrs, b, a),
{
    let w = choose|w: Seq<int>| #[trigger] is_walk(plate, nbrs, w) && w[0] == a && w.last() == b;
    lemma_walk_back(plate, nbrs, w);
    let r = w.reverse();
    assert(r[0] == b && r.last() == a);
}

/// Pieces are transitive.
pub proof fn lemma_connected_trans(plate: Seq<u64>, nbrs: Seq<Seq<usize>>, a: int, b: int, c: int)
    requires
        connected(plate, nbrs, a, b),
        connected(plate, nbrs, b, c),
    ensures
        connected(plate, nbrs, a, c),
{
    let w1 = choose|w: Seq<int>| #[trigger] is_walk(plate, nbrs, w) && w[0] == a && w.last() == b;
    let w2 = choose|w: Seq<int>| #[trigger] is_walk(plate, nbrs, w) && w[0] == b && w.last() == c;
    let w = w1 + w2.drop_first();
    assert forall|i: int| 0 <= i < w.len() implies 0 <= #[trigger] w[i] < nbrs.len() by {
        if i >= w1.len() {
            assert(w[i] == w2[i - w1.len() + 1]);
        }
    }
    assert forall|i: int| 0 <= i < w.len() - 1 implies link(plate, nbrs, #[trigger] w[i], w[i + 1]) by {
        if i < w1.len() - 1 {
            assert(w[i] == w1[i] && w[i + 1] == w1[i + 1]);
        } else if i == w1.len() - 1 {
            assert(w[i] == b && w[i + 1] == w2[1]);
            assert(w2[0] == b);
            assert(link(plate, nbrs, w2[0], w2[1]));
        } else {
            let j = i - w1.len() + 1;
            assert(w[i] == w2[j] && w[i + 1] == w2[j + 1]);
        }
    }
    if w2.len() == 1 {
        assert(w =~= w1);
    } else {
        assert(w.last() == w2.last());
    }
    assert(is_walk(plate, nbrs, w));
}

/// Cells on one plate linked to a labelled cell carry its label: a labelling
/// closed under links.
pub open spec fn closed_under_links(plate: Seq<u64>, nbrs: Seq<Seq<usize>>, label: Seq<usize>) -> bool {
    forall|a: int, b: int| #[trigger] link(plate, nbrs, a, b) ==> label[a] == label[b]
}

/// A labelling closed under links labels a whole piece alike.
proof fn lemma_closed_walk(plate: Seq<u64>, nbrs: Seq<Seq<usize>>, label: Seq<usize>, w: Seq<int>)
    requires
        closed_under_links(plate, nbrs, label),
        is_walk(plate, nbrs, w),
    ensures
        label[w.last()] == label[w[0]],
    decreases w.len(),
{
    if w.len() > 1 {
        let v = w.drop_last();
        assert forall|i: int| 0 <= i < v.len() - 1 implies link(plate, nbrs, #[trigger] v[i], v[i + 1]) by {
            assert(v[i] == w[i] && v[i + 1] == w[i + 1]);
        }
        assert(is_walk(plate, nbrs, v));
        lemma_closed_walk(plate, nbrs, label, v);
        assert(link(plate, nbrs, w[w.len() - 2], w[w.len() - 1]));
    }
}

/// The label no cell carries yet.
pub const UNLABELLED: usize = usize::MAX;

/// How many of the first `k` labels are unset.
pub open spec fn unlabelled_upto(label: Seq<usize>, k: int) -> nat
    decreases k,
{
    if k <= 0 { 0 } else { unlabelled_upto(label, k - 1) + if label[k - 1] == UNLABELLED { 1nat } else { 0nat } }
}

/// Setting an unset label leaves one fewer unset.
proof fn lemma_unlabelled_set(label: Seq<usize>, i: int, v: usize, k: int)
    requires
        0 <= i < label.len(),
        label[i] == UNLABELLED,
        v != UNLABELLED,
        0 <= k <= label.len(),
    ensures
        unlabelled_upto(label.update(i, v), k) == unlabelled_upto(label, k) - (if i < k { 1int } else { 0int }),
    decreases k,
{
    if k > 0 {
        lemma_unlabelled_set(label, i, v, k - 1);
    }
}

/// The pieces of every plate: each cell's piece, numbered in the order of
/// the least cell of each, and that least cell.
pub fn pieces(plate: &Vec<u64>, nbrs: &Vec<Vec<usize>>) -> (res: (Vec<usize>, Vec<usize>))
    requires
        plate@.len() == nbrs@.len(),
        mutual(nbrs@.map_values(|v: Vec<usize>| v@)),
        nbrs@.len() < usize::MAX,
    ensures
        labels_pieces(plate@, nbrs@.map_values(|v: Vec<usize>| v@), res.0@, res.1@),
        forall|i: int, j: int| 0 <= i < j < res.1@.len() ==> #[trigger] res.1@[i] < #[trigger] res.1@[j],
{
    let ghost g = nbrs@.map_values(|v: Vec<usize>| v@);
    let ghost p = plate@;
    let n = nbrs.len();
    let mut label: Vec<usize> = Vec::new();
    let mut i: usize = 0;
    while i < n
        invariant
            i <= n,
            label@.len() == i,
            forall|j: int| 0 <= j < i ==> #[trigger] label@[j] == UNLABELLED,
        decreases n - i,
    {
        label.push(UNLABELLED);
        i = i + 1;
    }
    let mut starts: Vec<usize> = Vec::new();
    let mut s: usize = 0;
    while s < n
        invariant
            s <= n,
            n == g.len(),
            n < usize::MAX,
            g == nbrs@.map_values(|v: Vec<usize>| v@),
            p == plate@,
            p.len() == n,
            mutual(g),
            label@.len() == n,
            starts@.len() <= s,
            forall|c: int| 0 <= c < n ==> (#[trigger] label@[c] == UNLABELLED || label@[c] < starts@.len()),
            forall|c: int| 0 <= c < s ==> #[trigger] label@[c] != UNLABELLED,
            forall|c: int| 0 <= c < n && #[trigger] label@[c] != UNLABELLED ==> {
                &&& connected(p, g, starts@[label@[c] as int] as int, c)
                &&& starts@[label@[c] as int] <= c
            },
            forall|k: int| 0 <= k < starts@.len() ==> (#[trigger] starts@[k]) < s && label@[starts@[k] as int] == k,
            forall|i: int, j: int| 0 <= i < j < starts@.len() ==> #[trigger] starts@[i] < #[trigger] starts@[j],
            forall|a: int, b: int| #[trigger] link(p, g, a, b) && label@[a] != UNLABELLED ==> label@[a] == label@[b],
        decreases n - s,
    {
        if label[s] == UNLABELLED {
            let k = starts.len();
            proof {
                assert forall|c: int| 0 <= c < n implies (#[trigger] label@[c] == UNLABELLED || label@[c] < starts@.len()) by {}
            }
            let ghost before = label@;
            starts.push(s);
            label.set(s, k);
            proof {
                lemma_connected_refl(p, g, s as int);
            }
            let mut stack: Vec<usize> = Vec::new();
            stack.push(s);
            proof {
                assert forall|a: int, b: int| #[trigger] link(p, g, a, b) && label@[a] != UNLABELLED && !stack@.contains(a as usize)
                    implies label@[a] == label@[b] by {
                    if a == s as int {
                        assert(stack@[0] == s);
                    }
                    assert(before[a] != UNLABELLED);
                    assert(before[a] == before[b]);
                }
            }
            while stack.len() > 0
                invariant
                    n == g.len(),
                    g == nbrs@.map_values(|v: Vec<usize>| v@),
                    p == plate@,
                    p.len() == n,
                    mutual(g),
                    label@.len() == n,
                    s < n,
                    k == starts@.len() - 1,
                    starts@[k as int] == s,
                    starts@.len() <= s + 1,
                    forall|c: int| 0 <= c < n ==> (#[trigger] label@[c] == UNLABELLED || label@[c] < starts@.len()),
                    forall|c: int| 0 <= c < s ==> #[trigger] label@[c] != UNLABELLED,
                    forall|c: int| 0 <= c < n && #[trigger] label@[c] != UNLABELLED ==> {
                        &&& connected(p, g, starts@[label@[c] as int] as int, c)
                        &&& starts@[label@[c] as int] <= c
                    },
                    forall|j: int| 0 <= j < starts@.len() ==> (#[trigger] starts@[j]) <= s && label@[starts@[j] as int] == j,
                    forall|i: int, j: int| 0 <= i < j < starts@.len() ==> #[trigger] starts@[i] < #[trigger] starts@[j],
                    forall|t: int| 0 <= t < stack@.len() ==> (#[trigger] stack@[t]) < n && label@[stack@[t] as int] == k,
                    forall|a: int, b: int| #[trigger] link(p, g, a, b) && label@[a] != UNLABELLED && !stack@.contains(a as usize)
                        ==> label@[a] == label@[b],
                decreases 2 * unlabelled_upto(label@, n as int) + stack@.len(),
            {
                let ghost st0 = stack@;
                let a = stack.pop().unwrap();
                proof {
                    assert(st0 =~= stack@.push(a));
                    assert forall|aa: int, b: int| #[trigger] link(p, g, aa, b) && label@[aa] != UNLABELLED
                        && !stack@.contains(aa as usize) && aa != a implies label@[aa] == label@[b] by {
                        if st0.contains(aa as usize) {
                            let t = choose|t: int| 0 <= t < st0.len() && st0[t] == aa as usize;
                            if t < stack@.len() {
                                assert(stack@[t] == aa as usize);
                            }
                        }
                    }
                }
                let ghost measure0 = 2 * unlabelled_upto(label@, n as int) + stack@.len() + 1;
                let na = &nbrs[a];
                let mut j: usize = 0;
                while j < na.len()
                    invariant
                        n == g.len(),
                        g == nbrs@.map_values(|v: Vec<usize>| v@),
                        p == plate@,
                        p.len() == n,
                        mutual(g),
                        label@.len() == n,
                        a < n,
                        na@ == g[a as int],
                        j <= na@.len(),
                        s < n,
                        k == starts@.len() - 1,
                        starts@[k as int] == s,
                        starts@.len() <= s + 1,
                        label@[a as int] == k,
                        forall|c: int| 0 <= c < n ==> (#[trigger] label@[c] == UNLABELLED || label@[c] < starts@.len()),
                        forall|c: int| 0 <= c < s ==> #[trigger] label@[c] != UNLABELLED,
                        forall|c: int| 0 <= c < n && #[trigger] label@[c] != UNLABELLED ==> {
                            &&& connected(p, g, starts@[label@[c] as int] as int, c)
                            &&& starts@[label@[c] as int] <= c
                        },
                        forall|jj: int| 0 <= jj < starts@.len() ==> (#[trigger] starts@[jj]) <= s && label@[starts@[jj] as int] == jj,
                        forall|i: int, j: int| 0 <= i < j < starts@.len() ==> #[trigger] starts@[i] < #[trigger] starts@[j],
                        forall|t: int| 0 <= t < stack@.len() ==> (#[trigger] stack@[t]) < n && label@[stack@[t] as int] == k,
                        forall|aa: int, b: int| #[trigger] link(p, g, aa, b) && label@[aa] != UNLABELLED
                            && !stack@.contains(aa as usize) && aa != a ==> label@[aa] == label@[b],
                        forall|t: int| 0 <= t < j ==> label@[#[trigger] na@[t] as int] != UNLABELLED
                            || p[na@[t] as int] != p[a as int],
                        2 * unlabelled_upto(label@, n as int) + stack@.len() <= measure0 - 1,
                    decreases na@.len() - j,
                {
                    let m = na[j];
                    assert(m < n) by { assert(g[a as int][j as int] == m); }
                    if label[m] == UNLABELLED && plate[m] == plate[a] {
                        proof {
                            assert(link(p, g, a as int, m as int)) by {
                                assert(g[a as int][j as int] == m);
                            }
                            lemma_connected_step(p, g, s as int, a as int, m as int);
                            lemma_unlabelled_set(label@, m as int, k, n as int);
                        }
                        let ghost lb = label@;
                        let ghost sb = stack@;
                        label.set(m, k);
                        stack.push(m);
                        proof {
                            assert forall|aa: int, b: int| #[trigger] link(p, g, aa, b) && label@[aa] != UNLABELLED
                                && !stack@.contains(aa as usize) && aa != a implies label@[aa] == label@[b] by {
                                assert(stack@[stack@.len() - 1] == m);
                                assert(aa != m as int);
                                if sb.contains(aa as usize) {
                                    let t = choose|t: int| 0 <= t < sb.len() && sb[t] == aa as usize;
                                    assert(stack@[t] == aa as usize);
                                }
                                assert(lb[aa] == lb[b]);
                            }
                        }
                    }
                    j = j + 1;
                }
                proof {
                    assert forall|aa: int, b: int| #[trigger] link(p, g, aa, b) && label@[aa] != UNLABELLED && !stack@.contains(aa as usize)
                        implies label@[aa] == label@[b] by {
                        if aa == a {
                            let t = choose|t: int| 0 <= t < na@.len() && na@[t] == b as usize;
                            assert(label@[na@[t] as int] != UNLABELLED || p[na@[t] as int] != p[a as int]);
                            assert(label@[b] != UNLABELLED);
                            if label@[b] != k {
                                // `b` is in an earlier piece, which is closed, and links back to `a`.
                                lemma_link_back(p, g, a as int, b);
                                assert(!stack@.contains(b as usize));
                            }
                        }
                    }
                }
            }
        }
        s = s + 1;
    }
    proof {
        assert forall|a: int, b: int| 0 <= a < n && 0 <= b < n implies
            (label@[a] == label@[b] <==> connected(p, g, a, b)) by {
            if label@[a] == label@[b] {
                let st = starts@[label@[a] as int] as int;
                lemma_connected_sym(p, g, st, a);
                lemma_connected_trans(p, g, a, st, b);
            }
            if connected(p, g, a, b) {
                let w = choose|w: Seq<int>| #[trigger] is_walk(p, g, w) && w[0] == a && w.last() == b;
                assert(closed_under_links(p, g, label@));
                lemma_closed_walk(p, g, label@, w);
            }
        }
    }
    (label, starts)
}

/// How many of the first `k` cells satisfy `f`.
pub open spec fn count_upto(f: spec_fn(int) -> bool, k: int) -> nat
    decreases k,
{
    if k <= 0 { 0 } else { count_upto(f, k - 1) + if f(k - 1) { 1nat } else { 0nat } }
}

/// How many of the first `k` cells carry label `j`.
pub open spec fn label_count(label: Seq<usize>, j: int, k: int) -> nat
    decreases k,
{
    if k <= 0 { 0 } else { label_count(label, j, k - 1) + if label[k - 1] == j { 1nat } else { 0nat } }
}

/// Counting a label counts the cells of a condition it marks.
proof fn lemma_label_count(label: Seq<usize>, j: int, f: spec_fn(int) -> bool, k: int)
    requires
        0 <= k <= label.len(),
        forall|x: int| 0 <= x < k ==> (label[x] == j) == #[trigger] f(x),
    ensures
        label_count(label, j, k) == count_upto(f, k),
        label_count(label, j, k) <= k,
    decreases k,
{
    if k > 0 {
        lemma_label_count(label, j, f, k - 1);
    }
}

/// The cells of the piece of `h`, counted.
pub open spec fn piece_size(plate: Seq<u64>, nbrs: Seq<Seq<usize>>, h: int) -> nat {
    count_upto(|c: int| connected(plate, nbrs, h, c), nbrs.len() as int)
}

/// `h` is the least cell of its piece.
pub open spec fn is_root(plate: Seq<u64>, nbrs: Seq<Seq<usize>>, h: int) -> bool {
    &&& 0 <= h < nbrs.len()
    &&& forall|c: int| 0 <= c < nbrs.len() && #[trigger] connected(plate, nbrs, h, c) ==> h <= c
}

/// The piece rooted at `r2` outranks the piece rooted at `r`: it has more
/// cells, or as many and an earlier root.
pub open spec fn outranks(plate: Seq<u64>, nbrs: Seq<Seq<usize>>, r2: int, r: int) -> bool {
    piece_size(plate, nbrs, r2) > piece_size(plate, nbrs, r)
        || (piece_size(plate, nbrs, r2) == piece_size(plate, nbrs, r) && r2 < r)
}

/// `r` roots a fragment: another piece of its plate outranks it, so it is
/// not the plate's body.
pub open spec fn is_fragment_root(plate: Seq<u64>, nbrs: Seq<Seq<usize>>, r: int) -> bool {
    &&& is_root(plate, nbrs, r)
    &&& exists|r2: int| is_root(plate, nbrs, r2) && plate[r2] == plate[r] && #[trigger] outranks(plate, nbrs, r2, r)
}

/// The fragment roots among the first `k` cells, in order.
pub open spec fn fragment_roots_upto(plate: Seq<u64>, nbrs: Seq<Seq<usize>>, k: int) -> Seq<int>
    decreases k,
{
    if k <= 0 {
        Seq::empty()
    } else {
        let prev = fragment_roots_upto(plate, nbrs, k - 1);
        if is_fragment_root(plate, nbrs, k - 1) { prev.push(k - 1) } else { prev }
    }
}

/// The roots of every fragment, in order.
pub open spec fn fragment_roots(plate: Seq<u64>, nbrs: Seq<Seq<usize>>) -> Seq<int> {
    fragment_roots_upto(plate, nbrs, nbrs.len() as int)
}

/// What `pieces` hands back: each cell's piece, and each piece's least cell.
pub open spec fn labels_pieces(plate: Seq<u64>, nbrs: Seq<Seq<usize>>, label: Seq<usize>, starts: Seq<usize>) -> bool {
    &&& label.len() == nbrs.len()
    &&& forall|c: int| 0 <= c < nbrs.len() ==> (#[trigger] label[c]) < starts.len()
    &&& forall|a: int, b: int| 0 <= a < nbrs.len() && 0 <= b < nbrs.len() ==>
            (label[a] == label[b] <==> connected(plate, nbrs, a, b))
    &&& forall|k: int| 0 <= k < starts.len() ==> (#[trigger] starts[k]) < nbrs.len() && label[starts[k] as int] == k
    &&& forall|c: int| 0 <= c < nbrs.len() ==> starts[label[c] as int] <= c
}

/// A cell roots its piece exactly when it is its piece's least cell.
pub(crate) proof fn lemma_root_is_start(plate: Seq<u64>, nbrs: Seq<Seq<usize>>, label: Seq<usize>, starts: Seq<usize>, h: int)
    requires
        labels_pieces(plate, nbrs, label, starts),
        0 <= h < nbrs.len(),
    ensures
        is_root(plate, nbrs, h) <==> starts[label[h] as int] == h,
{
    let st = starts[label[h] as int] as int;
    assert(label[st] == label[h]);
    if is_root(plate, nbrs, h) {
        assert(connected(plate, nbrs, h, st));
    }
    if st == h {
        assert forall|c: int| 0 <= c < nbrs.len() && #[trigger] connected(plate, nbrs, h, c) implies h <= c by {
            assert(label[c] == label[h]);
        }
    }
}

/// The fragment roots, in order.
fn fragment_roots_of(plate: &Vec<u64>, nbrs: &Vec<Vec<usize>>, label: &Vec<usize>, starts: &Vec<usize>) -> (roots: Vec<usize>)
    requires
        plate@.len() == nbrs@.len(),
        labels_pieces(plate@, nbrs@.map_values(|v: Vec<usize>| v@), label@, starts@),
    ensures
        roots@.map_values(|r: usize| r as int) == fragment_roots(plate@, nbrs@.map_values(|v: Vec<usize>| v@)),
{
    let ghost g = nbrs@.map_values(|v: Vec<usize>| v@);
    let ghost p = plate@;
    let n = nbrs.len();
    let kk = starts.len();
    let mut sizes: Vec<usize> = Vec::new();
    let mut k: usize = 0;
    while k < kk
        invariant
            k <= kk,
            kk == starts@.len(),
            sizes@.len() == k,
            forall|j: int| 0 <= j < k ==> #[trigger] sizes@[j] == 0,
        decreases kk - k,
    {
        sizes.push(0);
        k = k + 1;
    }
    let mut c: usize = 0;
    while c < n
        invariant
            c <= n,
            n == g.len(),
            g == nbrs@.map_values(|v: Vec<usize>| v@),
            kk == starts@.len(),
            labels_pieces(p, g, label@, starts@),
            sizes@.len() == kk,
            forall|j: int| 0 <= j < kk ==> #[trigger] sizes@[j] == label_count(label@, j, c as int),
        decreases n - c,
    {
        let j = label[c];
        proof { lemma_label_count(label@, j as int, |x: int| label@[x] == j as int, c as int); }
        let v = sizes[j];
        sizes.set(j, v + 1);
        c = c + 1;
    }
    proof {
        assert forall|j: int| 0 <= j < kk implies #[trigger] sizes@[j] == piece_size(p, g, starts@[j] as int) by {
            let h = starts@[j] as int;
            assert forall|x: int| 0 <= x < n implies (label@[x] == j as int) == connected(p, g, h, x) by {
                assert(label@[h] == j);
            }
            lemma_label_count(label@, j, |x: int| connected(p, g, h, x), n as int);
        }
    }
    let mut fragment: Vec<bool> = Vec::new();
    let mut k: usize = 0;
    while k < kk
        invariant
            k <= kk,
            n == g.len(),
            p == plate@,
            p.len() == n,
            kk == starts@.len(),
            labels_pieces(p, g, label@, starts@),
            sizes@.len() == kk,
            forall|j: int| 0 <= j < kk ==> #[trigger] sizes@[j] == piece_size(p, g, starts@[j] as int),
            fragment@.len() == k,
            forall|j: int| 0 <= j < k ==> (#[trigger] fragment@[j] <==> is_fragment_root(p, g, starts@[j] as int)),
        decreases kk - k,
    {
        let h = starts[k];
        let mut beaten = false;
        let mut k2: usize = 0;
        while k2 < kk
            invariant
                k2 <= kk,
                k < kk,
                h == starts@[k as int],
                n == g.len(),
                p == plate@,
                p.len() == n,
                kk == starts@.len(),
                labels_pieces(p, g, label@, starts@),
                sizes@.len() == kk,
                forall|j: int| 0 <= j < kk ==> #[trigger] sizes@[j] == piece_size(p, g, starts@[j] as int),
                beaten <==> exists|j: int| 0 <= j < k2 && p[starts@[j] as int] == p[h as int]
                    && #[trigger] outranks(p, g, starts@[j] as int, h as int),
            decreases kk - k2,
        {
            let h2 = starts[k2];
            proof {
                assert(sizes@[k2 as int] == piece_size(p, g, h2 as int));
                assert(sizes@[k as int] == piece_size(p, g, h as int));
            }
            if plate[h2] == plate[h] && (sizes[k2] > sizes[k] || (sizes[k2] == sizes[k] && h2 < h)) {
                assert(outranks(p, g, starts@[k2 as int] as int, h as int));
                beaten = true;
            } else {
                assert(!(p[starts@[k2 as int] as int] == p[h as int] && outranks(p, g, starts@[k2 as int] as int, h as int)));
            }
            k2 = k2 + 1;
        }
        proof {
            lemma_root_is_start(p, g, label@, starts@, h as int);
            if beaten {
                let j = choose|j: int| 0 <= j < kk && p[starts@[j] as int] == p[h as int]
                    && #[trigger] outranks(p, g, starts@[j] as int, h as int);
                lemma_root_is_start(p, g, label@, starts@, starts@[j] as int);
            } else if is_fragment_root(p, g, h as int) {
                let r2 = choose|r2: int| is_root(p, g, r2) && p[r2] == p[h as int] && #[trigger] outranks(p, g, r2, h as int);
                lemma_root_is_start(p, g, label@, starts@, r2);
                let j = label@[r2] as int;
                assert(starts@[j] == r2);
                assert(outranks(p, g, starts@[j] as int, h as int));
            }
        }
        fragment.push(beaten);
        k = k + 1;
    }
    let mut roots: Vec<usize> = Vec::new();
    let mut c: usize = 0;
    while c < n
        invariant
            c <= n,
            n == g.len(),
            kk == starts@.len(),
            labels_pieces(p, g, label@, starts@),
            fragment@.len() == kk,
            forall|j: int| 0 <= j < kk ==> (#[trigger] fragment@[j] <==> is_fragment_root(p, g, starts@[j] as int)),
            roots@.map_values(|r: usize| r as int) == fragment_roots_upto(p, g, c as int),
        decreases n - c,
    {
        let j = label[c];
        proof { lemma_root_is_start(p, g, label@, starts@, c as int); }
        if starts[j] == c && fragment[j] {
            roots.push(c);
        }
        proof {
            assert(roots@.map_values(|r: usize| r as int) =~= fragment_roots_upto(p, g, c as int + 1));
        }
        c = c + 1;
    }
    roots
}

/// Every cell has at most six neighbours, as on the hex grid, and there
/// are few enough cells that their votes can be counted.
pub open spec fn hex_graph(nbrs: Seq<Seq<usize>>) -> bool {
    &&& mutual(nbrs)
    &&& nbrs.len() < usize::MAX / 16
    &&& forall|c: int| 0 <= c < nbrs.len() ==> (#[trigger] nbrs[c]).len() <= 6
}

/// The fragment roots come in order, each a fragment root.
proof fn lemma_fragment_roots(plate: Seq<u64>, nbrs: Seq<Seq<usize>>, k: int)
    requires
        0 <= k,
    ensures
        forall|i: int| 0 <= i < fragment_roots_upto(plate, nbrs, k).len() ==> {
            let r = #[trigger] fragment_roots_upto(plate, nbrs, k)[i];
            0 <= r < k && is_fragment_root(plate, nbrs, r)
        },
        forall|i: int, j: int| 0 <= i < j < fragment_roots_upto(plate, nbrs, k).len()
            ==> #[trigger] fragment_roots_upto(plate, nbrs, k)[i] < #[trigger] fragment_roots_upto(plate, nbrs, k)[j],
        forall|r: int| 0 <= r < k && #[trigger] is_fragment_root(plate, nbrs, r) ==> exists|i: int|
            0 <= i < fragment_roots_upto(plate, nbrs, k).len() && fragment_roots_upto(plate, nbrs, k)[i] == r,
    decreases k,
{
    if k > 0 {
        lemma_fragment_roots(plate, nbrs, k - 1);
        assert forall|r: int| 0 <= r < k && #[trigger] is_fragment_root(plate, nbrs, r) implies exists|i: int|
            0 <= i < fragment_roots_upto(plate, nbrs, k).len() && fragment_roots_upto(plate, nbrs, k)[i] == r by {
            let prev = fragment_roots_upto(plate, nbrs, k - 1);
            if r == k - 1 {
                assert(fragment_roots_upto(plate, nbrs, k)[prev.len() as int] == r);
            } else {
                let i = choose|i: int| 0 <= i < prev.len() && prev[i] == r;
                assert(fragment_roots_upto(plate, nbrs, k)[i] == r);
            }
        }
        let prev = fragment_roots_upto(plate, nbrs, k - 1);
        let cur = fragment_roots_upto(plate, nbrs, k);
        if is_fragment_root(plate, nbrs, k - 1) {
            assert(cur == prev.push(k - 1));
            assert forall|i: int| 0 <= i < cur.len() implies {
                let r = #[trigger] cur[i];
                0 <= r < k && is_fragment_root(plate, nbrs, r)
            } by {
                if i < prev.len() {
                    assert(cur[i] == prev[i]);
                }
            }
            assert forall|i: int, j: int| 0 <= i < j < cur.len() implies #[trigger] cur[i] < #[trigger] cur[j] by {
                assert(cur[i] == prev[i]);
                if j < prev.len() {
                    assert(cur[j] == prev[j]);
                } else {
                    assert(prev[i] < k - 1);
                }
            }
        } else {
            assert(cur == prev);
        }
    }
}

/// Two roots of one piece are one root.
pub(crate) proof fn lemma_one_root(plate: Seq<u64>, nbrs: Seq<Seq<usize>>, r: int, r2: int)
    requires
        mutual(nbrs),
        is_root(plate, nbrs, r),
        is_root(plate, nbrs, r2),
        connected(plate, nbrs, r, r2),
    ensures
        r == r2,
{
    lemma_connected_sym(plate, nbrs, r, r2);
}

/// The votes that the neighbours `ms` of a cell in the piece of `h` cast
/// for plate `q`: one for each neighbour outside the piece that stands on
/// `q` now. The pieces are those of `p0`; `cur` is where each cell stands.
pub open spec fn votes_among(p0: Seq<u64>, nbrs: Seq<Seq<usize>>, h: int, cur: Seq<u64>, ms: Seq<usize>, q: u64) -> nat
    decreases ms.len(),
{
    if ms.len() == 0 {
        0
    } else {
        votes_among(p0, nbrs, h, cur, ms.drop_last(), q)
            + if !connected(p0, nbrs, h, ms.last() as int) && cur[ms.last() as int] == q { 1nat } else { 0nat }
    }
}

/// The votes for `q` around the piece of `h`, from its first `k` cells.
pub open spec fn votes_upto(p0: Seq<u64>, nbrs: Seq<Seq<usize>>, h: int, cur: Seq<u64>, q: u64, k: int) -> nat
    decreases k,
{
    if k <= 0 {
        0
    } else {
        votes_upto(p0, nbrs, h, cur, q, k - 1)
            + if connected(p0, nbrs, h, k - 1) { votes_among(p0, nbrs, h, cur, nbrs[k - 1], q) } else { 0nat }
    }
}

/// The votes the cells around the piece of `h` cast for plate `q`.
pub open spec fn votes(p0: Seq<u64>, nbrs: Seq<Seq<usize>>, h: int, cur: Seq<u64>, q: u64) -> nat {
    votes_upto(p0, nbrs, h, cur, q, nbrs.len() as int)
}

/// `w` wins the vote around the piece of `h`: it has votes, and no plate
/// has more, or as many and a lower id.
pub open spec fn is_winner(p0: Seq<u64>, nbrs: Seq<Seq<usize>>, h: int, cur: Seq<u64>, w: u64) -> bool {
    &&& votes(p0, nbrs, h, cur, w) > 0
    &&& forall|q: u64| #[trigger] votes(p0, nbrs, h, cur, q) < votes(p0, nbrs, h, cur, w)
            || (votes(p0, nbrs, h, cur, q) == votes(p0, nbrs, h, cur, w) && w <= q)
}

/// The plate the surroundings of the piece of `h` vote for, if any cell
/// around it stands on a plate.
pub open spec fn winner(p0: Seq<u64>, nbrs: Seq<Seq<usize>>, h: int, cur: Seq<u64>) -> Option<u64> {
    if exists|w: u64| is_winner(p0, nbrs, h, cur, w) {
        Some(choose|w: u64| is_winner(p0, nbrs, h, cur, w))
    } else {
        None
    }
}

/// A vote has one winner at most.
proof fn lemma_winner_unique(p0: Seq<u64>, nbrs: Seq<Seq<usize>>, h: int, cur: Seq<u64>, a: u64, b: u64)
    requires
        is_winner(p0, nbrs, h, cur, a),
        is_winner(p0, nbrs, h, cur, b),
    ensures
        a == b,
{
    assert(votes(p0, nbrs, h, cur, b) < votes(p0, nbrs, h, cur, a)
        || (votes(p0, nbrs, h, cur, b) == votes(p0, nbrs, h, cur, a) && a <= b));
    assert(votes(p0, nbrs, h, cur, a) < votes(p0, nbrs, h, cur, b)
        || (votes(p0, nbrs, h, cur, a) == votes(p0, nbrs, h, cur, b) && b <= a));
}

/// How many of the first `k` cells of the piece of `h` stand off plate `w`.
pub open spec fn moved_upto(p0: Seq<u64>, nbrs: Seq<Seq<usize>>, h: int, cur: Seq<u64>, w: u64, k: int) -> nat
    decreases k,
{
    if k <= 0 {
        0
    } else {
        moved_upto(p0, nbrs, h, cur, w, k - 1) + if connected(p0, nbrs, h, k - 1) && cur[k - 1] != w { 1nat } else { 0nat }
    }
}

/// One fragment settled: its cells go over to the plate its surroundings
/// vote for, and the count is of the cells that moved. A fragment with no
/// plate around it stays.
pub open spec fn settle(p0: Seq<u64>, nbrs: Seq<Seq<usize>>, h: int, cur: Seq<u64>) -> (Seq<u64>, nat) {
    match winner(p0, nbrs, h, cur) {
        None => (cur, 0),
        Some(w) => (
            Seq::new(cur.len(), |c: int| if connected(p0, nbrs, h, c) { w } else { cur[c] }),
            moved_upto(p0, nbrs, h, cur, w, nbrs.len() as int),
        ),
    }
}

/// The fragments rooted at `roots` settled in turn, each reading the plates
/// the ones before it left, with the cells moved counted.
pub open spec fn settle_all(p0: Seq<u64>, nbrs: Seq<Seq<usize>>, roots: Seq<int>, cur: Seq<u64>) -> (Seq<u64>, nat)
    decreases roots.len(),
{
    if roots.len() == 0 {
        (cur, 0)
    } else {
        let before = settle_all(p0, nbrs, roots.drop_last(), cur);
        let last = settle(p0, nbrs, roots.last(), before.0);
        (last.0, before.1 + last.1)
    }
}

/// One round of correction: every fragment settled, in the order of its
/// least cell, and the number of cells that changed plate.
pub open spec fn round(p0: Seq<u64>, nbrs: Seq<Seq<usize>>) -> (Seq<u64>, nat) {
    settle_all(p0, nbrs, fragment_roots(p0, nbrs), p0)
}

/// How many of the first `k` cells stand off their plate in `p0`.
pub open spec fn differ_upto(cur: Seq<u64>, p0: Seq<u64>, k: int) -> nat
    decreases k,
{
    if k <= 0 { 0 } else { differ_upto(cur, p0, k - 1) + if cur[k - 1] != p0[k - 1] { 1nat } else { 0nat } }
}

/// Moving one cell off its plate counts it.
proof fn lemma_differ_update(cur: Seq<u64>, p0: Seq<u64>, i: int, v: u64, k: int)
    requires
        0 <= i < cur.len(),
        cur.len() == p0.len(),
        cur[i] == p0[i],
        v != p0[i],
        0 <= k <= cur.len(),
    ensures
        differ_upto(cur.update(i, v), p0, k) == differ_upto(cur, p0, k) + (if i < k { 1int } else { 0int }),
        differ_upto(cur, p0, k) <= k,
    decreases k,
{
    if k > 0 {
        lemma_differ_update(cur, p0, i, v, k - 1);
    }
}

/// No more cells differ than there are.
proof fn lemma_differ_bound(cur: Seq<u64>, p0: Seq<u64>, k: int)
    requires
        0 <= k,
    ensures
        differ_upto(cur, p0, k) <= k,
    decreases k,
{
    if k > 0 {
        lemma_differ_bound(cur, p0, k - 1);
    }
}

/// One more vote for plate `q` in a tally of distinct plates.
fn add_vote(keys: &mut Vec<u64>, counts: &mut Vec<usize>, q: u64)
    requires
        old(keys)@.len() == old(counts)@.len(),
        old(keys)@.no_duplicates(),
        forall|j: int| 0 <= j < old(counts)@.len() ==> #[trigger] old(counts)@[j] < usize::MAX,
    ensures
        final(keys)@.len() == final(counts)@.len(),
        final(keys)@.no_duplicates(),
        final(keys)@.contains(q),
        final(keys)@.len() == old(keys)@.len() + (if old(keys)@.contains(q) { 0int } else { 1int }),
        forall|j: int| 0 <= j < old(keys)@.len() ==> #[trigger] final(keys)@[j] == old(keys)@[j],
        forall|j: int| 0 <= j < old(keys)@.len()
            ==> #[trigger] final(counts)@[j] == old(counts)@[j] + (if old(keys)@[j] == q { 1int } else { 0int }),
        !old(keys)@.contains(q) ==> final(keys)@.last() == q && final(counts)@.last() == 1,
{
    let mut i: usize = 0;
    while i < keys.len()
        invariant
            i <= keys@.len(),
            keys@ == old(keys)@,
            counts@ == old(counts)@,
            keys@.len() == counts@.len(),
            keys@.no_duplicates(),
            forall|j: int| 0 <= j < counts@.len() ==> #[trigger] counts@[j] < usize::MAX,
            forall|j: int| 0 <= j < i ==> keys@[j] != q,
        decreases keys@.len() - i,
    {
        if keys[i] == q {
            let v = counts[i];
            counts.set(i, v + 1);
            proof {
                assert(keys@.contains(q)) by { assert(keys@[i as int] == q); }
                assert forall|j: int| 0 <= j < keys@.len() && j != i implies keys@[j] != q by {}
            }
            return;
        }
        i = i + 1;
    }
    proof {
        assert(!keys@.contains(q));
    }
    keys.push(q);
    counts.push(1);
    proof {
        assert(keys@.last() == q);
        assert(keys@.contains(q)) by { assert(keys@[keys@.len() - 1] == q); }
    }
}

/// The vote around the piece of `h`: a tally of each plate standing next to
/// the piece, then the plate with most, ties to the lower id.
fn vote(cur: &Vec<u64>, nbrs: &Vec<Vec<usize>>, label: &Vec<usize>, h: usize, Ghost(p0): Ghost<Seq<u64>>) -> (w: Option<u64>)
    requires
        hex_graph(nbrs@.map_values(|v: Vec<usize>| v@)),
        cur@.len() == nbrs@.len(),
        label@.len() == nbrs@.len(),
        h < nbrs@.len(),
        forall|a: int, b: int| 0 <= a < nbrs@.len() && 0 <= b < nbrs@.len() ==>
            (label@[a] == label@[b] <==> connected(p0, nbrs@.map_values(|v: Vec<usize>| v@), a, b)),
    ensures
        w == winner(p0, nbrs@.map_values(|v: Vec<usize>| v@), h as int, cur@),
{
    let ghost g = nbrs@.map_values(|v: Vec<usize>| v@);
    let ghost hh = h as int;
    let ghost cs = cur@;
    let n = nbrs.len();
    let lh = label[h];
    let mut keys: Vec<u64> = Vec::new();
    let mut counts: Vec<usize> = Vec::new();
    let mut c: usize = 0;
    while c < n
        invariant
            c <= n,
            n == g.len(),
            g == nbrs@.map_values(|v: Vec<usize>| v@),
            hex_graph(g),
            cs == cur@,
            cs.len() == n,
            label@.len() == n,
            h < n,
            hh == h as int,
            lh == label@[h as int],
            forall|a: int, b: int| 0 <= a < n && 0 <= b < n ==> (label@[a] == label@[b] <==> connected(p0, g, a, b)),
            keys@.len() == counts@.len(),
            keys@.no_duplicates(),
            forall|i: int| 0 <= i < keys@.len() ==> #[trigger] counts@[i] == votes_upto(p0, g, hh, cs, keys@[i], c as int)
                && counts@[i] > 0,
            forall|q: u64| !keys@.contains(q) ==> #[trigger] votes_upto(p0, g, hh, cs, q, c as int) == 0,
            forall|q: u64| #[trigger] votes_upto(p0, g, hh, cs, q, c as int) <= 6 * c,
        decreases n - c,
    {
        let inside = label[c] == lh;
        proof { assert(inside == connected(p0, g, hh, c as int)); }
        let nc = &nbrs[c];
        assert(nc@ == g[c as int]);
        let mut t: usize = 0;
        while t < nc.len()
            invariant
                c < n,
                n == g.len(),
                g == nbrs@.map_values(|v: Vec<usize>| v@),
                hex_graph(g),
                nc@ == g[c as int],
                t <= nc@.len(),
                cs == cur@,
                cs.len() == n,
                label@.len() == n,
                h < n,
                hh == h as int,
                lh == label@[h as int],
                inside == connected(p0, g, hh, c as int),
                forall|a: int, b: int| 0 <= a < n && 0 <= b < n ==> (label@[a] == label@[b] <==> connected(p0, g, a, b)),
                keys@.len() == counts@.len(),
                keys@.no_duplicates(),
                forall|i: int| 0 <= i < keys@.len() ==> #[trigger] counts@[i] == votes_upto(p0, g, hh, cs, keys@[i], c as int)
                    + (if inside { votes_among(p0, g, hh, cs, nc@.take(t as int), keys@[i]) } else { 0nat })
                    && counts@[i] > 0,
                forall|q: u64| !keys@.contains(q) ==> #[trigger] votes_upto(p0, g, hh, cs, q, c as int)
                    + (if inside { votes_among(p0, g, hh, cs, nc@.take(t as int), q) } else { 0nat }) == 0,
                forall|q: u64| #[trigger] votes_upto(p0, g, hh, cs, q, c as int) <= 6 * c,
                forall|q: u64| #[trigger] votes_among(p0, g, hh, cs, nc@.take(t as int), q) <= t,
            decreases nc@.len() - t,
        {
            let m = nc[t];
            let ghost before_t = nc@.take(t as int);
            let ghost after_t = nc@.take(t as int + 1);
            proof {
                assert(g[c as int][t as int] == m);
                assert(m < n);
                assert(after_t.drop_last() =~= before_t);
                assert(after_t.last() == m);
                assert((label@[m as int] == lh) == connected(p0, g, hh, m as int));
                assert forall|q: u64| #[trigger] votes_among(p0, g, hh, cs, after_t, q)
                    == votes_among(p0, g, hh, cs, before_t, q)
                        + (if !connected(p0, g, hh, m as int) && cs[m as int] == q { 1nat } else { 0nat }) by {}
            }
            if inside && label[m] != lh {
                let q = cur[m];
                let ghost k0 = keys@;
                let ghost c0 = counts@;
                proof {
                    assert forall|j: int| 0 <= j < counts@.len() implies #[trigger] counts@[j] < usize::MAX by {
                        assert(votes_upto(p0, g, hh, cs, keys@[j], c as int) <= 6 * c);
                        assert(votes_among(p0, g, hh, cs, before_t, keys@[j]) <= t);
                        assert(t < 6) by { assert(g[c as int].len() <= 6); }
                    }
                }
                add_vote(&mut keys, &mut counts, q);
                proof {
                    assert forall|i: int| 0 <= i < keys@.len() implies #[trigger] counts@[i] == votes_upto(p0, g, hh, cs, keys@[i], c as int)
                        + votes_among(p0, g, hh, cs, after_t, keys@[i]) && counts@[i] > 0 by {
                        if i < k0.len() {
                            assert(c0[i] == votes_upto(p0, g, hh, cs, k0[i], c as int)
                                + votes_among(p0, g, hh, cs, before_t, k0[i]));
                        } else {
                            assert(!k0.contains(q));
                            assert(keys@[i] == q);
                            assert(votes_upto(p0, g, hh, cs, q, c as int) + votes_among(p0, g, hh, cs, before_t, q) == 0);
                        }
                    }
                    assert forall|qq: u64| !keys@.contains(qq) implies #[trigger] votes_upto(p0, g, hh, cs, qq, c as int)
                        + votes_among(p0, g, hh, cs, after_t, qq) == 0 by {
                        assert(qq != q);
                        if k0.contains(qq) {
                            let j = choose|j: int| 0 <= j < k0.len() && k0[j] == qq;
                            assert(keys@[j] == qq);
                        }
                    }
                }
            }
            t = t + 1;
        }
        proof {
            assert(nc@.take(nc@.len() as int) =~= nc@);
            assert(nc@.len() <= 6);
            assert forall|q: u64| #[trigger] votes_upto(p0, g, hh, cs, q, c as int + 1)
                == votes_upto(p0, g, hh, cs, q, c as int)
                    + (if inside { votes_among(p0, g, hh, cs, nc@, q) } else { 0nat }) by {}
        }
        c = c + 1;
    }
    let mut best: usize = 0;
    let mut k: usize = 1;
    while k < keys.len()
        invariant
            keys@.len() == counts@.len(),
            1 <= k,
            k <= keys@.len() || keys@.len() == 0,
            keys@.len() > 0 ==> best < keys@.len(),
            keys@.len() > 0 ==> forall|j: int| 0 <= j < k ==> #[trigger] counts@[j] < counts@[best as int]
                || (counts@[j] == counts@[best as int] && keys@[best as int] <= keys@[j]),
        decreases keys@.len() - k,
    {
        if counts[k] > counts[best] || (counts[k] == counts[best] && keys[k] < keys[best]) {
            best = k;
        }
        k = k + 1;
    }
    if keys.len() == 0 {
        proof {
            assert forall|w: u64| !is_winner(p0, g, hh, cs, w) by {
                assert(!keys@.contains(w));
            }
        }
        None
    } else {
        let w = keys[best];
        proof {
            assert forall|q: u64| #[trigger] votes(p0, g, hh, cs, q) < votes(p0, g, hh, cs, w)
                || (votes(p0, g, hh, cs, q) == votes(p0, g, hh, cs, w) && w <= q) by {
                if keys@.contains(q) {
                    let j = choose|j: int| 0 <= j < keys@.len() && keys@[j] == q;
                    assert(counts@[j] == votes(p0, g, hh, cs, q));
                }
            }
            assert(is_winner(p0, g, hh, cs, w));
            let w2 = choose|w2: u64| is_winner(p0, g, hh, cs, w2);
            lemma_winner_unique(p0, g, hh, cs, w, w2);
        }
        Some(w)
    }
}

/// Settles the fragment of `h`: its cells go over to the plate its
/// surroundings vote for. Its cells still stand where they stood at the
/// start of the round.
fn settle_piece(plate: &mut Vec<u64>, nbrs: &Vec<Vec<usize>>, label: &Vec<usize>, h: usize, Ghost(p0): Ghost<Seq<u64>>) -> (moved: usize)
    requires
        hex_graph(nbrs@.map_values(|v: Vec<usize>| v@)),
        old(plate)@.len() == nbrs@.len(),
        p0.len() == nbrs@.len(),
        label@.len() == nbrs@.len(),
        h < nbrs@.len(),
        forall|a: int, b: int| 0 <= a < nbrs@.len() && 0 <= b < nbrs@.len() ==>
            (label@[a] == label@[b] <==> connected(p0, nbrs@.map_values(|v: Vec<usize>| v@), a, b)),
        forall|x: int| 0 <= x < nbrs@.len() && connected(p0, nbrs@.map_values(|v: Vec<usize>| v@), h as int, x)
            ==> old(plate)@[x] == p0[x],
    ensures
        (final(plate)@, moved as nat) == settle(p0, nbrs@.map_values(|v: Vec<usize>| v@), h as int, old(plate)@),
        differ_upto(final(plate)@, p0, nbrs@.len() as int) == differ_upto(old(plate)@, p0, nbrs@.len() as int) + moved,
{
    let ghost g = nbrs@.map_values(|v: Vec<usize>| v@);
    let ghost hh = h as int;
    let ghost before = plate@;
    let n = nbrs.len();
    let w = vote(plate, nbrs, label, h, Ghost(p0));
    let mut moved: usize = 0;
    match w {
        None => {},
        Some(w) => {
            let lh = label[h];
            let mut c: usize = 0;
            proof { lemma_differ_bound(before, p0, n as int); }
            while c < n
                invariant
                    c <= n,
                    n == g.len(),
                    p0.len() == n,
                    before.len() == n,
                    plate@.len() == n,
                    label@.len() == n,
                    hh == h as int,
                    0 <= hh < n,
                    lh == label@[hh],
                    forall|a: int, b: int| 0 <= a < n && 0 <= b < n ==> (label@[a] == label@[b] <==> connected(p0, g, a, b)),
                    forall|x: int| 0 <= x < n && connected(p0, g, hh, x) ==> before[x] == p0[x],
                    forall|x: int| 0 <= x < c ==> #[trigger] plate@[x] == (if connected(p0, g, hh, x) { w } else { before[x] }),
                    forall|x: int| c <= x < n ==> #[trigger] plate@[x] == before[x],
                    moved == moved_upto(p0, g, hh, before, w, c as int),
                    differ_upto(plate@, p0, n as int) == differ_upto(before, p0, n as int) + moved,
                    differ_upto(plate@, p0, n as int) <= n,
                decreases n - c,
            {
                proof { assert((label@[c as int] == lh) == connected(p0, g, hh, c as int)); }
                if label[c] == lh && plate[c] != w {
                    proof {
                        lemma_differ_update(plate@, p0, c as int, w, n as int);
                        lemma_differ_bound(plate@.update(c as int, w), p0, n as int);
                    }
                    plate.set(c, w);
                    moved = moved + 1;
                }
                c = c + 1;
            }
            proof {
                assert(plate@ =~= Seq::new(before.len(), |x: int| if connected(p0, g, hh, x) { w } else { before[x] }));
            }
        },
    }
    moved
}

/// Cells of a fragment not yet settled stand where they stood: the
/// fragments settled so far are other pieces.
proof fn lemma_untouched(p0: Seq<u64>, g: Seq<Seq<usize>>, rs: Seq<int>, i: int, cur: Seq<u64>)
    requires
        mutual(g),
        0 <= i < rs.len(),
        forall|t: int| 0 <= t < rs.len() ==> is_fragment_root(p0, g, #[trigger] rs[t]),
        forall|t: int, u: int| 0 <= t < u < rs.len() ==> #[trigger] rs[t] < #[trigger] rs[u],
        forall|c: int| 0 <= c < g.len() && (forall|t: int| 0 <= t < i ==> !connected(p0, g, #[trigger] rs[t], c))
            ==> cur[c] == p0[c],
    ensures
        forall|x: int| 0 <= x < g.len() && connected(p0, g, rs[i], x) ==> cur[x] == p0[x],
{
    let h = rs[i];
    assert forall|x: int| 0 <= x < g.len() && connected(p0, g, h, x) implies cur[x] == p0[x] by {
        assert forall|t: int| 0 <= t < i implies !connected(p0, g, #[trigger] rs[t], x) by {
            if connected(p0, g, rs[t], x) {
                lemma_connected_sym(p0, g, h, x);
                lemma_connected_trans(p0, g, rs[t], x, h);
                lemma_one_root(p0, g, rs[t], h);
                assert(rs[t] < rs[i]);
            }
        }
    }
}

/// One round of correction over every plate's pieces: each fragment, in the
/// order of its least cell, goes over to the plate that most of the cells
/// around it stand on, ties to the lower plate id, reading the plates the
/// fragments before it left; a fragment with nothing around it stays.
/// Returns how many cells changed plate.
pub fn cc_round(plate: &mut Vec<u64>, nbrs: &Vec<Vec<usize>>) -> (count: usize)
    requires
        old(plate)@.len() == nbrs@.len(),
        hex_graph(nbrs@.map_values(|v: Vec<usize>| v@)),
    ensures
        (final(plate)@, count as nat) == round(old(plate)@, nbrs@.map_values(|v: Vec<usize>| v@)),
        final(plate)@.len() == old(plate)@.len(),
        count == differ_upto(final(plate)@, old(plate)@, nbrs@.len() as int),
        count <= nbrs@.len(),
{
    let ghost g = nbrs@.map_values(|v: Vec<usize>| v@);
    let ghost p0 = plate@;
    let n = nbrs.len();
    let (label, starts) = pieces(plate, nbrs);
    let roots = fragment_roots_of(plate, nbrs, &label, &starts);
    let ghost rs = roots@.map_values(|r: usize| r as int);
    proof {
        lemma_fragment_roots(p0, g, n as int);
        lemma_no_differ(p0, n as int);
    }
    let mut count: usize = 0;
    let mut i: usize = 0;
    while i < roots.len()
        invariant
            i <= roots@.len(),
            n == g.len(),
            g == nbrs@.map_values(|v: Vec<usize>| v@),
            hex_graph(g),
            p0.len() == n,
            rs == roots@.map_values(|r: usize| r as int),
            rs == fragment_roots(p0, g),
            forall|t: int| 0 <= t < rs.len() ==> 0 <= #[trigger] rs[t] < n && is_fragment_root(p0, g, rs[t]),
            forall|t: int, u: int| 0 <= t < u < rs.len() ==> #[trigger] rs[t] < #[trigger] rs[u],
            labels_pieces(p0, g, label@, starts@),
            plate@.len() == n,
            (plate@, count as nat) == settle_all(p0, g, rs.take(i as int), p0),
            count == differ_upto(plate@, p0, n as int),
            forall|c: int| 0 <= c < n && (forall|t: int| 0 <= t < i ==> !connected(p0, g, #[trigger] rs[t], c))
                ==> plate@[c] == p0[c],
        decreases roots@.len() - i,
    {
        let h = roots[i];
        let ghost before = plate@;
        proof {
            assert(rs[i as int] == h as int);
            assert(rs.take(i as int + 1).drop_last() =~= rs.take(i as int));
            assert(rs.take(i as int + 1).last() == h as int);
            lemma_untouched(p0, g, rs, i as int, before);
            lemma_differ_bound(before, p0, n as int);
        }
        let moved = settle_piece(plate, nbrs, &label, h, Ghost(p0));
        proof { lemma_differ_bound(plate@, p0, n as int); }
        count = count + moved;
        proof {
            assert forall|c: int| 0 <= c < n && (forall|t: int| 0 <= t < i + 1 ==> !connected(p0, g, #[trigger] rs[t], c))
                implies plate@[c] == p0[c] by {
                assert(!connected(p0, g, rs[i as int], c));
                assert forall|t: int| 0 <= t < i implies !connected(p0, g, #[trigger] rs[t], c) by {
                    assert(0 <= t < i + 1);
                }
            }
        }
        i = i + 1;
    }
    proof {
        assert(rs.take(roots@.len() as int) =~= rs);
        lemma_differ_bound(plate@, p0, n as int);
    }
    count
}

/// Nothing differs from itself.
proof fn lemma_no_differ(p0: Seq<u64>, k: int)
    ensures
        differ_upto(p0, p0, k) == 0,
    decreases k,
{
    if k > 0 {
        lemma_no_differ(p0, k - 1);
    }
}

/// Cells of one piece stand on one plate.
proof fn lemma_piece_plate(plate: Seq<u64>, nbrs: Seq<Seq<usize>>, a: int, b: int)
    requires
        connected(plate, nbrs, a, b),
    ensures
        plate[a] == plate[b],
{
    let w = choose|w: Seq<int>| #[trigger] is_walk(plate, nbrs, w) && w[0] == a && w.last() == b;
    lemma_walk_plate(plate, nbrs, w);
}

/// A walk stays on its first cell's plate.
proof fn lemma_walk_plate(plate: Seq<u64>, nbrs: Seq<Seq<usize>>, w: Seq<int>)
    requires
        is_walk(plate, nbrs, w),
    ensures
        plate[w.last()] == plate[w[0]],
    decreases w.len(),
{
    if w.len() > 1 {
        let v = w.drop_last();
        assert forall|i: int| 0 <= i < v.len() - 1 implies link(plate, nbrs, #[trigger] v[i], v[i + 1]) by {
            assert(v[i] == w[i] && v[i + 1] == w[i + 1]);
        }
        assert(is_walk(plate, nbrs, v));
        lemma_walk_plate(plate, nbrs, v);
        assert(link(plate, nbrs, w[w.len() - 2], w[w.len() - 1]));
    }
}

/// A vote cast among neighbours `ms` comes from one of them.
proof fn lemma_vote_among_source(p0: Seq<u64>, nbrs: Seq<Seq<usize>>, h: int, cur: Seq<u64>, ms: Seq<usize>, q: u64)
    requires
        votes_among(p0, nbrs, h, cur, ms, q) > 0,
    ensures
        exists|t: int| 0 <= t < ms.len() && !connected(p0, nbrs, h, #[trigger] ms[t] as int) && cur[ms[t] as int] == q,
    decreases ms.len(),
{
    let last = ms.last();
    if !(!connected(p0, nbrs, h, last as int) && cur[last as int] == q) {
        lemma_vote_among_source(p0, nbrs, h, cur, ms.drop_last(), q);
        let t = choose|t: int| 0 <= t < ms.drop_last().len() && !connected(p0, nbrs, h, #[trigger] ms.drop_last()[t] as int)
            && cur[ms.drop_last()[t] as int] == q;
        assert(ms[t] == ms.drop_last()[t]);
    } else {
        assert(ms[ms.len() - 1] == last);
    }
}

/// A vote comes from a neighbour outside the piece, next to a cell in it.
proof fn lemma_vote_source(p0: Seq<u64>, nbrs: Seq<Seq<usize>>, h: int, cur: Seq<u64>, q: u64, k: int)
    requires
        votes_upto(p0, nbrs, h, cur, q, k) > 0,
    ensures
        exists|c: int, t: int| 0 <= c < k && connected(p0, nbrs, h, c) && 0 <= t < nbrs[c].len()
            && !connected(p0, nbrs, h, #[trigger] nbrs[c][t] as int) && cur[nbrs[c][t] as int] == q,
    decreases k,
{
    if connected(p0, nbrs, h, k - 1) && votes_among(p0, nbrs, h, cur, nbrs[k - 1], q) > 0 {
        lemma_vote_among_source(p0, nbrs, h, cur, nbrs[k - 1], q);
        let t = choose|t: int| 0 <= t < nbrs[k - 1].len() && !connected(p0, nbrs, h, #[trigger] nbrs[k - 1][t] as int)
            && cur[nbrs[k - 1][t] as int] == q;
        assert(0 <= k - 1 < k);
    } else {
        lemma_vote_source(p0, nbrs, h, cur, q, k - 1);
        let (c, t) = choose|c: int, t: int| 0 <= c < k - 1 && connected(p0, nbrs, h, c) && 0 <= t < nbrs[c].len()
            && !connected(p0, nbrs, h, #[trigger] nbrs[c][t] as int) && cur[nbrs[c][t] as int] == q;
        assert(0 <= c < k);
    }
}

/// Voting on the plates the pieces were cut from, a fragment's winner is
/// never its own plate: a neighbour on its own plate would be in it.
pub proof fn lemma_winner_elsewhere(p: Seq<u64>, nbrs: Seq<Seq<usize>>, h: int, w: u64)
    requires
        mutual(nbrs),
        0 <= h < nbrs.len(),
        is_winner(p, nbrs, h, p, w),
    ensures
        forall|x: int| 0 <= x < nbrs.len() && #[trigger] connected(p, nbrs, h, x) ==> p[x] != w,
{
    lemma_vote_source(p, nbrs, h, p, w, nbrs.len() as int);
    let (c, t) = choose|c: int, t: int| 0 <= c < nbrs.len() && connected(p, nbrs, h, c) && 0 <= t < nbrs[c].len()
        && !connected(p, nbrs, h, #[trigger] nbrs[c][t] as int) && p[nbrs[c][t] as int] == w;
    let m = nbrs[c][t] as int;
    assert(m < nbrs.len());
    assert forall|x: int| 0 <= x < nbrs.len() && #[trigger] connected(p, nbrs, h, x) implies p[x] != w by {
        lemma_piece_plate(p, nbrs, h, x);
        lemma_piece_plate(p, nbrs, h, c);
        if p[c] == w {
            assert(nbrs[c].contains(m as usize)) by { assert(nbrs[c][t] == m as usize); }
            assert(link(p, nbrs, c, m));
            lemma_connected_step(p, nbrs, h, c, m);
        }
    }
}

/// The root of the piece holding `c`: its least cell.
pub open spec fn piece_root(plate: Seq<u64>, nbrs: Seq<Seq<usize>>, c: int) -> int {
    choose|h: int| is_root(plate, nbrs, h) && connected(plate, nbrs, h, c)
}

/// The sweep: every cell of a fragment goes over to the plate its
/// surroundings vote for, or, with no plate around it, is dropped; every
/// other cell keeps its plate.
pub open spec fn swept(plate: Seq<u64>, nbrs: Seq<Seq<usize>>) -> Seq<Option<u64>> {
    Seq::new(nbrs.len(), |c: int|
        if is_fragment_root(plate, nbrs, piece_root(plate, nbrs, c)) {
            winner(plate, nbrs, piece_root(plate, nbrs, c), plate)
        } else {
            Some(plate[c])
        })
}

/// How many of the first `k` cells the sweep hands to another plate.
pub open spec fn handed_upto(out: Seq<Option<u64>>, plate: Seq<u64>, k: int) -> nat
    decreases k,
{
    if k <= 0 {
        0
    } else {
        handed_upto(out, plate, k - 1) + if out[k - 1] is Some && out[k - 1] != Some(plate[k - 1]) { 1nat } else { 0nat }
    }
}

/// Handing one more cell on counts it.
proof fn lemma_handed_update(out: Seq<Option<u64>>, plate: Seq<u64>, i: int, v: Option<u64>, k: int)
    requires
        0 <= i < out.len(),
        out[i] == Some(plate[i]),
        0 <= k <= out.len(),
    ensures
        handed_upto(out.update(i, v), plate, k) == handed_upto(out, plate, k)
            + (if i < k && v is Some && v != Some(plate[i]) { 1int } else { 0int }),
    decreases k,
{
    if k > 0 {
        lemma_handed_update(out, plate, i, v, k - 1);
    }
}

/// No more cells are handed on than there are.
proof fn lemma_handed_bound(out: Seq<Option<u64>>, plate: Seq<u64>, k: int)
    requires
        0 <= k,
    ensures
        handed_upto(out, plate, k) <= k,
    decreases k,
{
    if k > 0 {
        lemma_handed_bound(out, plate, k - 1);
    }
}

/// Nothing is handed on where every cell keeps its plate.
proof fn lemma_handed_none(plate: Seq<u64>, k: int)
    requires
        0 <= k <= plate.len(),
    ensures
        handed_upto(Seq::new(plate.len(), |c: int| Some(plate[c])), plate, k) == 0,
    decreases k,
{
    if k > 0 {
        lemma_handed_none(plate, k - 1);
    }
}

/// A cell's piece root is the least cell its label names.
proof fn lemma_piece_root(plate: Seq<u64>, nbrs: Seq<Seq<usize>>, label: Seq<usize>, starts: Seq<usize>, c: int)
    requires
        mutual(nbrs),
        labels_pieces(plate, nbrs, label, starts),
        0 <= c < nbrs.len(),
    ensures
        piece_root(plate, nbrs, c) == starts[label[c] as int],
{
    let st = starts[label[c] as int] as int;
    lemma_root_is_start(plate, nbrs, label, starts, st);
    assert(label[st] == label[c]);
    assert(is_root(plate, nbrs, st) && connected(plate, nbrs, st, c));
    let h = piece_root(plate, nbrs, c);
    lemma_connected_sym(plate, nbrs, h, c);
    lemma_connected_trans(plate, nbrs, st, c, h);
    lemma_one_root(plate, nbrs, st, h);
}

/// The final sweep over plates the rounds have settled: each fragment goes
/// to the plate its surroundings vote for, all read from the plates as they
/// stand, and a fragment with no plate around it is dropped. Returns each
/// cell's plate, `None` where dropped, and how many cells went to another
/// plate.
pub fn sweep(plate: &Vec<u64>, nbrs: &Vec<Vec<usize>>) -> (res: (Vec<Option<u64>>, usize))
    requires
        plate@.len() == nbrs@.len(),
        hex_graph(nbrs@.map_values(|v: Vec<usize>| v@)),
    ensures
        res.0@ == swept(plate@, nbrs@.map_values(|v: Vec<usize>| v@)),
        res.1 == handed_upto(res.0@, plate@, nbrs@.len() as int),
        res.1 <= nbrs@.len(),
{
    let ghost g = nbrs@.map_values(|v: Vec<usize>| v@);
    let ghost p = plate@;
    let n = nbrs.len();
    let (label, starts) = pieces(plate, nbrs);
    let roots = fragment_roots_of(plate, nbrs, &label, &starts);
    let ghost rs = roots@.map_values(|r: usize| r as int);
    proof { lemma_fragment_roots(p, g, n as int); }
    let mut out: Vec<Option<u64>> = Vec::new();
    let mut c: usize = 0;
    while c < n
        invariant
            c <= n,
            p == plate@,
            p.len() == n,
            out@.len() == c,
            forall|x: int| 0 <= x < c ==> #[trigger] out@[x] == Some(p[x]),
        decreases n - c,
    {
        out.push(Some(plate[c]));
        c = c + 1;
    }
    proof {
        assert(out@ =~= Seq::new(p.len(), |c: int| Some(p[c])));
        lemma_handed_none(p, n as int);
    }
    let mut count: usize = 0;
    let mut i: usize = 0;
    while i < roots.len()
        invariant
            i <= roots@.len(),
            n == g.len(),
            g == nbrs@.map_values(|v: Vec<usize>| v@),
            hex_graph(g),
            p == plate@,
            p.len() == n,
            rs == roots@.map_values(|r: usize| r as int),
            rs == fragment_roots(p, g),
            forall|t: int| 0 <= t < rs.len() ==> 0 <= #[trigger] rs[t] < n && is_fragment_root(p, g, rs[t]),
            forall|t: int, u: int| 0 <= t < u < rs.len() ==> #[trigger] rs[t] < #[trigger] rs[u],
            labels_pieces(p, g, label@, starts@),
            out@.len() == n,
            count == handed_upto(out@, p, n as int),
            count <= n,
            forall|x: int| 0 <= x < n ==> #[trigger] out@[x] == if exists|t: int| 0 <= t < i && #[trigger] connected(p, g, rs[t], x) {
                winner(p, g, piece_root(p, g, x), p)
            } else {
                Some(p[x])
            },
        decreases roots@.len() - i,
    {
        let h = roots[i];
        let ghost hh = h as int;
        proof { assert(rs[i as int] == hh); }
        let w = vote(plate, nbrs, &label, h, Ghost(p));
        let lh = label[h];
        let mut c: usize = 0;
        proof {
            assert(rs[i as int] == hh);
            if w is Some {
                let w2 = choose|w2: u64| is_winner(p, g, hh, p, w2);
                lemma_winner_elsewhere(p, g, hh, w2);
            }
        }
        let ghost oi = out@;
        proof {
            assert forall|x: int| 0 <= x < n && connected(p, g, hh, x) implies oi[x] == Some(p[x]) by {
                assert forall|t: int| 0 <= t < i implies !connected(p, g, #[trigger] rs[t], x) by {
                    if connected(p, g, rs[t], x) {
                        lemma_connected_sym(p, g, hh, x);
                        lemma_connected_trans(p, g, rs[t], x, hh);
                        lemma_one_root(p, g, rs[t], hh);
                        assert(rs[t] < rs[i as int]);
                    }
                }
            }
        }
        while c < n
            invariant
                c <= n,
                n == g.len(),
                hex_graph(g),
                p.len() == n,
                label@.len() == n,
                out@.len() == n,
                oi.len() == n,
                hh == h as int,
                0 <= hh < n,
                lh == label@[hh],
                forall|a: int, b: int| 0 <= a < n && 0 <= b < n ==> (label@[a] == label@[b] <==> connected(p, g, a, b)),
                w == winner(p, g, hh, p),
                w matches Some(ww) ==> forall|x: int| 0 <= x < n && #[trigger] connected(p, g, hh, x) ==> p[x] != ww,
                forall|x: int| 0 <= x < n && connected(p, g, hh, x) ==> oi[x] == Some(p[x]),
                forall|x: int| 0 <= x < c ==> #[trigger] out@[x] == if connected(p, g, hh, x) { w } else { oi[x] },
                forall|x: int| c <= x < n ==> #[trigger] out@[x] == oi[x],
                count == handed_upto(out@, p, n as int),
                count <= n,
            decreases n - c,
        {
            proof { assert((label@[c as int] == lh) == connected(p, g, hh, c as int)); }
            if label[c] == lh {
                proof {
                    lemma_handed_update(out@, p, c as int, w, n as int);
                    lemma_handed_bound(out@.update(c as int, w), p, n as int);
                }
                out.set(c, w);
                if w.is_some() {
                    count = count + 1;
                }
            }
            c = c + 1;
        }
        proof {
            assert forall|x: int| 0 <= x < n implies #[trigger] out@[x] == if exists|t: int| 0 <= t < i + 1 && #[trigger] connected(p, g, rs[t], x) {
                winner(p, g, piece_root(p, g, x), p)
            } else {
                Some(p[x])
            } by {
                if connected(p, g, hh, x) {
                    assert(0 <= i < i + 1 && connected(p, g, rs[i as int], x));
                    lemma_piece_root(p, g, label@, starts@, x);
                    lemma_root_is_start(p, g, label@, starts@, hh);
                    assert(label@[hh] == label@[x]);
                } else {
                    if exists|t: int| 0 <= t < i + 1 && #[trigger] connected(p, g, rs[t], x) {
                        let t = choose|t: int| 0 <= t < i + 1 && #[trigger] connected(p, g, rs[t], x);
                        assert(t != i);
                        assert(0 <= t < i);
                    }
                    if exists|t: int| 0 <= t < i && #[trigger] connected(p, g, rs[t], x) {
                        let t = choose|t: int| 0 <= t < i && #[trigger] connected(p, g, rs[t], x);
                        assert(0 <= t < i + 1);
                    }
                }
            }
        }
        i = i + 1;
    }
    proof {
        assert forall|x: int| 0 <= x < n implies #[trigger] out@[x] == swept(p, g)[x] by {
            lemma_piece_root(p, g, label@, starts@, x);
            let r = piece_root(p, g, x);
            let st = starts@[label@[x] as int] as int;
            assert(label@[st] == label@[x]);
            assert(connected(p, g, r, x));
            lemma_root_is_start(p, g, label@, starts@, r);
            if is_fragment_root(p, g, r) {
                let t = choose|t: int| 0 <= t < rs.len() && rs[t] == r;
                assert(connected(p, g, rs[t], x));
            }
            if exists|t: int| 0 <= t < rs.len() && #[trigger] connected(p, g, rs[t], x) {
                let t = choose|t: int| 0 <= t < rs.len() && #[trigger] connected(p, g, rs[t], x);
                lemma_connected_sym(p, g, r, x);
                lemma_connected_trans(p, g, rs[t], x, r);
                lemma_one_root(p, g, rs[t], r);
            }
        }
        assert(out@ =~= swept(p, g));
    }
    (out, count)
}

/// The most rounds a correction runs before its final sweep.
pub const MAX_ROUNDS: usize = 10;

/// Up to `r` rounds, stopping at the first that changes nothing, with the
/// cells changed over all of them.
pub open spec fn rounds(plate: Seq<u64>, nbrs: Seq<Seq<usize>>, r: nat) -> (Seq<u64>, nat)
    decreases r,
{
    if r == 0 {
        (plate, 0)
    } else {
        let first = round(plate, nbrs);
        if first.1 == 0 {
            (first.0, 0)
        } else {
            let rest = rounds(first.0, nbrs, (r - 1) as nat);
            (rest.0, first.1 + rest.1)
        }
    }
}

/// Orphan correction: rounds until one changes nothing, at most
/// [`MAX_ROUNDS`], then the sweep; each cell's plate, `None` for a dropped
/// cell, and how many cells went to another plate.
pub open spec fn fixed(plate: Seq<u64>, nbrs: Seq<Seq<usize>>) -> (Seq<Option<u64>>, nat) {
    let settled = rounds(plate, nbrs, MAX_ROUNDS as nat);
    let out = swept(settled.0, nbrs);
    (out, settled.1 + handed_upto(out, settled.0, nbrs.len() as int))
}

/// Fixes orphaned plate assignments: a plate's cells that fall apart into
/// pieces keep their largest piece, and every smaller piece goes to the
/// plate around it, round after round until nothing moves or the rounds run
/// out; a last sweep hands on what is left, and drops a piece with no plate
/// around it. Returns each cell's plate, `None` for a dropped cell, and the
/// number of cells corrected.
pub fn fix_orphans(plate: &Vec<u64>, nbrs: &Vec<Vec<usize>>) -> (res: (Vec<Option<u64>>, usize))
    requires
        plate@.len() == nbrs@.len(),
        hex_graph(nbrs@.map_values(|v: Vec<usize>| v@)),
    ensures
        (res.0@, res.1 as nat) == fixed(plate@, nbrs@.map_values(|v: Vec<usize>| v@)),
{
    let ghost g = nbrs@.map_values(|v: Vec<usize>| v@);
    let n = nbrs.len();
    let mut cur: Vec<u64> = Vec::new();
    let mut c: usize = 0;
    while c < n
        invariant
            c <= n,
            plate@.len() == n,
            cur@ == plate@.take(c as int),
        decreases n - c,
    {
        cur.push(plate[c]);
        proof { assert(cur@ =~= plate@.take(c as int + 1)); }
        c = c + 1;
    }
    proof { assert(cur@ =~= plate@); }
    let mut total: usize = 0;
    let mut r: usize = 0;
    let mut done = false;
    while r < MAX_ROUNDS && !done
        invariant
            r <= MAX_ROUNDS,
            n == g.len(),
            g == nbrs@.map_values(|v: Vec<usize>| v@),
            hex_graph(g),
            cur@.len() == n,
            total <= r * n,
            done ==> rounds(plate@, g, MAX_ROUNDS as nat) == (cur@, total as nat),
            !done ==> rounds(plate@, g, MAX_ROUNDS as nat) == (
                rounds(cur@, g, (MAX_ROUNDS - r) as nat).0,
                (total + rounds(cur@, g, (MAX_ROUNDS - r) as nat).1) as nat,
            ),
        decreases MAX_ROUNDS - r,
    {
        let ghost before = cur@;
        let changed = cc_round(&mut cur, nbrs);
        proof {
            assert(rounds(before, g, (MAX_ROUNDS - r) as nat).0 == if changed == 0 {
                cur@
            } else {
                rounds(cur@, g, (MAX_ROUNDS - r - 1) as nat).0
            });
            assert(r * n + n == (r + 1) * n) by (nonlinear_arith);
            assert((r + 1) * n <= MAX_ROUNDS * n) by (nonlinear_arith) requires r < MAX_ROUNDS;
        }
        if changed == 0 {
            done = true;
        } else {
            total = total + changed;
        }
        r = r + 1;
    }
    proof {
        if !done {
            assert(r == MAX_ROUNDS);
        }
        assert(r * n <= MAX_ROUNDS * n) by (nonlinear_arith) requires r <= MAX_ROUNDS;
    }
    let (out, handed) = sweep(&cur, nbrs);
    (out, total + handed)
}

/// Cell `c` lies in a fragment of its plate.
pub open spec fn in_fragment(plate: Seq<u64>, nbrs: Seq<Seq<usize>>, c: int) -> bool {
    exists|h: int| #[trigger] is_fragment_root(plate, nbrs, h) && connected(plate, nbrs, h, c)
}

/// Every piece has a least cell.
proof fn lemma_root_exists(plate: Seq<u64>, nbrs: Seq<Seq<usize>>, c: int)
    requires
        mutual(nbrs),
        0 <= c < nbrs.len(),
    ensures
        exists|h: int| is_root(plate, nbrs, h) && connected(plate, nbrs, h, c),
    decreases c,
{
    lemma_connected_refl(plate, nbrs, c);
    if !is_root(plate, nbrs, c) {
        let d = choose|d: int| 0 <= d < nbrs.len() && #[trigger] connected(plate, nbrs, c, d) && !(c <= d);
        lemma_root_exists(plate, nbrs, d);
        let h = choose|h: int| is_root(plate, nbrs, h) && connected(plate, nbrs, h, d);
        lemma_connected_sym(plate, nbrs, c, d);
        lemma_connected_trans(plate, nbrs, h, d, c);
    }
}

/// A cell's piece root roots its piece.
proof fn lemma_piece_root_spec(plate: Seq<u64>, nbrs: Seq<Seq<usize>>, c: int)
    requires
        mutual(nbrs),
        0 <= c < nbrs.len(),
    ensures
        is_root(plate, nbrs, piece_root(plate, nbrs, c)),
        connected(plate, nbrs, piece_root(plate, nbrs, c), c),
        forall|h: int| is_root(plate, nbrs, h) && connected(plate, nbrs, h, c) ==> h == piece_root(plate, nbrs, c),
{
    lemma_root_exists(plate, nbrs, c);
    let r = piece_root(plate, nbrs, c);
    assert forall|h: int| is_root(plate, nbrs, h) && connected(plate, nbrs, h, c) implies h == r by {
        lemma_connected_sym(plate, nbrs, r, c);
        lemma_connected_trans(plate, nbrs, h, c, r);
        lemma_one_root(plate, nbrs, h, r);
    }
}

/// Settling fragments touches only their cells.
proof fn lemma_settle_all_keeps(p0: Seq<u64>, nbrs: Seq<Seq<usize>>, rs: Seq<int>, cur: Seq<u64>, c: int)
    requires
        0 <= c < cur.len(),
        forall|t: int| 0 <= t < rs.len() ==> !connected(p0, nbrs, #[trigger] rs[t], c),
    ensures
        settle_all(p0, nbrs, rs, cur).0.len() == cur.len(),
        settle_all(p0, nbrs, rs, cur).0[c] == cur[c],
    decreases rs.len(),
{
    if rs.len() > 0 {
        let rest = rs.drop_last();
        assert forall|t: int| 0 <= t < rest.len() implies !connected(p0, nbrs, #[trigger] rest[t], c) by {
            assert(rest[t] == rs[t]);
        }
        lemma_settle_all_keeps(p0, nbrs, rest, cur, c);
        assert(!connected(p0, nbrs, rs[rs.len() - 1], c));
    }
}

/// **A round moves no cell of a plate's body: only the cells of the
/// smaller pieces of a plate can change plate.**
pub proof fn law_round_keeps_bodies(plate: Seq<u64>, nbrs: Seq<Seq<usize>>)
    requires
        mutual(nbrs),
        plate.len() == nbrs.len(),
    ensures
        round(plate, nbrs).0.len() == plate.len(),
        forall|c: int| 0 <= c < plate.len() && !in_fragment(plate, nbrs, c) ==> #[trigger] round(plate, nbrs).0[c] == plate[c],
{
    let rs = fragment_roots(plate, nbrs);
    lemma_fragment_roots(plate, nbrs, nbrs.len() as int);
    lemma_settle_all_len(plate, nbrs, rs, plate);
    assert forall|c: int| 0 <= c < plate.len() && !in_fragment(plate, nbrs, c) implies #[trigger] round(plate, nbrs).0[c] == plate[c] by {
        assert forall|t: int| 0 <= t < rs.len() implies !connected(plate, nbrs, #[trigger] rs[t], c) by {
            if connected(plate, nbrs, rs[t], c) {
                assert(is_fragment_root(plate, nbrs, rs[t]));
            }
        }
        lemma_settle_all_keeps(plate, nbrs, rs, plate, c);
    }
}

/// Settling keeps the number of cells.
proof fn lemma_settle_all_len(p0: Seq<u64>, nbrs: Seq<Seq<usize>>, rs: Seq<int>, cur: Seq<u64>)
    ensures
        settle_all(p0, nbrs, rs, cur).0.len() == cur.len(),
    decreases rs.len(),
{
    if rs.len() > 0 {
        lemma_settle_all_len(p0, nbrs, rs.drop_last(), cur);
    }
}

/// **The sweep keeps exactly the bodies: a cell keeps its plate when its
/// piece is its plate's body, and a fragment's cell either goes over to
/// another plate or is dropped.**
pub proof fn law_sweep_moves_only_fragments(plate: Seq<u64>, nbrs: Seq<Seq<usize>>)
    requires
        mutual(nbrs),
        plate.len() == nbrs.len(),
    ensures
        forall|c: int| 0 <= c < plate.len() ==>
            (#[trigger] swept(plate, nbrs)[c] == Some(plate[c]) <==> !in_fragment(plate, nbrs, c)),
{
    assert forall|c: int| 0 <= c < plate.len() implies
        (#[trigger] swept(plate, nbrs)[c] == Some(plate[c]) <==> !in_fragment(plate, nbrs, c)) by {
        lemma_piece_root_spec(plate, nbrs, c);
        let r = piece_root(plate, nbrs, c);
        if in_fragment(plate, nbrs, c) {
            let h = choose|h: int| #[trigger] is_fragment_root(plate, nbrs, h) && connected(plate, nbrs, h, c);
            assert(h == r);
            if exists|w: u64| is_winner(plate, nbrs, r, plate, w) {
                let w = choose|w: u64| is_winner(plate, nbrs, r, plate, w);
                lemma_winner_elsewhere(plate, nbrs, r, w);
                assert(connected(plate, nbrs, r, c));
            }
        } else {
            if is_fragment_root(plate, nbrs, r) {
                assert(in_fragment(plate, nbrs, c));
            }
        }
    }
}

/// Each plate's cells form one piece.
pub open spec fn whole(plate: Seq<u64>, nbrs: Seq<Seq<usize>>) -> bool {
    forall|a: int, b: int| 0 <= a < plate.len() && 0 <= b < plate.len() && plate[a] == plate[b]
        ==> #[trigger] connected(plate, nbrs, a, b)
}

/// **Correction leaves whole plates as they are: where every plate's cells
/// form one piece, no cell changes plate, none is dropped, and nothing is
/// counted.**
pub proof fn law_whole_plates_stay(plate: Seq<u64>, nbrs: Seq<Seq<usize>>)
    requires
        mutual(nbrs),
        plate.len() == nbrs.len(),
        whole(plate, nbrs),
    ensures
        fixed(plate, nbrs) == (Seq::new(plate.len(), |c: int| Some(plate[c])), 0nat),
{
    assert forall|h: int| !is_fragment_root(plate, nbrs, h) by {
        if is_fragment_root(plate, nbrs, h) {
            let r2 = choose|r2: int| is_root(plate, nbrs, r2) && plate[r2] == plate[h] && #[trigger] outranks(plate, nbrs, r2, h);
            assert(connected(plate, nbrs, r2, h));
            lemma_one_root(plate, nbrs, r2, h);
        }
    }
    lemma_fragment_roots(plate, nbrs, nbrs.len() as int);
    let rs = fragment_roots(plate, nbrs);
    if rs.len() > 0 {
        assert(is_fragment_root(plate, nbrs, rs[0]));
    }
    assert(rs =~= Seq::<int>::empty());
    assert(round(plate, nbrs) == (plate, 0nat));
    assert(rounds(plate, nbrs, MAX_ROUNDS as nat) == (plate, 0nat));
    let out = swept(plate, nbrs);
    assert(out =~= Seq::new(plate.len(), |c: int| Some(plate[c]))) by {
        assert forall|c: int| 0 <= c < plate.len() implies out[c] == Some(plate[c]) by {
            assert(!is_fragment_root(plate, nbrs, piece_root(plate, nbrs, c)));
        }
    }
    lemma_handed_none(plate, nbrs.len() as int);
}


/// A walk over corrected plates: cells in range, each a neighbour of the
/// last and left on the same plate.
pub open spec fn is_walk_on(out: Seq<Option<u64>>, nbrs: Seq<Seq<usize>>, w: Seq<int>) -> bool {
    &&& w.len() >= 1
    &&& forall|i: int| 0 <= i < w.len() ==> 0 <= #[trigger] w[i] < nbrs.len()
    &&& forall|i: int| 0 <= i < w.len() - 1 ==> nbrs[#[trigger] w[i]].contains(w[i + 1] as usize) && out[w[i]] == out[w[i + 1]]
}

/// The cells left on each plate hold together: any two of them are joined
/// by a walk over cells left on that plate.
pub open spec fn held_together(out: Seq<Option<u64>>, nbrs: Seq<Seq<usize>>) -> bool {
    forall|a: int, b: int| 0 <= a < out.len() && 0 <= b < out.len() && out[a] is Some && #[trigger] out[a] == #[trigger] out[b]
        ==> exists|w: Seq<int>| #[trigger] is_walk_on(out, nbrs, w) && w[0] == a && w.last() == b
}

/// A fragment with a winner moves a cell: its root stands off the winner.
proof fn lemma_moved_pos(p0: Seq<u64>, nbrs: Seq<Seq<usize>>, h: int, cur: Seq<u64>, w: u64, c: int, k: int)
    requires
        0 <= c < k,
        connected(p0, nbrs, h, c),
        cur[c] != w,
    ensures
        moved_upto(p0, nbrs, h, cur, w, k) >= 1,
    decreases k,
{
    if c < k - 1 {
        lemma_moved_pos(p0, nbrs, h, cur, w, c, k - 1);
    }
}

/// Settling fragments that move nothing leaves the plates as they were,
/// and no fragment had a plate around it to go to.
proof fn lemma_quiet_settle(p0: Seq<u64>, nbrs: Seq<Seq<usize>>, rs: Seq<int>)
    requires
        mutual(nbrs),
        p0.len() == nbrs.len(),
        forall|t: int| 0 <= t < rs.len() ==> 0 <= #[trigger] rs[t] < nbrs.len(),
        settle_all(p0, nbrs, rs, p0).1 == 0,
    ensures
        settle_all(p0, nbrs, rs, p0).0 == p0,
        forall|t: int| 0 <= t < rs.len() ==> #[trigger] winner(p0, nbrs, rs[t], p0) is None,
    decreases rs.len(),
{
    if rs.len() > 0 {
        let rest = rs.drop_last();
        assert forall|t: int| 0 <= t < rest.len() implies 0 <= #[trigger] rest[t] < nbrs.len() by {
            assert(rest[t] == rs[t]);
        }
        lemma_quiet_settle(p0, nbrs, rest);
        let h = rs.last();
        assert(0 <= h < nbrs.len()) by { assert(rs[rs.len() - 1] == h); }
        if winner(p0, nbrs, h, p0) is Some {
            let w = choose|w: u64| is_winner(p0, nbrs, h, p0, w);
            lemma_connected_refl(p0, nbrs, h);
            lemma_winner_elsewhere(p0, nbrs, h, w);
            lemma_moved_pos(p0, nbrs, h, p0, w, h, nbrs.len() as int);
        }
        assert forall|t: int| 0 <= t < rs.len() implies #[trigger] winner(p0, nbrs, rs[t], p0) is None by {
            if t < rest.len() {
                assert(rest[t] == rs[t]);
            }
        }
    }
}

/// Rounds keep the number of cells.
proof fn lemma_rounds_len(plate: Seq<u64>, nbrs: Seq<Seq<usize>>, r: nat)
    ensures
        rounds(plate, nbrs, r).0.len() == plate.len(),
    decreases r,
{
    if r > 0 {
        lemma_settle_all_len(plate, nbrs, fragment_roots(plate, nbrs), plate);
        lemma_rounds_len(round(plate, nbrs).0, nbrs, (r - 1) as nat);
    }
}

/// The first cells of a walk walk to any of its cells.
proof fn lemma_walk_prefix(plate: Seq<u64>, nbrs: Seq<Seq<usize>>, w: Seq<int>, i: int)
    requires
        is_walk(plate, nbrs, w),
        0 <= i < w.len(),
    ensures
        connected(plate, nbrs, w[0], w[i]),
{
    let v = w.take(i + 1);
    assert forall|j: int| 0 <= j < v.len() - 1 implies link(plate, nbrs, #[trigger] v[j], v[j + 1]) by {
        assert(v[j] == w[j] && v[j + 1] == w[j + 1]);
    }
    assert(is_walk(plate, nbrs, v));
}

/// **Once the rounds settle, correction holds every plate together: where
/// the last round moves nothing, the sweep drops each fragment, and the
/// cells left on any one plate are joined by walks over that plate.**
pub proof fn law_settled_plates_hold_together(plate: Seq<u64>, nbrs: Seq<Seq<usize>>)
    requires
        mutual(nbrs),
        plate.len() == nbrs.len(),
        round(rounds(plate, nbrs, MAX_ROUNDS as nat).0, nbrs).1 == 0,
    ensures
        held_together(fixed(plate, nbrs).0, nbrs),
{
    let p = rounds(plate, nbrs, MAX_ROUNDS as nat).0;
    lemma_rounds_len(plate, nbrs, MAX_ROUNDS as nat);
    let n = nbrs.len() as int;
    let rs = fragment_roots(p, nbrs);
    lemma_fragment_roots(p, nbrs, n);
    lemma_quiet_settle(p, nbrs, rs);
    let out = swept(p, nbrs);
    assert(fixed(plate, nbrs).0 == out);
    // A fragment's cells are dropped; every other cell keeps its plate.
    assert forall|c: int| 0 <= c < n implies (#[trigger] out[c]) == if in_fragment(p, nbrs, c) { None } else { Some(p[c]) } by {
        lemma_piece_root_spec(p, nbrs, c);
        let r = piece_root(p, nbrs, c);
        if in_fragment(p, nbrs, c) {
            let h = choose|h: int| #[trigger] is_fragment_root(p, nbrs, h) && connected(p, nbrs, h, c);
            assert(h == r);
            let t = choose|t: int| 0 <= t < rs.len() && rs[t] == r;
            assert(winner(p, nbrs, rs[t], p) is None);
        } else if is_fragment_root(p, nbrs, r) {
            assert(in_fragment(p, nbrs, c));
        }
    }
    assert forall|a: int, b: int| 0 <= a < out.len() && 0 <= b < out.len() && out[a] is Some && #[trigger] out[a] == #[trigger] out[b]
        implies exists|w: Seq<int>| #[trigger] is_walk_on(out, nbrs, w) && w[0] == a && w.last() == b by {
        assert(!in_fragment(p, nbrs, a) && !in_fragment(p, nbrs, b));
        lemma_piece_root_spec(p, nbrs, a);
        lemma_piece_root_spec(p, nbrs, b);
        let ra = piece_root(p, nbrs, a);
        let rb = piece_root(p, nbrs, b);
        lemma_piece_plate(p, nbrs, ra, a);
        lemma_piece_plate(p, nbrs, rb, b);
        if ra != rb {
            if outranks(p, nbrs, ra, rb) {
                assert(is_fragment_root(p, nbrs, rb));
                assert(in_fragment(p, nbrs, b));
            } else {
                assert(outranks(p, nbrs, rb, ra));
                assert(is_fragment_root(p, nbrs, ra));
                assert(in_fragment(p, nbrs, a));
            }
        }
        lemma_connected_sym(p, nbrs, ra, a);
        lemma_connected_trans(p, nbrs, a, ra, b);
        let w = choose|w: Seq<int>| #[trigger] is_walk(p, nbrs, w) && w[0] == a && w.last() == b;
        assert forall|i: int| 0 <= i < w.len() implies #[trigger] out[w[i]] == Some(p[a]) by {
            lemma_walk_prefix(p, nbrs, w, i);
            lemma_piece_plate(p, nbrs, a, w[i]);
            if in_fragment(p, nbrs, w[i]) {
                let h = choose|h: int| #[trigger] is_fragment_root(p, nbrs, h) && connected(p, nbrs, h, w[i]);
                lemma_connected_sym(p, nbrs, a, w[i]);
                lemma_connected_trans(p, nbrs, h, w[i], a);
            }
        }
        assert forall|i: int| 0 <= i < w.len() - 1 implies nbrs[#[trigger] w[i]].contains(w[i + 1] as usize) && out[w[i]] == out[w[i + 1]] by {
            assert(link(p, nbrs, w[i], w[i + 1]));
            assert(out[w[i + 1]] == Some(p[a]));
        }
        assert(is_walk_on(out, nbrs, w));
    }
}
} // verus!
