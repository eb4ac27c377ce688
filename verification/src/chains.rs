//! The square bucket grid that chains are searched on: which buckets lie a
//! given ring out from a position's own, and where a bucket is stored.

use vstd::prelude::*;

verus! {

/// The larger of a cell's two offsets from `(ci, cj)`: how many rings out
/// it lies.
pub open spec fn ring_of(ci: int, cj: int, i: int, j: int) -> int {
    let di = if i >= ci { i - ci } else { ci - i };
    let dj = if j >= cj { j - cj } else { cj - j };
    if di >= dj { di } else { dj }
}

/// Whether cell `a` comes before cell `b` reading row by row, left to right.
pub open spec fn reads_before(a: (i64, i64), b: (i64, i64)) -> bool {
    a.1 < b.1 || (a.1 == b.1 && a.0 < b.0)
}

/// The cells of the ring `k` out from `(ci, cj)`, each once, row by row
/// from the lowest row and left to right within a row: the bottom and top
/// rows whole, and between them the two cells at either end.
pub fn ring_cells(ci: i64, cj: i64, k: i64) -> (cells: Vec<(i64, i64)>)
    requires
        k >= 0,
        i64::MIN <= ci - k,
        ci + 3 * k < i64::MAX,
        i64::MIN <= cj - k,
        cj + k < i64::MAX,
    ensures
        forall|t: int| 0 <= t < cells@.len() ==> ring_of(ci as int, cj as int, (#[trigger] cells@[t]).0 as int, cells@[t].1 as int) == k,
        forall|i: i64, j: i64| ring_of(ci as int, cj as int, i as int, j as int) == k ==> cells@.contains((i, j)),
        forall|s: int, t: int| 0 <= s < t < cells@.len() ==> reads_before(#[trigger] cells@[s], #[trigger] cells@[t]),
{
    let mut cells: Vec<(i64, i64)> = Vec::new();
    let mut j = cj - k;
    while j <= cj + k
        invariant
            k >= 0,
            i64::MIN <= ci - k,
            ci + 3 * k < i64::MAX,
            i64::MIN <= cj - k,
            cj + k < i64::MAX,
            cj - k <= j <= cj + k + 1,
            forall|t: int| 0 <= t < cells@.len() ==> ring_of(ci as int, cj as int, (#[trigger] cells@[t]).0 as int, cells@[t].1 as int) == k
                && cells@[t].1 < j,
            forall|i: i64, jj: i64| ring_of(ci as int, cj as int, i as int, jj as int) == k && jj < j ==> cells@.contains((i, jj)),
            forall|s: int, t: int| 0 <= s < t < cells@.len() ==> reads_before(#[trigger] cells@[s], #[trigger] cells@[t]),
        decreases cj + k + 1 - j,
    {
        let step = if k > 0 && j != cj - k && j != cj + k { 2 * k } else { 1 };
        let ghost row0 = cells@.len();
        let mut i = ci - k;
        while i <= ci + k
            invariant
                k >= 0,
                i64::MIN <= ci - k,
                ci + 3 * k < i64::MAX,
                cj - k <= j <= cj + k,
                step == if k > 0 && j != cj - k && j != cj + k { 2 * k } else { 1 },
                ci - k <= i <= ci + 3 * k + 1,
                step != 1 ==> (i == ci - k || i == ci + k || i == ci + 3 * k),
                row0 <= cells@.len(),
                forall|t: int| 0 <= t < row0 ==> (#[trigger] cells@[t]).1 < j,
                forall|t: int| 0 <= t < cells@.len() ==> ring_of(ci as int, cj as int, (#[trigger] cells@[t]).0 as int, cells@[t].1 as int) == k
                    && cells@[t].1 <= j,
                forall|t: int| row0 <= t < cells@.len() ==> (#[trigger] cells@[t]).1 == j && cells@[t].0 < i,
                forall|ii: i64| ci - k <= ii < i && ring_of(ci as int, cj as int, ii as int, j as int) == k ==> cells@.contains((ii, j)),
                forall|i2: i64, jj: i64| ring_of(ci as int, cj as int, i2 as int, jj as int) == k && jj < j ==> cells@.contains((i2, jj)),
                forall|s: int, t: int| 0 <= s < t < cells@.len() ==> reads_before(#[trigger] cells@[s], #[trigger] cells@[t]),
            decreases ci + 3 * k + 1 - i,
        {
            let ghost before = cells@;
            cells.push((i, j));
            proof {
                assert forall|s: int, t: int| 0 <= s < t < cells@.len() implies reads_before(#[trigger] cells@[s], #[trigger] cells@[t]) by {
                    if t == cells@.len() - 1 && s >= row0 {
                        assert(before[s].1 == j && before[s].0 < i);
                    }
                }
                assert forall|ii: i64| ci - k <= ii < i + step && ring_of(ci as int, cj as int, ii as int, j as int) == k
                    implies cells@.contains((ii, j)) by {
                    if ii == i {
                        assert(cells@[cells@.len() - 1] == (i, j));
                    } else if ii < i {
                        assert(before.contains((ii, j)));
                        let t = choose|t: int| 0 <= t < before.len() && before[t] == (ii, j);
                        assert(cells@[t] == (ii, j));
                    } else {
                        assert(step != 1);
                        assert(false);
                    }
                }
                assert forall|i2: i64, jj: i64| ring_of(ci as int, cj as int, i2 as int, jj as int) == k && jj < j
                    implies cells@.contains((i2, jj)) by {
                    assert(before.contains((i2, jj)));
                    let t = choose|t: int| 0 <= t < before.len() && before[t] == (i2, jj);
                    assert(cells@[t] == (i2, jj));
                }
            }
            i = i + step;
        }
        proof {
            assert forall|i2: i64, jj: i64| ring_of(ci as int, cj as int, i2 as int, jj as int) == k && jj < j + 1
                implies cells@.contains((i2, jj)) by {
                if jj == j {
                    assert(ci - k <= i2 <= ci + k);
                }
            }
        }
        j = j + 1;
    }
    cells
}

/// Where cell `(i, j)` of a grid `nx` by `ny` buckets, whose lowest bucket is
/// `(i0, j0)`, is stored, row by row: none outside the grid.
pub fn bucket_index(i: i64, j: i64, i0: i64, j0: i64, nx: usize, ny: usize) -> (idx: Option<usize>)
    requires
        i64::MIN <= i - i0 <= i64::MAX,
        i64::MIN <= j - j0 <= i64::MAX,
        nx * ny <= usize::MAX,
    ensures
        idx == if 0 <= i - i0 < nx && 0 <= j - j0 < ny { Some(((j - j0) * nx + (i - i0)) as usize) } else { None::<usize> },
{
    let (di, dj) = (i - i0, j - j0);
    if di < 0 || dj < 0 || di as u64 >= nx as u64 || dj as u64 >= ny as u64 {
        return None;
    }
    let (a, b) = (di as usize, dj as usize);
    assert(b * nx + a < nx * ny) by (nonlinear_arith) requires b < ny, a < nx;
    Some(b * nx + a)
}

} // verus!
