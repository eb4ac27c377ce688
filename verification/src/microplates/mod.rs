//! The micro-plate grid: its odd-r offset hex lattice, the six chunks
//! around a chunk, and the correction of plate assignments that fall apart.

pub mod orphans;

use vstd::prelude::*;
use crate::lattice::hex_dist;

verus! {

/// Whether a row of the odd-r offset lattice is even.
pub open spec fn even_row(cr: int) -> bool {
    cr % 2 == 0
}

/// The six neighbour offsets of a chunk in the odd-r offset lattice: odd
/// rows sit half a chunk right of even ones, so the rows above and below
/// reach one column further on the side the row leans to.
pub open spec fn ring_offsets(even: bool) -> Seq<(int, int)> {
    if even {
        seq![(-1, 0), (1, 0), (-1, -1), (0, -1), (-1, 1), (0, 1)]
    } else {
        seq![(-1, 0), (1, 0), (0, -1), (1, -1), (0, 1), (1, 1)]
    }
}

/// The six chunks around `(cq, cr)`.
pub open spec fn chunk_ring(cq: int, cr: int) -> Seq<(int, int)> {
    ring_offsets(even_row(cr)).map_values(|o: (int, int)| (cq + o.0, cr + o.1))
}

/// A chunk's axial coordinates: the column shifted back by half the rows
/// below it, rounded down.
pub open spec fn to_axial(cq: int, cr: int) -> (int, int) {
    (cq - (cr - (cr % 2)) / 2, cr)
}

/// The 6 hex neighbours of chunk `(cq, cr)` in the odd-r offset lattice.
pub fn hex_chunk_1ring(cq: i32, cr: i32) -> (ring: [(i32, i32); 6])
    requires
        i32::MIN < cq < i32::MAX,
        i32::MIN < cr < i32::MAX,
    ensures
        ring@.map_values(|p: (i32, i32)| (p.0 as int, p.1 as int)) == chunk_ring(cq as int, cr as int),
{
    assert((cr & 1i32 == 0i32) == (cr % 2i32 == 0i32)) by (bit_vector);
    let ring = if cr & 1 == 0 {
        [(cq - 1, cr), (cq + 1, cr), (cq - 1, cr - 1), (cq, cr - 1), (cq - 1, cr + 1), (cq, cr + 1)]
    } else {
        [(cq - 1, cr), (cq + 1, cr), (cq, cr - 1), (cq + 1, cr - 1), (cq, cr + 1), (cq + 1, cr + 1)]
    };
    assert(ring@.map_values(|p: (i32, i32)| (p.0 as int, p.1 as int)) =~= chunk_ring(cq as int, cr as int));
    ring
}

/// **The six chunks around a chunk are its hex neighbours: each lies one
/// step away on the axial lattice, and each counts the chunk among its own
/// six.**
pub proof fn law_chunk_ring_is_symmetric(cq: int, cr: int)
    ensures
        chunk_ring(cq, cr).len() == 6,
        forall|i: int| 0 <= i < 6 ==> {
            let n = #[trigger] chunk_ring(cq, cr)[i];
            &&& hex_dist(to_axial(n.0, n.1).0 - to_axial(cq, cr).0, to_axial(n.0, n.1).1 - to_axial(cq, cr).1) == 1
            &&& chunk_ring(n.0, n.1).contains((cq, cr))
        },
{
    let ring = chunk_ring(cq, cr);
    let even = even_row(cr);
    assert forall|i: int| 0 <= i < 6 implies {
        let n = #[trigger] ring[i];
        &&& hex_dist(to_axial(n.0, n.1).0 - to_axial(cq, cr).0, to_axial(n.0, n.1).1 - to_axial(cq, cr).1) == 1
        &&& chunk_ring(n.0, n.1).contains((cq, cr))
    } by {
        let n = ring[i];
        let back = chunk_ring(n.0, n.1);
        if n.1 == cr {
            assert(even_row(n.1) == even);
            if i == 0 { assert(back[1] == (cq, cr)); } else { assert(back[0] == (cq, cr)); }
        } else {
            assert(even_row(n.1) != even);
            if even {
                if i == 2 { assert(back[5] == (cq, cr)); }
                else if i == 3 { assert(back[4] == (cq, cr)); }
                else if i == 4 { assert(back[3] == (cq, cr)); }
                else { assert(back[2] == (cq, cr)); }
            } else {
                if i == 2 { assert(back[5] == (cq, cr)); }
                else if i == 3 { assert(back[4] == (cq, cr)); }
                else if i == 4 { assert(back[3] == (cq, cr)); }
                else { assert(back[2] == (cq, cr)); }
            }
        }
    }
}

} // verus!
