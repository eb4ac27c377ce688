//! Glacial bowls: what leaves a bowl at its outlet, and which part of a
//! bowl a point falls in.

use vstd::prelude::*;

verus! {

/// What leaves a bowl at its outlet. Read off the ground below the rim when
/// the bowl is sited, so it follows the mountain the bowl sits on rather
/// than a separate roll of the dice.
#[derive(Debug, Clone, Copy, PartialEq, Eq)]
pub enum Outflow {
    /// Nothing leaves: the ground below the rim falls by less than the
    /// basin is deep, a closed tarn.
    Impounded,
    /// The ground below the rim falls faster than a step can walk down, so
    /// the water leaves the sill over a wall.
    Fall,
    /// Graded descent. The outflow cuts a valley away from the sill.
    Ravine,
}

/// The outflow of a bowl: impounded when the ground below the rim falls by
/// less than the basin is deep, a fall when it drops faster than a walkable
/// slope, a ravine otherwise.
pub open spec fn spec_outflow(drop_under_depth: bool, drop_unwalkable: bool) -> Outflow {
    if drop_under_depth { Outflow::Impounded } else if drop_unwalkable { Outflow::Fall } else { Outflow::Ravine }
}

/// What a bowl sheds, from whether the ground below its rim drops by less
/// than the basin's depth and whether it drops faster than a walkable slope.
pub fn outflow_of(drop_under_depth: bool, drop_unwalkable: bool) -> (o: Outflow)
    ensures
        o == spec_outflow(drop_under_depth, drop_unwalkable),
{
    if drop_under_depth {
        Outflow::Impounded
    } else if drop_unwalkable {
        Outflow::Fall
    } else {
        Outflow::Ravine
    }
}

/// Which part of a bowl a point falls in. Diagnostic classification by
/// footprint geometry.
#[derive(Debug, Clone, Copy, PartialEq, Eq)]
pub enum CirqueProbe {
    /// Flat ground at floor altitude.
    Floor,
    /// The steep back-and-sides wall.
    Headwall,
    /// The low bar across the open side.
    Lip,
    /// The spill point: the low point of the lip.
    Outlet,
}

/// Whether a probe reads the given part.
pub open spec fn reads(p: Option<CirqueProbe>, part: CirqueProbe) -> bool {
    p == Some(part)
}

/// The first probe of `probes` that reads anything.
pub open spec fn first_read(probes: Seq<Option<CirqueProbe>>) -> Option<CirqueProbe>
    decreases probes.len(),
{
    if probes.len() == 0 {
        None
    } else if probes[0].is_some() {
        probes[0]
    } else {
        first_read(probes.drop_first())
    }
}

/// Whichever bowl claims a point, given each bowl's probe there: an outlet
/// anywhere wins, then a floor, then the first part any bowl reads.
pub open spec fn spec_probe_all(probes: Seq<Option<CirqueProbe>>) -> Option<CirqueProbe> {
    if exists|i: int| 0 <= i < probes.len() && reads(#[trigger] probes[i], CirqueProbe::Outlet) {
        Some(CirqueProbe::Outlet)
    } else if exists|i: int| 0 <= i < probes.len() && reads(#[trigger] probes[i], CirqueProbe::Floor) {
        Some(CirqueProbe::Floor)
    } else {
        first_read(probes)
    }
}

/// Folds the probes of the bowls at one point, preferring the floor over
/// walls so an overlap reads as the ground a player would stand on.
pub fn probe_all(probes: &[Option<CirqueProbe>]) -> (best: Option<CirqueProbe>)
    ensures
        best == spec_probe_all(probes@),
{
    let mut best: Option<CirqueProbe> = None;
    let mut i: usize = 0;
    while i < probes.len()
        invariant
            i <= probes@.len(),
            forall|j: int| 0 <= j < i ==> !reads(#[trigger] probes@[j], CirqueProbe::Outlet),
            best == (if exists|j: int| 0 <= j < i && reads(#[trigger] probes@[j], CirqueProbe::Floor) {
                Some(CirqueProbe::Floor)
            } else {
                first_read(probes@.take(i as int))
            }),
        decreases probes@.len() - i,
    {
        proof { lemma_first_read_push(probes@.take(i as int), probes@[i as int]); }
        assert(probes@.take(i as int + 1) =~= probes@.take(i as int).push(probes@[i as int]));
        match probes[i] {
            Some(CirqueProbe::Outlet) => {
                return Some(CirqueProbe::Outlet);
            },
            Some(CirqueProbe::Floor) => {
                best = Some(CirqueProbe::Floor);
            },
            Some(other) => {
                if best.is_none() {
                    best = Some(other);
                }
            },
            None => {},
        }
        i = i + 1;
    }
    assert(probes@.take(i as int) =~= probes@);
    best
}

/// Reading one more probe changes the first read only when none was read.
pub proof fn lemma_first_read_push(probes: Seq<Option<CirqueProbe>>, p: Option<CirqueProbe>)
    ensures
        first_read(probes.push(p)) == if first_read(probes).is_some() { first_read(probes) } else { p },
        first_read(probes).is_none() ==> forall|j: int| 0 <= j < probes.len() ==> (#[trigger] probes[j]).is_none(),
    decreases probes.len(),
{
    if probes.len() > 0 {
        assert(probes.push(p).drop_first() =~= probes.drop_first().push(p));
        assert(probes.push(p)[0] == probes[0]);
        lemma_first_read_push(probes.drop_first(), p);
        if first_read(probes).is_none() {
            assert forall|j: int| 0 <= j < probes.len() implies (#[trigger] probes[j]).is_none() by {
                if j > 0 {
                    assert(probes[j] == probes.drop_first()[j - 1]);
                }
            }
        }
    } else {
        assert(probes.push(p).drop_first() =~= Seq::<Option<CirqueProbe>>::empty());
        assert(probes.push(p)[0] == p);
        assert(first_read(probes.push(p).drop_first()) == None::<CirqueProbe>);
    }
}

} // verus!
