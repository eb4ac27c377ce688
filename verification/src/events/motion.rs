//! Motion: how each plate edge resolves against the plates' motion.

use vstd::prelude::*;

verus! {

/// What a continent–ocean edge is doing. A consumer reads this rather than
/// inferring it from a convergence threshold of its own choosing.
#[derive(Debug, Clone, Copy, PartialEq, Eq)]
pub enum MarginClass {
    /// Not a coast: both sides continental, or both oceanic.
    Interior,
    /// A coast the motion closes. The ocean plate subducts, the wedge stands
    /// on the continent and verges seaward.
    Active,
    /// A coast the motion does not close: a coastal plain, no range.
    Passive,
}

/// How an edge resolves, once convergence and transform are known.
#[derive(Debug, Clone, Copy, PartialEq, Eq)]
pub enum BoundaryRegime {
    Convergent,
    Divergent,
    /// Along-strike motion exceeds normal motion either way.
    Transform,
}

/// The margin an edge makes: a coast when exactly one side is continental,
/// active when the plates close across it and passive when they do not.
pub open spec fn spec_margin(a_continental: bool, b_continental: bool, closing: bool) -> MarginClass {
    if a_continental == b_continental {
        MarginClass::Interior
    } else if closing {
        MarginClass::Active
    } else {
        MarginClass::Passive
    }
}

/// Classifies an edge's margin from which of its plates are continental and
/// whether the plates close across it.
pub fn margin_class(a_continental: bool, b_continental: bool, closing: bool) -> (m: MarginClass)
    ensures
        m == spec_margin(a_continental, b_continental, closing),
{
    // Which way the ocean lies across a coast: none when the sides agree.
    let coast = match (a_continental, b_continental) {
        (true, false) => true,
        (false, true) => true,
        _ => false,
    };
    if !coast {
        MarginClass::Interior
    } else if closing {
        MarginClass::Active
    } else {
        MarginClass::Passive
    }
}

/// The regime of an edge: transform when the along-strike motion exceeds
/// the normal motion, else convergent when the plates close.
pub open spec fn spec_regime(transform_dominates: bool, closing: bool) -> BoundaryRegime {
    if transform_dominates {
        BoundaryRegime::Transform
    } else if closing {
        BoundaryRegime::Convergent
    } else {
        BoundaryRegime::Divergent
    }
}

/// Resolves an edge's regime from whether its transform motion exceeds the
/// magnitude of its convergence, and whether its convergence is positive.
pub fn regime_of(transform_dominates: bool, closing: bool) -> (r: BoundaryRegime)
    ensures
        r == spec_regime(transform_dominates, closing),
{
    if transform_dominates {
        BoundaryRegime::Transform
    } else if closing {
        BoundaryRegime::Convergent
    } else {
        BoundaryRegime::Divergent
    }
}

/// The motion layer: each plate edge resolved against the plates' motion.
pub struct MotionEvent;

impl MotionEvent {
    pub fn new() -> (e: Self)
        ensures
            e == MotionEvent,
    {
        MotionEvent
    }
}

impl Default for MotionEvent {
    fn default() -> (e: Self)
        ensures
            e == MotionEvent,
    {
        Self::new()
    }
}

} // verus!
