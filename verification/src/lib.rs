//! World generation on the hex lattice: the lattice every outline is drawn
//! on, the bucket rings a chain search widens through, the deterministic
//! thinning of candidate sites, the reaches and basins of a routed river
//! network, the correction that keeps each plate's micro cells in one
//! piece, and the plain data the event layers publish.

pub mod chains;
pub mod lattice;
pub mod noise;
pub mod events;
pub mod glacial;
pub mod microplates;
