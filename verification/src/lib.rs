//! A frame-graph transform store: named coordinate frames report pairwise
//! rigid-transform observations, and the store answers "what is the pose of
//! frame X relative to frame Y at time T" by resolving a chain of recorded
//! relationships and interpolating each relationship's bounded, time-sorted
//! sample buffer.
//!
//! The numeric rigid-transform primitives (composition, inversion,
//! interpolation) are owned by a surrounding math layer, not by this crate:
//! scalar components are carried through as IEEE-754 double bit patterns and
//! never computed with here. Query results are therefore exact plans — which
//! stored samples to use, with which blend fractions and inversion marks —
//! that the math layer realizes into numbers.

pub mod buffer;
pub mod chain;
pub mod error;
pub mod graph;
pub mod msg;
pub mod utils;
