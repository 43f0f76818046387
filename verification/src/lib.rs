//! Morphing 2D vector-path animation core.
//!
//! A pose is an ordered collection of closed polygons ("sub-paths") in a
//! fixed-point integer coordinate space. The library loads a catalog of
//! poses from a JSON-based resource format, normalizes pairs of sub-paths
//! to a common point count and rotation alignment, and interpolates
//! between them over wall-clock time, looping indefinitely.

use vstd::prelude::*;

pub mod animator;
pub mod geometry;
pub mod hvf;
pub mod interpolator;
pub mod jsonio;
pub mod loader;
pub mod numth;
pub mod resample;
pub mod rotation;
pub mod text;

verus! {

} // verus!
