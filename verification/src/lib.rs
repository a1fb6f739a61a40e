//! Leech lattice vector quantization: the extended Golay code, the integer
//! embedding of the Leech lattice, its shell classes and the bijective index
//! of the ball of radius 13.
use vstd::prelude::*;

pub mod ball;
pub mod classes;
pub mod combin;
pub mod golay;
pub mod index;
pub mod leech;
pub mod rng;
pub mod search;
pub mod shells;

pub use golay::Golay;
pub use leech::{Leech, Point, DIM};
pub use rng::SplitMix64;
pub use search::{Metric, Searcher};

verus! {
}
