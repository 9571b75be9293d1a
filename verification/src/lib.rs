pub mod arena;
pub mod merge;
pub mod palette;
pub mod polyhedron;
pub mod octree;

use vstd::prelude::*;

verus! {

/// An RGBA color sample, 8 bits per channel.
#[derive(Clone, Copy, PartialEq, Eq, Structural, Debug)]
pub struct Rgba {
    pub r: u8,
    pub g: u8,
    pub b: u8,
    pub a: u8,
}

} // verus!
