//! The noise sources of world generation. What they compute from a position
//! is floating-point work, done outside this library; here they are built.
use vstd::prelude::*;
use noise::{OpenSimplex, Seedable};

verus! {

#[verifier::external_type_specification]
#[verifier::external_body]
pub struct ExOpenSimplex(OpenSimplex);

/// The OpenSimplex generator of seed `seed`, whose permutation table is drawn
/// from that seed alone.
pub uninterp spec fn seeded_simplex(seed: u32) -> OpenSimplex;

/// `OpenSimplex::new` (crate `noise`): the generator of the default seed, 0.
/// Trusted: the result is the generator named `seeded_simplex(0)`.
#[verifier::external_body]
fn simplex_new() -> (r: OpenSimplex)
    ensures
        r == seeded_simplex(0),
{
    OpenSimplex::new()
}

/// `Seedable::set_seed` for `OpenSimplex` (crate `noise`): the generator whose
/// permutation table is drawn from `seed` (or `noise` itself where it already
/// has that seed, which is then the same generator). Trusted: the result is the
/// generator named `seeded_simplex(seed)`.
#[verifier::external_body]
fn simplex_set_seed(noise: OpenSimplex, seed: u32) -> (r: OpenSimplex)
    ensures
        r == seeded_simplex(seed),
{
    noise.set_seed(seed)
}

/// A seeded OpenSimplex noise source.
pub struct Noise {
    pub noise: OpenSimplex,
}

impl Noise {
    /// A noise source seeded with `seed`.
    pub fn new(seed: u32) -> (r: Noise)
        ensures
            r.noise == seeded_simplex(seed),
    {
        Noise { noise: simplex_set_seed(simplex_new(), seed) }
    }
}

/// The kind of landscape at a column.
#[derive(Clone, Copy, Debug, PartialEq, Eq, Structural)]
pub enum Biome {
    Planes,
}

/// The source of terrain heights.
pub struct TerrainGen {
    pub noise: Noise,
}

impl TerrainGen {
    /// A terrain source seeded with `seed`.
    pub fn new(seed: u32) -> (r: TerrainGen)
        ensures
            r.noise.noise == seeded_simplex(seed),
    {
        TerrainGen { noise: Noise::new(seed) }
    }
}

/// The source of caves.
pub struct CaveGen {
    pub noise: Noise,
}

impl CaveGen {
    /// A cave source seeded with `seed`.
    pub fn new(seed: u32) -> (r: CaveGen)
        ensures
            r.noise.noise == seeded_simplex(seed),
    {
        CaveGen { noise: Noise::new(seed) }
    }
}

} // verus!
