//! The settings of one generation run: the seed, the side of the world, the
//! side of the blocks it is generated in, and the number of elevation octaves.

use rand::Rng;
use vstd::prelude::*;

verus! {

/// Side of the world, in tiles, that `WorldGenerator::new` uses.
pub const WORLD_SIZE: usize = 1000;

/// Side of the square blocks, in tiles, that `WorldGenerator::new` uses.
pub const GENERATION_BLOCK_SIZE: usize = 64;

/// Number of elevation octaves that `WorldGenerator::new` uses.
pub const FAST_OCTAVES: usize = 2;

/// Number of elevation octaves for the finest terrain in common use.
pub const REFERENCE_OCTAVES: usize = 4;

/// Largest world side that a generator accepts.
pub const MAX_WORLD_SIZE: usize = 32768;

/// Largest block side that a generator accepts.
pub const MAX_BLOCK_SIZE: usize = 4096;

/// Largest number of elevation octaves that a generator accepts.
pub const MAX_OCTAVES: usize = 8;

#[derive(Debug, Clone, Copy, PartialEq, Eq, Structural)]
pub struct WorldGenerator {
    pub seed: u32,
    pub world_size: usize,
    pub block_size: usize,
    pub octaves: usize,
}

impl WorldGenerator {
    /// The settings are within the limits the generator works in.
    pub open spec fn wf(&self) -> bool {
        &&& 1 <= self.world_size <= MAX_WORLD_SIZE
        &&& 1 <= self.block_size <= MAX_BLOCK_SIZE
        &&& 1 <= self.octaves <= MAX_OCTAVES
    }

    /// The settings that `layout` accepts.
    pub open spec fn layout_accepted(world_size: usize, block_size: usize, octaves: usize) -> bool {
        &&& 1 <= world_size <= MAX_WORLD_SIZE
        &&& 1 <= block_size <= MAX_BLOCK_SIZE
        &&& 1 <= octaves <= MAX_OCTAVES
    }

    /// Whether the settings are within the limits.
    pub fn is_valid(&self) -> (valid: bool)
        ensures
            valid == self.wf(),
    {
        1 <= self.world_size && self.world_size <= MAX_WORLD_SIZE && 1 <= self.block_size
            && self.block_size <= MAX_BLOCK_SIZE && 1 <= self.octaves && self.octaves
            <= MAX_OCTAVES
    }

    /// A generator for the default world. With no seed given, one is drawn at
    /// random, and nothing is known of it.
    pub fn new(seed: Option<u32>) -> (generator: Self)
        ensures
            generator.wf(),
            generator.world_size == WORLD_SIZE,
            generator.block_size == GENERATION_BLOCK_SIZE,
            generator.octaves == FAST_OCTAVES,
            seed matches Some(s) ==> generator.seed == s,
    {
        let seed: u32 = match seed {
            Some(s) => s,
            None => random_seed(),
        };
        Self::with_seed(seed)
    }

    /// The generator for the default world with the given seed.
    pub fn with_seed(seed: u32) -> (generator: Self)
        ensures
            generator == (WorldGenerator {
                seed,
                world_size: WORLD_SIZE,
                block_size: GENERATION_BLOCK_SIZE,
                octaves: FAST_OCTAVES,
            }),
            generator.wf(),
    {
        WorldGenerator {
            seed,
            world_size: WORLD_SIZE,
            block_size: GENERATION_BLOCK_SIZE,
            octaves: FAST_OCTAVES,
        }
    }

    /// A generator with the given settings, or `None` where one of them is
    /// outside the limits.
    pub fn layout(seed: u32, world_size: usize, block_size: usize, octaves: usize) -> (generator:
        Option<Self>)
        ensures
            generator.is_some() == Self::layout_accepted(world_size, block_size, octaves),
            generator matches Some(g) ==> g == (WorldGenerator {
                seed,
                world_size,
                block_size,
                octaves,
            }) && g.wf(),
    {
        if 1 <= world_size && world_size <= MAX_WORLD_SIZE && 1 <= block_size && block_size
            <= MAX_BLOCK_SIZE && 1 <= octaves && octaves <= MAX_OCTAVES {
            Some(WorldGenerator { seed, world_size, block_size, octaves })
        } else {
            None
        }
    }
}

/// Draws a seed with `rand::thread_rng().gen()`: the next 32 bits of the
/// thread's own generator, which the system seeds. The value depends on that
/// generator's state, so nothing is claimed of it. `thread_rng` panics where
/// the system gives it no seed to start from.
#[verifier::external_body]
fn random_seed() -> (seed: u32) {
    rand::thread_rng().gen()
}

} // verus!
