//! The resources of a tile: a count drawn from a hash of the seed and the
//! tile's position, and that many kinds from the front of the biome's catalog.

use crate::biome::{BiomeType, ResourceType};
use crate::generator::WorldGenerator;
use vstd::prelude::*;

verus! {

/// Multiplier of the position hash.
pub const HASH_MULTIPLIER: u64 = 6364136223846793005;

/// The most resource kinds a tile holds.
pub const MAX_TILE_RESOURCES: usize = 3;

/// The hash of a seed and a position: the seed is multiplied, the position
/// (`x` sixteen bits to the left of `y`) is added, and the sum is multiplied
/// again, all modulo 2^64.
pub open spec fn position_hash(seed: u32, x: usize, y: usize) -> u64 {
    (seed as u64).wrapping_mul(HASH_MULTIPLIER).wrapping_add(((x as u64) << 16) | (y as u64))
        .wrapping_mul(HASH_MULTIPLIER)
}

/// How many resource kinds the tile at `(x, y)` holds: one to three as the
/// hash decides, but no more than the catalog lists.
pub open spec fn resource_count(biome: BiomeType, seed: u32, x: usize, y: usize) -> int {
    let drawn = (position_hash(seed, x, y) >> 16) % 3 + 1;
    if drawn <= biome.catalog().len() {
        drawn as int
    } else {
        biome.catalog().len() as int
    }
}

/// The resources of the tile at `(x, y)`: the front of the catalog.
pub open spec fn resources_of(biome: BiomeType, seed: u32, x: usize, y: usize) -> Seq<
    ResourceType,
> {
    biome.catalog().take(resource_count(biome, seed, x, y))
}

impl WorldGenerator {
    pub fn generate_resources_fast(biome: &BiomeType, seed: u32, x: usize, y: usize) -> (resources:
        Vec<ResourceType>)
        ensures
            resources@ == resources_of(*biome, seed, x, y),
            1 <= resources.len() <= MAX_TILE_RESOURCES,
            resources.len() <= biome.catalog().len(),
            forall|i: int|
                0 <= i < resources.len() ==> resources[i] == #[trigger] biome.catalog()[i],
    {
        let hash: u64 = (seed as u64).wrapping_mul(HASH_MULTIPLIER).wrapping_add(
            ((x as u64) << 16) | (y as u64),
        ).wrapping_mul(HASH_MULTIPLIER);
        let available = biome.get_resources();
        proof {
            crate::biome::lemma_catalog_shape(*biome);
        }
        let drawn: usize = ((hash >> 16) % 3 + 1) as usize;
        let count: usize = if drawn <= available.len() {
            drawn
        } else {
            available.len()
        };
        let mut resources: Vec<ResourceType> = Vec::new();
        let mut i: usize = 0;
        while i < count
            invariant
                i <= count <= available.len(),
                resources@ == available@.take(i as int),
            decreases count - i,
        {
            resources.push(available[i]);
            assert(resources@ =~= available@.take(i + 1));
            i = i + 1;
        }
        resources
    }
}

/// Every tile holds at least one resource kind and at most three, never more
/// than its biome's catalog lists, none twice, and each of them is in the
/// catalog.
pub proof fn lemma_resources_within_catalog(biome: BiomeType, seed: u32, x: usize, y: usize)
    ensures
        1 <= resources_of(biome, seed, x, y).len() <= MAX_TILE_RESOURCES,
        resources_of(biome, seed, x, y).len() <= biome.catalog().len(),
        resources_of(biome, seed, x, y).len() == resource_count(biome, seed, x, y),
        forall|i: int|
            0 <= i < resources_of(biome, seed, x, y).len() ==> biome.catalog().contains(
                #[trigger] resources_of(biome, seed, x, y)[i],
            ),
        resources_of(biome, seed, x, y).no_duplicates(),
{
    crate::biome::lemma_catalog_shape(biome);
    let catalog = biome.catalog();
    let chosen = resources_of(biome, seed, x, y);
    assert forall|i: int| 0 <= i < chosen.len() implies catalog.contains(#[trigger] chosen[i]) by {
        assert(chosen[i] == catalog[i]);
    }
}

} // verus!
