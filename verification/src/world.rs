//! The tile, and the square grid of tiles that one generation run produces.

use crate::biome::{BiomeType, ResourceType};
use crate::classify::classify;
use crate::fields::UNIT;
use crate::resources::MAX_TILE_RESOURCES;
use vstd::prelude::*;

verus! {

/// One cell of the world. Elevation, temperature and moisture count
/// millionths, from 0 to `UNIT`.
#[derive(Debug, Clone, PartialEq, Eq)]
pub struct Tile {
    pub biome: BiomeType,
    pub elevation: u32,
    pub temperature: u32,
    pub moisture: u32,
    pub resources: Vec<ResourceType>,
}

/// What a tile holds, as a mathematical value.
pub ghost struct TileModel {
    pub biome: BiomeType,
    pub elevation: u32,
    pub temperature: u32,
    pub moisture: u32,
    pub resources: Seq<ResourceType>,
}

impl TileModel {
    /// What holds of every generated tile: the three fields lie between 0 and
    /// 1, the biome is the one the fields decide, and the resources are one to
    /// three kinds out of the biome's catalog.
    pub open spec fn wf(self) -> bool {
        &&& self.elevation <= UNIT
        &&& self.temperature <= UNIT
        &&& self.moisture <= UNIT
        &&& self.biome == classify(self.elevation, self.temperature, self.moisture)
        &&& 1 <= self.resources.len() <= MAX_TILE_RESOURCES
        &&& self.resources.len() <= self.biome.catalog().len()
        &&& forall|i: int|
            0 <= i < self.resources.len() ==> self.biome.catalog().contains(
                #[trigger] self.resources[i],
            )
    }
}

impl View for Tile {
    type V = TileModel;

    open spec fn view(&self) -> TileModel {
        TileModel {
            biome: self.biome,
            elevation: self.elevation,
            temperature: self.temperature,
            moisture: self.moisture,
            resources: self.resources@,
        }
    }
}

impl Tile {
    /// The tile that fills a grid before generation: open water at zero
    /// everywhere, holding nothing.
    pub open spec fn blank_model() -> TileModel {
        TileModel {
            biome: BiomeType::Ocean,
            elevation: 0,
            temperature: 0,
            moisture: 0,
            resources: Seq::empty(),
        }
    }

    pub fn blank() -> (tile: Tile)
        ensures
            tile@ == Self::blank_model(),
    {
        Tile {
            biome: BiomeType::Ocean,
            elevation: 0,
            temperature: 0,
            moisture: 0,
            resources: Vec::new(),
        }
    }
}

/// The grid of tiles of one generation run, with the seed it was made from.
/// Column `x` is `tiles[x]`, and the tile at `(x, y)` is `tiles[x][y]`.
#[derive(Debug, Clone, PartialEq, Eq)]
pub struct WorldMap {
    pub tiles: Vec<Vec<Tile>>,
    pub seed: u32,
}

/// What a world holds, as a mathematical value.
pub ghost struct WorldModel {
    pub seed: u32,
    pub tiles: Seq<Seq<TileModel>>,
}

impl View for WorldMap {
    type V = WorldModel;

    open spec fn view(&self) -> WorldModel {
        WorldModel {
            seed: self.seed,
            tiles: Seq::new(
                self.tiles.len() as nat,
                |x: int| Seq::new(self.tiles[x].len() as nat, |y: int| self.tiles[x][y]@),
            ),
        }
    }
}

impl WorldModel {
    /// Side of the grid.
    pub open spec fn size(self) -> nat {
        self.tiles.len()
    }

    /// Every column is as long as the grid is wide.
    pub open spec fn is_square(self) -> bool {
        forall|x: int| 0 <= x < self.tiles.len() ==> (#[trigger] self.tiles[x]).len() == self.size()
    }

    /// The grid is square and every tile in it is as a generated tile is.
    pub open spec fn wf(self) -> bool {
        &&& self.is_square()
        &&& forall|x: int, y: int|
            0 <= x < self.size() && 0 <= y < self.size() ==> (#[trigger] self.tiles[x][y]).wf()
    }
}

impl WorldMap {
    /// Side of the grid.
    pub open spec fn size(&self) -> nat {
        self.tiles.len() as nat
    }

    /// Every column is as long as the grid is wide.
    pub open spec fn is_square(&self) -> bool {
        forall|x: int| 0 <= x < self.tiles.len() ==> (#[trigger] self.tiles[x]).len() == self.size()
    }

    /// Side of the grid.
    pub fn side(&self) -> (side: usize)
        ensures
            side == self.size(),
    {
        self.tiles.len()
    }

    /// Whether every column is as long as the grid is wide.
    pub fn is_grid(&self) -> (square: bool)
        ensures
            square == self.is_square(),
    {
        let side = self.tiles.len();
        let mut x: usize = 0;
        while x < side
            invariant
                side == self.tiles.len(),
                x <= side,
                forall|c: int| 0 <= c < x ==> (#[trigger] self.tiles[c]).len() == side,
            decreases side - x,
        {
            if self.tiles[x].len() != side {
                return false;
            }
            x = x + 1;
        }
        true
    }

    /// The tile at `(x, y)`.
    pub fn tile(&self, x: usize, y: usize) -> (tile: &Tile)
        requires
            x < self.tiles.len(),
            y < self.tiles[x as int].len(),
        ensures
            *tile == self.tiles[x as int][y as int],
            tile@ == self@.tiles[x as int][y as int],
    {
        &self.tiles[x][y]
    }
}

/// A square grid's model is square, of the same side, and holds the views of
/// the grid's tiles.
pub proof fn lemma_world_model(world: &WorldMap)
    requires
        world.is_square(),
    ensures
        world@.is_square(),
        world@.size() == world.size(),
        world@.seed == world.seed,
        forall|x: int, y: int|
            0 <= x < world.size() && 0 <= y < world.size() ==> #[trigger] world@.tiles[x][y]
                == world.tiles[x][y]@,
{
    assert forall|x: int| 0 <= x < world@.tiles.len() implies (#[trigger] world@.tiles[x]).len()
        == world@.size() by {
        assert(world.tiles[x].len() == world.size());
    }
    assert forall|x: int, y: int| 0 <= x < world.size() && 0 <= y < world.size() implies #[trigger]
        world@.tiles[x][y] == world.tiles[x][y]@ by {
        assert(world.tiles[x].len() == world.size());
    }
}

} // verus!
