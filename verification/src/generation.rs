//! Generation of tiles, of blocks of tiles, and of the whole world from noise
//! readings.
//!
//! The generator does not read the noise itself. It says where each reading
//! is to be taken (`block_sample_points`), and is handed the readings, in the
//! same order, as integers counting millionths.

use crate::classify::classify;
use crate::fields::{elevation_of, moisture_of, temperature_of};
use crate::generator::WorldGenerator;
use crate::resources::{lemma_resources_within_catalog, resources_of};
use crate::tiling::{
    lemma_cell_in_segment,
    lemma_cell_number,
    lemma_number_names_cell,
    lemma_segment_of_cell,
};
use crate::world::{Tile, TileModel};
use vstd::prelude::*;

verus! {

/// A tile together with the place in the world where it belongs.
#[derive(Debug, Clone, PartialEq, Eq)]
pub struct PlacedTile {
    pub x: usize,
    pub y: usize,
    pub tile: Tile,
}

/// A placed tile as a mathematical value.
pub ghost struct PlacedTileModel {
    pub x: int,
    pub y: int,
    pub tile: TileModel,
}

impl View for PlacedTile {
    type V = PlacedTileModel;

    open spec fn view(&self) -> PlacedTileModel {
        PlacedTileModel { x: self.x as int, y: self.y as int, tile: self.tile@ }
    }
}

impl WorldGenerator {
    /// The tile at `(x, y)`, given its readings: the fields are combined from
    /// the readings, the biome is decided from the fields, and the resources
    /// from the biome, the seed and the position.
    pub open spec fn tile_of(&self, x: int, y: int, readings: Seq<i32>) -> TileModel {
        let elevation = elevation_of(readings.take(self.octaves as int)) as u32;
        let temperature = temperature_of(
            y,
            self.world_size as int,
            readings[self.octaves as int] as int,
        ) as u32;
        let moisture = moisture_of(readings[self.octaves + 1] as int) as u32;
        let biome = classify(elevation, temperature, moisture);
        TileModel {
            biome,
            elevation,
            temperature,
            moisture,
            resources: resources_of(biome, self.seed, x as usize, y as usize),
        }
    }

    /// Tile number `index` of a block, given the readings of the block.
    pub open spec fn block_tile_of(&self, block: int, index: int, readings: Seq<i32>)
        -> PlacedTileModel {
        let x = self.block_tile_x(block, index);
        let y = self.block_tile_y(block, index);
        PlacedTileModel { x, y, tile: self.tile_of(x, y, self.tile_readings(readings, index)) }
    }

    /// The tiles of a block, given its readings.
    pub open spec fn block_tiles_of(&self, block: int, readings: Seq<i32>) -> Seq<PlacedTileModel> {
        Seq::new(
            self.block_tiles(block) as nat,
            |index: int| self.block_tile_of(block, index, readings),
        )
    }

    /// What `generate_block` hands back for a block and a list of readings:
    /// the tiles of the block in their order, or nothing where there is no
    /// such block or the readings are not as many as the block needs.
    pub open spec fn block_result(
        &self,
        block: int,
        readings: Seq<i32>,
        tiles: Option<Vec<PlacedTile>>,
    ) -> bool {
        &&& tiles.is_some() == (0 <= block < self.block_total() && readings.len()
            == self.block_readings(block))
        &&& tiles matches Some(placed) ==> placed.len() == self.block_tiles(block)
            && forall|index: int|
            0 <= index < placed.len() ==> (#[trigger] placed[index])@ == self.block_tile_of(
                block,
                index,
                readings,
            )
    }

    /// Number of the block that holds tile `(x, y)`.
    pub open spec fn block_of(&self, x: int, y: int) -> int {
        (y / (self.block_size as int)) * self.blocks_per_side() + x / (self.block_size as int)
    }

    /// Number of tile `(x, y)` within its block.
    pub open spec fn index_in_block(&self, x: int, y: int) -> int {
        (x % (self.block_size as int)) * self.block_height(self.block_of(x, y)) + y % (
        self.block_size as int)
    }

    /// The tile at `(x, y)`, from the readings of the tile starting at
    /// `readings[start]`.
    pub fn generate_tile(&self, x: usize, y: usize, readings: &Vec<i32>, start: usize) -> (tile:
        Tile)
        requires
            self.wf(),
            x < self.world_size,
            y < self.world_size,
            start + self.octaves + 2 <= readings.len(),
        ensures
            tile@ == self.tile_of(
                x as int,
                y as int,
                readings@.subrange(start as int, start + self.octaves + 2),
            ),
            tile@.wf(),
    {
        let ghost own = readings@.subrange(start as int, start + self.octaves + 2);
        assert(own.take(self.octaves as int) =~= readings@.subrange(
            start as int,
            start + self.octaves as int,
        ));
        let elevation = self.generate_elevation(readings, start);
        let temperature = self.generate_temperature(y, readings[start + self.octaves]);
        let moisture = self.generate_moisture(readings[start + self.octaves + 1]);
        let biome = Self::determine_biome_fast(elevation, temperature, moisture);
        let resources = Self::generate_resources_fast(&biome, self.seed, x, y);
        proof {
            lemma_resources_within_catalog(biome, self.seed, x, y);
        }
        Tile { biome, elevation, temperature, moisture, resources }
    }

    /// The tiles of a block, from the readings taken at
    /// `block_sample_points(block)`. `None` where there is no such block or
    /// the number of readings is not the number of those points.
    pub fn generate_block(&self, block: usize, readings: &Vec<i32>) -> (tiles: Option<
        Vec<PlacedTile>,
    >)
        requires
            self.wf(),
        ensures
            self.block_result(block as int, readings@, tiles),
    {
        if block >= self.block_count() {
            return None;
        }
        if readings.len() != self.block_reading_count(block) {
            return None;
        }
        let (start_x, start_y, end_x, end_y) = self.block_bounds(block);
        let per_tile: usize = self.octaves + 2;
        let ghost height = end_y - start_y;
        proof {
            self.lemma_block_geometry(block as int);
        }
        let mut placed: Vec<PlacedTile> = Vec::new();
        let mut cursor: usize = 0;
        let mut x: usize = start_x;
        proof {
            assert(placed.len() * per_tile == 0) by (nonlinear_arith)
                requires
                    placed.len() == 0,
            ;
            assert((x - start_x) * height == 0) by (nonlinear_arith)
                requires
                    x == start_x,
            ;
        }
        while x < end_x
            invariant
                self.wf(),
                block < self.block_total(),
                readings.len() == self.block_readings(block as int),
                start_x == self.block_start_x(block as int),
                start_y == self.block_start_y(block as int),
                end_x == self.block_end_x(block as int),
                end_y == self.block_end_y(block as int),
                start_x <= x <= end_x <= self.world_size,
                start_y < end_y <= self.world_size,
                height == end_y - start_y,
                per_tile == self.readings_per_tile(),
                placed.len() == (x - start_x) * height,
                cursor == placed.len() * per_tile,
                forall|index: int|
                    0 <= index < placed.len() ==> (#[trigger] placed[index])@
                        == self.block_tile_of(block as int, index, readings@),
            decreases end_x - x,
        {
            let mut y: usize = start_y;
            while y < end_y
                invariant
                    self.wf(),
                    block < self.block_total(),
                    readings.len() == self.block_readings(block as int),
                    start_x == self.block_start_x(block as int),
                    start_y == self.block_start_y(block as int),
                    end_x == self.block_end_x(block as int),
                    end_y == self.block_end_y(block as int),
                    start_x <= x < end_x <= self.world_size,
                    start_y <= y <= end_y <= self.world_size,
                    height == end_y - start_y,
                    per_tile == self.readings_per_tile(),
                    placed.len() == (x - start_x) * height + (y - start_y),
                    cursor == placed.len() * per_tile,
                    forall|index: int|
                        0 <= index < placed.len() ==> (#[trigger] placed[index])@
                            == self.block_tile_of(block as int, index, readings@),
                decreases end_y - y,
            {
                let ghost index = placed.len() as int;
                proof {
                    lemma_cell_number(x - start_x, y - start_y, height);
                    assert(index < self.block_tiles(block as int)) by (nonlinear_arith)
                        requires
                            index == (x - start_x) * height + (y - start_y),
                            self.block_tiles(block as int) == (end_x - start_x) * height,
                            start_x <= x < end_x,
                            start_y <= y < end_y,
                            height == end_y - start_y,
                    ;
                    assert((index + 1) * per_tile <= self.block_tiles(block as int) * per_tile)
                        by (nonlinear_arith)
                        requires
                            index + 1 <= self.block_tiles(block as int),
                            per_tile >= 0,
                    ;
                    assert((index + 1) * per_tile == index * per_tile + per_tile)
                        by (nonlinear_arith);
                }
                let tile = self.generate_tile(x, y, readings, cursor);
                placed.push(PlacedTile { x, y, tile });
                cursor = cursor + per_tile;
                y = y + 1;
            }
            proof {
                assert((x - start_x) * height + (end_y - start_y) == (x + 1 - start_x) * height)
                    by (nonlinear_arith)
                    requires
                        height == end_y - start_y,
                ;
            }
            x = x + 1;
        }
        Some(placed)
    }

    /// A tile made from readings is as every generated tile is: its fields
    /// lie between 0 and 1, its biome is the one they decide, and its
    /// resources are one to three kinds out of the biome's catalog.
    pub proof fn lemma_tile_of_wf(&self, x: int, y: int, readings: Seq<i32>)
        requires
            self.wf(),
            0 <= x < self.world_size,
            0 <= y < self.world_size,
        ensures
            self.tile_of(x, y, readings).wf(),
    {
        let tile = self.tile_of(x, y, readings);
        lemma_resources_within_catalog(tile.biome, self.seed, x as usize, y as usize);
    }

    /// Every tile of the world is a tile of exactly one block: the block and
    /// the number within it are those that `block_of` and `index_in_block`
    /// give.
    pub proof fn lemma_tile_block(&self, x: int, y: int)
        requires
            self.wf(),
            0 <= x < self.world_size,
            0 <= y < self.world_size,
        ensures
            0 <= self.block_of(x, y) < self.block_total(),
            0 <= self.index_in_block(x, y) < self.block_tiles(self.block_of(x, y)),
            self.block_tile_x(self.block_of(x, y), self.index_in_block(x, y)) == x,
            self.block_tile_y(self.block_of(x, y), self.index_in_block(x, y)) == y,
    {
        let side = self.block_size as int;
        let size = self.world_size as int;
        let columns = self.blocks_per_side();
        let block = self.block_of(x, y);
        lemma_segment_of_cell(x, side, size);
        lemma_segment_of_cell(y, side, size);
        lemma_cell_number(y / side, x / side, columns);
        assert(0 <= block < columns * columns) by (nonlinear_arith)
            requires
                block == (y / side) * columns + x / side,
                0 <= y / side < columns,
                0 <= x / side < columns,
        ;
        self.lemma_block_geometry(block);
        let height = self.block_height(block);
        let width = self.block_width(block);
        assert(x % side == x - self.block_start_x(block));
        assert(y % side == y - self.block_start_y(block));
        lemma_cell_number(x % side, y % side, height);
        assert(0 <= (x % side) * height + y % side < width * height) by (nonlinear_arith)
            requires
                0 <= x % side < width,
                0 <= y % side < height,
        ;
    }

    /// Every tile of a block is a tile of the world, and the block and the
    /// number are read back from its position.
    pub proof fn lemma_block_tile_position(&self, block: int, index: int)
        requires
            self.wf(),
            0 <= block < self.block_total(),
            0 <= index < self.block_tiles(block),
        ensures
            0 <= self.block_tile_x(block, index) < self.world_size,
            0 <= self.block_tile_y(block, index) < self.world_size,
            self.block_of(self.block_tile_x(block, index), self.block_tile_y(block, index))
                == block,
            self.index_in_block(self.block_tile_x(block, index), self.block_tile_y(block, index))
                == index,
    {
        let side = self.block_size as int;
        let columns = self.blocks_per_side();
        self.lemma_block_geometry(block);
        let height = self.block_height(block);
        let width = self.block_width(block);
        lemma_number_names_cell(index, width, height);
        let x = self.block_tile_x(block, index);
        let y = self.block_tile_y(block, index);
        lemma_cell_in_segment(x, block % columns, side);
        lemma_cell_in_segment(y, block / columns, side);
    }
}

} // verus!
