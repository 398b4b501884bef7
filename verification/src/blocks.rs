//! The square blocks that the world is generated in, and the noise readings
//! that each block needs.
//!
//! Blocks are numbered row by row: block `b` stands in column `b % c` and row
//! `b / c` of the grid of blocks, where `c` is the number of blocks per side.
//! The tiles of a block are numbered column by column, as the generator
//! visits them. Each tile needs one reading per elevation octave, one for
//! temperature and one for moisture, in that order.

use crate::fields::SamplePoint;
use crate::generator::{WorldGenerator, MAX_BLOCK_SIZE, MAX_OCTAVES, MAX_WORLD_SIZE};
use crate::tiling::{
    lemma_cell_number,
    lemma_number_names_cell,
    lemma_segment_count,
    lemma_segment_start,
    segment_count,
    segment_end,
};
use vstd::prelude::*;

verus! {

impl WorldGenerator {
    /// Number of blocks along one side of the world.
    pub open spec fn blocks_per_side(&self) -> int {
        segment_count(self.world_size as int, self.block_size as int)
    }

    /// Number of blocks in the world.
    pub open spec fn block_total(&self) -> int {
        self.blocks_per_side() * self.blocks_per_side()
    }

    pub open spec fn block_start_x(&self, block: int) -> int {
        (block % self.blocks_per_side()) * self.block_size
    }

    pub open spec fn block_start_y(&self, block: int) -> int {
        (block / self.blocks_per_side()) * self.block_size
    }

    pub open spec fn block_end_x(&self, block: int) -> int {
        segment_end(
            block % self.blocks_per_side(),
            self.block_size as int,
            self.world_size as int,
        )
    }

    pub open spec fn block_end_y(&self, block: int) -> int {
        segment_end(
            block / self.blocks_per_side(),
            self.block_size as int,
            self.world_size as int,
        )
    }

    pub open spec fn block_width(&self, block: int) -> int {
        self.block_end_x(block) - self.block_start_x(block)
    }

    pub open spec fn block_height(&self, block: int) -> int {
        self.block_end_y(block) - self.block_start_y(block)
    }

    /// Number of tiles in a block.
    pub open spec fn block_tiles(&self, block: int) -> int {
        self.block_width(block) * self.block_height(block)
    }

    /// Column of the world in which tile number `index` of a block stands.
    pub open spec fn block_tile_x(&self, block: int, index: int) -> int {
        self.block_start_x(block) + index / self.block_height(block)
    }

    /// Row of the world in which tile number `index` of a block stands.
    pub open spec fn block_tile_y(&self, block: int, index: int) -> int {
        self.block_start_y(block) + index % self.block_height(block)
    }

    /// Number of readings that one tile needs.
    pub open spec fn readings_per_tile(&self) -> int {
        self.octaves + 2
    }

    /// Number of readings that a block needs.
    pub open spec fn block_readings(&self, block: int) -> int {
        self.block_tiles(block) * self.readings_per_tile()
    }

    /// Where reading number `slot` of tile `(x, y)` is taken: the elevation
    /// octaves first, then temperature, then moisture.
    pub open spec fn tile_point_of(&self, x: int, y: int, slot: int) -> SamplePoint {
        if slot < self.octaves {
            self.elevation_point_of(x, y, slot as nat)
        } else if slot == self.octaves {
            self.temperature_point_of(x, y)
        } else {
            self.moisture_point_of(x, y)
        }
    }

    /// Where the readings of tile `(x, y)` are taken, in order.
    pub open spec fn tile_points_of(&self, x: int, y: int) -> Seq<SamplePoint> {
        Seq::new(self.readings_per_tile() as nat, |slot: int| self.tile_point_of(x, y, slot))
    }

    /// Where reading number `position` of a block is taken: the readings of
    /// its tiles follow one another in the order of the tiles.
    pub open spec fn block_point_of(&self, block: int, position: int) -> SamplePoint {
        let index = position / self.readings_per_tile();
        self.tile_point_of(
            self.block_tile_x(block, index),
            self.block_tile_y(block, index),
            position % self.readings_per_tile(),
        )
    }

    /// Where the readings of a block are taken, in order.
    pub open spec fn block_points_of(&self, block: int) -> Seq<SamplePoint> {
        Seq::new(
            self.block_readings(block) as nat,
            |position: int| self.block_point_of(block, position),
        )
    }

    /// The readings of tile number `index` within the readings of its block.
    pub open spec fn tile_readings(&self, readings: Seq<i32>, index: int) -> Seq<i32> {
        readings.subrange(
            index * self.readings_per_tile(),
            index * self.readings_per_tile() + self.readings_per_tile(),
        )
    }

    /// Number of blocks along one side of the world.
    pub fn block_columns(&self) -> (count: usize)
        requires
            self.wf(),
        ensures
            count == self.blocks_per_side(),
            1 <= count <= self.world_size,
    {
        proof {
            lemma_segment_count(self.world_size as int, self.block_size as int);
        }
        (self.world_size + self.block_size - 1) / self.block_size
    }

    /// Number of blocks in the world.
    pub fn block_count(&self) -> (count: usize)
        requires
            self.wf(),
        ensures
            count == self.block_total(),
            1 <= count <= MAX_WORLD_SIZE * MAX_WORLD_SIZE,
    {
        let columns = self.block_columns();
        assert(1 <= columns * columns <= 32768 * 32768) by (nonlinear_arith)
            requires
                1 <= columns <= 32768,
        ;
        columns * columns
    }

    /// The tiles of a block: from `(start_x, start_y)` up to, not including,
    /// `(end_x, end_y)`.
    pub fn block_bounds(&self, block: usize) -> (bounds: (usize, usize, usize, usize))
        requires
            self.wf(),
            block < self.block_total(),
        ensures
            bounds.0 == self.block_start_x(block as int),
            bounds.1 == self.block_start_y(block as int),
            bounds.2 == self.block_end_x(block as int),
            bounds.3 == self.block_end_y(block as int),
            bounds.0 < bounds.2 <= self.world_size,
            bounds.1 < bounds.3 <= self.world_size,
    {
        let columns = self.block_columns();
        proof {
            self.lemma_block_geometry(block as int);
        }
        let column = block % columns;
        let row = block / columns;
        let start_x = column * self.block_size;
        let start_y = row * self.block_size;
        let end_x = if start_x + self.block_size <= self.world_size {
            start_x + self.block_size
        } else {
            self.world_size
        };
        let end_y = if start_y + self.block_size <= self.world_size {
            start_y + self.block_size
        } else {
            self.world_size
        };
        (start_x, start_y, end_x, end_y)
    }

    /// Number of readings that a block needs.
    pub fn block_reading_count(&self, block: usize) -> (count: usize)
        requires
            self.wf(),
            block < self.block_total(),
        ensures
            count == self.block_readings(block as int),
    {
        let (start_x, start_y, end_x, end_y) = self.block_bounds(block);
        proof {
            self.lemma_block_geometry(block as int);
        }
        (end_x - start_x) * (end_y - start_y) * (self.octaves + 2)
    }

    /// Where the readings of tile `(x, y)` are taken, in order.
    pub fn sample_points(&self, x: usize, y: usize) -> (points: Vec<SamplePoint>)
        requires
            self.wf(),
            x < self.world_size,
            y < self.world_size,
        ensures
            points@ == self.tile_points_of(x as int, y as int),
    {
        let mut points: Vec<SamplePoint> = Vec::new();
        self.push_tile_points(x, y, &mut points);
        assert(points@ =~= self.tile_points_of(x as int, y as int));
        points
    }

    fn push_tile_points(&self, x: usize, y: usize, points: &mut Vec<SamplePoint>)
        requires
            self.wf(),
            x < self.world_size,
            y < self.world_size,
        ensures
            final(points)@ == old(points)@ + self.tile_points_of(x as int, y as int),
    {
        let ghost before = points@;
        let ghost wanted = self.tile_points_of(x as int, y as int);
        let mut octave: usize = 0;
        while octave < self.octaves
            invariant
                self.wf(),
                x < self.world_size,
                y < self.world_size,
                octave <= self.octaves,
                wanted == self.tile_points_of(x as int, y as int),
                points@ == before + wanted.take(octave as int),
            decreases self.octaves - octave,
        {
            let point = self.elevation_point(x, y, octave);
            points.push(point);
            assert(points@ =~= before + wanted.take(octave + 1));
            octave = octave + 1;
        }
        points.push(self.temperature_point(x, y));
        points.push(self.moisture_point(x, y));
        assert(points@ =~= before + wanted);
    }

    /// Where the readings of a block are taken, in the order in which
    /// `generate_block` expects the readings.
    pub fn block_sample_points(&self, block: usize) -> (points: Vec<SamplePoint>)
        requires
            self.wf(),
            block < self.block_total(),
        ensures
            points@ == self.block_points_of(block as int),
            points.len() == self.block_readings(block as int),
    {
        let (start_x, start_y, end_x, end_y) = self.block_bounds(block);
        let ghost height = end_y - start_y;
        let ghost per_tile = self.readings_per_tile();
        proof {
            self.lemma_block_geometry(block as int);
        }
        let mut points: Vec<SamplePoint> = Vec::new();
        let mut x: usize = start_x;
        proof {
            assert((x - start_x) * height * per_tile == 0) by (nonlinear_arith)
                requires
                    x == start_x,
            ;
            assert(points@ =~= Seq::new(
                0,
                |position: int| self.block_point_of(block as int, position),
            ));
        }
        while x < end_x
            invariant
                self.wf(),
                block < self.block_total(),
                start_x == self.block_start_x(block as int),
                start_y == self.block_start_y(block as int),
                end_x == self.block_end_x(block as int),
                end_y == self.block_end_y(block as int),
                start_x <= x <= end_x <= self.world_size,
                start_y < end_y <= self.world_size,
                height == end_y - start_y,
                per_tile == self.readings_per_tile(),
                points@ == Seq::new(
                    ((x - start_x) * height * per_tile) as nat,
                    |position: int| self.block_point_of(block as int, position),
                ),
            decreases end_x - x,
        {
            let mut y: usize = start_y;
            while y < end_y
                invariant
                    self.wf(),
                    block < self.block_total(),
                    start_x == self.block_start_x(block as int),
                    start_y == self.block_start_y(block as int),
                    end_x == self.block_end_x(block as int),
                    end_y == self.block_end_y(block as int),
                    start_x <= x < end_x <= self.world_size,
                    start_y <= y <= end_y <= self.world_size,
                    height == end_y - start_y,
                    per_tile == self.readings_per_tile(),
                    points@ == Seq::new(
                        (((x - start_x) * height + (y - start_y)) * per_tile) as nat,
                        |position: int| self.block_point_of(block as int, position),
                    ),
                decreases end_y - y,
            {
                let ghost index = (x - start_x) * height + (y - start_y);
                let ghost before = points@;
                self.push_tile_points(x, y, &mut points);
                proof {
                    lemma_cell_number(x - start_x, y - start_y, height);
                    assert(0 <= index) by (nonlinear_arith)
                        requires
                            index == (x - start_x) * height + (y - start_y),
                            x >= start_x,
                            y >= start_y,
                            height > 0,
                    ;
                    assert((index + 1) * per_tile == index * per_tile + per_tile)
                        by (nonlinear_arith);
                    assert(0 <= index * per_tile) by (nonlinear_arith)
                        requires
                            0 <= index,
                            0 <= per_tile,
                    ;
                    let wanted = Seq::new(
                        ((index + 1) * per_tile) as nat,
                        |position: int| self.block_point_of(block as int, position),
                    );
                    assert(points@.len() == wanted.len());
                    assert forall|position: int|
                        0 <= position < wanted.len() implies points@[position]
                        == wanted[position] by {
                        if position >= index * per_tile {
                            let slot = position - index * per_tile;
                            lemma_cell_number(index, slot, per_tile);
                            assert(points@[position] == self.tile_points_of(
                                x as int,
                                y as int,
                            )[slot]);
                        } else {
                            assert(points@[position] == before[position]);
                        }
                    }
                    assert(points@ =~= wanted);
                    assert((x - start_x) * height + (y + 1 - start_y) == index + 1);
                }
                y = y + 1;
            }
            proof {
                assert((x - start_x) * height + (end_y - start_y) == (x + 1 - start_x) * height)
                    by (nonlinear_arith)
                    requires
                        height == end_y - start_y,
                ;
            }
            x = x + 1;
        }
        proof {
            assert((end_x - start_x) * height * per_tile == self.block_readings(block as int));
            assert(points@ =~= self.block_points_of(block as int));
        }
        points
    }

    /// Every block lies inside the world, is not empty, and is no larger than
    /// the block side allows.
    pub proof fn lemma_block_geometry(&self, block: int)
        requires
            self.wf(),
            0 <= block < self.block_total(),
        ensures
            1 <= self.blocks_per_side() <= self.world_size,
            0 <= block % self.blocks_per_side() < self.blocks_per_side(),
            0 <= block / self.blocks_per_side() < self.blocks_per_side(),
            block == (block / self.blocks_per_side()) * self.blocks_per_side() + block
                % self.blocks_per_side(),
            0 <= self.block_start_x(block) < self.block_end_x(block) <= self.world_size,
            0 <= self.block_start_y(block) < self.block_end_y(block) <= self.world_size,
            1 <= self.block_width(block) <= self.block_size,
            1 <= self.block_height(block) <= self.block_size,
            1 <= self.block_tiles(block) <= MAX_BLOCK_SIZE * MAX_BLOCK_SIZE,
            3 <= self.readings_per_tile() <= MAX_OCTAVES + 2,
            3 <= self.block_readings(block) <= MAX_BLOCK_SIZE * MAX_BLOCK_SIZE * (MAX_OCTAVES + 2),
    {
        let columns = self.blocks_per_side();
        let side = self.block_size as int;
        let size = self.world_size as int;
        lemma_segment_count(size, side);
        lemma_number_names_cell(block, columns, columns);
        lemma_segment_start(block % columns, side, size);
        lemma_segment_start(block / columns, side, size);
        let width = self.block_width(block);
        let height = self.block_height(block);
        assert(1 <= width * height <= 4096 * 4096) by (nonlinear_arith)
            requires
                1 <= width <= 4096,
                1 <= height <= 4096,
        ;
        let tiles = width * height;
        let per_tile = self.readings_per_tile();
        assert(3 <= tiles * per_tile <= 4096 * 4096 * 10) by (nonlinear_arith)
            requires
                1 <= tiles <= 4096 * 4096,
                3 <= per_tile <= 10,
        ;
    }
}

} // verus!
