//! A compact, read-only picture of a world: the biome of every tile, packed
//! two to a byte, and the three fields sampled on a coarse grid.
//!
//! Tiles are numbered column by column, tile `(x, y)` having number
//! `x * n + y` in a world of side `n`. Byte `k` holds tile `2 * k` in its low
//! four bits and tile `2 * k + 1` in its high four bits. The fields are kept
//! for the tiles whose coordinates are both multiples of the sample stride.

use crate::biome::{lemma_id_round_trip, BiomeType};
use crate::generator::MAX_WORLD_SIZE;
use crate::tiling::{
    lemma_cell_number,
    lemma_number_names_cell,
    lemma_segment_count,
    lemma_segment_start,
    segment_count,
};
use crate::world::WorldMap;
use vstd::prelude::*;

verus! {

/// Distance, in tiles, between two sampled tiles.
pub const SAMPLE_RESOLUTION: usize = 8;

#[derive(Debug, Clone, PartialEq, Eq)]
pub struct CompressedWorldData {
    pub world_size: usize,
    pub biomes: Vec<u8>,
    pub elevation_samples: Vec<u32>,
    pub temperature_samples: Vec<u32>,
    pub moisture_samples: Vec<u32>,
    pub sample_resolution: usize,
}

/// Two four-bit values in one byte, `low` in the low bits.
pub open spec fn pack(low: u8, high: u8) -> u8 {
    (high << 4) | low
}

/// One of the two four-bit values of a byte.
pub open spec fn nibble(byte: u8, upper: bool) -> u8 {
    if upper {
        (byte >> 4) & 0xF
    } else {
        byte & 0xF
    }
}

/// The identifier of the biome of tile number `number`, or 0 past the last
/// tile.
pub open spec fn tile_id(world: &WorldMap, number: int) -> u8 {
    let n = world.size() as int;
    if number < n * n {
        world.tiles[number / n][number % n].biome.id()
    } else {
        0
    }
}

/// The three samples at `position` are the field values of the tile at
/// `(x, y)`.
pub open spec fn sample_taken(
    elevation: Seq<u32>,
    temperature: Seq<u32>,
    moisture: Seq<u32>,
    position: int,
    world: &WorldMap,
    x: int,
    y: int,
) -> bool {
    &&& 0 <= position < elevation.len()
    &&& position < temperature.len()
    &&& position < moisture.len()
    &&& elevation[position] == world.tiles[x][y].elevation
    &&& temperature[position] == world.tiles[x][y].temperature
    &&& moisture[position] == world.tiles[x][y].moisture
}

impl CompressedWorldData {
    /// Sample `(i, j)` of the coarse grid is taken at tile
    /// `(i * stride, j * stride)` of `world`.
    pub open spec fn sample_holds(&self, world: &WorldMap, i: int, j: int) -> bool {
        sample_taken(
            self.elevation_samples@,
            self.temperature_samples@,
            self.moisture_samples@,
            i * self.samples_per_side() + j,
            world,
            i * self.sample_resolution,
            j * self.sample_resolution,
        )
    }

    /// Number of sampled tiles along one side of the world.
    pub open spec fn samples_per_side(&self) -> int {
        segment_count(self.world_size as int, self.sample_resolution as int)
    }

    /// The lengths of the four lists are those that the side of the world and
    /// the stride call for.
    pub open spec fn wf(&self) -> bool {
        &&& 1 <= self.world_size <= MAX_WORLD_SIZE
        &&& 1 <= self.sample_resolution <= MAX_WORLD_SIZE
        &&& self.biomes.len() == (self.world_size * self.world_size + 1) / 2
        &&& self.elevation_samples.len() == self.samples_per_side() * self.samples_per_side()
        &&& self.temperature_samples.len() == self.samples_per_side() * self.samples_per_side()
        &&& self.moisture_samples.len() == self.samples_per_side() * self.samples_per_side()
    }

    /// The four bits kept for tile `(x, y)`.
    pub open spec fn packed_id(&self, x: int, y: int) -> u8 {
        let number = x * self.world_size + y;
        nibble(self.biomes[number / 2], number % 2 == 1)
    }

    /// The biome kept for tile `(x, y)`. Four bits that are no biome's
    /// identifier stand for `Ocean`.
    pub open spec fn biome_at(&self, x: int, y: int) -> BiomeType {
        BiomeType::of_id(self.packed_id(x, y))
    }

    /// Which sample stands for coordinate `coordinate`: the one nearest to
    /// it, the lower of two that are equally near.
    pub open spec fn nearest_sample(&self, coordinate: int) -> int {
        let rounded = (coordinate + (self.sample_resolution - 1) / 2) / (
        self.sample_resolution as int);
        if rounded >= self.samples_per_side() {
            self.samples_per_side() - 1
        } else {
            rounded
        }
    }

    /// Where in the sample lists the sample for tile `(x, y)` stands.
    pub open spec fn sample_position(&self, x: int, y: int) -> int {
        self.nearest_sample(x) * self.samples_per_side() + self.nearest_sample(y)
    }

    /// This is the compact picture of `world`: every byte holds the
    /// identifiers of its two tiles, and every sample is the field value of
    /// the tile it was taken at.
    pub open spec fn holds(&self, world: &WorldMap) -> bool {
        &&& self.wf()
        &&& world.is_square()
        &&& self.world_size == world.size()
        &&& forall|k: int|
            0 <= k < self.biomes.len() ==> #[trigger] self.biomes[k] == pack(
                tile_id(world, 2 * k),
                tile_id(world, 2 * k + 1),
            )
        &&& forall|i: int, j: int|
            0 <= i < self.samples_per_side() && 0 <= j < self.samples_per_side()
                ==> #[trigger] self.sample_holds(world, i, j)
    }

    /// Whether the lengths of the four lists are those that the side of the
    /// world and the stride call for.
    pub fn is_valid(&self) -> (valid: bool)
        ensures
            valid == self.wf(),
    {
        if !(1 <= self.world_size && self.world_size <= MAX_WORLD_SIZE && 1
            <= self.sample_resolution && self.sample_resolution <= MAX_WORLD_SIZE) {
            return false;
        }
        proof {
            lemma_segment_count(self.world_size as int, self.sample_resolution as int);
        }
        assert(self.world_size * self.world_size <= 32768 * 32768) by (nonlinear_arith)
            requires
                self.world_size <= 32768,
        ;
        let per_side: usize = (self.world_size + self.sample_resolution - 1)
            / self.sample_resolution;
        assert(per_side * per_side <= 32768 * 32768) by (nonlinear_arith)
            requires
                per_side <= 32768,
        ;
        let samples: usize = per_side * per_side;
        self.biomes.len() == (self.world_size * self.world_size + 1) / 2
            && self.elevation_samples.len() == samples && self.temperature_samples.len()
            == samples && self.moisture_samples.len() == samples
    }

    /// The compact picture of a world, sampled every `SAMPLE_RESOLUTION` tiles.
    pub fn from_world_map(world_map: &WorldMap) -> (compressed: Self)
        requires
            world_map.is_square(),
            1 <= world_map.size() <= MAX_WORLD_SIZE,
        ensures
            compressed.holds(world_map),
            compressed.sample_resolution == SAMPLE_RESOLUTION,
    {
        let n: usize = world_map.tiles.len();
        let stride: usize = SAMPLE_RESOLUTION;
        assert(n * n <= 32768 * 32768) by (nonlinear_arith)
            requires
                n <= 32768,
        ;
        let tile_count: usize = n * n;
        let byte_count: usize = (tile_count + 1) / 2;
        let mut biomes: Vec<u8> = Vec::new();
        let mut k: usize = 0;
        while k < byte_count
            invariant
                world_map.is_square(),
                n == world_map.size(),
                1 <= n <= MAX_WORLD_SIZE,
                tile_count == n * n,
                byte_count == (tile_count + 1) / 2,
                k <= byte_count,
                biomes.len() == k,
                forall|b: int|
                    0 <= b < k ==> #[trigger] biomes[b] == pack(
                        tile_id(world_map, 2 * b),
                        tile_id(world_map, 2 * b + 1),
                    ),
            decreases byte_count - k,
        {
            let first: usize = 2 * k;
            proof {
                lemma_number_names_cell(first as int, n as int, n as int);
            }
            let low: u8 = world_map.tiles[first / n][first % n].biome.to_id();
            let second: usize = first + 1;
            let high: u8 = if second < tile_count {
                proof {
                    lemma_number_names_cell(second as int, n as int, n as int);
                }
                world_map.tiles[second / n][second % n].biome.to_id()
            } else {
                0
            };
            biomes.push((high << 4) | low);
            k = k + 1;
        }
        proof {
            lemma_segment_count(n as int, stride as int);
        }
        let per_side: usize = (n + stride - 1) / stride;
        let mut elevation_samples: Vec<u32> = Vec::new();
        let mut temperature_samples: Vec<u32> = Vec::new();
        let mut moisture_samples: Vec<u32> = Vec::new();
        let mut i: usize = 0;
        while i < per_side
            invariant
                world_map.is_square(),
                n == world_map.size(),
                1 <= n <= MAX_WORLD_SIZE,
                stride == SAMPLE_RESOLUTION,
                per_side == segment_count(n as int, stride as int),
                1 <= per_side <= n,
                i <= per_side,
                elevation_samples.len() == i * per_side,
                temperature_samples.len() == i * per_side,
                moisture_samples.len() == i * per_side,
                forall|a: int, b: int|
                    0 <= a < i && 0 <= b < per_side ==> #[trigger] sample_taken(
                        elevation_samples@,
                        temperature_samples@,
                        moisture_samples@,
                        a * per_side + b,
                        world_map,
                        a * stride,
                        b * stride,
                    ),
            decreases per_side - i,
        {
            let mut j: usize = 0;
            proof {
                lemma_segment_start(i as int, stride as int, n as int);
            }
            while j < per_side
                invariant
                    world_map.is_square(),
                    n == world_map.size(),
                    1 <= n <= MAX_WORLD_SIZE,
                    stride == SAMPLE_RESOLUTION,
                    per_side == segment_count(n as int, stride as int),
                    1 <= per_side <= n,
                    i < per_side,
                    j <= per_side,
                    i * stride < n,
                    elevation_samples.len() == i * per_side + j,
                    temperature_samples.len() == i * per_side + j,
                    moisture_samples.len() == i * per_side + j,
                    forall|a: int, b: int|
                        (0 <= a < i && 0 <= b < per_side) || (a == i && 0 <= b < j)
                            ==> #[trigger] sample_taken(
                            elevation_samples@,
                            temperature_samples@,
                            moisture_samples@,
                            a * per_side + b,
                            world_map,
                            a * stride,
                            b * stride,
                        ),
                decreases per_side - j,
            {
                proof {
                    lemma_segment_start(j as int, stride as int, n as int);
                    assert(i * per_side + j < per_side * per_side <= 32768 * 32768)
                        by (nonlinear_arith)
                        requires
                            0 <= i < per_side,
                            0 <= j < per_side,
                            per_side <= 32768,
                    ;
                }
                let ghost before_elevation = elevation_samples@;
                let ghost before_temperature = temperature_samples@;
                let ghost before_moisture = moisture_samples@;
                let tile = &world_map.tiles[i * stride][j * stride];
                elevation_samples.push(tile.elevation);
                temperature_samples.push(tile.temperature);
                moisture_samples.push(tile.moisture);
                proof {
                    assert forall|a: int, b: int|
                        (0 <= a < i && 0 <= b < per_side) || (a == i && 0 <= b < j + 1)
                        implies #[trigger] sample_taken(
                        elevation_samples@,
                        temperature_samples@,
                        moisture_samples@,
                        a * per_side + b,
                        world_map,
                        a * stride,
                        b * stride,
                    ) by {
                        if a == i && b == j {
                        } else {
                            assert(sample_taken(
                                before_elevation,
                                before_temperature,
                                before_moisture,
                                a * per_side + b,
                                world_map,
                                a * stride,
                                b * stride,
                            ));
                        }
                    }
                }
                j = j + 1;
            }
            proof {
                assert(i * per_side + per_side == (i + 1) * per_side) by (nonlinear_arith);
            }
            i = i + 1;
        }
        CompressedWorldData {
            world_size: n,
            biomes,
            elevation_samples,
            temperature_samples,
            moisture_samples,
            sample_resolution: stride,
        }
    }

    /// The biome kept for tile `(x, y)`.
    pub fn get_biome(&self, x: usize, y: usize) -> (biome: BiomeType)
        requires
            self.wf(),
            x < self.world_size,
            y < self.world_size,
        ensures
            biome == self.biome_at(x as int, y as int),
    {
        proof {
            self.lemma_tile_number(x as int, y as int);
        }
        let number: usize = x * self.world_size + y;
        let byte: u8 = self.biomes[number / 2];
        let id: u8 = if number % 2 == 1 {
            (byte >> 4) & 0xF
        } else {
            byte & 0xF
        };
        BiomeType::from_id(id)
    }

    /// Which sample stands for coordinate `coordinate`.
    fn sample_index(&self, coordinate: usize) -> (index: usize)
        requires
            self.wf(),
            coordinate < self.world_size,
        ensures
            index == self.nearest_sample(coordinate as int),
            index < self.samples_per_side(),
    {
        proof {
            lemma_segment_count(self.world_size as int, self.sample_resolution as int);
            vstd::arithmetic::div_mod::lemma_div_pos_is_pos(
                coordinate + (self.sample_resolution - 1) / 2,
                self.sample_resolution as int,
            );
        }
        let per_side: usize = (self.world_size + self.sample_resolution - 1)
            / self.sample_resolution;
        let rounded: usize = (coordinate + (self.sample_resolution - 1) / 2)
            / self.sample_resolution;
        if rounded >= per_side {
            per_side - 1
        } else {
            rounded
        }
    }

    /// Where in the sample lists the sample for tile `(x, y)` stands.
    fn sample_slot(&self, x: usize, y: usize) -> (position: usize)
        requires
            self.wf(),
            x < self.world_size,
            y < self.world_size,
        ensures
            position == self.sample_position(x as int, y as int),
            position < self.samples_per_side() * self.samples_per_side(),
    {
        proof {
            lemma_segment_count(self.world_size as int, self.sample_resolution as int);
        }
        let per_side: usize = (self.world_size + self.sample_resolution - 1)
            / self.sample_resolution;
        let i = self.sample_index(x);
        let j = self.sample_index(y);
        assert(i * per_side + j < per_side * per_side <= 32768 * 32768) by (nonlinear_arith)
            requires
                0 <= i < per_side,
                0 <= j < per_side,
                per_side <= 32768,
        ;
        i * per_side + j
    }

    /// The elevation of the sampled tile nearest to `(x, y)`.
    pub fn get_elevation(&self, x: usize, y: usize) -> (elevation: u32)
        requires
            self.wf(),
            x < self.world_size,
            y < self.world_size,
        ensures
            elevation == self.elevation_samples[self.sample_position(x as int, y as int)],
    {
        self.elevation_samples[self.sample_slot(x, y)]
    }

    /// The temperature of the sampled tile nearest to `(x, y)`.
    pub fn get_temperature(&self, x: usize, y: usize) -> (temperature: u32)
        requires
            self.wf(),
            x < self.world_size,
            y < self.world_size,
        ensures
            temperature == self.temperature_samples[self.sample_position(x as int, y as int)],
    {
        self.temperature_samples[self.sample_slot(x, y)]
    }

    /// The moisture of the sampled tile nearest to `(x, y)`.
    pub fn get_moisture(&self, x: usize, y: usize) -> (moisture: u32)
        requires
            self.wf(),
            x < self.world_size,
            y < self.world_size,
        ensures
            moisture == self.moisture_samples[self.sample_position(x as int, y as int)],
    {
        self.moisture_samples[self.sample_slot(x, y)]
    }

    /// The number of a tile names it, and its byte is one of the bytes kept.
    pub proof fn lemma_tile_number(&self, x: int, y: int)
        requires
            self.wf(),
            0 <= x < self.world_size,
            0 <= y < self.world_size,
        ensures
            0 <= x * self.world_size + y < self.world_size * self.world_size,
            self.world_size * self.world_size <= MAX_WORLD_SIZE * MAX_WORLD_SIZE,
            (x * self.world_size + y) / 2 < self.biomes.len(),
            (x * self.world_size + y) / (self.world_size as int) == x,
            (x * self.world_size + y) % (self.world_size as int) == y,
    {
        let n = self.world_size as int;
        assert(0 <= x * n + y < n * n <= 32768 * 32768) by (nonlinear_arith)
            requires
                0 <= x < n,
                0 <= y < n,
                n <= 32768,
        ;
        lemma_cell_number(x, y, n);
    }

    /// Reading a biome back from the compact picture of a world gives the
    /// biome of the world's tile, for every tile.
    pub proof fn lemma_compression_round_trip(&self, world: &WorldMap, x: int, y: int)
        requires
            self.holds(world),
            0 <= x < world.size(),
            0 <= y < world.size(),
        ensures
            self.biome_at(x, y) == world.tiles[x][y].biome,
    {
        let n = self.world_size as int;
        let number = x * n + y;
        self.lemma_tile_number(x, y);
        let k = number / 2;
        let low = tile_id(world, 2 * k);
        let high = tile_id(world, 2 * k + 1);
        assert(self.biomes[k] == pack(low, high));
        let wanted = world.tiles[x][y].biome;
        lemma_id_round_trip(wanted);
        if number % 2 == 1 {
            assert(number == 2 * k + 1);
            assert(high == wanted.id());
            if 2 * k < n * n {
                lemma_id_round_trip(world.tiles[(2 * k) / n][(2 * k) % n].biome);
            }
            lemma_pack_round_trip(low, high);
        } else {
            assert(number == 2 * k);
            assert(low == wanted.id());
            if 2 * k + 1 < n * n {
                lemma_id_round_trip(world.tiles[(2 * k + 1) / n][(2 * k + 1) % n].biome);
            }
            lemma_pack_round_trip(low, high);
        }
    }

    /// The sample read for tile `(x, y)` of the compact picture of a world is
    /// the field value of the world's tile at the sampled coordinates nearest
    /// to `x` and to `y`, with nothing worked in between.
    pub proof fn lemma_lookup_reads_sampled_tile(&self, world: &WorldMap, x: int, y: int)
        requires
            self.holds(world),
            0 <= x < world.size(),
            0 <= y < world.size(),
        ensures
            sample_taken(
                self.elevation_samples@,
                self.temperature_samples@,
                self.moisture_samples@,
                self.sample_position(x, y),
                world,
                self.nearest_sample(x) * self.sample_resolution,
                self.nearest_sample(y) * self.sample_resolution,
            ),
    {
        lemma_segment_count(self.world_size as int, self.sample_resolution as int);
        self.lemma_nearest_sample(x, 0);
        self.lemma_nearest_sample(y, 0);
        assert(self.sample_holds(world, self.nearest_sample(x), self.nearest_sample(y)));
    }

    /// At a sampled tile the lookup is exact: the sample that stands for a
    /// sampled coordinate is the one taken there.
    pub proof fn lemma_sampled_coordinate(&self, sample: int)
        requires
            self.wf(),
            0 <= sample < self.samples_per_side(),
        ensures
            self.nearest_sample(sample * self.sample_resolution) == sample,
            0 <= sample * self.sample_resolution < self.world_size,
    {
        let stride = self.sample_resolution as int;
        lemma_segment_start(sample, stride, self.world_size as int);
        lemma_cell_number(sample, (stride - 1) / 2, stride);
    }

    /// The sample read for a coordinate is taken at the sampled coordinate
    /// nearest to it: no other sampled coordinate is nearer, and one that is
    /// as near lies higher.
    pub proof fn lemma_nearest_sample(&self, coordinate: int, other: int)
        requires
            self.wf(),
            0 <= coordinate < self.world_size,
            0 <= other < self.samples_per_side(),
        ensures
            0 <= self.nearest_sample(coordinate) < self.samples_per_side(),
            vstd::math::abs(coordinate - self.nearest_sample(coordinate) * self.sample_resolution)
                <= vstd::math::abs(coordinate - other * self.sample_resolution),
            vstd::math::abs(coordinate - self.nearest_sample(coordinate) * self.sample_resolution)
                == vstd::math::abs(coordinate - other * self.sample_resolution)
                ==> self.nearest_sample(coordinate) <= other,
    {
        let stride = self.sample_resolution as int;
        let per_side = self.samples_per_side();
        let shifted = coordinate + (stride - 1) / 2;
        let rounded = shifted / stride;
        lemma_segment_count(self.world_size as int, stride);
        vstd::arithmetic::div_mod::lemma_fundamental_div_mod(shifted, stride);
        vstd::arithmetic::div_mod::lemma_mod_pos_bound(shifted, stride);
        vstd::arithmetic::div_mod::lemma_div_pos_is_pos(shifted, stride);
        let chosen = self.nearest_sample(coordinate);
        assert(stride * rounded == rounded * stride) by (nonlinear_arith);
        if other > chosen {
            assert(other * stride >= (chosen + 1) * stride) by (nonlinear_arith)
                requires
                    other >= chosen + 1,
                    stride >= 1,
            ;
            assert((chosen + 1) * stride == chosen * stride + stride) by (nonlinear_arith);
        } else if other < chosen {
            assert(other * stride <= (chosen - 1) * stride) by (nonlinear_arith)
                requires
                    other <= chosen - 1,
                    stride >= 1,
            ;
            assert((chosen - 1) * stride == chosen * stride - stride) by (nonlinear_arith);
            if rounded >= per_side {
                assert(rounded * stride >= per_side * stride) by (nonlinear_arith)
                    requires
                        rounded >= per_side,
                        stride >= 1,
                ;
                assert((per_side - 1) * stride == per_side * stride - stride)
                    by (nonlinear_arith);
            }
        }
    }
}

/// Two four-bit values packed into a byte are read back unchanged.
pub proof fn lemma_pack_round_trip(low: u8, high: u8)
    requires
        low < 16,
        high < 16,
    ensures
        nibble(pack(low, high), false) == low,
        nibble(pack(low, high), true) == high,
{
    assert(((high << 4) | low) & 0xF == low) by (bit_vector)
        requires
            low < 16,
            high < 16,
    ;
    assert((((high << 4) | low) >> 4) & 0xF == high) by (bit_vector)
        requires
            low < 16,
            high < 16,
    ;
}

} // verus!
