//! Putting generated blocks together into a world, and generating a whole
//! world, its blocks side by side on a pool of threads.
//!
//! Each placed tile names its own slot, so the order in which blocks and
//! tiles arrive does not matter: a world comes out exactly when every slot is
//! named once, and it then holds in each slot the tile that names it.

use crate::fields::SamplePoint;
use crate::generation::{PlacedTile, PlacedTileModel};
use crate::generator::WorldGenerator;
use crate::tiling::lemma_cell_number;
use crate::world::{lemma_world_model, Tile, TileModel, WorldMap, WorldModel};
use rayon::iter::{IntoParallelIterator, ParallelIterator};
use vstd::prelude::*;

verus! {

/// The placed tiles of a list of blocks, as mathematical values.
pub open spec fn placements_of(blocks: Seq<Vec<PlacedTile>>) -> Seq<Seq<PlacedTileModel>> {
    Seq::new(blocks.len(), |b: int| Seq::new(blocks[b].len() as nat, |i: int| blocks[b][i]@))
}

/// The lists of readings of a list of blocks, as mathematical values.
pub open spec fn readings_of(readings: Seq<Vec<i32>>) -> Seq<Seq<i32>> {
    Seq::new(readings.len(), |b: int| readings[b]@)
}

/// Tile `i` of block `b` exists.
pub open spec fn is_placement(placed: Seq<Seq<PlacedTileModel>>, b: int, i: int) -> bool {
    0 <= b < placed.len() && 0 <= i < placed[b].len()
}

/// Tile `i` of block `b` exists and names slot `(x, y)`.
pub open spec fn placed_at(placed: Seq<Seq<PlacedTileModel>>, b: int, i: int, x: int, y: int)
    -> bool {
    is_placement(placed, b, i) && placed[b][i].x == x && placed[b][i].y == y
}

/// Some placed tile names slot `(x, y)`.
pub open spec fn slot_covered(placed: Seq<Seq<PlacedTileModel>>, x: int, y: int) -> bool {
    exists|b: int, i: int| placed_at(placed, b, i, x, y)
}

/// The placed tiles name every slot of a world of side `size` exactly once,
/// and no slot outside it.
pub open spec fn covers_world(placed: Seq<Seq<PlacedTileModel>>, size: int) -> bool {
    &&& forall|b: int, i: int| #[trigger]
        is_placement(placed, b, i) ==> 0 <= placed[b][i].x < size && 0 <= placed[b][i].y < size
    &&& forall|b: int, i: int, c: int, j: int|
        #![trigger is_placement(placed, b, i), is_placement(placed, c, j)]
        is_placement(placed, b, i) && is_placement(placed, c, j) && placed[b][i].x
            == placed[c][j].x && placed[b][i].y == placed[c][j].y ==> b == c && i == j
    &&& forall|x: int, y: int|
        0 <= x < size && 0 <= y < size ==> #[trigger] slot_covered(placed, x, y)
}

/// Placement `(b, i)` comes before placement `(at_b, at_i)`.
pub open spec fn comes_before(b: int, i: int, at_b: int, at_i: int) -> bool {
    b < at_b || (b == at_b && i < at_i)
}

/// What is known while the placed tiles are being written into the grid, up
/// to but not including placement `(at_b, at_i)`: every earlier placement
/// lies in the world and owns its slot, and every owned slot is flagged and
/// holds the tile of the placement that owns it.
spec fn written_so_far(
    placed: Seq<Seq<PlacedTileModel>>,
    tiles: Seq<Vec<Tile>>,
    filled: Seq<Vec<bool>>,
    owner: Map<(int, int), (int, int)>,
    size: int,
    at_b: int,
    at_i: int,
) -> bool {
    &&& tiles.len() == size
    &&& filled.len() == size
    &&& forall|x: int| 0 <= x < size ==> (#[trigger] tiles[x]).len() == size
    &&& forall|x: int| 0 <= x < size ==> (#[trigger] filled[x]).len() == size
    &&& forall|b: int, i: int| #[trigger]
        is_placement(placed, b, i) && comes_before(b, i, at_b, at_i) ==> {
            &&& 0 <= placed[b][i].x < size
            &&& 0 <= placed[b][i].y < size
            &&& owner.dom().contains((placed[b][i].x, placed[b][i].y))
            &&& owner[(placed[b][i].x, placed[b][i].y)] == (b, i)
        }
    &&& forall|x: int, y: int| #[trigger]
        owner.dom().contains((x, y)) ==> {
            &&& 0 <= x < size
            &&& 0 <= y < size
            &&& placed_at(placed, owner[(x, y)].0, owner[(x, y)].1, x, y)
            &&& comes_before(owner[(x, y)].0, owner[(x, y)].1, at_b, at_i)
            &&& tiles[x][y]@ == placed[owner[(x, y)].0][owner[(x, y)].1].tile
        }
    &&& forall|x: int, y: int|
        0 <= x < size && 0 <= y < size ==> (#[trigger] filled[x][y]) == owner.dom().contains(
            (x, y),
        )
}

impl WorldGenerator {
    /// The readings fit the blocks of this generator: one list for each
    /// block, each as long as the block needs.
    pub open spec fn readings_fit(&self, readings: Seq<Seq<i32>>) -> bool {
        &&& readings.len() == self.block_total()
        &&& forall|b: int|
            0 <= b < readings.len() ==> (#[trigger] readings[b]).len() == self.block_readings(b)
    }

    /// The tile at `(x, y)` of the world, given the readings of all blocks.
    pub open spec fn world_tile_of(&self, x: int, y: int, readings: Seq<Seq<i32>>) -> TileModel {
        self.tile_of(
            x,
            y,
            self.tile_readings(readings[self.block_of(x, y)], self.index_in_block(x, y)),
        )
    }

    /// The world, given the readings of all blocks.
    pub open spec fn world_of(&self, readings: Seq<Seq<i32>>) -> WorldModel {
        WorldModel {
            seed: self.seed,
            tiles: Seq::new(
                self.world_size as nat,
                |x: int|
                    Seq::new(self.world_size as nat, |y: int| self.world_tile_of(x, y, readings)),
            ),
        }
    }

    /// A grid of blank tiles of the side of the world, with a grid of flags
    /// that are all down.
    fn blank_grid(&self) -> (grid: (Vec<Vec<Tile>>, Vec<Vec<bool>>))
        requires
            self.wf(),
        ensures
            grid.0.len() == self.world_size,
            grid.1.len() == self.world_size,
            forall|x: int|
                0 <= x < self.world_size ==> (#[trigger] grid.0[x]).len() == self.world_size,
            forall|x: int|
                0 <= x < self.world_size ==> (#[trigger] grid.1[x]).len() == self.world_size,
            forall|x: int, y: int|
                0 <= x < self.world_size && 0 <= y < self.world_size ==> !(#[trigger] grid.1[x][y]),
    {
        let size = self.world_size;
        let mut tiles: Vec<Vec<Tile>> = Vec::new();
        let mut filled: Vec<Vec<bool>> = Vec::new();
        let mut x: usize = 0;
        while x < size
            invariant
                x <= size,
                tiles.len() == x,
                filled.len() == x,
                forall|c: int| 0 <= c < x ==> (#[trigger] tiles[c]).len() == size,
                forall|c: int| 0 <= c < x ==> (#[trigger] filled[c]).len() == size,
                forall|c: int, r: int| 0 <= c < x && 0 <= r < size ==> !(#[trigger] filled[c][r]),
            decreases size - x,
        {
            let mut column: Vec<Tile> = Vec::new();
            let mut flags: Vec<bool> = Vec::new();
            let mut y: usize = 0;
            while y < size
                invariant
                    y <= size,
                    column.len() == y,
                    flags.len() == y,
                    forall|r: int| 0 <= r < y ==> !(#[trigger] flags[r]),
                decreases size - y,
            {
                column.push(Tile::blank());
                flags.push(false);
                y = y + 1;
            }
            tiles.push(column);
            filled.push(flags);
            x = x + 1;
        }
        (tiles, filled)
    }

    /// Puts the placed tiles of all blocks into one world. A world comes out
    /// exactly when the placed tiles name every slot once; in whatever order
    /// they stand, each slot then holds the tile that names it.
    pub fn assemble(&self, blocks: Vec<Vec<PlacedTile>>) -> (world: Option<WorldMap>)
        requires
            self.wf(),
        ensures
            world.is_some() == covers_world(placements_of(blocks@), self.world_size as int),
            world matches Some(w) ==> {
                let placed = placements_of(blocks@);
                &&& w.seed == self.seed
                &&& w.size() == self.world_size
                &&& w.is_square()
                &&& forall|b: int, i: int| #[trigger]
                    is_placement(placed, b, i) ==> w.tiles[placed[b][i].x][placed[b][i].y]@
                        == placed[b][i].tile
            },
    {
        let size = self.world_size;
        let ghost placed = placements_of(blocks@);
        let (mut tiles, mut filled) = self.blank_grid();
        let ghost mut owner: Map<(int, int), (int, int)> = Map::empty();
        for block in it: blocks.into_iter()
            invariant
                it.seq() == blocks@,
                placed == placements_of(blocks@),
                size == self.world_size,
                written_so_far(placed, tiles@, filled@, owner, size as int, it.index() as int, 0),
        {
            let ghost b = it.index() as int;
            for placement in jt: block.into_iter()
                invariant
                    0 <= b < blocks@.len(),
                    jt.seq() == blocks@[b]@,
                    placed == placements_of(blocks@),
                    size == self.world_size,
                    written_so_far(
                        placed,
                        tiles@,
                        filled@,
                        owner,
                        size as int,
                        b,
                        jt.index() as int,
                    ),
            {
                let ghost i = jt.index() as int;
                let PlacedTile { x, y, tile } = placement;
                assert(is_placement(placed, b, i));
                assert(placed[b][i].x == x && placed[b][i].y == y);
                if x >= size || y >= size {
                    return None;
                }
                if filled[x][y] {
                    proof {
                        let first = owner[(x as int, y as int)];
                        assert(owner.dom().contains((x as int, y as int)));
                        assert(is_placement(placed, first.0, first.1));
                        assert(comes_before(first.0, first.1, b, i));
                    }
                    return None;
                }
                let ghost before_tiles = tiles@;
                let ghost before_filled = filled@;
                let ghost before_owner = owner;
                tiles[x][y] = tile;
                filled[x][y] = true;
                proof {
                    owner = owner.insert((x as int, y as int), (b, i));
                    assert forall|c: int, j: int| #[trigger]
                        is_placement(placed, c, j) && comes_before(c, j, b, i + 1) implies {
                        &&& 0 <= placed[c][j].x < size
                        &&& 0 <= placed[c][j].y < size
                        &&& owner.dom().contains((placed[c][j].x, placed[c][j].y))
                        &&& owner[(placed[c][j].x, placed[c][j].y)] == (c, j)
                    } by {
                        if c == b && j == i {
                        } else {
                            assert(comes_before(c, j, b, i));
                            assert(before_owner.dom().contains((placed[c][j].x, placed[c][j].y)));
                        }
                    }
                    assert forall|u: int, v: int| #[trigger]
                        owner.dom().contains((u, v)) implies {
                        &&& 0 <= u < size
                        &&& 0 <= v < size
                        &&& placed_at(placed, owner[(u, v)].0, owner[(u, v)].1, u, v)
                        &&& comes_before(owner[(u, v)].0, owner[(u, v)].1, b, i + 1)
                        &&& tiles@[u][v]@ == placed[owner[(u, v)].0][owner[(u, v)].1].tile
                    } by {
                        if u == x && v == y {
                        } else {
                            assert(before_owner.dom().contains((u, v)));
                            assert(tiles@[u][v] == before_tiles[u][v]);
                        }
                    }
                    assert forall|u: int, v: int| 0 <= u < size && 0 <= v < size implies (
                    #[trigger] filled@[u][v]) == owner.dom().contains((u, v)) by {
                        if u == x && v == y {
                        } else {
                            assert(filled@[u][v] == before_filled[u][v]);
                        }
                    }
                }
            }
            proof {
                assert forall|c: int, j: int| #[trigger]
                    is_placement(placed, c, j) && comes_before(c, j, b + 1, 0) implies comes_before(
                    c,
                    j,
                    b,
                    blocks@[b]@.len() as int,
                ) by {}
            }
        }
        let ghost blocks_len = blocks@.len() as int;
        let mut x: usize = 0;
        while x < size
            invariant
                x <= size,
                size == self.world_size,
                placed == placements_of(blocks@),
                blocks_len == blocks@.len(),
                written_so_far(placed, tiles@, filled@, owner, size as int, blocks_len, 0),
                forall|u: int, v: int| 0 <= u < x && 0 <= v < size ==> #[trigger] filled@[u][v],
            decreases size - x,
        {
            let mut y: usize = 0;
            while y < size
                invariant
                    x < size,
                    y <= size,
                    size == self.world_size,
                    placed == placements_of(blocks@),
                    blocks_len == blocks@.len(),
                    written_so_far(placed, tiles@, filled@, owner, size as int, blocks_len, 0),
                    forall|u: int, v: int| 0 <= u < x && 0 <= v < size ==> #[trigger] filled@[u][v],
                    forall|v: int| 0 <= v < y ==> #[trigger] filled@[x as int][v],
                decreases size - y,
            {
                if !filled[x][y] {
                    proof {
                        if slot_covered(placed, x as int, y as int) {
                            let (c, j) = choose|c: int, j: int|
                                placed_at(placed, c, j, x as int, y as int);
                            assert(is_placement(placed, c, j));
                            assert(comes_before(c, j, blocks_len, 0));
                        }
                    }
                    return None;
                }
                y = y + 1;
            }
            x = x + 1;
        }
        proof {
            assert forall|b: int, i: int| #[trigger] is_placement(placed, b, i) implies 0
                <= placed[b][i].x < size && 0 <= placed[b][i].y < size by {
                assert(comes_before(b, i, blocks_len, 0));
            }
            assert forall|b: int, i: int, c: int, j: int|
                #![trigger is_placement(placed, b, i), is_placement(placed, c, j)]
                is_placement(placed, b, i) && is_placement(placed, c, j) && placed[b][i].x
                    == placed[c][j].x && placed[b][i].y == placed[c][j].y implies b == c && i
                == j by {
                assert(comes_before(b, i, blocks_len, 0));
                assert(comes_before(c, j, blocks_len, 0));
            }
            assert forall|u: int, v: int| 0 <= u < size && 0 <= v < size implies #[trigger]
                slot_covered(placed, u, v) by {
                assert(filled@[u][v]);
                assert(owner.dom().contains((u, v)));
                assert(placed_at(placed, owner[(u, v)].0, owner[(u, v)].1, u, v));
            }
            assert forall|b: int, i: int| #[trigger]
                is_placement(placed, b, i) implies tiles@[placed[b][i].x][placed[b][i].y]@
                == placed[b][i].tile by {
                assert(comes_before(b, i, blocks_len, 0));
                assert(owner.dom().contains((placed[b][i].x, placed[b][i].y)));
            }
        }
        Some(WorldMap { tiles, seed: self.seed })
    }
    /// Generates the world from the readings of all blocks: `readings[b]`
    /// holds the readings taken at `block_sample_points(b)`. The blocks are
    /// generated side by side on a pool of threads and then put together.
    /// `None` where the readings do not fit the blocks.
    pub fn generate_world(&self, readings: &Vec<Vec<i32>>) -> (world: Option<WorldMap>)
        requires
            self.wf(),
        ensures
            world.is_some() == self.readings_fit(readings_of(readings@)),
            world matches Some(w) ==> {
                &&& w@ == self.world_of(readings_of(readings@))
                &&& w.seed == self.seed
                &&& w.size() == self.world_size
                &&& w.is_square()
                &&& w@.wf()
            },
    {
        let count = self.block_count();
        let ghost given = readings_of(readings@);
        if readings.len() != count {
            return None;
        }
        let results = generate_blocks(self, readings);
        let mut blocks: Vec<Vec<PlacedTile>> = Vec::new();
        for result in it: results.into_iter()
            invariant
                self.wf(),
                it.seq() == results@,
                results@.len() == count,
                count == self.block_total(),
                readings.len() == count,
                given == readings_of(readings@),
                forall|c: int|
                    0 <= c < results@.len() ==> self.block_result(
                        c,
                        readings[c]@,
                        #[trigger] results@[c],
                    ),
                blocks.len() == it.index(),
                forall|c: int|
                    0 <= c < it.index() ==> (#[trigger] given[c]).len() == self.block_readings(c),
                forall|c: int|
                    0 <= c < it.index() ==> (#[trigger] placements_of(blocks@)[c])
                        == self.block_tiles_of(c, given[c]),
        {
            let ghost b = it.index() as int;
            let ghost before = blocks@;
            proof {
                assert(self.block_result(b, readings[b]@, results@[b]));
                assert(given[b] == readings[b]@);
            }
            match result {
                Some(placed) => {
                    blocks.push(placed);
                    proof {
                        self.lemma_block_geometry(b);
                        assert(placements_of(blocks@)[b] =~= self.block_tiles_of(b, given[b]));
                        assert forall|c: int| 0 <= c < b implies (#[trigger] placements_of(
                            blocks@,
                        )[c]) == self.block_tiles_of(c, given[c]) by {
                            assert(blocks@[c] == before[c]);
                            assert(placements_of(blocks@)[c] =~= placements_of(before)[c]);
                        }
                    }
                },
                None => {
                    assert(given[b].len() != self.block_readings(b));
                    return None;
                },
            }
        }
        let ghost placed = placements_of(blocks@);
        proof {
            assert(placed.len() == self.block_total());
            self.lemma_blocks_cover_world(placed, given);
        }
        let world = self.assemble(blocks);
        proof {
            let w = world.unwrap();
            lemma_world_model(&w);
            let wanted = self.world_of(given);
            assert forall|x: int, y: int|
                0 <= x < self.world_size && 0 <= y < self.world_size
                implies #[trigger] w@.tiles[x][y] == wanted.tiles[x][y] by {
                self.lemma_tile_block(x, y);
                let c = self.block_of(x, y);
                let j = self.index_in_block(x, y);
                assert(is_placement(placed, c, j));
                assert(placed[c][j] == self.block_tile_of(c, j, given[c]));
                self.lemma_tile_of_wf(x, y, self.tile_readings(given[c], j));
            }
            assert(w@.tiles =~~= wanted.tiles);
        }
        world
    }

    /// A tile of a generated block lies in the world, and its block and its
    /// number within the block are read back from its position.
    proof fn lemma_placement_position(
        &self,
        placed: Seq<Seq<PlacedTileModel>>,
        readings: Seq<Seq<i32>>,
        b: int,
        i: int,
    )
        requires
            self.wf(),
            placed.len() == self.block_total(),
            readings.len() == self.block_total(),
            is_placement(placed, b, i),
            placed[b] == self.block_tiles_of(b, readings[b]),
        ensures
            0 <= placed[b][i].x < self.world_size,
            0 <= placed[b][i].y < self.world_size,
            self.block_of(placed[b][i].x, placed[b][i].y) == b,
            self.index_in_block(placed[b][i].x, placed[b][i].y) == i,
    {
        self.lemma_block_geometry(b);
        assert(placed[b][i] == self.block_tile_of(b, i, readings[b]));
        self.lemma_block_tile_position(b, i);
    }

    /// The tiles of all blocks, generated from readings that fit, name every
    /// slot of the world exactly once.
    pub proof fn lemma_blocks_cover_world(
        &self,
        placed: Seq<Seq<PlacedTileModel>>,
        readings: Seq<Seq<i32>>,
    )
        requires
            self.wf(),
            placed.len() == self.block_total(),
            readings.len() == self.block_total(),
            forall|b: int|
                0 <= b < placed.len() ==> (#[trigger] placed[b]) == self.block_tiles_of(
                    b,
                    readings[b],
                ),
        ensures
            covers_world(placed, self.world_size as int),
    {
        let size = self.world_size as int;
        assert forall|b: int, i: int| #[trigger] is_placement(placed, b, i) implies 0
            <= placed[b][i].x < size && 0 <= placed[b][i].y < size by {
            self.lemma_placement_position(placed, readings, b, i);
        }
        assert forall|b: int, i: int, c: int, j: int|
            #![trigger is_placement(placed, b, i), is_placement(placed, c, j)]
            is_placement(placed, b, i) && is_placement(placed, c, j) && placed[b][i].x
                == placed[c][j].x && placed[b][i].y == placed[c][j].y implies b == c && i == j by {
            self.lemma_placement_position(placed, readings, b, i);
            self.lemma_placement_position(placed, readings, c, j);
        }
        assert forall|x: int, y: int|
            0 <= x < size && 0 <= y < size implies #[trigger] slot_covered(
            placed,
            x,
            y,
        ) by {
            self.lemma_slot_covered(placed, readings, x, y);
        }
    }

    /// Each slot of the world is named by a tile of a generated block.
    proof fn lemma_slot_covered(
        &self,
        placed: Seq<Seq<PlacedTileModel>>,
        readings: Seq<Seq<i32>>,
        x: int,
        y: int,
    )
        requires
            self.wf(),
            placed.len() == self.block_total(),
            readings.len() == self.block_total(),
            forall|b: int|
                0 <= b < placed.len() ==> (#[trigger] placed[b]) == self.block_tiles_of(
                    b,
                    readings[b],
                ),
            0 <= x < self.world_size,
            0 <= y < self.world_size,
        ensures
            slot_covered(placed, x, y),
            placed_at(placed, self.block_of(x, y), self.index_in_block(x, y), x, y),
    {
        self.lemma_tile_block(x, y);
        let b = self.block_of(x, y);
        let i = self.index_in_block(x, y);
        self.lemma_block_geometry(b);
        assert(placed[b] == self.block_tiles_of(b, readings[b]));
        assert(placed[b][i] == self.block_tile_of(b, i, readings[b]));
        assert(placed_at(placed, b, i, x, y));
    }

    /// The readings are those of the noise `noise`: they fit the blocks, and
    /// each is what the noise gives at the point where it is to be taken.
    pub open spec fn reads(&self, noise: spec_fn(SamplePoint) -> i32, readings: Seq<Seq<i32>>)
        -> bool {
        &&& self.readings_fit(readings)
        &&& forall|b: int, position: int|
            0 <= b < readings.len() && 0 <= position < readings[b].len()
                ==> #[trigger] readings[b][position]
                == noise(self.block_point_of(b, position))
    }

    /// The tile at `(x, y)` under the noise `noise`, with no regard to blocks.
    pub open spec fn tile_under(&self, noise: spec_fn(SamplePoint) -> i32, x: int, y: int)
        -> TileModel {
        self.tile_of(
            x,
            y,
            Seq::new(
                self.readings_per_tile() as nat,
                |slot: int| noise(self.tile_point_of(x, y, slot)),
            ),
        )
    }

    /// In a world generated from the readings of a noise, each tile is what
    /// the seed, the side of the world, the number of octaves and the noise
    /// decide: the side of the blocks plays no part.
    pub proof fn lemma_tile_depends_on_noise_only(
        &self,
        noise: spec_fn(SamplePoint) -> i32,
        readings: Seq<Seq<i32>>,
        x: int,
        y: int,
    )
        requires
            self.wf(),
            self.reads(noise, readings),
            0 <= x < self.world_size,
            0 <= y < self.world_size,
        ensures
            self.world_tile_of(x, y, readings) == self.tile_under(noise, x, y),
    {
        self.lemma_tile_block(x, y);
        let b = self.block_of(x, y);
        let i = self.index_in_block(x, y);
        let per_tile = self.readings_per_tile();
        self.lemma_block_geometry(b);
        assert((i + 1) * per_tile <= self.block_tiles(b) * per_tile) by (nonlinear_arith)
            requires
                i + 1 <= self.block_tiles(b),
                per_tile >= 0,
        ;
        assert((i + 1) * per_tile == i * per_tile + per_tile) by (nonlinear_arith);
        assert(0 <= i * per_tile) by (nonlinear_arith)
            requires
                0 <= i,
                0 <= per_tile,
        ;
        let own = self.tile_readings(readings[b], i);
        let direct = Seq::new(per_tile as nat, |slot: int| noise(self.tile_point_of(x, y, slot)));
        assert forall|slot: int| 0 <= slot < per_tile implies own[slot] == direct[slot] by {
            lemma_cell_number(i, slot, per_tile);
            assert(own[slot] == readings[b][i * per_tile + slot]);
        }
        assert(own =~= direct);
    }

    /// Generation is deterministic: two generators with the same seed, the
    /// same side of the world and the same number of octaves, reading the same
    /// noise, give the same world, tile for tile, whatever the sides of their
    /// blocks.
    pub proof fn lemma_generation_deterministic(
        &self,
        other: &WorldGenerator,
        noise: spec_fn(SamplePoint) -> i32,
        readings: Seq<Seq<i32>>,
        other_readings: Seq<Seq<i32>>,
    )
        requires
            self.wf(),
            other.wf(),
            self.seed == other.seed,
            self.world_size == other.world_size,
            self.octaves == other.octaves,
            self.reads(noise, readings),
            other.reads(noise, other_readings),
        ensures
            self.world_of(readings) == other.world_of(other_readings),
    {
        let first = self.world_of(readings);
        let second = other.world_of(other_readings);
        assert forall|x: int, y: int|
            0 <= x < self.world_size && 0 <= y < self.world_size
            implies #[trigger] first.tiles[x][y]
            == second.tiles[x][y] by {
            self.lemma_tile_depends_on_noise_only(noise, readings, x, y);
            other.lemma_tile_depends_on_noise_only(noise, other_readings, x, y);
            assert(Seq::new(
                self.readings_per_tile() as nat,
                |slot: int| noise(self.tile_point_of(x, y, slot)),
            ) =~= Seq::new(
                other.readings_per_tile() as nat,
                |slot: int| noise(other.tile_point_of(x, y, slot)),
            ));
        }
        assert(first.tiles =~~= second.tiles);
    }
}

/// Has every block generated on rayon's pool of threads, by
/// `(0..n).into_par_iter().map(..).collect()` with one call of
/// `generate_block` for each block number. Rayon applies the closure to each
/// number of the range and collects into a `Vec` in the order of the range,
/// so entry `b` is what `generate_block` hands back for block `b` and
/// `readings[b]`. Rayon panics where it cannot start its pool of threads.
#[verifier::external_body]
fn generate_blocks(generator: &WorldGenerator, readings: &Vec<Vec<i32>>) -> (blocks: Vec<
    Option<Vec<PlacedTile>>,
>)
    requires
        generator.wf(),
    ensures
        blocks.len() == readings.len(),
        forall|b: int|
            0 <= b < blocks.len() ==> generator.block_result(b, readings[b]@, #[trigger] blocks[b]),
{
    (0..readings.len()).into_par_iter().map(
        |block| generator.generate_block(block, &readings[block]),
    ).collect()
}

} // verus!
