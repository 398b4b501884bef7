//! Chunks: the fixed squares of tiles in which the world is streamed.
//!
//! A chunk is named by a pair of integers. Chunk `(cx, cy)` holds the tiles
//! from `(cx * c, cy * c)` up to, not including, `((cx + 1) * c, (cy + 1) * c)`
//! as far as they lie in the world, where `c` is the side of a chunk in tiles.
//! Positions of the viewer and the streaming radius are whole world units, of
//! which a tile measures `tile_size` along each side.
//!
//! The chunks wanted for a viewer are the chunks of the world that lie within
//! a number of rings of the viewer's chunk. They form a rectangle, which is
//! empty where the viewer is too far from the world.

use crate::generator::{MAX_WORLD_SIZE, WORLD_SIZE};
use crate::tiling::{
    floor_div,
    lemma_cell_in_segment,
    lemma_cell_number,
    lemma_number_names_cell,
    lemma_segment_count,
    lemma_segment_start,
    segment_count,
};
use vstd::arithmetic::div_mod::{
    lemma_div_pos_is_pos,
    lemma_fundamental_div_mod,
    lemma_fundamental_div_mod_converse,
    lemma_mod_pos_bound,
};
use vstd::prelude::*;

verus! {

/// Side of a chunk, in tiles, in the standard layout.
pub const CHUNK_SIZE: usize = 32;

/// Side of a tile, in world units, in the standard layout.
pub const TILE_SIZE: u32 = 4;

/// Streaming radius, in world units, that `calculate_visible_chunks` uses.
pub const RENDER_DISTANCE: u32 = 200;

/// Largest side of a tile, in world units, that a layout accepts.
pub const MAX_TILE_SIZE: u32 = 65536;

/// How the world is cut into chunks.
#[derive(Debug, Clone, Copy, PartialEq, Eq, Structural)]
pub struct ChunkLayout {
    pub chunk_size: usize,
    pub tile_size: u32,
    pub world_size: usize,
}

impl ChunkLayout {
    pub open spec fn wf(&self) -> bool {
        &&& 1 <= self.chunk_size <= MAX_WORLD_SIZE
        &&& 1 <= self.tile_size <= MAX_TILE_SIZE
        &&& 1 <= self.world_size <= MAX_WORLD_SIZE
    }

    /// The layout of chunks of 32 tiles of 4 units in a world of 1000 tiles.
    pub open spec fn standard_layout() -> ChunkLayout {
        ChunkLayout {
            chunk_size: CHUNK_SIZE,
            tile_size: TILE_SIZE,
            world_size: WORLD_SIZE,
        }
    }

    /// Side of a chunk in world units.
    pub open spec fn chunk_world_size(&self) -> int {
        self.chunk_size * self.tile_size
    }

    /// Number of rings of chunks round the viewer's chunk that are kept for a
    /// radius: the radius in chunks, rounded up, and one more.
    pub open spec fn rings(&self, radius: int) -> int {
        (radius + self.chunk_world_size() - 1) / self.chunk_world_size() + 1
    }

    /// Along one axis, the chunk that holds a position.
    pub open spec fn chunk_at(&self, position: int) -> int {
        position / self.chunk_world_size()
    }

    /// A tile coordinate brought into the world: below 0 it becomes 0, above
    /// the side of the world it becomes the side.
    pub open spec fn clamp_tile(&self, tile: int) -> int {
        if tile < 0 {
            0
        } else if tile > self.world_size {
            self.world_size as int
        } else {
            tile
        }
    }

    /// Along one axis, the first tile of a chunk.
    pub open spec fn start_of(&self, chunk: int) -> int {
        self.clamp_tile(chunk * self.chunk_size)
    }

    /// Along one axis, the tile after the last tile of a chunk.
    pub open spec fn end_of(&self, chunk: int) -> int {
        self.clamp_tile(chunk * self.chunk_size + self.chunk_size)
    }

    /// Tile `(x, y)` is one of the tiles of chunk `(cx, cy)`.
    pub open spec fn holds_tile(&self, cx: int, cy: int, x: int, y: int) -> bool {
        self.start_of(cx) <= x < self.end_of(cx) && self.start_of(cy) <= y < self.end_of(cy)
    }

    /// Chunk `(cx, cy)` holds at least one tile of the world.
    pub open spec fn is_world_chunk(&self, cx: int, cy: int) -> bool {
        self.start_of(cx) < self.end_of(cx) && self.start_of(cy) < self.end_of(cy)
    }

    /// Chunk `(cx, cy)` lies within `rings` rings of chunk `(vx, vy)`.
    pub open spec fn within_rings(vx: int, vy: int, rings: int, cx: int, cy: int) -> bool {
        vx - rings <= cx <= vx + rings && vy - rings <= cy <= vy + rings
    }

    /// Number of chunks along one side of the world.
    pub open spec fn chunks_per_side(&self) -> int {
        segment_count(self.world_size as int, self.chunk_size as int)
    }

    /// Along one axis, the lowest chunk of the world within the rings of the
    /// chunk that holds `position`.
    pub open spec fn first_kept(&self, position: int, radius: int) -> int {
        let low = self.chunk_at(position) - self.rings(radius);
        if low < 0 {
            0
        } else {
            low
        }
    }

    /// Along one axis, the highest chunk of the world within the rings of the
    /// chunk that holds `position`.
    pub open spec fn last_kept(&self, position: int, radius: int) -> int {
        let high = self.chunk_at(position) + self.rings(radius);
        if high > self.chunks_per_side() - 1 {
            self.chunks_per_side() - 1
        } else {
            high
        }
    }

    /// Along one axis, the number of chunks of the world within the rings of
    /// the chunk that holds `position`.
    pub open spec fn kept_along(&self, position: int, radius: int) -> int {
        let count = self.last_kept(position, radius) - self.first_kept(position, radius) + 1;
        if count < 0 {
            0
        } else {
            count
        }
    }

    /// Chunk `(cx, cy)` is wanted for a viewer at `(x, y)` and a radius: it
    /// lies within `rings(radius)` rings of the viewer's chunk, and it is a
    /// chunk of the world.
    pub open spec fn is_wanted(&self, x: int, y: int, radius: int, cx: int, cy: int) -> bool {
        Self::within_rings(self.chunk_at(x), self.chunk_at(y), self.rings(radius), cx, cy)
            && self.is_world_chunk(cx, cy)
    }

    /// The chunks wanted for a viewer at `(x, y)` and a radius, column by
    /// column from the lowest coordinates up.
    pub open spec fn visible_of(&self, x: int, y: int, radius: int) -> Seq<(i32, i32)> {
        let height = self.kept_along(y, radius);
        Seq::new(
            (self.kept_along(x, radius) * height) as nat,
            |k: int|
                (
                    (self.first_kept(x, radius) + k / height) as i32,
                    (self.first_kept(y, radius) + k % height) as i32,
                ),
        )
    }

    /// Whether the layout is within the limits.
    pub fn is_valid(&self) -> (valid: bool)
        ensures
            valid == self.wf(),
    {
        1 <= self.chunk_size && self.chunk_size <= MAX_WORLD_SIZE && 1 <= self.tile_size
            && self.tile_size <= MAX_TILE_SIZE && 1 <= self.world_size && self.world_size
            <= MAX_WORLD_SIZE
    }

    pub fn standard() -> (layout: ChunkLayout)
        ensures
            layout == Self::standard_layout(),
            layout.wf(),
    {
        ChunkLayout {
            chunk_size: CHUNK_SIZE,
            tile_size: TILE_SIZE,
            world_size: WORLD_SIZE,
        }
    }

    fn clamp_tile_exec(&self, tile: i64) -> (clamped: usize)
        requires
            self.wf(),
        ensures
            clamped == self.clamp_tile(tile as int),
            clamped <= self.world_size,
    {
        if tile < 0 {
            0
        } else if tile > self.world_size as i64 {
            self.world_size
        } else {
            tile as usize
        }
    }

    /// The tiles of chunk `(cx, cy)`: from `(start_x, start_y)` up to, not
    /// including, `(end_x, end_y)`. A chunk outside the world has no tiles:
    /// its start and end are equal.
    pub fn chunk_bounds(&self, cx: i32, cy: i32) -> (bounds: (usize, usize, usize, usize))
        requires
            self.wf(),
        ensures
            bounds.0 == self.start_of(cx as int),
            bounds.1 == self.start_of(cy as int),
            bounds.2 == self.end_of(cx as int),
            bounds.3 == self.end_of(cy as int),
            bounds.0 <= bounds.2 <= self.world_size,
            bounds.1 <= bounds.3 <= self.world_size,
    {
        let side: i64 = self.chunk_size as i64;
        assert(-0x8000_0000 * 32768 <= cx * side <= 0x8000_0000 * 32768) by (nonlinear_arith)
            requires
                -0x8000_0000 <= cx <= 0x8000_0000,
                1 <= side <= 32768,
        ;
        assert(-0x8000_0000 * 32768 <= cy * side <= 0x8000_0000 * 32768) by (nonlinear_arith)
            requires
                -0x8000_0000 <= cy <= 0x8000_0000,
                1 <= side <= 32768,
        ;
        let left: i64 = cx as i64 * side;
        let low: i64 = cy as i64 * side;
        (
            self.clamp_tile_exec(left),
            self.clamp_tile_exec(low),
            self.clamp_tile_exec(left + side),
            self.clamp_tile_exec(low + side),
        )
    }

    /// The chunk that holds tile `(x, y)`.
    pub fn chunk_of_tile(&self, x: usize, y: usize) -> (chunk: (i32, i32))
        requires
            self.wf(),
            x / self.chunk_size <= i32::MAX,
            y / self.chunk_size <= i32::MAX,
        ensures
            chunk.0 == x / self.chunk_size,
            chunk.1 == y / self.chunk_size,
    {
        ((x / self.chunk_size) as i32, (y / self.chunk_size) as i32)
    }

    /// Along one axis, the chunk that holds a position.
    fn chunk_at_exec(&self, position: i32) -> (chunk: i64)
        requires
            self.wf(),
        ensures
            chunk == self.chunk_at(position as int),
            -0x8000_0000 <= chunk <= 0x7fff_ffff,
    {
        assert(1 <= self.chunk_size * self.tile_size <= 32768 * 65536) by (nonlinear_arith)
            requires
                1 <= self.chunk_size <= 32768,
                1 <= self.tile_size <= 65536,
        ;
        let side: i64 = self.chunk_size as i64 * self.tile_size as i64;
        floor_div(position as i64, side)
    }

    /// The chunk that holds the position `(x, y)`.
    pub fn viewer_chunk(&self, x: i32, y: i32) -> (chunk: (i32, i32))
        requires
            self.wf(),
        ensures
            chunk.0 == self.chunk_at(x as int),
            chunk.1 == self.chunk_at(y as int),
    {
        (self.chunk_at_exec(x) as i32, self.chunk_at_exec(y) as i32)
    }

    /// Number of rings of chunks kept for a radius.
    pub fn ring_count(&self, radius: u32) -> (rings: u64)
        requires
            self.wf(),
        ensures
            rings == self.rings(radius as int),
            1 <= rings <= radius + 1,
    {
        assert(1 <= self.chunk_size * self.tile_size <= 32768 * 65536) by (nonlinear_arith)
            requires
                1 <= self.chunk_size <= 32768,
                1 <= self.tile_size <= 65536,
        ;
        let side: u64 = self.chunk_size as u64 * self.tile_size as u64;
        let whole: u64 = (radius as u64 + side - 1) / side;
        proof {
            let total = (radius + side - 1) as int;
            lemma_fundamental_div_mod(total, side as int);
            lemma_mod_pos_bound(total, side as int);
            lemma_div_pos_is_pos(total, side as int);
            assert(side * (total / side as int) >= total / side as int) by (nonlinear_arith)
                requires
                    side >= 1,
                    total / side as int >= 0,
            ;
            if total / side as int > radius {
                assert(side * (total / side as int) >= side * (radius + 1)) by (nonlinear_arith)
                    requires
                        side >= 1,
                        total / side as int >= radius + 1,
                ;
                assert(side * (radius + 1) == side * radius + side) by (nonlinear_arith);
                assert(side * radius >= radius) by (nonlinear_arith)
                    requires
                        side >= 1,
                        radius >= 0,
                ;
            }
        }
        whole + 1
    }

    /// Number of chunks along one side of the world.
    pub fn chunk_columns(&self) -> (count: usize)
        requires
            self.wf(),
        ensures
            count == self.chunks_per_side(),
            1 <= count <= self.world_size,
    {
        proof {
            lemma_segment_count(self.world_size as int, self.chunk_size as int);
        }
        (self.world_size + self.chunk_size - 1) / self.chunk_size
    }

    /// Along one axis, the lowest and the highest chunk of the world within
    /// the rings of the chunk that holds `position`.
    fn kept_range(&self, position: i32, radius: u32) -> (range: (i64, i64))
        requires
            self.wf(),
        ensures
            range.0 == self.first_kept(position as int, radius as int),
            range.1 == self.last_kept(position as int, radius as int),
            0 <= range.0,
            range.1 < self.chunks_per_side() <= MAX_WORLD_SIZE,
    {
        let rings: i64 = self.ring_count(radius) as i64;
        let at: i64 = self.chunk_at_exec(position);
        let top: i64 = self.chunk_columns() as i64 - 1;
        let low: i64 = at - rings;
        let high: i64 = at + rings;
        (
            if low < 0 {
                0
            } else {
                low
            },
            if high > top {
                top
            } else {
                high
            },
        )
    }

    /// The chunks to keep for a viewer at `(x, y)` and a streaming radius:
    /// the chunks of the world within the rings of the viewer's chunk, each
    /// once.
    pub fn visible_chunks(&self, x: i32, y: i32, radius: u32) -> (chunks: Vec<(i32, i32)>)
        requires
            self.wf(),
        ensures
            chunks@ == self.visible_of(x as int, y as int, radius as int),
            chunks@.no_duplicates(),
            forall|cx: i32, cy: i32|
                #![trigger chunks@.contains((cx, cy))]
                chunks@.contains((cx, cy)) == self.is_wanted(
                    x as int,
                    y as int,
                    radius as int,
                    cx as int,
                    cy as int,
                ),
    {
        let (first_x, last_x) = self.kept_range(x, radius);
        let (first_y, last_y) = self.kept_range(y, radius);
        let ghost wanted = self.visible_of(x as int, y as int, radius as int);
        proof {
            assert forall|cx: i32, cy: i32|
                #![trigger wanted.contains((cx, cy))]
                wanted.contains((cx, cy)) == self.is_wanted(
                    x as int,
                    y as int,
                    radius as int,
                    cx as int,
                    cy as int,
                ) by {
                self.lemma_visible_is_wanted(
                    x as int,
                    y as int,
                    radius as int,
                    cx as int,
                    cy as int,
                );
            }
            self.lemma_visible_is_wanted(x as int, y as int, radius as int, 0, 0);
        }
        let mut chunks: Vec<(i32, i32)> = Vec::new();
        if last_x < first_x || last_y < first_y {
            proof {
                assert(self.kept_along(x as int, radius as int) * self.kept_along(
                    y as int,
                    radius as int,
                ) == 0) by (nonlinear_arith)
                    requires
                        self.kept_along(x as int, radius as int) == 0 || self.kept_along(
                            y as int,
                            radius as int,
                        ) == 0,
                ;
                assert(chunks@ =~= wanted);
            }
            return chunks;
        }
        let ghost width = last_x - first_x + 1;
        let ghost height = last_y - first_y + 1;
        proof {
            assert(1 <= width * height <= 32768 * 32768) by (nonlinear_arith)
                requires
                    1 <= width <= 32768,
                    1 <= height <= 32768,
            ;
            assert((first_x - first_x) * height == 0) by (nonlinear_arith);
        }
        let mut cx: i64 = first_x;
        while cx <= last_x
            invariant
                0 <= first_x <= cx <= last_x + 1,
                last_x < 32768,
                0 <= first_y <= last_y < 32768,
                width == last_x - first_x + 1,
                height == last_y - first_y + 1,
                width == self.kept_along(x as int, radius as int),
                height == self.kept_along(y as int, radius as int),
                first_x == self.first_kept(x as int, radius as int),
                first_y == self.first_kept(y as int, radius as int),
                wanted == self.visible_of(x as int, y as int, radius as int),
                wanted.len() == width * height,
                chunks.len() == (cx - first_x) * height,
                forall|k: int| 0 <= k < chunks.len() ==> chunks[k] == wanted[k],
            decreases last_x + 1 - cx,
        {
            let mut cy: i64 = first_y;
            while cy <= last_y
                invariant
                    0 <= first_x <= cx <= last_x < 32768,
                    0 <= first_y <= cy <= last_y + 1,
                    last_y < 32768,
                    width == last_x - first_x + 1,
                    height == last_y - first_y + 1,
                    width == self.kept_along(x as int, radius as int),
                    height == self.kept_along(y as int, radius as int),
                    first_x == self.first_kept(x as int, radius as int),
                    first_y == self.first_kept(y as int, radius as int),
                    wanted == self.visible_of(x as int, y as int, radius as int),
                    wanted.len() == width * height,
                    chunks.len() == (cx - first_x) * height + (cy - first_y),
                    forall|k: int| 0 <= k < chunks.len() ==> chunks[k] == wanted[k],
                decreases last_y + 1 - cy,
            {
                proof {
                    let column = cx - first_x;
                    let row = cy - first_y;
                    lemma_cell_number(column as int, row as int, height as int);
                    assert(column * height + row < width * height) by (nonlinear_arith)
                        requires
                            0 <= column < width,
                            0 <= row < height,
                    ;
                }
                chunks.push((cx as i32, cy as i32));
                cy = cy + 1;
            }
            proof {
                assert((cx - first_x) * height + height == (cx + 1 - first_x) * height)
                    by (nonlinear_arith);
            }
            cx = cx + 1;
        }
        assert(chunks@ =~= wanted);
        chunks
    }

    /// Every chunk has its tiles inside the world, and a chunk outside the
    /// world has none.
    pub proof fn lemma_bounds_in_world(&self, chunk: int)
        requires
            self.wf(),
        ensures
            0 <= self.start_of(chunk) <= self.end_of(chunk) <= self.world_size,
            self.end_of(chunk) - self.start_of(chunk) <= self.chunk_size,
            (chunk < 0 || chunk * self.chunk_size >= self.world_size) ==> self.start_of(chunk)
                == self.end_of(chunk),
    {
        let side = self.chunk_size as int;
        if chunk < 0 {
            assert(chunk * side + side <= 0) by (nonlinear_arith)
                requires
                    chunk <= -1,
                    side >= 1,
            ;
        }
    }

    /// The chunks tile the world: every tile of the world is held by the
    /// chunk that its coordinates divided by the side of a chunk name, and by
    /// no other chunk.
    pub proof fn lemma_chunks_tile_world(&self, x: int, y: int)
        requires
            self.wf(),
            0 <= x < self.world_size,
            0 <= y < self.world_size,
        ensures
            self.holds_tile(x / (self.chunk_size as int), y / (self.chunk_size as int), x, y),
            forall|cx: int, cy: int| #[trigger]
                self.holds_tile(cx, cy, x, y) ==> cx == x / (self.chunk_size as int) && cy == y / (
                self.chunk_size as int),
    {
        let side = self.chunk_size as int;
        self.lemma_along_one_axis(x);
        self.lemma_along_one_axis(y);
        assert forall|cx: int, cy: int| #[trigger] self.holds_tile(cx, cy, x, y) implies cx == x
            / side && cy == y / side by {
            self.lemma_holder_along_one_axis(x, cx);
            self.lemma_holder_along_one_axis(y, cy);
        }
    }

    /// Along one axis, a tile lies in the chunk named by its quotient.
    proof fn lemma_along_one_axis(&self, tile: int)
        requires
            self.wf(),
            0 <= tile < self.world_size,
        ensures
            self.start_of(tile / (self.chunk_size as int)) <= tile < self.end_of(
                tile / (self.chunk_size as int),
            ),
    {
        let side = self.chunk_size as int;
        lemma_fundamental_div_mod(tile, side);
        lemma_mod_pos_bound(tile, side);
        lemma_div_pos_is_pos(tile, side);
        assert(side * (tile / side) == (tile / side) * side) by (nonlinear_arith);
        assert((tile / side) * side >= 0) by (nonlinear_arith)
            requires
                tile / side >= 0,
                side >= 1,
        ;
    }

    /// Along one axis, a chunk that holds a tile is the one named by the
    /// tile's quotient.
    proof fn lemma_holder_along_one_axis(&self, tile: int, chunk: int)
        requires
            self.wf(),
            0 <= tile < self.world_size,
            self.start_of(chunk) <= tile < self.end_of(chunk),
        ensures
            chunk == tile / (self.chunk_size as int),
    {
        let side = self.chunk_size as int;
        self.lemma_bounds_in_world(chunk);
        if chunk < 0 {
            assert(chunk * side + side <= 0) by (nonlinear_arith)
                requires
                    chunk <= -1,
                    side >= 1,
            ;
        } else {
            assert(chunk * side >= 0) by (nonlinear_arith)
                requires
                    chunk >= 0,
                    side >= 1,
            ;
            lemma_cell_in_segment(tile, chunk, side);
        }
    }

    /// A chunk is a chunk of the world exactly when both its coordinates lie
    /// between 0 and the number of chunks along a side.
    pub proof fn lemma_world_chunks(&self, cx: int, cy: int)
        requires
            self.wf(),
        ensures
            self.is_world_chunk(cx, cy) == (0 <= cx < self.chunks_per_side() && 0 <= cy
                < self.chunks_per_side()),
            1 <= self.chunks_per_side() <= self.world_size,
    {
        self.lemma_world_chunk_along(cx);
        self.lemma_world_chunk_along(cy);
    }

    /// Along one axis, a chunk holds a tile of the world exactly when its
    /// number lies between 0 and the number of chunks along a side.
    proof fn lemma_world_chunk_along(&self, chunk: int)
        requires
            self.wf(),
        ensures
            (self.start_of(chunk) < self.end_of(chunk)) == (0 <= chunk < self.chunks_per_side()),
            1 <= self.chunks_per_side() <= self.world_size,
    {
        let side = self.chunk_size as int;
        lemma_segment_count(self.world_size as int, side);
        self.lemma_bounds_in_world(chunk);
        if chunk >= 0 {
            lemma_segment_start(chunk, side, self.world_size as int);
        }
    }

    /// The chunks kept for a viewer are exactly the wanted ones: a chunk is
    /// listed exactly when it lies within the rings of the viewer's chunk and
    /// is a chunk of the world, and none is listed twice.
    pub proof fn lemma_visible_is_wanted(&self, x: int, y: int, radius: int, cx: int, cy: int)
        requires
            self.wf(),
            i32::MIN <= cx <= i32::MAX,
            i32::MIN <= cy <= i32::MAX,
        ensures
            self.visible_of(x, y, radius).contains((cx as i32, cy as i32)) == self.is_wanted(
                x,
                y,
                radius,
                cx,
                cy,
            ),
            self.visible_of(x, y, radius).no_duplicates(),
    {
        let first_x = self.first_kept(x, radius);
        let first_y = self.first_kept(y, radius);
        let last_x = self.last_kept(x, radius);
        let last_y = self.last_kept(y, radius);
        let width = self.kept_along(x, radius);
        let height = self.kept_along(y, radius);
        let listed = self.visible_of(x, y, radius);
        self.lemma_world_chunks(cx, cy);
        assert(width * height >= 0) by (nonlinear_arith)
            requires
                width >= 0,
                height >= 0,
        ;
        if height == 0 {
            assert(width * height == 0) by (nonlinear_arith)
                requires
                    height == 0,
            ;
        }
        assert forall|k: int| 0 <= k < listed.len() implies (#[trigger] listed[k]).0 == first_x + k
            / height && listed[k].1 == first_y + k % height && first_x <= listed[k].0 <= last_x
            && first_y <= listed[k].1 <= last_y by {
            lemma_number_names_cell(k, width, height);
        }
        if listed.contains((cx as i32, cy as i32)) {
            let k = choose|k: int| 0 <= k < listed.len() && listed[k] == (cx as i32, cy as i32);
            assert(listed[k].0 == cx && listed[k].1 == cy);
        }
        if self.is_wanted(x, y, radius, cx, cy) {
            let column = cx - first_x;
            let row = cy - first_y;
            let k = column * height + row;
            lemma_cell_number(column, row, height);
            assert(0 <= k < width * height) by (nonlinear_arith)
                requires
                    k == column * height + row,
                    0 <= column < width,
                    0 <= row < height,
            ;
            assert(listed[k] == (cx as i32, cy as i32));
        }
        assert forall|j: int, k: int|
            0 <= j < listed.len() && 0 <= k < listed.len() && j != k implies listed[j]
            != listed[k] by {
            lemma_number_names_cell(j, width, height);
            lemma_number_names_cell(k, width, height);
            assert(listed[j].0 == first_x + j / height);
            assert(listed[k].0 == first_x + k / height);
        }
    }

    /// At least one ring is kept, whatever the radius.
    pub proof fn lemma_rings_positive(&self, radius: int)
        requires
            self.wf(),
            0 <= radius,
        ensures
            self.rings(radius) >= 1,
            radius == 0 ==> self.rings(radius) == 1,
    {
        let side = self.chunk_world_size();
        assert(side >= 1) by (nonlinear_arith)
            requires
                side == self.chunk_size * self.tile_size,
                self.chunk_size >= 1,
                self.tile_size >= 1,
        ;
        lemma_div_pos_is_pos(radius + side - 1, side);
        if radius == 0 {
            lemma_fundamental_div_mod_converse(side - 1, side, 0, side - 1);
        }
    }
}

/// The chunks to keep for a viewer at `(camera_x, camera_y)` in the standard
/// layout, with the standard streaming radius: the chunks of the world within
/// three rings of the viewer's chunk.
pub fn calculate_visible_chunks(camera_x: i32, camera_y: i32) -> (chunks: Vec<(i32, i32)>)
    ensures
        chunks@ == ChunkLayout::standard_layout().visible_of(
            camera_x as int,
            camera_y as int,
            RENDER_DISTANCE as int,
        ),
        chunks@.no_duplicates(),
        forall|cx: i32, cy: i32|
            #![trigger chunks@.contains((cx, cy))]
            chunks@.contains((cx, cy)) == ChunkLayout::standard_layout().is_wanted(
                camera_x as int,
                camera_y as int,
                RENDER_DISTANCE as int,
                cx as int,
                cy as int,
            ),
{
    ChunkLayout::standard().visible_chunks(camera_x, camera_y, RENDER_DISTANCE)
}

/// The chunk of the standard layout that holds tile `(world_x, world_y)`.
pub fn world_to_chunk_coord(world_x: usize, world_y: usize) -> (chunk: (i32, i32))
    requires
        world_x / CHUNK_SIZE <= i32::MAX,
        world_y / CHUNK_SIZE <= i32::MAX,
    ensures
        chunk.0 == world_x / CHUNK_SIZE,
        chunk.1 == world_y / CHUNK_SIZE,
{
    ChunkLayout::standard().chunk_of_tile(world_x, world_y)
}

/// The tiles of chunk `(chunk_x, chunk_y)` of the standard layout, as
/// `(start_x, start_y, end_x, end_y)`.
pub fn chunk_to_world_bounds(chunk_x: i32, chunk_y: i32) -> (bounds: (usize, usize, usize, usize))
    ensures
        bounds.0 == ChunkLayout::standard_layout().start_of(chunk_x as int),
        bounds.1 == ChunkLayout::standard_layout().start_of(chunk_y as int),
        bounds.2 == ChunkLayout::standard_layout().end_of(chunk_x as int),
        bounds.3 == ChunkLayout::standard_layout().end_of(chunk_y as int),
        bounds.0 <= bounds.2 <= WORLD_SIZE,
        bounds.1 <= bounds.3 <= WORLD_SIZE,
{
    ChunkLayout::standard().chunk_bounds(chunk_x, chunk_y)
}

} // verus!
