//! A uniform grid over the plane that keeps, for each cell, the handles of
//! the entities recorded in it, for finding the entities near a position
//! without looking at all of them.
//!
//! Positions and the radius of a query are whole world units. The cell of a
//! position is the position divided by the side of a cell, rounded down, on
//! each axis. A query is a broad phase: it hands back every entity recorded
//! in a cell that the query square touches, and the caller filters by exact
//! distance.

use crate::keys::{key_of, lemma_pair_key_injective, pair_key};
use crate::lists::{lemma_filter_members, lemma_joined_members, lemma_push_keeps_distinct};
use crate::tiling::{floor_div, lemma_quotient_ordered};
use std::collections::HashMap;
use vstd::prelude::*;

verus! {

broadcast use vstd::std_specs::hash::group_hash_axioms;

/// Side of a cell, in world units, of the grid that `default` makes.
pub const DEFAULT_CELL_SIZE: u32 = 64;

#[derive(Debug, Clone)]
pub struct SpatialHash {
    pub cell_size: u32,
    pub grid: HashMap<u64, Vec<u64>>,
}

/// Along one axis, the cell of a position.
pub open spec fn cell_at(position: int, cell_size: int) -> int {
    position / cell_size
}

/// A position brought into the range of 32-bit integers.
pub open spec fn clamp_position(position: int) -> int {
    if position < i32::MIN {
        i32::MIN as int
    } else if position > i32::MAX {
        i32::MAX as int
    } else {
        position
    }
}

/// Along one axis, the lowest cell that a query round `position` touches.
pub open spec fn query_low(position: int, radius: int, cell_size: int) -> int {
    cell_at(clamp_position(position - radius), cell_size)
}

/// Along one axis, the highest cell that a query round `position` touches.
pub open spec fn query_high(position: int, radius: int, cell_size: int) -> int {
    cell_at(clamp_position(position + radius), cell_size)
}

/// The entities of the cells `(x, low)` to `(x, high)`, cell after cell.
pub open spec fn column_entities(cells: Map<(i32, i32), Seq<u64>>, x: int, low: int, high: int)
    -> Seq<u64>
    decreases high - low + 1,
{
    if high < low {
        Seq::empty()
    } else {
        column_entities(cells, x, low, high - 1) + cells[(x as i32, high as i32)]
    }
}

/// The entities of the cells from `(low_x, low_y)` to `(high_x, high_y)`,
/// column after column.
pub open spec fn box_entities(
    cells: Map<(i32, i32), Seq<u64>>,
    low_x: int,
    high_x: int,
    low_y: int,
    high_y: int,
) -> Seq<u64>
    decreases high_x - low_x + 1,
{
    if high_x < low_x {
        Seq::empty()
    } else {
        box_entities(cells, low_x, high_x - 1, low_y, high_y) + column_entities(
            cells,
            high_x,
            low_y,
            high_y,
        )
    }
}

/// The test that every entity but the given one meets.
pub open spec fn is_other(entity: u64) -> spec_fn(u64) -> bool {
    |e: u64| e != entity
}

/// The list without the entity.
pub open spec fn without(list: Seq<u64>, entity: u64) -> Seq<u64> {
    list.filter(is_other(entity))
}

/// The list with the entity at its end, if it was not in it.
pub open spec fn with(list: Seq<u64>, entity: u64) -> Seq<u64> {
    if list.contains(entity) {
        list
    } else {
        list.push(entity)
    }
}

impl SpatialHash {
    /// The entities recorded in each cell. A cell in which nothing was ever
    /// recorded holds the empty list.
    pub open spec fn cells(&self) -> Map<(i32, i32), Seq<u64>> {
        Map::new(
            |cell: (i32, i32)| true,
            |cell: (i32, i32)|
                if self.grid@.contains_key(pair_key(cell)) {
                    self.grid@[pair_key(cell)]@
                } else {
                    Seq::empty()
                },
        )
    }

    /// Cells have a side, and no cell lists an entity twice.
    pub open spec fn wf(&self) -> bool {
        &&& self.cell_size >= 1
        &&& forall|cell: (i32, i32)| (#[trigger] self.cells()[cell]).no_duplicates()
    }

    /// The cell of a position.
    pub open spec fn cell_of(&self, position: (i32, i32)) -> (i32, i32) {
        (
            cell_at(position.0 as int, self.cell_size as int) as i32,
            cell_at(position.1 as int, self.cell_size as int) as i32,
        )
    }

    /// The entities that a query round `position` hands back.
    pub open spec fn nearby(&self, position: (i32, i32), radius: u32) -> Seq<u64> {
        box_entities(
            self.cells(),
            query_low(position.0 as int, radius as int, self.cell_size as int),
            query_high(position.0 as int, radius as int, self.cell_size as int),
            query_low(position.1 as int, radius as int, self.cell_size as int),
            query_high(position.1 as int, radius as int, self.cell_size as int),
        )
    }

    /// An empty grid with cells of the given side, or `None` for a side of 0.
    pub fn with_cell_size(cell_size: u32) -> (index: Option<Self>)
        ensures
            index.is_some() == (cell_size >= 1),
            index matches Some(made) ==> made.wf() && made.cell_size == cell_size
                && forall|cell: (i32, i32)| #[trigger] made.cells()[cell] == Seq::<u64>::empty(),
    {
        if cell_size == 0 {
            None
        } else {
            Some(SpatialHash { cell_size, grid: HashMap::new() })
        }
    }

    /// The cell of a position.
    pub fn world_to_cell(&self, position: (i32, i32)) -> (cell: (i32, i32))
        requires
            self.cell_size >= 1,
        ensures
            cell == self.cell_of(position),
    {
        let side: i64 = self.cell_size as i64;
        (floor_div(position.0 as i64, side) as i32, floor_div(position.1 as i64, side) as i32)
    }

    /// The list kept for a cell, taken out of the grid.
    fn take_cell(&mut self, cell: (i32, i32)) -> (list: Vec<u64>)
        ensures
            list@ == old(self).cells()[cell],
            final(self).cell_size == old(self).cell_size,
            final(self).cells() == old(self).cells().insert(cell, Seq::empty()),
    {
        let key = key_of(cell);
        let taken = self.grid.remove(&key);
        proof {
            assert forall|other: (i32, i32)| other != cell implies pair_key(other) != key by {
                lemma_pair_key_injective(other, cell);
            }
            assert(self.cells() =~= old(self).cells().insert(cell, Seq::empty()));
        }
        match taken {
            Some(list) => list,
            None => Vec::new(),
        }
    }

    /// Puts a list into the grid as the list of a cell.
    fn put_cell(&mut self, cell: (i32, i32), list: Vec<u64>)
        ensures
            final(self).cell_size == old(self).cell_size,
            final(self).cells() == old(self).cells().insert(cell, list@),
    {
        let key = key_of(cell);
        let ghost kept = list@;
        self.grid.insert(key, list);
        proof {
            assert forall|other: (i32, i32)| other != cell implies pair_key(other) != key by {
                lemma_pair_key_injective(other, cell);
            }
            assert(self.cells() =~= old(self).cells().insert(cell, kept));
        }
    }

    /// Records an entity at a position: it joins the entities of the
    /// position's cell, unless it is among them already.
    pub fn insert(&mut self, entity: u64, position: (i32, i32))
        requires
            old(self).wf(),
        ensures
            final(self).wf(),
            final(self).cell_size == old(self).cell_size,
            final(self).cells() == old(self).cells().insert(
                old(self).cell_of(position),
                with(old(self).cells()[old(self).cell_of(position)], entity),
            ),
    {
        let cell = self.world_to_cell(position);
        let ghost before = self.cells();
        let mut list = self.take_cell(cell);
        if !contains_entity(&list, entity) {
            list.push(entity);
            proof {
                lemma_push_keeps_distinct(before[cell], entity);
            }
        }
        self.put_cell(cell, list);
        proof {
            let wanted = before.insert(cell, with(before[cell], entity));
            assert(self.cells() =~= wanted);
            assert forall|other: (i32, i32)| (#[trigger] self.cells()[other]).no_duplicates() by {
                if other != cell {
                    assert(self.cells()[other] == before[other]);
                }
            }
        }
    }

    /// Takes an entity out of the cell of a position. Where it is not among
    /// the entities of that cell, nothing changes.
    pub fn remove(&mut self, entity: u64, position: (i32, i32))
        requires
            old(self).wf(),
        ensures
            final(self).wf(),
            final(self).cell_size == old(self).cell_size,
            final(self).cells() == old(self).cells().insert(
                old(self).cell_of(position),
                without(old(self).cells()[old(self).cell_of(position)], entity),
            ),
    {
        let cell = self.world_to_cell(position);
        let ghost before = self.cells();
        let list = self.take_cell(cell);
        let kept = remove_entity(&list, entity);
        self.put_cell(cell, kept);
        proof {
            let wanted = before.insert(cell, without(before[cell], entity));
            assert(self.cells() =~= wanted);
            lemma_without(before[cell], entity);
            assert forall|other: (i32, i32)| (#[trigger] self.cells()[other]).no_duplicates() by {
                if other != cell {
                    assert(self.cells()[other] == before[other]);
                }
            }
        }
    }

    /// Moves an entity from the cell of one position to the cell of another,
    /// in one step.
    pub fn relocate(&mut self, entity: u64, from: (i32, i32), to: (i32, i32))
        requires
            old(self).wf(),
        ensures
            final(self).wf(),
            final(self).cell_size == old(self).cell_size,
            final(self).cells() == ({
                let lifted = old(self).cells().insert(
                    old(self).cell_of(from),
                    without(old(self).cells()[old(self).cell_of(from)], entity),
                );
                lifted.insert(old(self).cell_of(to), with(lifted[old(self).cell_of(to)], entity))
            }),
    {
        self.remove(entity, from);
        self.insert(entity, to);
    }

    /// Along one axis, the lowest and highest cell that a query touches.
    fn query_range(&self, position: i32, radius: u32) -> (range: (i64, i64))
        requires
            self.cell_size >= 1,
        ensures
            range.0 == query_low(position as int, radius as int, self.cell_size as int),
            range.1 == query_high(position as int, radius as int, self.cell_size as int),
            i32::MIN <= range.0 <= range.1 <= i32::MAX,
    {
        let side: i64 = self.cell_size as i64;
        let below: i64 = position as i64 - radius as i64;
        let above: i64 = position as i64 + radius as i64;
        let low: i64 = if below < i32::MIN as i64 {
            i32::MIN as i64
        } else {
            below
        };
        let high: i64 = if above > i32::MAX as i64 {
            i32::MAX as i64
        } else {
            above
        };
        proof {
            lemma_quotient_ordered(low as int, high as int, side as int);
        }
        (floor_div(low, side), floor_div(high, side))
    }

    /// The entities recorded in the cells that the square of half-side
    /// `radius` round `position` touches, column after column and cell after
    /// cell from the lowest coordinates up.
    pub fn get_nearby(&self, position: (i32, i32), radius: u32) -> (entities: Vec<u64>)
        requires
            self.cell_size >= 1,
        ensures
            entities@ == self.nearby(position, radius),
    {
        let (low_x, high_x) = self.query_range(position.0, radius);
        let (low_y, high_y) = self.query_range(position.1, radius);
        let ghost cells = self.cells();
        let mut entities: Vec<u64> = Vec::new();
        let mut x: i64 = low_x;
        while x <= high_x
            invariant
                i32::MIN <= low_x <= x <= high_x + 1,
                high_x <= i32::MAX,
                i32::MIN <= low_y <= high_y <= i32::MAX,
                cells == self.cells(),
                entities@ == box_entities(cells, low_x as int, x - 1, low_y as int, high_y as int),
            decreases high_x + 1 - x,
        {
            let ghost before_column = entities@;
            let mut y: i64 = low_y;
            while y <= high_y
                invariant
                    i32::MIN <= low_x <= x <= high_x <= i32::MAX,
                    i32::MIN <= low_y <= y <= high_y + 1,
                    high_y <= i32::MAX,
                    cells == self.cells(),
                    entities@ == before_column + column_entities(
                        cells,
                        x as int,
                        low_y as int,
                        y - 1,
                    ),
                decreases high_y + 1 - y,
            {
                let cell = (x as i32, y as i32);
                let key = key_of(cell);
                let ghost before_cell = entities@;
                match self.grid.get(&key) {
                    Some(list) => {
                        let mut i: usize = 0;
                        while i < list.len()
                            invariant
                                i <= list.len(),
                                entities@ == before_cell + list@.take(i as int),
                            decreases list.len() - i,
                        {
                            entities.push(list[i]);
                            assert(entities@ =~= before_cell + list@.take(i + 1));
                            i = i + 1;
                        }
                        assert(list@.take(i as int) =~= list@);
                        assert(list@ == cells[cell]);
                    },
                    None => {
                        assert(cells[cell] =~= Seq::<u64>::empty());
                    },
                }
                assert(entities@ =~= before_column + column_entities(
                    cells,
                    x as int,
                    low_y as int,
                    y as int,
                ));
                y = y + 1;
            }
            x = x + 1;
        }
        entities
    }

    /// Forgets every entity.
    pub fn clear(&mut self)
        ensures
            final(self).cell_size == old(self).cell_size,
            forall|cell: (i32, i32)| #[trigger] final(self).cells()[cell] == Seq::<u64>::empty(),
            old(self).cell_size >= 1 ==> final(self).wf(),
    {
        self.grid.clear();
    }
}

impl Default for SpatialHash {
    fn default() -> (index: Self)
        ensures
            index.wf(),
            index.cell_size == DEFAULT_CELL_SIZE,
            forall|cell: (i32, i32)| #[trigger] index.cells()[cell] == Seq::<u64>::empty(),
    {
        SpatialHash { cell_size: DEFAULT_CELL_SIZE, grid: HashMap::new() }
    }
}

/// Whether the entity is one of the list.
pub fn contains_entity(list: &Vec<u64>, entity: u64) -> (found: bool)
    ensures
        found == list@.contains(entity),
{
    let mut i: usize = 0;
    while i < list.len()
        invariant
            i <= list.len(),
            forall|j: int| 0 <= j < i ==> list[j] != entity,
        decreases list.len() - i,
    {
        if list[i] == entity {
            return true;
        }
        i = i + 1;
    }
    false
}

/// The list without the entity, in the same order.
pub fn remove_entity(list: &Vec<u64>, entity: u64) -> (kept: Vec<u64>)
    ensures
        kept@ == without(list@, entity),
{
    let mut kept: Vec<u64> = Vec::new();
    let mut i: usize = 0;
    while i < list.len()
        invariant
            i <= list.len(),
            kept@ == list@.take(i as int).filter(is_other(entity)),
        decreases list.len() - i,
    {
        proof {
            assert(list@.take(i + 1).drop_last() =~= list@.take(i as int));
            reveal(Seq::filter);
        }
        if list[i] != entity {
            kept.push(list[i]);
        }
        i = i + 1;
    }
    assert(list@.take(i as int) =~= list@);
    kept
}

/// Taking an entity out of a list leaves the other entities, in their order
/// and as often as before, and the entity is gone.
pub proof fn lemma_without(list: Seq<u64>, entity: u64)
    ensures
        !without(list, entity).contains(entity),
        forall|e: u64| e != entity ==> (#[trigger] without(list, entity).contains(e)
            <==> list.contains(e)),
        list.no_duplicates() ==> without(list, entity).no_duplicates(),
        !list.contains(entity) ==> without(list, entity) == list,
    decreases list.len(),
{
    reveal(Seq::filter);
    let other = is_other(entity);
    lemma_filter_members(list, other);
    if list.len() > 0 {
        let front = list.drop_last();
        lemma_without(front, entity);
        lemma_filter_members(front, other);
        if list.no_duplicates() {
            assert forall|i: int, j: int|
                0 <= i < front.len() && 0 <= j < front.len() && i != j implies front[i]
                != front[j] by {
                assert(list[i] == front[i] && list[j] == front[j]);
            }
            if list.last() != entity {
                assert(!front.contains(list.last())) by {
                    if front.contains(list.last()) {
                        let j = choose|j: int| 0 <= j < front.len() && front[j] == list.last();
                        assert(list[j] == list[list.len() - 1]);
                    }
                }
                lemma_push_keeps_distinct(without(front, entity), list.last());
            }
        }
        if !list.contains(entity) {
            assert(!front.contains(entity)) by {
                if front.contains(entity) {
                    let j = choose|j: int| 0 <= j < front.len() && front[j] == entity;
                    assert(list[j] == entity);
                }
            }
            assert(list[list.len() - 1] != entity);
            assert(without(list, entity) =~= list);
        }
    } else {
        assert(without(list, entity) =~= list);
    }
}

/// The entity is recorded in cell `(x, y)`.
pub open spec fn cell_holds(cells: Map<(i32, i32), Seq<u64>>, x: int, y: int, entity: u64) -> bool {
    cells[(x as i32, y as i32)].contains(entity)
}

/// The entities of a column of cells are those recorded in one of its cells.
pub proof fn lemma_column_members(
    cells: Map<(i32, i32), Seq<u64>>,
    x: int,
    low: int,
    high: int,
    entity: u64,
)
    ensures
        column_entities(cells, x, low, high).contains(entity) <==> exists|y: int|
            low <= y <= high && #[trigger] cell_holds(cells, x, y, entity),
    decreases high - low + 1,
{
    if high >= low {
        lemma_column_members(cells, x, low, high - 1, entity);
        lemma_joined_members(
            column_entities(cells, x, low, high - 1),
            cells[(x as i32, high as i32)],
            entity,
        );
        if column_entities(cells, x, low, high - 1).contains(entity) {
            let y = choose|y: int|
                low <= y <= high - 1 && #[trigger] cell_holds(cells, x, y, entity);
            assert(low <= y <= high && cell_holds(cells, x, y, entity));
        }
        if cell_holds(cells, x, high, entity) {
            assert(low <= high <= high && cell_holds(cells, x, high, entity));
        }
    }
}

/// The entities of a box of cells are those recorded in one of its cells.
pub proof fn lemma_box_members(
    cells: Map<(i32, i32), Seq<u64>>,
    low_x: int,
    high_x: int,
    low_y: int,
    high_y: int,
    entity: u64,
)
    ensures
        box_entities(cells, low_x, high_x, low_y, high_y).contains(entity) <==> exists|
            x: int,
            y: int,
        |
            low_x <= x <= high_x && low_y <= y <= high_y && #[trigger] cell_holds(
                cells,
                x,
                y,
                entity,
            ),
    decreases high_x - low_x + 1,
{
    if high_x >= low_x {
        lemma_box_members(cells, low_x, high_x - 1, low_y, high_y, entity);
        lemma_column_members(cells, high_x, low_y, high_y, entity);
        lemma_joined_members(
            box_entities(cells, low_x, high_x - 1, low_y, high_y),
            column_entities(cells, high_x, low_y, high_y),
            entity,
        );
        if box_entities(cells, low_x, high_x - 1, low_y, high_y).contains(entity) {
            let (x, y) = choose|x: int, y: int|
                low_x <= x <= high_x - 1 && low_y <= y <= high_y && #[trigger] cell_holds(
                    cells,
                    x,
                    y,
                    entity,
                );
            assert(low_x <= x <= high_x && low_y <= y <= high_y && cell_holds(cells, x, y, entity));
        }
        if column_entities(cells, high_x, low_y, high_y).contains(entity) {
            let y = choose|y: int|
                low_y <= y <= high_y && #[trigger] cell_holds(cells, high_x, y, entity);
            assert(low_x <= high_x <= high_x && low_y <= y <= high_y && cell_holds(
                cells,
                high_x,
                y,
                entity,
            ));
        }
    }
}

/// Along one axis, a query round `position` touches the cell of every
/// position that is no farther than the radius away.
pub proof fn lemma_query_covers(position: int, radius: int, cell_size: int, recorded: int)
    requires
        cell_size >= 1,
        radius >= 0,
        i32::MIN <= recorded <= i32::MAX,
        position - radius <= recorded <= position + radius,
    ensures
        query_low(position, radius, cell_size) <= cell_at(recorded, cell_size) <= query_high(
            position,
            radius,
            cell_size,
        ),
{
    lemma_quotient_ordered(clamp_position(position - radius), recorded, cell_size);
    lemma_quotient_ordered(recorded, clamp_position(position + radius), cell_size);
}

impl SpatialHash {
    /// A query hands back the union of the cells it touches: an entity is
    /// among those handed back exactly when it is recorded in one of them.
    pub proof fn lemma_nearby_is_union(&self, position: (i32, i32), radius: u32, entity: u64)
        ensures
            self.nearby(position, radius).contains(entity) <==> exists|x: int, y: int|
                query_low(position.0 as int, radius as int, self.cell_size as int) <= x
                    <= query_high(position.0 as int, radius as int, self.cell_size as int)
                    && query_low(position.1 as int, radius as int, self.cell_size as int) <= y
                    <= query_high(position.1 as int, radius as int, self.cell_size as int)
                    && #[trigger] cell_holds(self.cells(), x, y, entity),
    {
        lemma_box_members(
            self.cells(),
            query_low(position.0 as int, radius as int, self.cell_size as int),
            query_high(position.0 as int, radius as int, self.cell_size as int),
            query_low(position.1 as int, radius as int, self.cell_size as int),
            query_high(position.1 as int, radius as int, self.cell_size as int),
            entity,
        );
    }

    /// A query finds every entity recorded within the radius: an entity in
    /// the cell of a position that is no farther than the radius from the
    /// query, on each axis, is among those handed back.
    pub proof fn lemma_nearby_finds_recorded(
        &self,
        position: (i32, i32),
        radius: u32,
        entity: u64,
        recorded: (i32, i32),
    )
        requires
            self.cell_size >= 1,
            self.cells()[self.cell_of(recorded)].contains(entity),
            position.0 - radius <= recorded.0 <= position.0 + radius,
            position.1 - radius <= recorded.1 <= position.1 + radius,
        ensures
            self.nearby(position, radius).contains(entity),
    {
        let side = self.cell_size as int;
        lemma_query_covers(position.0 as int, radius as int, side, recorded.0 as int);
        lemma_query_covers(position.1 as int, radius as int, side, recorded.1 as int);
        self.lemma_nearby_is_union(position, radius, entity);
        let x = cell_at(recorded.0 as int, side);
        let y = cell_at(recorded.1 as int, side);
        lemma_cell_in_range(recorded.0 as int, side);
        lemma_cell_in_range(recorded.1 as int, side);
        assert(cell_holds(self.cells(), x, y, entity));
    }
}

/// The cell of a 32-bit position is a 32-bit number.
pub proof fn lemma_cell_in_range(position: int, cell_size: int)
    requires
        cell_size >= 1,
        i32::MIN <= position <= i32::MAX,
    ensures
        i32::MIN <= cell_at(position, cell_size) <= i32::MAX,
{
    lemma_quotient_ordered(i32::MIN as int, position, cell_size);
    lemma_quotient_ordered(position, i32::MAX as int, cell_size);
    lemma_quotient_ordered(0, i32::MAX as int, cell_size);
    vstd::arithmetic::div_mod::lemma_fundamental_div_mod(i32::MAX as int, cell_size);
    vstd::arithmetic::div_mod::lemma_mod_pos_bound(i32::MAX as int, cell_size);
    vstd::arithmetic::div_mod::lemma_fundamental_div_mod(i32::MIN as int, cell_size);
    vstd::arithmetic::div_mod::lemma_mod_bound(i32::MIN as int, cell_size);
    let top = (i32::MAX as int) / cell_size;
    let bottom = (i32::MIN as int) / cell_size;
    assert(cell_size * top >= top) by (nonlinear_arith)
        requires
            cell_size >= 1,
            top >= 0,
    ;
    if bottom < i32::MIN {
        let least = i32::MIN as int;
        assert(cell_size * bottom <= cell_size * least - cell_size) by (nonlinear_arith)
            requires
                cell_size >= 1,
                bottom <= least - 1,
        ;
        assert(cell_size * least <= least) by (nonlinear_arith)
            requires
                cell_size >= 1,
                least <= 0,
        ;
    }
}

} // verus!
