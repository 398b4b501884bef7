//! The chunk manager: which chunks are loaded, with the handles of the
//! entities that were made for each, and which chunks are wanted.
//!
//! The manager decides and keeps the books; it makes and destroys nothing
//! itself. A tick is `update`: it drops the chunks that are loaded but no
//! longer wanted, hands back the handles of their entities, and lists the
//! wanted chunks that are not loaded. The caller makes the entities of each
//! listed chunk and records them with `load_chunk`.

use crate::chunks::ChunkLayout;
use crate::keys::{key_of, lemma_pair_key_injective, pair_key};
use crate::lists::lemma_filter_members;
use std::collections::HashMap;
use vstd::prelude::*;

verus! {

broadcast use vstd::std_specs::hash::group_hash_axioms;

/// What is kept for a loaded chunk: the handles of its entities.
#[derive(Debug, Clone, PartialEq, Eq)]
pub struct ChunkData {
    pub entities: Vec<u64>,
    pub is_loaded: bool,
}

#[derive(Debug, Clone)]
pub struct ChunkManager {
    pub loaded_chunks: HashMap<u64, ChunkData>,
    pub active_chunks: Vec<(i32, i32)>,
}

/// What `update` asks of the caller: entities to destroy, and chunks to make
/// and record.
#[derive(Debug, Clone, PartialEq, Eq)]
pub struct StreamingPlan {
    pub released: Vec<u64>,
    pub to_load: Vec<(i32, i32)>,
}

/// The state of a chunk manager as a mathematical value: the entities of
/// each loaded chunk, and the list of wanted chunks.
pub ghost struct StreamingModel {
    pub loaded: Map<(i32, i32), Seq<u64>>,
    pub active: Seq<(i32, i32)>,
}

impl StreamingModel {
    /// Every loaded chunk is a wanted chunk.
    pub open spec fn wf(self) -> bool {
        forall|coord: (i32, i32)| #[trigger]
            self.loaded.contains_key(coord) ==> self.active.contains(coord)
    }

    /// Nothing loaded, nothing wanted.
    pub open spec fn empty() -> StreamingModel {
        StreamingModel { loaded: Map::empty(), active: Seq::empty() }
    }

    /// The state after a chunk is unloaded.
    pub open spec fn unload(self, coord: (i32, i32)) -> StreamingModel {
        StreamingModel { loaded: self.loaded.remove(coord), active: self.active }
    }

    /// A chunk can be recorded as loaded: it is wanted and not loaded yet.
    pub open spec fn accepts(self, coord: (i32, i32)) -> bool {
        self.active.contains(coord) && !self.loaded.contains_key(coord)
    }

    /// The state after the caller offers the entities of a chunk.
    pub open spec fn load(self, coord: (i32, i32), entities: Seq<u64>) -> StreamingModel {
        if self.accepts(coord) {
            StreamingModel { loaded: self.loaded.insert(coord, entities), active: self.active }
        } else {
            self
        }
    }

    /// The loaded chunks that `target` no longer wants.
    pub open spec fn stale(self, target: Seq<(i32, i32)>) -> Set<(i32, i32)> {
        Set::new(|coord: (i32, i32)| self.loaded.contains_key(coord) && !target.contains(coord))
    }

    /// The state after a tick with the wanted chunks `target`: the stale
    /// chunks are gone, and `target` is the list of wanted chunks.
    pub open spec fn retarget(self, target: Seq<(i32, i32)>) -> StreamingModel {
        StreamingModel { loaded: self.loaded.remove_keys(self.stale(target)), active: target }
    }

    /// The chunks of `target` that are not loaded, in the order of `target`.
    pub open spec fn pending(self, target: Seq<(i32, i32)>) -> Seq<(i32, i32)> {
        target.filter(|coord: (i32, i32)| !self.loaded.contains_key(coord))
    }

    /// The entities of the chunks among `listed` that are loaded and that
    /// `target` does not want, chunk after chunk in the order of `listed`,
    /// each chunk once.
    pub open spec fn released_among(self, listed: Seq<(i32, i32)>, target: Seq<(i32, i32)>) -> Seq<
        u64,
    >
        decreases listed.len(),
    {
        if listed.len() == 0 {
            Seq::empty()
        } else {
            let earlier = self.released_among(listed.drop_last(), target);
            let coord = listed.last();
            if self.loaded.contains_key(coord) && !target.contains(coord)
                && !listed.drop_last().contains(coord) {
                earlier + self.loaded[coord]
            } else {
                earlier
            }
        }
    }

    /// The entities that a tick with the wanted chunks `target` releases.
    pub open spec fn released(self, target: Seq<(i32, i32)>) -> Seq<u64> {
        self.released_among(self.active, target)
    }

    /// The state after the caller has recorded, for each chunk of `coords` in
    /// turn, the entities that `made` gives for it.
    pub open spec fn load_each(
        self,
        coords: Seq<(i32, i32)>,
        made: spec_fn((i32, i32)) -> Seq<u64>,
    ) -> StreamingModel
        decreases coords.len(),
    {
        if coords.len() == 0 {
            self
        } else {
            self.load_each(coords.drop_last(), made).load(coords.last(), made(coords.last()))
        }
    }

    /// The manager has settled on `target`: the wanted chunks are those of
    /// `target`, and the loaded chunks are exactly the wanted ones.
    pub open spec fn settled(self, target: Seq<(i32, i32)>) -> bool {
        &&& self.active == target
        &&& forall|coord: (i32, i32)| #[trigger]
            self.loaded.contains_key(coord) <==> target.contains(coord)
    }
}

/// A chunk that was loaded in `before` is still loaded after the chunks of
/// `seen` that `target` does not want have been unloaded.
pub open spec fn survives(
    before: StreamingModel,
    seen: Seq<(i32, i32)>,
    target: Seq<(i32, i32)>,
    coord: (i32, i32),
) -> bool {
    before.loaded.contains_key(coord) && (target.contains(coord) || !seen.contains(coord))
}

impl View for ChunkManager {
    type V = StreamingModel;

    open spec fn view(&self) -> StreamingModel {
        StreamingModel {
            loaded: Map::new(
                |coord: (i32, i32)| self.loaded_chunks@.contains_key(pair_key(coord)),
                |coord: (i32, i32)| self.loaded_chunks@[pair_key(coord)].entities@,
            ),
            active: self.active_chunks@,
        }
    }
}

/// Whether `coord` is one of `list`.
pub fn contains_coord(list: &Vec<(i32, i32)>, coord: (i32, i32)) -> (found: bool)
    ensures
        found == list@.contains(coord),
{
    let mut i: usize = 0;
    while i < list.len()
        invariant
            i <= list.len(),
            forall|j: int| 0 <= j < i ==> list[j] != coord,
        decreases list.len() - i,
    {
        if list[i].0 == coord.0 && list[i].1 == coord.1 {
            return true;
        }
        i = i + 1;
    }
    false
}

impl ChunkManager {
    /// Every kept chunk is flagged as loaded, and every loaded chunk is a
    /// wanted chunk.
    pub open spec fn wf(&self) -> bool {
        &&& self@.wf()
        &&& forall|key: u64| #[trigger]
            self.loaded_chunks@.contains_key(key) ==> self.loaded_chunks@[key].is_loaded
    }

    /// A manager with nothing loaded and nothing wanted.
    pub fn new() -> (manager: Self)
        ensures
            manager@ == StreamingModel::empty(),
            manager.wf(),
    {
        let manager = ChunkManager { loaded_chunks: HashMap::new(), active_chunks: Vec::new() };
        assert(manager@.loaded =~= Map::empty());
        manager
    }

    /// Whether a chunk is loaded.
    pub fn is_loaded(&self, coord: (i32, i32)) -> (loaded: bool)
        ensures
            loaded == self@.loaded.contains_key(coord),
    {
        let key = key_of(coord);
        self.loaded_chunks.contains_key(&key)
    }

    /// Takes a chunk out of the books and hands back what was kept for it.
    fn take_entry(&mut self, coord: (i32, i32)) -> (entities: Option<Vec<u64>>)
        ensures
            final(self)@ == old(self)@.unload(coord),
            entities.is_some() == old(self)@.loaded.contains_key(coord),
            entities matches Some(list) ==> list@ == old(self)@.loaded[coord],
            forall|key: u64| #[trigger]
                final(self).loaded_chunks@.contains_key(key) ==> old(
                    self,
                ).loaded_chunks@.contains_key(key) && final(self).loaded_chunks@[key] == old(
                    self,
                ).loaded_chunks@[key],
    {
        let key = key_of(coord);
        let removed = self.loaded_chunks.remove(&key);
        proof {
            assert forall|other: (i32, i32)| other != coord implies pair_key(other) != key by {
                lemma_pair_key_injective(other, coord);
            }
            assert(self@.loaded =~= old(self)@.loaded.remove(coord));
        }
        match removed {
            Some(data) => Some(data.entities),
            None => None,
        }
    }

    /// Unloads a chunk and hands back the handles of its entities, for the
    /// caller to destroy. Unloading a chunk that is not loaded changes
    /// nothing and hands back no handle.
    pub fn unload_chunk(&mut self, coord: (i32, i32)) -> (released: Vec<u64>)
        requires
            old(self).wf(),
        ensures
            final(self).wf(),
            final(self)@ == old(self)@.unload(coord),
            released@ == if old(self)@.loaded.contains_key(coord) {
                old(self)@.loaded[coord]
            } else {
                Seq::empty()
            },
    {
        match self.take_entry(coord) {
            Some(entities) => entities,
            None => Vec::new(),
        }
    }

    /// Records a chunk as loaded, with the handles of the entities made for
    /// it, and says whether it did. A chunk that is not wanted or is loaded
    /// already is not recorded, and nothing changes.
    pub fn load_chunk(&mut self, coord: (i32, i32), entities: Vec<u64>) -> (recorded: bool)
        requires
            old(self).wf(),
        ensures
            final(self).wf(),
            final(self)@ == old(self)@.load(coord, entities@),
            recorded == old(self)@.accepts(coord),
    {
        if !contains_coord(&self.active_chunks, coord) || self.is_loaded(coord) {
            return false;
        }
        let key = key_of(coord);
        let ghost kept = entities@;
        self.loaded_chunks.insert(key, ChunkData { entities, is_loaded: true });
        proof {
            assert forall|other: (i32, i32)| other != coord implies pair_key(other) != key by {
                lemma_pair_key_injective(other, coord);
            }
            assert(self@.loaded =~= old(self)@.loaded.insert(coord, kept));
        }
        true
    }

    /// Forgets everything: no chunk stays loaded or wanted. For use when the
    /// world is replaced.
    pub fn clear(&mut self)
        ensures
            final(self)@ == StreamingModel::empty(),
            final(self).wf(),
    {
        self.loaded_chunks.clear();
        self.active_chunks.clear();
        assert(self@.loaded =~= Map::empty());
    }

    /// One tick of streaming for a viewer at `(x, y)` and a streaming radius:
    /// the wanted chunks are the chunks of the world within the rings of the
    /// viewer's chunk, as the layout lists them, and the tick towards them is
    /// that of `update`.
    pub fn tick(&mut self, layout: &ChunkLayout, x: i32, y: i32, radius: u32) -> (plan:
        StreamingPlan)
        requires
            old(self).wf(),
            layout.wf(),
        ensures
            final(self).wf(),
            final(self)@ == old(self)@.retarget(
                layout.visible_of(x as int, y as int, radius as int),
            ),
            plan.released@ == old(self)@.released(
                layout.visible_of(x as int, y as int, radius as int),
            ),
            plan.to_load@ == final(self)@.pending(
                layout.visible_of(x as int, y as int, radius as int),
            ),
            forall|cx: i32, cy: i32|
                #![trigger final(self)@.active.contains((cx, cy))]
                final(self)@.active.contains((cx, cy)) == layout.is_wanted(
                    x as int,
                    y as int,
                    radius as int,
                    cx as int,
                    cy as int,
                ),
    {
        let target = layout.visible_chunks(x, y, radius);
        self.update(target)
    }

    /// One tick of streaming towards the wanted chunks `target`. The loaded
    /// chunks that `target` does not want are unloaded and the handles of
    /// their entities handed back in `released`; `target` becomes the list of
    /// wanted chunks; `to_load` lists the wanted chunks that are not loaded.
    pub fn update(&mut self, target: Vec<(i32, i32)>) -> (plan: StreamingPlan)
        requires
            old(self).wf(),
        ensures
            final(self).wf(),
            final(self)@ == old(self)@.retarget(target@),
            plan.released@ == old(self)@.released(target@),
            plan.to_load@ == final(self)@.pending(target@),
    {
        let ghost before = self@;
        let mut released: Vec<u64> = Vec::new();
        let mut i: usize = 0;
        while i < self.active_chunks.len()
            invariant
                before == old(self)@,
                before.wf(),
                i <= self.active_chunks.len(),
                self.active_chunks@ == before.active,
                forall|key: u64| #[trigger]
                    self.loaded_chunks@.contains_key(key) ==> self.loaded_chunks@[key].is_loaded,
                forall|coord: (i32, i32)|
                    self@.loaded.contains_key(coord) == #[trigger] survives(
                        before,
                        before.active.take(i as int),
                        target@,
                        coord,
                    ),
                forall|coord: (i32, i32)| #[trigger]
                    self@.loaded.contains_key(coord) ==> self@.loaded[coord]
                        == before.loaded[coord],
                released@ == before.released_among(before.active.take(i as int), target@),
            decreases self.active_chunks.len() - i,
        {
            let coord = self.active_chunks[i];
            let ghost seen = before.active.take(i as int);
            let ghost now = self@;
            proof {
                assert(before.active.take(i + 1).drop_last() =~= seen);
                assert(before.active.take(i + 1).last() == coord);
            }
            proof {
                assert(now.loaded.contains_key(coord) == survives(before, seen, target@, coord));
            }
            if !contains_coord(&target, coord) {
                match self.take_entry(coord) {
                    Some(mut entities) => {
                        released.append(&mut entities);
                    },
                    None => {},
                }
            }
            proof {
                let next = before.active.take(i + 1);
                assert(next[i as int] == coord);
                assert forall|other: (i32, i32)|
                    self@.loaded.contains_key(other) == #[trigger] survives(
                        before,
                        next,
                        target@,
                        other,
                    ) by {
                    assert(now.loaded.contains_key(other) == survives(
                        before,
                        seen,
                        target@,
                        other,
                    ));
                    if other != coord {
                        if next.contains(other) {
                            let j = choose|j: int| 0 <= j < next.len() && next[j] == other;
                            assert(seen[j] == other);
                        }
                        if seen.contains(other) {
                            let j = choose|j: int| 0 <= j < seen.len() && seen[j] == other;
                            assert(next[j] == other);
                        }
                    }
                }
                assert forall|other: (i32, i32)| #[trigger]
                    self@.loaded.contains_key(other) implies self@.loaded[other]
                    == before.loaded[other] by {
                    assert(now.loaded.contains_key(other));
                }
            }
            i = i + 1;
        }
        proof {
            assert(before.active.take(i as int) =~= before.active);
            assert forall|coord: (i32, i32)|
                self@.loaded.contains_key(coord) == before.loaded.remove_keys(
                    before.stale(target@),
                ).contains_key(coord) by {
                assert(self@.loaded.contains_key(coord) == survives(
                    before,
                    before.active,
                    target@,
                    coord,
                ));
            }
            assert(self@.loaded =~= before.loaded.remove_keys(before.stale(target@)));
        }
        let mut to_load: Vec<(i32, i32)> = Vec::new();
        let ghost kept = self@;
        let ghost unloaded = |coord: (i32, i32)| !kept.loaded.contains_key(coord);
        let mut j: usize = 0;
        while j < target.len()
            invariant
                j <= target.len(),
                self@ == kept,
                unloaded == |coord: (i32, i32)| !kept.loaded.contains_key(coord),
                to_load@ == target@.take(j as int).filter(unloaded),
            decreases target.len() - j,
        {
            let coord = target[j];
            proof {
                assert(target@.take(j + 1).drop_last() =~= target@.take(j as int));
                reveal(Seq::filter);
            }
            if !self.is_loaded(coord) {
                to_load.push(coord);
            }
            j = j + 1;
        }
        proof {
            assert(target@.take(j as int) =~= target@);
        }
        self.active_chunks = target;
        proof {
            assert(self@.loaded =~= kept.loaded);
            assert(self@.pending(target@) == target@.filter(unloaded));
        }
        StreamingPlan { released, to_load }
    }
}

/// Unloading is idempotent: a second unloading of the same chunk changes
/// nothing, and unloading a chunk that is not loaded changes nothing.
pub proof fn lemma_unload_idempotent(state: StreamingModel, coord: (i32, i32))
    ensures
        state.unload(coord).unload(coord) == state.unload(coord),
        !state.loaded.contains_key(coord) ==> state.unload(coord) == state,
        state.wf() ==> state.unload(coord).wf(),
{
    assert(state.unload(coord).unload(coord).loaded =~= state.unload(coord).loaded);
    if !state.loaded.contains_key(coord) {
        assert(state.unload(coord).loaded =~= state.loaded);
    }
}

/// Loading is idempotent: once a chunk is loaded, offering entities for it
/// again changes nothing.
pub proof fn lemma_load_idempotent(
    state: StreamingModel,
    coord: (i32, i32),
    entities: Seq<u64>,
    again: Seq<u64>,
)
    ensures
        state.load(coord, entities).load(coord, again) == state.load(coord, entities),
        state.loaded.contains_key(coord) ==> state.load(coord, entities) == state,
        state.wf() ==> state.load(coord, entities).wf(),
{
}

/// Recording the entities of a list of wanted chunks leaves the wanted
/// chunks as they are and adds the listed chunks to the loaded ones.
pub proof fn lemma_load_each(
    state: StreamingModel,
    coords: Seq<(i32, i32)>,
    made: spec_fn((i32, i32)) -> Seq<u64>,
)
    requires
        forall|i: int| 0 <= i < coords.len() ==> state.active.contains(#[trigger] coords[i]),
    ensures
        state.load_each(coords, made).active == state.active,
        forall|coord: (i32, i32)| #[trigger]
            state.load_each(coords, made).loaded.contains_key(coord)
                <==> state.loaded.contains_key(coord) || coords.contains(coord),
    decreases coords.len(),
{
    if coords.len() > 0 {
        let front = coords.drop_last();
        lemma_load_each(state, front, made);
        let middle = state.load_each(front, made);
        let after = state.load_each(coords, made);
        assert forall|coord: (i32, i32)| #[trigger]
            after.loaded.contains_key(coord) <==> state.loaded.contains_key(coord)
                || coords.contains(coord) by {
            if front.contains(coord) {
                let j = choose|j: int| 0 <= j < front.len() && front[j] == coord;
                assert(coords[j] == coord);
            }
            if coords.contains(coord) && coord != coords.last() {
                let j = choose|j: int| 0 <= j < coords.len() && coords[j] == coord;
                assert(front[j] == coord);
            }
            assert(coords[coords.len() - 1] == coords.last());
        }
    }
}

/// No entity is released where every listed chunk is wanted.
pub proof fn lemma_nothing_released(
    state: StreamingModel,
    listed: Seq<(i32, i32)>,
    target: Seq<(i32, i32)>,
)
    requires
        forall|i: int| 0 <= i < listed.len() ==> target.contains(#[trigger] listed[i]),
    ensures
        state.released_among(listed, target) == Seq::<u64>::empty(),
    decreases listed.len(),
{
    if listed.len() > 0 {
        lemma_nothing_released(state, listed.drop_last(), target);
        assert(target.contains(listed[listed.len() - 1]));
    }
}

/// Streaming converges in one tick: after a tick towards `target`, once the
/// caller has recorded the chunks that the tick asked for, whatever entities
/// it made for them, the wanted chunks are those of `target` and the loaded
/// chunks are exactly the wanted ones.
pub proof fn lemma_tick_settles(
    state: StreamingModel,
    target: Seq<(i32, i32)>,
    made: spec_fn((i32, i32)) -> Seq<u64>,
)
    ensures
        state.retarget(target).load_each(state.retarget(target).pending(target), made).settled(
            target,
        ),
        state.retarget(target).wf(),
{
    let ticked = state.retarget(target);
    let asked = ticked.pending(target);
    let unloaded = |coord: (i32, i32)| !ticked.loaded.contains_key(coord);
    lemma_filter_members(target, unloaded);
    assert forall|i: int| 0 <= i < asked.len() implies ticked.active.contains(
        #[trigger] asked[i],
    ) by {
        assert(asked.contains(asked[i]));
    }
    lemma_load_each(ticked, asked, made);
    let done = ticked.load_each(asked, made);
    assert forall|coord: (i32, i32)| #[trigger]
        done.loaded.contains_key(coord) <==> target.contains(coord) by {
        if target.contains(coord) && !ticked.loaded.contains_key(coord) {
            assert(asked.contains(coord));
        }
    }
}

/// A manager that has settled stays as it is: a further tick towards the
/// same wanted chunks releases nothing, asks for nothing, and changes
/// nothing.
pub proof fn lemma_settled_tick_changes_nothing(state: StreamingModel, target: Seq<(i32, i32)>)
    requires
        state.settled(target),
    ensures
        state.retarget(target) == state,
        state.released(target) == Seq::<u64>::empty(),
        state.pending(target) == Seq::<(i32, i32)>::empty(),
{
    assert(state.retarget(target).loaded =~= state.loaded);
    lemma_nothing_released(state, state.active, target);
    let unloaded = |coord: (i32, i32)| !state.loaded.contains_key(coord);
    lemma_filter_members(target, unloaded);
    let asked = state.pending(target);
    if asked.len() > 0 {
        assert(asked.contains(asked[0]));
    }
    assert(asked =~= Seq::<(i32, i32)>::empty());
}

} // verus!
