//! Tile store: which tiles are being fetched, which are resident on the GPU,
//! and which resident tile makes room for another.
//!
//! The store performs no work itself. A fetch it asks for waits in its queue,
//! an image it lets go waits in its release list, and the application drains
//! both.

use crate::laws::{law_completing_keeps_other_tiles, law_touched_tiles_stay};
use std::collections::HashMap;
use vstd::prelude::*;

verus! {

broadcast use vstd::std_specs::hash::group_hash_axioms;

/// Largest zoom level of the tile pyramid.
pub const MAX_ZOOM: u8 = 19;

/// GPU tiles kept resident. The image registry of the renderer holds 256
/// images in all, so this leaves headroom for other consumers and churn.
pub const MAX_GPU_TILES: usize = 180;

/// Address of one tile in the pyramid: zoom level, column and row.
#[derive(Debug, Clone, Copy, PartialEq, Eq, Hash, Structural)]
pub struct TileKey {
    pub z: u8,
    pub x: u32,
    pub y: u32,
}

/// What the store knows of a tile it has been asked for.
#[derive(Debug, Clone, Copy, PartialEq, Eq, Structural)]
pub enum TileState {
    /// Asked for, no answer yet.
    Pending,
    /// Resident on the GPU; `last_used` is the frame that last touched it.
    Ready { image: u32, last_used: u64 },
    /// The fetch failed; it is not repeated.
    Failed,
}

/// A fetch to perform. The answer carries the generation back.
#[derive(Debug, Clone, Copy, PartialEq, Eq, Structural)]
pub struct FetchJob {
    pub generation: u64,
    pub key: TileKey,
}

/// A tile together with its state, as the table holds it.
#[derive(Debug, Clone, Copy)]
struct Slot {
    key: TileKey,
    state: TileState,
}

/// The table's integer key of a tile.
spec fn slot_code(key: TileKey) -> int {
    key.z * 0x1_0000_0000_0000_0000 + key.x * 0x1_0000_0000 + key.y
}

fn slot_of(key: TileKey) -> (code: u128)
    ensures
        code == slot_code(key),
{
    key.z as u128 * 0x1_0000_0000_0000_0000 + key.x as u128 * 0x1_0000_0000 + key.y as u128
}

proof fn lemma_slot_code_injective(a: TileKey, b: TileKey)
    ensures
        slot_code(a) == slot_code(b) <==> a == b,
        0 <= slot_code(a) <= u128::MAX,
{
}

/// No other tile has this tile's code.
proof fn lemma_slot_is_its_own(key: TileKey)
    ensures
        forall|k: TileKey| #[trigger] slot_code(k) == slot_code(key) <==> k == key,
        forall|k: TileKey| 0 <= #[trigger] slot_code(k) <= u128::MAX,
{
}

/// Mathematical model of the tile store.
#[verifier::ext_equal]
pub struct TileStore {
    /// Every tile asked for since the last reset, with its state.
    pub states: Map<TileKey, TileState>,
    /// Fetches asked for and not yet handed out, oldest first.
    pub queue: Seq<FetchJob>,
    /// Images given up and not yet handed out, oldest first.
    pub released: Seq<u32>,
    /// Frame counter, the clock of the eviction order.
    pub frame: u64,
    /// Counts resets, round and round; an answer from another generation is
    /// void.
    pub generation: u64,
}

/// The resident tiles.
pub open spec fn resident(states: Map<TileKey, TileState>) -> Set<TileKey> {
    states.dom().filter(|k: TileKey| states[k] is Ready)
}

/// The resident tiles that `frame` has not touched.
pub open spec fn evictable(states: Map<TileKey, TileState>, frame: u64) -> Set<TileKey> {
    states.dom().filter(|k: TileKey| states[k] is Ready && states[k]->last_used < frame)
}

impl TileStore {
    /// Finitely many tiles, none of them used after the current frame.
    pub open spec fn wf(self) -> bool {
        &&& self.states.dom().finite()
        &&& forall|k: TileKey| #[trigger]
            self.states.contains_key(k) && self.states[k] is Ready ==> self.states[k]->last_used
                <= self.frame
    }

    /// The store before anything was asked for.
    pub open spec fn empty() -> Self {
        TileStore {
            states: Map::empty(),
            queue: Seq::empty(),
            released: Seq::empty(),
            frame: 0,
            generation: 0,
        }
    }

    /// The tile's image, where it is resident.
    pub open spec fn image_of(self, key: TileKey) -> Option<u32> {
        if self.states.contains_key(key) && self.states[key] is Ready {
            Some(self.states[key]->image)
        } else {
            None
        }
    }

    /// The store with `key` marked as used in the current frame, where it is
    /// resident.
    pub open spec fn touched(self, key: TileKey) -> Self {
        match self.image_of(key) {
            Some(image) => TileStore {
                states: self.states.insert(
                    key,
                    TileState::Ready { image, last_used: self.frame },
                ),
                ..self
            },
            None => self,
        }
    }

    /// The store after `key` was asked for: a resident tile is touched, an
    /// unknown one becomes pending and its fetch joins the queue, any other is
    /// left alone.
    pub open spec fn ensured(self, key: TileKey) -> Self {
        if self.states.contains_key(key) {
            self.touched(key)
        } else {
            TileStore {
                states: self.states.insert(key, TileState::Pending),
                queue: self.queue.push(FetchJob { generation: self.generation, key }),
                ..self
            }
        }
    }

    /// The store with the outcome of a fetch recorded, before eviction.
    pub open spec fn settled(self, key: TileKey, image: Option<u32>) -> Self {
        TileStore {
            states: self.states.insert(
                key,
                match image {
                    Some(image) => TileState::Ready { image, last_used: self.frame },
                    None => TileState::Failed,
                },
            ),
            ..self
        }
    }

    /// The store of a replaced renderer: nothing known, nothing waiting, and
    /// every answer still under way void.
    pub open spec fn renewed(self) -> Self {
        TileStore {
            states: Map::empty(),
            queue: Seq::empty(),
            released: Seq::empty(),
            frame: self.frame,
            generation: self.generation.wrapping_add(1),
        }
    }

    /// How many resident tiles are over the budget.
    pub open spec fn excess(self) -> int {
        if resident(self.states).len() > MAX_GPU_TILES {
            resident(self.states).len() - MAX_GPU_TILES
        } else {
            0
        }
    }

    /// `post` is this store after giving up the tiles `gone`, in that order:
    /// tiles that the current frame has not touched, the least recently used
    /// first, as many as are over the budget or as there are.
    pub open spec fn evicts(self, post: Self, gone: Seq<TileKey>) -> bool {
        &&& gone.no_duplicates()
        &&& forall|i: int|
            0 <= i < gone.len() ==> evictable(self.states, self.frame).contains(#[trigger] gone[i])
        &&& forall|i: int, j: int|
            0 <= i <= j < gone.len() ==> self.states[#[trigger] gone[i]]->last_used
                <= self.states[#[trigger] gone[j]]->last_used
        &&& forall|i: int, k: TileKey|
            0 <= i < gone.len() && #[trigger] evictable(self.states, self.frame).contains(k)
                && !gone.contains(k) ==> self.states[#[trigger] gone[i]]->last_used
                <= self.states[k]->last_used
        &&& gone.len() == vstd::math::min(
            self.excess(),
            evictable(self.states, self.frame).len() as int,
        )
        &&& post == TileStore {
            states: self.states.remove_keys(gone.to_set()),
            released: self.released + gone.map_values(|k: TileKey| self.states[k]->image),
            ..self
        }
    }
}

/// The tile store.
pub struct TileManager {
    states: HashMap<u128, Slot>,
    queue: Vec<FetchJob>,
    released: Vec<u32>,
    /// Frame counter used as the clock of the eviction order; advanced by the
    /// application at each repaint.
    frame: u64,
    generation: u64,
}

impl View for TileManager {
    type V = TileStore;

    closed spec fn view(&self) -> TileStore {
        TileStore {
            states: Map::new(
                |k: TileKey| self.states@.contains_key(slot_code(k) as u128),
                |k: TileKey| self.states@[slot_code(k) as u128].state,
            ),
            queue: self.queue@,
            released: self.released@,
            frame: self.frame,
            generation: self.generation,
        }
    }
}

impl TileManager {
    /// The table files each tile under its own code.
    closed spec fn filed(self) -> bool {
        forall|c: u128| #[trigger]
            self.states@.contains_key(c) ==> slot_code(self.states@[c].key) == c
    }

    /// Well-formedness: kept by every operation.
    pub closed spec fn wf(self) -> bool {
        &&& self.filed()
        &&& self@.wf()
    }

    /// A well-formed store has a well-formed model.
    pub proof fn lemma_wf(&self)
        requires
            self.wf(),
        ensures
            self@.wf(),
    {
    }

    proof fn lemma_states_finite(self)
        requires
            self.filed(),
        ensures
            self@.states.dom().finite(),
    {
        let m = self.states@;
        let f = |c: u128| m[c].key;
        m.dom().lemma_map_finite(f);
        assert forall|k: TileKey| self@.states.dom().contains(k) implies m.dom().map(f).contains(
            k,
        ) by {
            lemma_slot_code_injective(k, m[slot_code(k) as u128].key);
        }
        vstd::set_lib::lemma_set_subset_finite(m.dom().map(f), self@.states.dom());
    }

    /// An empty store.
    pub fn new() -> (manager: Self)
        ensures
            manager.wf(),
            manager@ == TileStore::empty(),
    {
        let manager = TileManager {
            states: HashMap::new(),
            queue: Vec::new(),
            released: Vec::new(),
            frame: 0,
            generation: 0,
        };
        assert(manager@.states =~= Map::empty());
        manager
    }

    /// The state of `key`, where the store knows the tile.
    fn find(&self, key: TileKey) -> (state: Option<TileState>)
        requires
            self.wf(),
        ensures
            state is Some <==> self@.states.contains_key(key),
            state is Some ==> state->0 == self@.states[key],
    {
        let code: u128 = slot_of(key);
        match self.states.get(&code) {
            Some(slot) => Some(slot.state),
            None => None,
        }
    }

    /// Records `state` for `key`.
    fn put(&mut self, key: TileKey, state: TileState)
        requires
            old(self).wf(),
            state is Ready ==> state->last_used <= old(self)@.frame,
        ensures
            final(self).wf(),
            final(self)@ == (TileStore {
                states: old(self)@.states.insert(key, state),
                ..old(self)@
            }),
    {
        let code: u128 = slot_of(key);
        self.states.insert(code, Slot { key, state });
        proof {
            lemma_slot_is_its_own(key);
            assert(self@.states =~= old(self)@.states.insert(key, state));
            assert(self.filed());
            self.lemma_states_finite();
        }
    }

    /// Forgets `key`.
    fn drop_tile(&mut self, key: TileKey)
        requires
            old(self).wf(),
        ensures
            final(self).wf(),
            final(self)@ == (TileStore { states: old(self)@.states.remove(key), ..old(self)@ }),
    {
        let code: u128 = slot_of(key);
        self.states.remove(&code);
        proof {
            lemma_slot_is_its_own(key);
            assert(self@.states =~= old(self)@.states.remove(key));
            assert(self.filed());
            self.lemma_states_finite();
        }
    }

    /// The current frame.
    pub fn frame(&self) -> (frame: u64)
        ensures
            frame == self@.frame,
    {
        self.frame
    }

    /// The current generation.
    pub fn generation(&self) -> (generation: u64)
        ensures
            generation == self@.generation,
    {
        self.generation
    }

    /// Starts the next frame.
    pub fn begin_frame(&mut self)
        requires
            old(self).wf(),
            old(self)@.frame < u64::MAX,
        ensures
            final(self).wf(),
            final(self)@ == (TileStore { frame: (old(self)@.frame + 1) as u64, ..old(self)@ }),
    {
        self.frame += 1;
        assert(self@.states =~= old(self)@.states);
    }

    /// The tile's GPU image if resident (marks it used); otherwise queues a
    /// fetch (once) and returns `None`.
    pub fn ensure(&mut self, key: TileKey) -> (image: Option<u32>)
        requires
            old(self).wf(),
        ensures
            final(self).wf(),
            image == old(self)@.image_of(key),
            final(self)@ == old(self)@.ensured(key),
    {
        match self.find(key) {
            Some(TileState::Ready { image, .. }) => {
                let last_used: u64 = self.frame;
                self.put(key, TileState::Ready { image, last_used });
                Some(image)
            },
            Some(_) => None,
            None => {
                self.put(key, TileState::Pending);
                let generation: u64 = self.generation;
                self.queue.push(FetchJob { generation, key });
                assert(self@ =~= old(self)@.ensured(key));
                None
            },
        }
    }

    /// Like `ensure` but never queues a fetch; used for ancestor fallback.
    pub fn ready(&mut self, key: TileKey) -> (image: Option<u32>)
        requires
            old(self).wf(),
        ensures
            final(self).wf(),
            image == old(self)@.image_of(key),
            final(self)@ == old(self)@.touched(key),
    {
        match self.find(key) {
            Some(TileState::Ready { image, .. }) => {
                let last_used: u64 = self.frame;
                self.put(key, TileState::Ready { image, last_used });
                Some(image)
            },
            _ => None,
        }
    }

    /// How many tiles are resident.
    fn count_resident(&self) -> (count: usize)
        requires
            self.wf(),
        ensures
            count == resident(self@.states).len(),
    {
        let known: usize = self.states.len();
        let mut count: usize = 0;
        let ghost mut seen: Set<TileKey> = Set::empty();
        let ghost states = self@.states;
        for entry in it: self.states.iter()
            invariant
                self.wf(),
                states == self@.states,
                seen.finite(),
                seen.len() == count,
                count <= it.index(),
                it.seq().no_duplicates(),
                it.seq().len() == known,
                forall|j: int|
                    0 <= j < it.seq().len() ==> self.states@.contains_key(
                        *(#[trigger] it.seq()[j]).0,
                    ) && self.states@[*it.seq()[j].0] == *it.seq()[j].1,
                forall|j: int|
                    0 <= j < it.index() && (#[trigger] it.seq()[j]).1.state is Ready
                        ==> seen.contains(it.seq()[j].1.key),
                forall|k: TileKey| #[trigger]
                    seen.contains(k) ==> resident(states).contains(k) && exists|j: int|
                        0 <= j < it.index() && (#[trigger] it.seq()[j]).1.key == k,
        {
            let slot = entry.1;
            if let TileState::Ready { .. } = slot.state {
                count += 1;
                proof {
                    seen = seen.insert(slot.key);
                }
            }
        }
        assert(seen =~= resident(states));
        count
    }

    /// A least recently used tile among those that the current frame has not
    /// touched, with its image.
    fn stalest(&self) -> (found: Option<(TileKey, u32)>)
        requires
            self.wf(),
        ensures
            match found {
                Some((key, image)) => {
                    &&& evictable(self@.states, self@.frame).contains(key)
                    &&& self@.states[key]->image == image
                    &&& forall|k: TileKey| #[trigger]
                        evictable(self@.states, self@.frame).contains(k)
                            ==> self@.states[key]->last_used <= self@.states[k]->last_used
                },
                None => evictable(self@.states, self@.frame) =~= Set::empty(),
            },
    {
        let mut found: Option<(TileKey, u32)> = None;
        let mut least: u64 = 0;
        let ghost states = self@.states;
        for entry in it: self.states.iter()
            invariant
                self.wf(),
                states == self@.states,
                forall|j: int|
                    0 <= j < it.seq().len() ==> self.states@.contains_key(
                        *(#[trigger] it.seq()[j]).0,
                    ) && self.states@[*it.seq()[j].0] == *it.seq()[j].1,
                found matches Some((key, image)) ==> {
                    &&& evictable(states, self.frame).contains(key)
                    &&& states[key]->image == image
                    &&& states[key]->last_used == least
                },
                forall|j: int|
                    0 <= j < it.index() && (#[trigger] it.seq()[j]).1.state is Ready
                        && it.seq()[j].1.state->last_used < self.frame ==> found is Some && least
                        <= it.seq()[j].1.state->last_used,
        {
            let slot = entry.1;
            if let TileState::Ready { image, last_used } = slot.state {
                let older: bool = match found {
                    Some(_) => last_used < least,
                    None => true,
                };
                if last_used < self.frame && older {
                    found = Some((slot.key, image));
                    least = last_used;
                }
            }
        }
        proof {
            assert forall|k: TileKey| #[trigger]
                evictable(states, self.frame).contains(k) implies found is Some && least
                <= states[k]->last_used by {
                lemma_slot_code_injective(k, k);
                let c = slot_code(k) as u128;
                assert(self.states@.contains_key(c));
                lemma_slot_code_injective(k, self.states@[c].key);
            }
        }
        found
    }

    /// Gives up the least recently used tiles once over budget. Tiles touched
    /// this frame are never evicted.
    fn evict(&mut self)
        requires
            old(self).wf(),
        ensures
            final(self).wf(),
            exists|gone: Seq<TileKey>| old(self)@.evicts(final(self)@, gone),
    {
        let count: usize = self.count_resident();
        let mut over: usize = if count > MAX_GPU_TILES {
            count - MAX_GPU_TILES
        } else {
            0
        };
        let ghost pre = self@;
        let ghost images = |k: TileKey| pre.states[k]->image;
        let ghost candidates = evictable(pre.states, pre.frame);
        let ghost mut gone: Seq<TileKey> = Seq::empty();
        proof {
            assert(pre.states.remove_keys(gone.to_set()) =~= pre.states);
            assert(pre.released + gone.map_values(images) =~= pre.released);
            vstd::set_lib::lemma_set_subset_finite(pre.states.dom(), candidates);
        }
        while over > 0
            invariant
                self.wf(),
                pre == old(self)@,
                images == (|k: TileKey| pre.states[k]->image),
                candidates == evictable(pre.states, pre.frame),
                candidates.finite(),
                over + gone.len() == pre.excess(),
                self@ == (TileStore {
                    states: pre.states.remove_keys(gone.to_set()),
                    released: pre.released + gone.map_values(images),
                    ..pre
                }),
                gone.no_duplicates(),
                forall|i: int| 0 <= i < gone.len() ==> candidates.contains(#[trigger] gone[i]),
                forall|i: int, j: int|
                    0 <= i <= j < gone.len() ==> pre.states[#[trigger] gone[i]]->last_used
                        <= pre.states[#[trigger] gone[j]]->last_used,
                forall|i: int, k: TileKey|
                    0 <= i < gone.len() && #[trigger] candidates.contains(k) && !gone.contains(k)
                        ==> pre.states[#[trigger] gone[i]]->last_used <= pre.states[k]->last_used,
            ensures
                over == 0 || candidates =~= gone.to_set(),
            decreases over,
        {
            let ghost cur = self@;
            match self.stalest() {
                Some((key, image)) => {
                    let ghost before = gone;
                    self.drop_tile(key);
                    self.released.push(image);
                    over -= 1;
                    proof {
                        assert(candidates.contains(key));
                        assert(!before.contains(key));
                        gone = before.push(key);
                        before.lemma_push_to_set_commute(key);
                        assert forall|k: TileKey| gone.contains(k) <==> before.contains(k) || k
                            == key by {
                            assert(gone.to_set().contains(k) <==> gone.contains(k));
                            assert(before.to_set().contains(k) <==> before.contains(k));
                        }
                        assert(self@.states =~= pre.states.remove_keys(gone.to_set()));
                        assert(self@.released =~= pre.released + gone.map_values(images));
                        assert(self@.wf());
                        assert forall|i: int, k: TileKey|
                            0 <= i < gone.len() && #[trigger] candidates.contains(k)
                                && !gone.contains(k) implies pre.states[
                            #[trigger] gone[i]
                        ]->last_used <= pre.states[k]->last_used by {
                            assert(!before.contains(k) && k != key);
                            assert(evictable(cur.states, cur.frame).contains(k));
                        }
                    }
                },
                None => {
                    proof {
                        assert forall|k: TileKey| candidates.contains(k) implies gone.contains(
                            k,
                        ) by {
                            if !gone.contains(k) {
                                assert(evictable(cur.states, cur.frame).contains(k));
                            }
                        }
                        assert(candidates =~= gone.to_set());
                    }
                    break;
                },
            }
        }
        proof {
            gone.unique_seq_to_set();
            assert(gone.to_set().subset_of(candidates));
            vstd::set_lib::lemma_len_subset(gone.to_set(), candidates);
            assert(pre.evicts(self@, gone));
        }
    }

    /// Records the outcome of a fetch, then makes room if need be. An answer
    /// to a fetch of another generation is dropped.
    pub fn complete(&mut self, generation: u64, key: TileKey, image: Option<u32>)
        requires
            old(self).wf(),
        ensures
            final(self).wf(),
            generation != old(self)@.generation ==> final(self)@ == old(self)@,
            generation == old(self)@.generation ==> exists|gone: Seq<TileKey>|
                old(self)@.settled(key, image).evicts(final(self)@, gone),
            generation == old(self)@.generation ==> final(self)@.image_of(key) == image,
            generation == old(self)@.generation && resident(old(self)@.states).len()
                < MAX_GPU_TILES ==> forall|other: TileKey|
                other != key ==> #[trigger] final(self)@.image_of(other) == old(self)@.image_of(
                    other,
                ),
    {
        if generation != self.generation {
            return;
        }
        let state: TileState = match image {
            Some(image) => TileState::Ready { image, last_used: self.frame },
            None => TileState::Failed,
        };
        self.put(key, state);
        assert(self@ == old(self)@.settled(key, image));
        let ghost pre = old(self)@;
        let ghost mid = self@;
        self.evict();
        proof {
            let gone = choose|gone: Seq<TileKey>| mid.evicts(self@, gone);
            law_touched_tiles_stay(mid, self@, gone, key);
            assert forall|other: TileKey|
                resident(pre.states).len() < MAX_GPU_TILES && other != key implies #[trigger]
            self@.image_of(other) == pre.image_of(other) by {
                law_completing_keeps_other_tiles(pre, key, image, self@, gone, other);
            }
        }
    }

    /// Forgets every tile and starts a new generation, for a renderer that has
    /// been replaced.
    ///
    /// Image ids belong to the renderer that issued them, so none of them is
    /// released: the ids mean nothing to its successor. Pending tiles are
    /// forgotten too; their answers come back under an old generation and are
    /// dropped, so the next paint asks for what it needs again.
    pub fn reset(&mut self)
        requires
            old(self).wf(),
        ensures
            final(self).wf(),
            final(self)@ == old(self)@.renewed(),
    {
        self.states = HashMap::new();
        self.queue = Vec::new();
        self.released = Vec::new();
        self.generation = self.generation.wrapping_add(1);
        proof {
            assert(self@ =~= old(self)@.renewed());
            assert(self.filed());
            self.lemma_states_finite();
        }
    }

    /// Hands out the queued fetches.
    pub fn take_queue(&mut self) -> (jobs: Vec<FetchJob>)
        requires
            old(self).wf(),
        ensures
            final(self).wf(),
            jobs@ == old(self)@.queue,
            final(self)@ == (TileStore { queue: Seq::empty(), ..old(self)@ }),
    {
        let mut jobs: Vec<FetchJob> = Vec::new();
        std::mem::swap(&mut jobs, &mut self.queue);
        assert(self@ =~= TileStore { queue: Seq::empty(), ..old(self)@ });
        jobs
    }

    /// Hands out the images to free.
    pub fn take_released(&mut self) -> (images: Vec<u32>)
        requires
            old(self).wf(),
        ensures
            final(self).wf(),
            images@ == old(self)@.released,
            final(self)@ == (TileStore { released: Seq::empty(), ..old(self)@ }),
    {
        let mut images: Vec<u32> = Vec::new();
        std::mem::swap(&mut images, &mut self.released);
        assert(self@ =~= TileStore { released: Seq::empty(), ..old(self)@ });
        images
    }
}

} // verus!
