//! Laws of the tile store, over the models that the operations' contracts use.

use crate::frame::Cell;
use crate::tiles::{
    evictable, resident, FetchJob, TileKey, TileState, TileStore, MAX_GPU_TILES,
};
use vstd::prelude::*;

verus! {

/// A tile has an image exactly while it is resident, and it is the one that is
/// resident. The tiles to count against the budget are those with an image, and
/// those that may go are the ones among them that the frame has not touched.
pub proof fn law_only_resident_tiles_have_images(store: TileStore, key: TileKey)
    ensures
        store.image_of(key) is Some <==> store.states.contains_key(key) && store.states[key] is Ready,
        store.image_of(key) matches Some(image) ==> store.states[key]->image == image,
        resident(store.states).contains(key) <==> store.image_of(key) is Some,
        evictable(store.states, store.frame).contains(key) <==> store.image_of(key) is Some
            && store.states[key]->last_used < store.frame,
{
}

/// At the start nothing is known, waiting or given up.
pub proof fn law_start_is_empty(key: TileKey)
    ensures
        !TileStore::empty().states.contains_key(key),
        TileStore::empty().image_of(key) is None,
        TileStore::empty().queue.len() == 0,
        TileStore::empty().released.len() == 0,
        TileStore::empty().frame == 0,
        TileStore::empty().generation == 0,
{
}

/// Asking for a tile changes at most that tile. A resident one keeps its image
/// and is used in the current frame from then on; one that is pending or failed
/// stays so; one not known is pending, with one fetch of the current generation
/// at the end of the queue. Whatever the tile, nothing else of the store
/// changes.
pub proof fn law_asking_changes_one_tile(store: TileStore, key: TileKey, other: TileKey)
    ensures
        ({
            let post = store.ensured(key);
            &&& other != key ==> {
                &&& post.states.contains_key(other) <==> store.states.contains_key(other)
                &&& store.states.contains_key(other) ==> post.states[other] == store.states[other]
            }
            &&& post.states.contains_key(key)
            &&& post.states[key] == (if !store.states.contains_key(key) {
                TileState::Pending
            } else if let TileState::Ready { image, .. } = store.states[key] {
                TileState::Ready { image, last_used: store.frame }
            } else {
                store.states[key]
            })
            &&& store.states.contains_key(key) ==> post.queue == store.queue
            &&& !store.states.contains_key(key) ==> {
                &&& post.queue.len() == store.queue.len() + 1
                &&& post.queue.drop_last() == store.queue
                &&& post.queue.last().key == key
                &&& post.queue.last().generation == store.generation
            }
            &&& post.released == store.released
            &&& post.frame == store.frame
            &&& post.generation == store.generation
        }),
{
    if !store.states.contains_key(key) {
        assert(store.ensured(key).queue.drop_last() =~= store.queue);
    }
}

/// Asking for a tile without a fetch changes at most that tile, and only if it
/// is resident: it keeps its image and is used in the current frame from then
/// on.
pub proof fn law_touching_marks_one_tile(store: TileStore, key: TileKey, other: TileKey)
    ensures
        ({
            let post = store.touched(key);
            &&& post.states.contains_key(other) <==> store.states.contains_key(other)
            &&& store.states.contains_key(other) && (other != key || !(store.states[other] is Ready))
                ==> post.states[other] == store.states[other]
            &&& store.states.contains_key(key) && store.states[key] is Ready ==> post.states[key]
                == (TileState::Ready { image: store.states[key]->image, last_used: store.frame })
            &&& post.queue == store.queue
            &&& post.released == store.released
            &&& post.frame == store.frame
            &&& post.generation == store.generation
        }),
{
}

/// Recording the outcome of a fetch changes no other tile: the store knows
/// another tile exactly if it did before, and in the same state. The tile itself
/// is resident with the image that came, used in the current frame, or failed
/// where none came. Nothing is queued or released.
pub proof fn law_outcome_changes_one_tile(
    store: TileStore,
    key: TileKey,
    image: Option<u32>,
    other: TileKey,
)
    ensures
        ({
            let post = store.settled(key, image);
            &&& other != key ==> {
                &&& post.states.contains_key(other) <==> store.states.contains_key(other)
                &&& store.states.contains_key(other) ==> post.states[other] == store.states[other]
            }
            &&& post.states.contains_key(key)
            &&& match image {
                Some(image) => post.states[key] == (TileState::Ready {
                    image,
                    last_used: store.frame,
                }),
                None => post.states[key] == TileState::Failed,
            }
            &&& post.queue == store.queue
            &&& post.released == store.released
            &&& post.frame == store.frame
            &&& post.generation == store.generation
        }),
{
}

/// An eviction only takes tiles away. Each tile either goes, and then it was
/// resident, not touched by the frame, and its image waits to be freed; or it
/// stays as it was. No tile comes, nothing is queued, and what waits to be freed
/// is what waited before, followed by one image for each tile that went, the
/// least recently used first.
pub proof fn law_eviction_only_takes_away(
    pre: TileStore,
    post: TileStore,
    gone: Seq<TileKey>,
    key: TileKey,
)
    requires
        pre.evicts(post, gone),
    ensures
        post.states.contains_key(key) ==> pre.states.contains_key(key) && post.states[key]
            == pre.states[key],
        gone.contains(key) <==> pre.states.contains_key(key) && !post.states.contains_key(key),
        gone.contains(key) ==> {
            &&& pre.states[key] is Ready
            &&& pre.states[key]->last_used < pre.frame
            &&& post.released.contains(pre.states[key]->image)
        },
        gone.no_duplicates(),
        forall|i: int, j: int|
            0 <= i <= j < gone.len() ==> pre.states[#[trigger] gone[i]]->last_used
                <= pre.states[#[trigger] gone[j]]->last_used,
        post.released.len() == pre.released.len() + gone.len(),
        forall|i: int| 0 <= i < pre.released.len() ==> #[trigger] post.released[i] == pre.released[i],
        forall|i: int|
            0 <= i < gone.len() ==> #[trigger] post.released[pre.released.len() + i]
                == pre.states[gone[i]]->image,
        post.queue == pre.queue,
        post.frame == pre.frame,
        post.generation == pre.generation,
{
    assert(gone.to_set().contains(key) <==> gone.contains(key));
    if gone.contains(key) {
        let i = gone.index_of(key);
        assert(evictable(pre.states, pre.frame).contains(gone[i]));
        assert(post.released[pre.released.len() + i] == pre.states[key]->image);
    }
}

/// An eviction takes no more than it has to: nothing while the resident tiles
/// are within the budget, and else only what is over it.
pub proof fn law_eviction_takes_no_more_than_the_excess(
    pre: TileStore,
    post: TileStore,
    gone: Seq<TileKey>,
)
    requires
        pre.wf(),
        pre.evicts(post, gone),
    ensures
        resident(pre.states).len() <= MAX_GPU_TILES ==> post == pre,
        resident(pre.states).len() > MAX_GPU_TILES ==> resident(post.states).len() >= MAX_GPU_TILES,
        resident(post.states).len() > MAX_GPU_TILES ==> forall|key: TileKey|
            #[trigger] post.states.contains_key(key) && post.states[key] is Ready
                ==> post.states[key]->last_used >= post.frame,
{
    law_budget(pre, post, gone);
    if resident(post.states).len() > MAX_GPU_TILES {
        assert forall|key: TileKey| #[trigger]
            post.states.contains_key(key) && post.states[key] is Ready implies post.states[key]->last_used
            >= post.frame by {
            if post.states[key]->last_used < post.frame {
                assert(evictable(post.states, post.frame).contains(key));
            }
        }
    }
}

/// Completing a fetch costs another tile its place only where there is no room.
/// As long as the resident tiles are within the budget, every other tile keeps
/// its state and nothing is released. Where they are not, another tile that is
/// lost was resident and not in use in this frame, and its image waits to be
/// freed.
pub proof fn law_completing_keeps_other_tiles(
    pre: TileStore,
    key: TileKey,
    image: Option<u32>,
    post: TileStore,
    gone: Seq<TileKey>,
    other: TileKey,
)
    requires
        pre.wf(),
        pre.settled(key, image).evicts(post, gone),
        other != key,
    ensures
        post.states.contains_key(other) ==> pre.states.contains_key(other) && post.states[other]
            == pre.states[other],
        pre.states.contains_key(other) && !post.states.contains_key(other) ==> {
            &&& pre.states[other] is Ready
            &&& pre.states[other]->last_used < pre.frame
            &&& post.released.contains(pre.states[other]->image)
            &&& resident(pre.states).len() >= MAX_GPU_TILES
        },
        resident(pre.states).len() < MAX_GPU_TILES || (image is None && resident(pre.states).len()
            <= MAX_GPU_TILES) || (pre.image_of(key) is Some && resident(pre.states).len()
            <= MAX_GPU_TILES) ==> {
            &&& post.states.contains_key(other) <==> pre.states.contains_key(other)
            &&& post.image_of(other) == pre.image_of(other)
            &&& post.released == pre.released
        },
{
    let mid = pre.settled(key, image);
    law_outcome_changes_one_tile(pre, key, image, other);
    law_eviction_only_takes_away(mid, post, gone, other);
    vstd::set_lib::lemma_set_subset_finite(pre.states.dom(), resident(pre.states));
    let before = resident(pre.states);
    let after = resident(mid.states);
    assert(after =~= if image is Some {
        before.insert(key)
    } else {
        before.remove(key)
    });
    law_eviction_takes_no_more_than_the_excess(mid, post, gone);
}

/// A tile that the current frame has touched is never evicted, and an eviction
/// leaves its state as it was.
pub proof fn law_touched_tiles_stay(
    pre: TileStore,
    post: TileStore,
    gone: Seq<TileKey>,
    key: TileKey,
)
    requires
        pre.evicts(post, gone),
        pre.states.contains_key(key),
        pre.states[key] is Ready ==> pre.states[key]->last_used >= pre.frame,
    ensures
        post.states.contains_key(key),
        post.states[key] == pre.states[key],
{
    assert(!gone.contains(key));
}

/// An eviction takes resident tiles only: one that is pending or failed stays
/// so.
pub proof fn law_only_resident_tiles_go(
    pre: TileStore,
    post: TileStore,
    gone: Seq<TileKey>,
    key: TileKey,
)
    requires
        pre.evicts(post, gone),
        pre.states.contains_key(key),
        !(pre.states[key] is Ready),
    ensures
        post.states.contains_key(key),
        post.states[key] == pre.states[key],
{
    assert(!gone.contains(key));
}

/// An eviction takes the least recently used tiles: none of them was used
/// after a tile that stays resident.
pub proof fn law_least_recently_used_go_first(
    pre: TileStore,
    post: TileStore,
    gone: Seq<TileKey>,
    i: int,
    key: TileKey,
)
    requires
        pre.evicts(post, gone),
        0 <= i < gone.len(),
        resident(post.states).contains(key),
    ensures
        pre.states[gone[i]]->last_used <= post.states[key]->last_used,
{
    assert(!gone.contains(key)) by {
        assert(gone.to_set().contains(key) <==> gone.contains(key));
    }
    assert(evictable(pre.states, pre.frame).contains(gone[i]));
    if pre.states[key]->last_used < pre.frame {
        assert(evictable(pre.states, pre.frame).contains(key));
    }
}

/// After an eviction the resident tiles are within the budget, or every one of
/// them is in use in the current frame.
pub proof fn law_budget(pre: TileStore, post: TileStore, gone: Seq<TileKey>)
    requires
        pre.wf(),
        pre.evicts(post, gone),
    ensures
        resident(post.states).len() <= MAX_GPU_TILES || evictable(post.states, post.frame)
            =~= Set::empty(),
        resident(post.states).len() == resident(pre.states).len() - gone.len(),
        resident(pre.states).len() <= MAX_GPU_TILES ==> post == pre,
{
    let before = resident(pre.states);
    let candidates = evictable(pre.states, pre.frame);
    let taken = gone.to_set();
    vstd::set_lib::lemma_set_subset_finite(pre.states.dom(), before);
    vstd::set_lib::lemma_set_subset_finite(pre.states.dom(), candidates);
    gone.unique_seq_to_set();
    assert forall|k: TileKey| taken.contains(k) implies candidates.contains(k) by {
        let i = gone.index_of(k);
        assert(candidates.contains(gone[i]));
    }
    assert(resident(post.states) =~= before.difference(taken));
    assert(taken.subset_of(before));
    lemma_len_without(before, taken);
    if gone.len() == candidates.len() {
        vstd::set_lib::lemma_subset_equality(taken, candidates);
    }
    if before.len() <= MAX_GPU_TILES {
        assert(gone =~= Seq::empty());
        assert(post.states =~= pre.states);
        assert(post.released =~= pre.released);
        assert(post =~= pre);
    }
}

proof fn lemma_len_without<A>(whole: Set<A>, part: Set<A>)
    requires
        whole.finite(),
        part.subset_of(whole),
    ensures
        whole.difference(part).len() == whole.len() - part.len(),
{
    vstd::set_lib::lemma_set_subset_finite(whole, part);
    vstd::set_lib::lemma_set_disjoint_lens(whole.difference(part), part);
    assert(whole.difference(part) + part =~= whole);
}

/// No image is lost by an eviction: one that was resident still is, or waits
/// to be freed.
pub proof fn law_no_image_lost(pre: TileStore, post: TileStore, gone: Seq<TileKey>, key: TileKey)
    requires
        pre.evicts(post, gone),
        pre.image_of(key) is Some,
    ensures
        post.image_of(key) == pre.image_of(key) || (!post.states.contains_key(key)
            && post.released.contains(pre.image_of(key)->0)),
{
    if gone.contains(key) {
        let i = gone.index_of(key);
        assert(post.released[pre.released.len() + i] == pre.image_of(key)->0);
        assert(gone.to_set().contains(key));
    } else {
        assert(!gone.to_set().contains(key));
    }
}

/// What a fetch delivered can be read back: once the store has taken an image
/// for a tile, asking for the tile gives that image and queues no fetch.
pub proof fn law_delivered_image_is_read_back(
    pre: TileStore,
    post: TileStore,
    gone: Seq<TileKey>,
    key: TileKey,
    image: u32,
)
    requires
        pre.settled(key, Some(image)).evicts(post, gone),
    ensures
        post.image_of(key) == Some(image),
        post.ensured(key).queue == pre.queue,
{
    law_touched_tiles_stay(pre.settled(key, Some(image)), post, gone, key);
}

/// A failed fetch is not repeated: asking for the tile again gives no image
/// and queues no fetch.
pub proof fn law_failed_fetch_is_not_repeated(
    pre: TileStore,
    post: TileStore,
    gone: Seq<TileKey>,
    key: TileKey,
)
    requires
        pre.settled(key, None).evicts(post, gone),
    ensures
        post.image_of(key) is None,
        post.ensured(key) == post,
{
    law_only_resident_tiles_go(pre.settled(key, None), post, gone, key);
}

/// A fetch is queued once: asking for a tile twice changes nothing more than
/// asking once.
pub proof fn law_fetch_is_queued_once(store: TileStore, key: TileKey)
    ensures
        store.ensured(key).ensured(key) == store.ensured(key),
        !store.states.contains_key(key) ==> store.ensured(key).queue == store.queue.push(
            FetchJob { generation: store.generation, key },
        ),
        store.states.contains_key(key) ==> store.ensured(key).queue == store.queue,
{
    assert(store.ensured(key).ensured(key) =~= store.ensured(key));
}

/// Asking for a tile, with or without a fetch, changes neither which tiles are
/// resident nor their images, and touches no other tile.
pub proof fn law_asking_keeps_images(store: TileStore, key: TileKey, other: TileKey)
    ensures
        store.ensured(key).image_of(other) == store.image_of(other),
        store.touched(key).image_of(other) == store.image_of(other),
        store.touched(key).queue == store.queue,
        other != key && store.states.contains_key(other) ==> store.ensured(key).states[other]
            == store.states[other] && store.touched(key).states[other] == store.states[other],
{
}

/// A tile asked for in a frame and resident survives every eviction of that
/// frame, whatever fetches complete meanwhile.
pub proof fn law_tile_in_use_survives(
    store: TileStore,
    key: TileKey,
    arrived: TileKey,
    image: Option<u32>,
    post: TileStore,
    gone: Seq<TileKey>,
)
    requires
        store.image_of(key) is Some,
        arrived != key,
        store.ensured(key).settled(arrived, image).evicts(post, gone),
    ensures
        post.image_of(key) == store.image_of(key),
{
    law_touched_tiles_stay(store.ensured(key).settled(arrived, image), post, gone, key);
}

/// Every fetch in the queue belongs to the current generation.
pub open spec fn queue_current(store: TileStore) -> bool {
    forall|i: int|
        0 <= i < store.queue.len() ==> (#[trigger] store.queue[i]).generation == store.generation
}

/// The queue holds fetches of the current generation only, whatever the store
/// is asked and told: asked for a tile, told of a fetch's outcome, painted from,
/// moved on to another frame, drained, or started over. So the answer to a
/// queued fetch is void only after a later reset.
pub proof fn law_queue_is_current(
    store: TileStore,
    key: TileKey,
    image: Option<u32>,
    z: u8,
    cells: Seq<Cell>,
    frame: u64,
)
    requires
        queue_current(store),
    ensures
        queue_current(TileStore::empty()),
        queue_current(store.ensured(key)),
        queue_current(store.touched(key)),
        queue_current(store.settled(key, image)),
        queue_current(store.renewed()),
        queue_current(store.painted(z, cells)),
        queue_current(TileStore { frame, ..store }),
        queue_current(TileStore { queue: Seq::empty(), ..store }),
        queue_current(TileStore { released: Seq::empty(), ..store }),
        forall|post: TileStore, gone: Seq<TileKey>| #[trigger]
            store.evicts(post, gone) ==> queue_current(post),
{
}

/// A new generation forgets everything: no tile is resident, every tile asked
/// for is fetched again, and the answer to a fetch asked for before is void,
/// since its generation is not the new one.
pub proof fn law_reset_forgets(store: TileStore, key: TileKey)
    ensures
        !store.renewed().states.contains_key(key),
        store.renewed().image_of(key) is None,
        store.renewed().queue.len() == 0,
        store.renewed().released.len() == 0,
        store.renewed().frame == store.frame,
        store.generation < u64::MAX ==> store.renewed().generation == store.generation + 1,
        store.renewed().ensured(key).queue == seq![
            FetchJob { generation: store.renewed().generation, key },
        ],
        store.renewed().generation != store.generation,
        queue_current(store) ==> forall|i: int|
            0 <= i < store.queue.len() ==> (#[trigger] store.queue[i]).generation
                != store.renewed().generation,
{
    assert(store.renewed().ensured(key).queue =~= seq![
        FetchJob { generation: store.renewed().generation, key },
    ]);
}

} // verus!
