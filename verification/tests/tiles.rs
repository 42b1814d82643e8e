use cce_map::tiles::{FetchJob, TileKey, TileManager, MAX_GPU_TILES};

fn key(x: u32) -> TileKey {
    TileKey { z: 10, x, y: 3 }
}

fn deliver(tiles: &mut TileManager, x: u32, image: u32) {
    let generation = tiles.generation();
    tiles.complete(generation, key(x), Some(image));
}

#[test]
fn an_unknown_tile_is_queued_once() {
    let mut tiles = TileManager::new();
    assert_eq!(tiles.ensure(key(1)), None);
    assert_eq!(tiles.ensure(key(1)), None);
    assert_eq!(tiles.ensure(key(2)), None);
    let jobs = tiles.take_queue();
    assert_eq!(jobs, vec![FetchJob { generation: 0, key: key(1) }, FetchJob { generation: 0, key: key(2) }]);
    assert_eq!(tiles.ensure(key(1)), None);
    assert!(tiles.take_queue().is_empty());
}

#[test]
fn keys_differ_in_every_field() {
    let mut tiles = TileManager::new();
    let keys = [
        TileKey { z: 0, x: 0, y: 0 },
        TileKey { z: 1, x: 0, y: 0 },
        TileKey { z: 0, x: 1, y: 0 },
        TileKey { z: 0, x: 0, y: 1 },
        TileKey { z: 0, x: u32::MAX, y: 0 },
        TileKey { z: u8::MAX, x: u32::MAX, y: u32::MAX },
    ];
    for (image, k) in keys.iter().enumerate() {
        tiles.complete(0, *k, Some(image as u32));
    }
    for (image, k) in keys.iter().enumerate() {
        assert_eq!(tiles.ready(*k), Some(image as u32));
    }
}

#[test]
fn ready_never_queues() {
    let mut tiles = TileManager::new();
    assert_eq!(tiles.ready(key(1)), None);
    assert!(tiles.take_queue().is_empty());
    assert_eq!(tiles.ensure(key(1)), None);
    assert_eq!(tiles.take_queue().len(), 1);
}

#[test]
fn a_delivered_image_is_read_back() {
    let mut tiles = TileManager::new();
    assert_eq!(tiles.ensure(key(1)), None);
    deliver(&mut tiles, 1, 77);
    assert_eq!(tiles.ensure(key(1)), Some(77));
    assert_eq!(tiles.ready(key(1)), Some(77));
    assert_eq!(tiles.take_queue().len(), 1);
}

#[test]
fn a_failed_fetch_is_not_repeated() {
    let mut tiles = TileManager::new();
    assert_eq!(tiles.ensure(key(1)), None);
    tiles.take_queue();
    tiles.complete(0, key(1), None);
    assert_eq!(tiles.ensure(key(1)), None);
    assert_eq!(tiles.ready(key(1)), None);
    assert!(tiles.take_queue().is_empty());
}

#[test]
fn frames_count_up() {
    let mut tiles = TileManager::new();
    assert_eq!(tiles.frame(), 0);
    tiles.begin_frame();
    tiles.begin_frame();
    assert_eq!(tiles.frame(), 2);
}

#[test]
fn within_budget_nothing_is_released() {
    let mut tiles = TileManager::new();
    for x in 0..MAX_GPU_TILES as u32 {
        tiles.begin_frame();
        deliver(&mut tiles, x, 1000 + x);
    }
    assert!(tiles.take_released().is_empty());
    assert_eq!(tiles.ready(key(0)), Some(1000));
}

#[test]
fn the_least_recently_used_tile_goes_first() {
    let mut tiles = TileManager::new();
    for x in 0..180u32 {
        tiles.begin_frame();
        deliver(&mut tiles, x, 1000 + x);
    }
    tiles.begin_frame();
    assert_eq!(tiles.ensure(key(0)), Some(1000));
    deliver(&mut tiles, 500, 1);
    assert_eq!(tiles.take_released(), vec![1001]);
    assert_eq!(tiles.ready(key(1)), None);
    assert_eq!(tiles.ready(key(0)), Some(1000));
    assert_eq!(tiles.ready(key(500)), Some(1));
    // An evicted tile is fetched anew when asked for.
    assert_eq!(tiles.ensure(key(1)), None);
    assert_eq!(tiles.take_queue(), vec![FetchJob { generation: 0, key: key(1) }]);
}

#[test]
fn tiles_of_the_current_frame_stay_over_budget() {
    let mut tiles = TileManager::new();
    tiles.begin_frame();
    for x in 0..200u32 {
        deliver(&mut tiles, x, x);
    }
    assert!(tiles.take_released().is_empty());
    assert_eq!(tiles.ready(key(0)), Some(0));
    // Only tile 7 is in use in the next frame; the excess goes at once.
    tiles.begin_frame();
    assert_eq!(tiles.ensure(key(7)), Some(7));
    deliver(&mut tiles, 200, 200);
    let released = tiles.take_released();
    assert_eq!(released.len(), 21);
    assert!(!released.contains(&7));
    assert!(!released.contains(&200));
    let left = (0..=200u32).filter(|x| tiles.ready(key(*x)).is_some()).count();
    assert_eq!(left, 180);
}

#[test]
fn pending_and_failed_tiles_do_not_count() {
    let mut tiles = TileManager::new();
    for x in 0..180u32 {
        deliver(&mut tiles, x, x);
    }
    for x in 1000..1100u32 {
        tiles.ensure(key(x));
    }
    tiles.begin_frame();
    for x in 1000..1050u32 {
        tiles.complete(0, key(x), None);
    }
    assert!(tiles.take_released().is_empty());
}

#[test]
fn reset_forgets_and_voids_answers_under_way() {
    let mut tiles = TileManager::new();
    tiles.begin_frame();
    deliver(&mut tiles, 1, 11);
    tiles.ensure(key(2));
    tiles.reset();
    assert_eq!(tiles.generation(), 1);
    assert_eq!(tiles.frame(), 1);
    assert!(tiles.take_released().is_empty());
    assert!(tiles.take_queue().is_empty());
    tiles.complete(0, key(2), Some(22));
    assert_eq!(tiles.ready(key(2)), None);
    assert_eq!(tiles.ensure(key(1)), None);
    assert_eq!(tiles.ensure(key(2)), None);
    assert_eq!(
        tiles.take_queue(),
        vec![FetchJob { generation: 1, key: key(1) }, FetchJob { generation: 1, key: key(2) }]
    );
    tiles.complete(1, key(2), Some(23));
    assert_eq!(tiles.ready(key(2)), Some(23));
}
