use cce_map::frame::{
    fallback, paint, paint_window, pick_tile_zoom, tile_at_cell, visible_cells, Cell, Draw, Fallback,
    TILE_BUDGET,
};
use cce_map::tiles::{TileKey, TileManager, MAX_GPU_TILES};

fn fits_up_to(z: usize) -> Vec<bool> {
    (0..20).map(|i| i <= z).collect()
}

#[test]
fn tile_zoom_backs_off_until_it_fits() {
    assert_eq!(pick_tile_zoom(12, &fits_up_to(19)), 12);
    assert_eq!(pick_tile_zoom(12, &fits_up_to(9)), 9);
    assert_eq!(pick_tile_zoom(-3, &fits_up_to(19)), 0);
    assert_eq!(pick_tile_zoom(40, &fits_up_to(19)), 19);
    assert_eq!(pick_tile_zoom(5, &vec![false; 20]), 0);
}

#[test]
fn columns_wrap_around_the_world() {
    let at = |tx| tile_at_cell(3, Cell { tx, ty: 2 });
    assert_eq!(at(0), TileKey { z: 3, x: 0, y: 2 });
    assert_eq!(at(8), at(0));
    assert_eq!(at(-1), TileKey { z: 3, x: 7, y: 2 });
    assert_eq!(at(-9), at(-1));
    assert_eq!(at(i64::MIN), TileKey { z: 3, x: 0, y: 2 });
}

#[test]
fn windows_are_listed_row_by_row_between_the_poles() {
    let cells = visible_cells(1, -1, 1, -5, 9);
    let expected: Vec<Cell> = [(-1, 0), (0, 0), (1, 0), (-1, 1), (0, 1), (1, 1)]
        .iter()
        .map(|&(tx, ty)| Cell { tx, ty })
        .collect();
    assert_eq!(cells, expected);
    assert!(visible_cells(1, 1, 0, 0, 1).is_empty());
    assert!(visible_cells(1, 0, 1, 2, 5).is_empty());
    assert!(visible_cells(1, 0, 1, -5, -1).is_empty());
    assert_eq!(visible_cells(1, i64::MAX, i64::MAX, 0, 0), vec![Cell { tx: i64::MAX, ty: 0 }]);
}

#[test]
fn a_loading_tile_is_a_checkerboard_square() {
    let mut tiles = TileManager::new();
    tiles.begin_frame();
    let draws = paint_window(&mut tiles, 4, -1, 0, 3, 3);
    assert_eq!(
        draws,
        vec![
            Draw::Placeholder { cell: Cell { tx: -1, ty: 3 }, shade: 10, fallback: None },
            Draw::Placeholder { cell: Cell { tx: 0, ty: 3 }, shade: 12, fallback: None },
        ]
    );
    let keys: Vec<TileKey> = tiles.take_queue().iter().map(|job| job.key).collect();
    assert_eq!(keys, vec![TileKey { z: 4, x: 15, y: 3 }, TileKey { z: 4, x: 0, y: 3 }]);
}

#[test]
fn a_resident_tile_is_drawn_itself() {
    let mut tiles = TileManager::new();
    tiles.complete(0, TileKey { z: 1, x: 1, y: 0 }, Some(5));
    let draws = paint(&mut tiles, 1, &vec![Cell { tx: -1, ty: 0 }, Cell { tx: 3, ty: 0 }]);
    assert_eq!(
        draws,
        vec![
            Draw::Tile { cell: Cell { tx: -1, ty: 0 }, image: 5 },
            Draw::Tile { cell: Cell { tx: 3, ty: 0 }, image: 5 },
        ]
    );
    assert!(tiles.take_queue().is_empty());
}

#[test]
fn the_nearest_resident_ancestor_stands_in() {
    let mut tiles = TileManager::new();
    tiles.complete(0, TileKey { z: 3, x: 7, y: 1 }, Some(30));
    tiles.complete(0, TileKey { z: 2, x: 3, y: 0 }, Some(20));
    // Column -1 of zoom 5 wraps to column 31, under column 7 of zoom 3.
    let cell = Cell { tx: -1, ty: 6 };
    assert_eq!(
        fallback(&mut tiles, 5, cell),
        Some(Fallback { depth: 2, cell: Cell { tx: -1, ty: 1 }, image: 30 })
    );
    let draws = paint(&mut tiles, 5, &vec![cell]);
    assert_eq!(
        draws,
        vec![Draw::Placeholder {
            cell,
            shade: 12,
            fallback: Some(Fallback { depth: 2, cell: Cell { tx: -1, ty: 1 }, image: 30 }),
        }]
    );
}

#[test]
fn the_top_of_the_pyramid_stands_in_at_every_zoom() {
    let mut tiles = TileManager::new();
    let top = TileKey { z: 0, x: 0, y: 0 };
    let cell = Cell { tx: 0, ty: 0 };
    assert_eq!(fallback(&mut tiles, 19, cell), None);
    tiles.complete(0, top, Some(1));
    assert_eq!(fallback(&mut tiles, 0, cell), None);
    for depth in 1..=19u8 {
        assert_eq!(fallback(&mut tiles, depth, cell), Some(Fallback { depth, cell, image: 1 }));
    }
    let last = Cell { tx: (1 << 19) - 1, ty: (1 << 19) - 1 };
    assert_eq!(fallback(&mut tiles, 19, last), Some(Fallback { depth: 19, cell, image: 1 }));
    assert!(tiles.take_queue().is_empty());
}

#[test]
fn a_distant_ancestor_stands_in_for_every_tile_of_a_window() {
    let mut tiles = TileManager::new();
    tiles.complete(0, TileKey { z: 0, x: 0, y: 0 }, Some(7));
    let draws = paint_window(&mut tiles, 8, 127, 128, 127, 128);
    let stand_in = Some(Fallback { depth: 8, cell: Cell { tx: 0, ty: 0 }, image: 7 });
    let expected: Vec<Draw> = [(127, 127, 10), (128, 127, 12), (127, 128, 12), (128, 128, 10)]
        .iter()
        .map(|&(tx, ty, shade)| Draw::Placeholder { cell: Cell { tx, ty }, shade, fallback: stand_in })
        .collect();
    assert_eq!(draws, expected);
    assert_eq!(tiles.take_queue().len(), 4);
}

#[test]
fn repeated_worlds_queue_each_tile_once() {
    let mut tiles = TileManager::new();
    let draws = paint_window(&mut tiles, 1, -4, 3, 0, 1);
    assert_eq!(draws.len(), 16);
    assert_eq!(tiles.take_queue().len(), 4);
    let again = paint_window(&mut tiles, 1, -4, 3, 0, 1);
    assert_eq!(again, draws);
    assert!(tiles.take_queue().is_empty());
}

#[test]
fn a_frame_within_budget_needs_fewer_tiles_than_are_kept() {
    assert!((TILE_BUDGET as usize) < MAX_GPU_TILES);
    let mut tiles = TileManager::new();
    assert_eq!(paint_window(&mut tiles, 5, 0, 15, 0, 9).len(), TILE_BUDGET as usize);
    assert_eq!(tiles.take_queue().len(), TILE_BUDGET as usize);
}

#[test]
fn a_stand_in_is_kept_while_it_is_drawn() {
    let mut tiles = TileManager::new();
    tiles.complete(0, TileKey { z: 0, x: 0, y: 0 }, Some(9999));
    for x in 0..179u32 {
        tiles.complete(0, TileKey { z: 12, x, y: 0 }, Some(x));
    }
    tiles.begin_frame();
    paint_window(&mut tiles, 3, 0, 0, 0, 0);
    tiles.complete(0, TileKey { z: 12, x: 200, y: 0 }, Some(200));
    let released = tiles.take_released();
    assert_eq!(released.len(), 1);
    assert_ne!(released, vec![9999]);
}
