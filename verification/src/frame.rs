//! What one frame paints: the tile zoom, the tiles in the window, and for each
//! of them its image or a stand-in.

use crate::tiles::{FetchJob, TileKey, TileManager, TileState, TileStore, MAX_GPU_TILES, MAX_ZOOM};
use vstd::arithmetic::power2::pow2;
use vstd::prelude::*;

verus! {

/// Tiles that a window may need at a tile zoom before a coarser one is
/// preferred.
pub const TILE_BUDGET: u32 = 160;

/// Grey level, in percent, of the dark squares of the placeholder
/// checkerboard.
pub const EVEN_SHADE: u8 = 10;

/// Grey level, in percent, of its light squares.
pub const ODD_SHADE: u8 = 12;

/// A place in the unbounded tile grid: columns go on past the antimeridian,
/// where the world repeats.
#[derive(Debug, Clone, Copy, PartialEq, Eq, Structural)]
pub struct Cell {
    pub tx: i64,
    pub ty: i64,
}

/// The zoom nearest to `wanted` that exists.
pub open spec fn clamped_zoom(wanted: int) -> int {
    if wanted < 0 {
        0
    } else if wanted > MAX_ZOOM {
        MAX_ZOOM as int
    } else {
        wanted
    }
}

/// Picks the tile zoom: the finest one that is no finer than wanted and whose
/// tiles fit the budget, or zoom 0 where none does. `fits[z]` says whether the
/// window's tiles at zoom `z` fit.
pub fn pick_tile_zoom(wanted: i32, fits: &Vec<bool>) -> (z: u8)
    requires
        fits@.len() == MAX_ZOOM + 1,
    ensures
        z <= clamped_zoom(wanted as int),
        z == 0 || fits@[z as int],
        forall|finer: int| z < finer <= clamped_zoom(wanted as int) ==> !fits@[finer],
        z <= MAX_ZOOM,
        z == 0 || z <= wanted,
        forall|finer: int| z < finer <= MAX_ZOOM && finer <= wanted ==> !fits@[finer],
{
    let mut z: u8 = if wanted < 0 {
        0
    } else if wanted > MAX_ZOOM as i32 {
        MAX_ZOOM
    } else {
        wanted as u8
    };
    while z > 0 && !fits[z as usize]
        invariant
            fits@.len() == MAX_ZOOM + 1,
            z <= clamped_zoom(wanted as int) <= MAX_ZOOM,
            forall|finer: int| z < finer <= clamped_zoom(wanted as int) ==> !fits@[finer],
        decreases z,
    {
        z -= 1;
    }
    z
}

/// The zoom taken exists, and is the nearest that does to the wanted one: it
/// lies between the wanted one and any other that exists. So a wanted zoom that
/// exists is taken as it is.
pub proof fn law_clamped_zoom_is_nearest(wanted: int, other: int)
    requires
        0 <= other <= MAX_ZOOM,
    ensures
        0 <= clamped_zoom(wanted) <= MAX_ZOOM,
        other <= clamped_zoom(wanted) <= wanted || wanted <= clamped_zoom(wanted) <= other,
        clamped_zoom(other) == other,
{
}

/// A wanted zoom whose tiles fit is the one picked. Where they do not, the one
/// picked is the finest below it that fits, and where none fits, zoom 0.
pub proof fn law_wanted_zoom_is_picked(wanted: int, fits: Seq<bool>, z: int)
    requires
        fits.len() == MAX_ZOOM + 1,
        0 <= z <= clamped_zoom(wanted),
        z == 0 || fits[z],
        forall|finer: int| z < finer <= clamped_zoom(wanted) ==> !fits[finer],
    ensures
        0 <= wanted <= MAX_ZOOM && fits[wanted] ==> z == wanted,
        wanted > MAX_ZOOM && fits[MAX_ZOOM as int] ==> z == MAX_ZOOM,
        wanted <= 0 ==> z == 0,
        forall|other: int|
            0 <= other <= MAX_ZOOM && other <= wanted && #[trigger] fits[other] ==> other <= z,
        z > 0 ==> z <= wanted && fits[z],
{
    law_clamped_zoom_is_nearest(wanted, z);
}

proof fn lemma_side(z: u8)
    requires
        z <= MAX_ZOOM,
    ensures
        1 <= pow2(z as nat) <= 0x8_0000,
        (1u64 << (z as u64)) == pow2(z as nat),
{
    vstd::arithmetic::power2::lemma2_to64();
    vstd::arithmetic::power2::lemma_pow2_pos(z as nat);
    if z < 19 {
        vstd::arithmetic::power2::lemma_pow2_strictly_increases(z as nat, 19);
    }
    vstd::bits::lemma_u64_shl_is_mul(1, z as u64);
}

/// How many tiles lie side by side around the world at zoom `z`.
fn side(z: u8) -> (n: i64)
    requires
        z <= MAX_ZOOM,
    ensures
        n == pow2(z as nat),
        1 <= n <= 0x8_0000,
{
    proof {
        lemma_side(z);
    }
    (1u64 << (z as u64)) as i64
}

/// The tile at a place of the grid: columns wrap around the world.
pub open spec fn tile_at(z: u8, cell: Cell) -> TileKey {
    TileKey { z, x: (cell.tx as int % pow2(z as nat) as int) as u32, y: cell.ty as u32 }
}

/// The place lies between the poles.
pub open spec fn in_world(z: u8, cell: Cell) -> bool {
    0 <= cell.ty < pow2(z as nat)
}

/// Computes the tile at a place of the grid.
pub fn tile_at_cell(z: u8, cell: Cell) -> (key: TileKey)
    requires
        z <= MAX_ZOOM,
        in_world(z, cell),
    ensures
        key == tile_at(z, cell),
{
    let n: i64 = side(z);
    let x: i64 = cell.tx.checked_rem_euclid(n).unwrap();
    TileKey { z, x: x as u32, y: cell.ty as u32 }
}

/// The places of a window of columns `tx0..=tx1` and rows `ty0..=ty1`, row by
/// row.
pub open spec fn grid(tx0: int, tx1: int, ty0: int, ty1: int) -> Seq<Cell> {
    let width = if tx0 <= tx1 {
        tx1 - tx0 + 1
    } else {
        0
    };
    let height = if ty0 <= ty1 {
        ty1 - ty0 + 1
    } else {
        0
    };
    Seq::new(
        (width * height) as nat,
        |i: int| Cell { tx: (tx0 + i % width) as i64, ty: (ty0 + i / width) as i64 },
    )
}

/// The places of a window that lie between the poles, at zoom `z`.
pub open spec fn visible(z: u8, tx0: int, tx1: int, ty0: int, ty1: int) -> Seq<Cell> {
    let n = pow2(z as nat) as int;
    grid(
        tx0,
        tx1,
        if ty0 < 0 {
            0
        } else {
            ty0
        },
        if ty1 >= n {
            n - 1
        } else {
            ty1
        },
    )
}

/// A window holds the places in its columns and rows that lie between the
/// poles, every one of them, and lists them row by row: each further down than
/// the one before, or further right in the same row, so none twice.
#[verifier::spinoff_prover]
#[verifier::rlimit(40)]
pub proof fn law_window_holds_its_places(z: u8, tx0: i64, tx1: i64, ty0: i64, ty1: i64)
    requires
        z <= MAX_ZOOM,
    ensures
        forall|cell: Cell| #[trigger]
            visible(z, tx0 as int, tx1 as int, ty0 as int, ty1 as int).contains(cell) <==> tx0
                <= cell.tx <= tx1 && ty0 <= cell.ty <= ty1 && 0 <= cell.ty < pow2(z as nat),
        forall|i: int, j: int|
            #![trigger visible(z, tx0 as int, tx1 as int, ty0 as int, ty1 as int)[i], visible(
                z,
                tx0 as int,
                tx1 as int,
                ty0 as int,
                ty1 as int,
            )[j]]
            {
                let cells = visible(z, tx0 as int, tx1 as int, ty0 as int, ty1 as int);
                0 <= i < j < cells.len() ==> cells[i].ty < cells[j].ty || (cells[i].ty
                    == cells[j].ty && cells[i].tx < cells[j].tx)
            },
{
    lemma_side(z);
    let n = pow2(z as nat) as int;
    let top = if ty0 < 0 {
        0
    } else {
        ty0 as int
    };
    let bottom = if ty1 >= n {
        n - 1
    } else {
        ty1 as int
    };
    let (left, right) = (tx0 as int, tx1 as int);
    let cells = visible(z, left, right, ty0 as int, ty1 as int);
    assert(cells == grid(left, right, top, bottom));
    if left <= right && top <= bottom {
        let width = right - left + 1;
        let height = bottom - top + 1;
        assert(cells.len() == width * height) by {
            assert(width * height >= 0) by (nonlinear_arith)
                requires
                    width > 0,
                    height > 0,
            ;
        }
        assert forall|i: int| 0 <= i < cells.len() implies {
            &&& cells[i].tx == left + i % width
            &&& cells[i].ty == top + i / width
            &&& 0 <= i % width < width
            &&& 0 <= i / width < height
            &&& i == width * (i / width) + i % width
        } by {
            vstd::arithmetic::div_mod::lemma_fundamental_div_mod(i, width);
            assert(0 <= i % width < width && 0 <= i / width < height) by (nonlinear_arith)
                requires
                    0 <= i < width * height,
                    width > 0,
            ;
        }
        assert forall|cell: Cell|
            left <= cell.tx <= right && top <= cell.ty <= bottom implies cells.contains(cell) by {
            let row = cell.ty - top;
            let column = cell.tx - left;
            let i = row * width + column;
            vstd::arithmetic::div_mod::lemma_fundamental_div_mod_converse(i, width, row, column);
            assert(0 <= i < width * height) by (nonlinear_arith)
                requires
                    i == row * width + column,
                    0 <= row < height,
                    0 <= column < width,
            ;
            assert(cells[i] == cell);
        }
        assert forall|i: int, j: int| 0 <= i < j < cells.len() implies cells[i].ty < cells[j].ty
            || (cells[i].ty == cells[j].ty && cells[i].tx < cells[j].tx) by {
            let (p, q) = (i / width, j / width);
            if p > q {
                assert(width * p >= width * q + width) by (nonlinear_arith)
                    requires
                        p >= q + 1,
                        width > 0,
                ;
            }
        }
    } else {
        assert(cells.len() == 0);
    }
}

/// Lists the places of a window that lie between the poles.
#[verifier::spinoff_prover]
#[verifier::rlimit(40)]
pub fn visible_cells(z: u8, tx0: i64, tx1: i64, ty0: i64, ty1: i64) -> (cells: Vec<Cell>)
    requires
        z <= MAX_ZOOM,
    ensures
        cells@ == visible(z, tx0 as int, tx1 as int, ty0 as int, ty1 as int),
        forall|i: int| 0 <= i < cells@.len() ==> in_world(z, #[trigger] cells@[i]),
        forall|cell: Cell| #[trigger]
            cells@.contains(cell) <==> tx0 <= cell.tx <= tx1 && ty0 <= cell.ty <= ty1 && 0
                <= cell.ty < pow2(z as nat),
{
    let n: i64 = side(z);
    let top: i128 = if ty0 < 0 {
        0
    } else {
        ty0 as i128
    };
    let bottom: i128 = if ty1 >= n {
        n as i128 - 1
    } else {
        ty1 as i128
    };
    let left: i128 = tx0 as i128;
    let right: i128 = tx1 as i128;
    let ghost all = grid(left as int, right as int, top as int, bottom as int);
    let ghost width: int = if left <= right {
        right - left + 1
    } else {
        0
    };
    let mut cells: Vec<Cell> = Vec::new();
    let mut ty: i128 = top;
    while ty <= bottom
        invariant
            tx0 == left <= i64::MAX,
            tx1 == right <= i64::MAX,
            0 <= top <= ty <= i64::MAX + 1,
            bottom < n <= 0x8_0000,
            n == pow2(z as nat),
            if top <= bottom {
                ty <= bottom + 1
            } else {
                ty == top
            },
            all == grid(left as int, right as int, top as int, bottom as int),
            width == (if left <= right {
                right - left + 1
            } else {
                0
            }),
            cells@.len() == (ty - top) * width,
            cells@ =~= all.take(cells@.len() as int),
            cells@.len() <= all.len(),
            forall|i: int| 0 <= i < cells@.len() ==> in_world(z, #[trigger] cells@[i]),
        decreases bottom + 1 - ty,
    {
        let mut tx: i128 = left;
        let ghost row = ty - top;
        proof {
            assert(all.len() == width * (bottom - top + 1));
            assert((row + 1) * width == row * width + width) by (nonlinear_arith);
            assert((row + 1) * width <= width * (bottom - top + 1)) by (nonlinear_arith)
                requires
                    row + 1 <= bottom - top + 1,
                    width >= 0,
            ;
        }
        while tx <= right
            invariant
                tx0 == left <= i64::MAX,
                tx1 == right <= i64::MAX,
                left <= tx,
                if left <= right {
                    tx <= right + 1
                } else {
                    tx == left
                },
                0 <= top <= ty <= bottom < n <= 0x8_0000,
                n == pow2(z as nat),
                row == ty - top,
                all == grid(left as int, right as int, top as int, bottom as int),
                width == (if left <= right {
                    right - left + 1
                } else {
                    0
                }),
                cells@.len() == row * width + (tx - left),
                row * width + width <= all.len(),
                cells@ =~= all.take(cells@.len() as int),
                forall|i: int| 0 <= i < cells@.len() ==> in_world(z, #[trigger] cells@[i]),
            decreases right + 1 - tx,
        {
            let cell: Cell = Cell { tx: tx as i64, ty: ty as i64 };
            proof {
                let i = cells@.len() as int;
                vstd::arithmetic::div_mod::lemma_fundamental_div_mod_converse(
                    i,
                    width,
                    row as int,
                    tx - left,
                );
                assert(all[i] == cell);
            }
            cells.push(cell);
            tx += 1;
        }
        assert(cells@.len() == row * width + width);
        ty += 1;
    }
    proof {
        assert((ty - top) * width == width * (ty - top)) by (nonlinear_arith);
        assert(all.len() == cells@.len());
    }
    assert(cells@ =~= all);
    proof {
        let places = visible(z, tx0 as int, tx1 as int, ty0 as int, ty1 as int);
        assert(cells@ == places);
        law_window_holds_its_places(z, tx0, tx1, ty0, ty1);
        assert forall|cell: Cell| #[trigger]
            cells@.contains(cell) <==> tx0 <= cell.tx <= tx1 && ty0 <= cell.ty <= ty1 && 0
                <= cell.ty < pow2(z as nat) by {
            assert(places.contains(cell) <==> cells@.contains(cell));
        }
    }
    cells
}

/// The place that covers `cell`, `depth` levels up.
pub open spec fn cell_above(cell: Cell, depth: nat) -> Cell {
    Cell {
        tx: (cell.tx as int / pow2(depth) as int) as i64,
        ty: (cell.ty as int / pow2(depth) as int) as i64,
    }
}

/// The tile that covers `cell` of zoom `z`, `depth` levels up.
pub open spec fn ancestor_at(z: u8, cell: Cell, depth: nat) -> TileKey {
    tile_at((z - depth) as u8, cell_above(cell, depth))
}

proof fn lemma_above_in_world(z: u8, cell: Cell, depth: nat)
    requires
        z <= MAX_ZOOM,
        in_world(z, cell),
        depth <= z,
    ensures
        1 <= pow2(depth),
        cell_above(cell, depth).tx == cell.tx as int / pow2(depth) as int,
        cell_above(cell, depth).ty == cell.ty as int / pow2(depth) as int,
        in_world((z - depth) as u8, cell_above(cell, depth)),
{
    let f = pow2(depth) as int;
    let m = pow2((z - depth) as nat) as int;
    vstd::arithmetic::power2::lemma_pow2_pos(depth);
    vstd::arithmetic::power2::lemma_pow2_adds(depth, (z - depth) as nat);
    let tx = cell.tx as int;
    let ty = cell.ty as int;
    assert(i64::MIN <= tx / f <= i64::MAX) by (nonlinear_arith)
        requires
            i64::MIN <= tx <= i64::MAX,
            f >= 1,
    ;
    assert(0 <= ty / f < m) by (nonlinear_arith)
        requires
            0 <= ty < f * m,
            f >= 1,
    ;
}

/// Steps from a place to the one that covers it, `depth` levels up.
fn step_above(cell: Cell, depth: u8) -> (above: Cell)
    requires
        depth <= MAX_ZOOM,
    ensures
        above == cell_above(cell, depth as nat),
{
    let f: i64 = side(depth);
    let ghost g = f as int;
    assert(i64::MIN <= cell.tx as int / g <= i64::MAX) by (nonlinear_arith)
        requires
            i64::MIN <= cell.tx <= i64::MAX,
            g >= 1,
    ;
    assert(i64::MIN <= cell.ty as int / g <= i64::MAX) by (nonlinear_arith)
        requires
            i64::MIN <= cell.ty <= i64::MAX,
            g >= 1,
    ;
    let tx: i64 = cell.tx.checked_div_euclid(f).unwrap();
    let ty: i64 = cell.ty.checked_div_euclid(f).unwrap();
    Cell { tx, ty }
}

/// A resident ancestor drawn in place of a loading tile: how many levels up it
/// lies, its place at its own level, and its image.
#[derive(Debug, Clone, Copy, PartialEq, Eq, Structural)]
pub struct Fallback {
    pub depth: u8,
    pub cell: Cell,
    pub image: u32,
}

/// How one place of the grid is painted.
#[derive(Debug, Clone, Copy, PartialEq, Eq, Structural)]
pub enum Draw {
    /// The tile's own image.
    Tile { cell: Cell, image: u32 },
    /// A checkerboard square, overdrawn by an ancestor where one is resident.
    Placeholder { cell: Cell, shade: u8, fallback: Option<Fallback> },
}

/// Painting `cells` asks for the tile `key`.
pub open spec fn asks_for(z: u8, cells: Seq<Cell>, key: TileKey) -> bool {
    exists|i: int| 0 <= i < cells.len() && #[trigger] tile_at(z, cells[i]) == key
}

/// Checkerboard shade of a place.
pub open spec fn shade_of(cell: Cell) -> u8 {
    if (cell.tx + cell.ty) % 2 == 0 {
        EVEN_SHADE
    } else {
        ODD_SHADE
    }
}

/// Computes the checkerboard shade of a place.
fn shade(cell: Cell) -> (shade: u8)
    ensures
        shade == shade_of(cell),
{
    let a: i64 = cell.tx.checked_rem_euclid(2).unwrap();
    let b: i64 = cell.ty.checked_rem_euclid(2).unwrap();
    if a == b {
        EVEN_SHADE
    } else {
        ODD_SHADE
    }
}

impl TileStore {
    /// The depth, from `depth` on, of the nearest resident ancestor of `cell`.
    pub open spec fn nearest_from(self, z: u8, cell: Cell, depth: nat) -> Option<nat>
        decreases z + 1 - depth,
    {
        if depth > z {
            None
        } else if self.image_of(ancestor_at(z, cell, depth)) is Some {
            Some(depth)
        } else {
            self.nearest_from(z, cell, depth + 1)
        }
    }

    /// What stands in for `cell` while its tile loads: its nearest resident
    /// ancestor.
    pub open spec fn fallback_of(self, z: u8, cell: Cell) -> Option<Fallback> {
        match self.nearest_from(z, cell, 1) {
            Some(depth) => Some(
                Fallback {
                    depth: depth as u8,
                    cell: cell_above(cell, depth),
                    image: self.image_of(ancestor_at(z, cell, depth))->0,
                },
            ),
            None => None,
        }
    }

    /// How `cell` is painted.
    pub open spec fn draw_of(self, z: u8, cell: Cell) -> Draw {
        match self.image_of(tile_at(z, cell)) {
            Some(image) => Draw::Tile { cell, image },
            None => Draw::Placeholder {
                cell,
                shade: shade_of(cell),
                fallback: self.fallback_of(z, cell),
            },
        }
    }

    /// The resident tile whose image painting `cell` shows.
    pub open spec fn shown_by(self, z: u8, cell: Cell) -> Option<TileKey> {
        if self.image_of(tile_at(z, cell)) is Some {
            Some(tile_at(z, cell))
        } else {
            match self.nearest_from(z, cell, 1) {
                Some(depth) => Some(ancestor_at(z, cell, depth)),
                None => None,
            }
        }
    }

    /// Painting `cells` shows the image of `key` somewhere.
    pub open spec fn shows(self, z: u8, cells: Seq<Cell>, key: TileKey) -> bool {
        exists|i: int|
            0 <= i < cells.len() && #[trigger] self.shown_by(z, cells[i]) == Some(key)
    }

    /// The tiles at `cells` that the store does not know, each once, in the
    /// order of their first places.
    pub open spec fn missing(self, z: u8, cells: Seq<Cell>) -> Seq<TileKey>
        decreases cells.len(),
    {
        if cells.len() == 0 {
            Seq::empty()
        } else {
            let before = self.missing(z, cells.drop_last());
            let key = tile_at(z, cells.last());
            if self.states.contains_key(key) || before.contains(key) {
                before
            } else {
                before.push(key)
            }
        }
    }

    /// The state of `key` once `cells` have been painted: a tile shown is
    /// touched, an unknown one is pending.
    pub open spec fn painted_state(self, z: u8, cells: Seq<Cell>, key: TileKey) -> TileState {
        if !self.states.contains_key(key) {
            TileState::Pending
        } else if self.shows(z, cells, key) {
            TileState::Ready { image: self.states[key]->image, last_used: self.frame }
        } else {
            self.states[key]
        }
    }

    /// The store once `cells` have been painted.
    pub open spec fn painted(self, z: u8, cells: Seq<Cell>) -> Self {
        TileStore {
            states: Map::new(
                |k: TileKey| self.states.contains_key(k) || asks_for(z, cells, k),
                |k: TileKey| self.painted_state(z, cells, k),
            ),
            queue: self.queue + self.missing(z, cells).map_values(
                |k: TileKey| FetchJob { generation: self.generation, key: k },
            ),
            ..self
        }
    }
}

/// Painting changes neither which tiles are resident nor their images.
pub proof fn law_painting_keeps_images(store: TileStore, z: u8, cells: Seq<Cell>, key: TileKey)
    ensures
        store.painted(z, cells).image_of(key) == store.image_of(key),
{
    let post = store.painted(z, cells);
    if store.states.contains_key(key) {
        if store.shows(z, cells, key) {
            let i = choose|i: int|
                0 <= i < cells.len() && #[trigger] store.shown_by(z, cells[i]) == Some(key);
            lemma_shown_is_resident(store, z, cells[i]);
        }
    }
}

/// A tile that is shown is resident.
proof fn lemma_shown_is_resident(store: TileStore, z: u8, cell: Cell)
    ensures
        store.shown_by(z, cell) is Some ==> store.image_of(store.shown_by(z, cell)->0) is Some,
{
    lemma_nearest_is_resident(store, z, cell, 1);
}

proof fn lemma_nearest_is_resident(store: TileStore, z: u8, cell: Cell, depth: nat)
    ensures
        store.nearest_from(z, cell, depth) is Some ==> {
            let d = store.nearest_from(z, cell, depth)->0;
            &&& depth <= d <= z
            &&& store.image_of(ancestor_at(z, cell, d)) is Some
        },
    decreases z + 1 - depth,
{
    if depth <= z && store.image_of(ancestor_at(z, cell, depth)) is None {
        lemma_nearest_is_resident(store, z, cell, depth + 1);
    }
}

/// Stores that agree on every image agree on the nearest ancestor.
proof fn lemma_nearest_by_images(a: TileStore, b: TileStore, z: u8, cell: Cell, depth: nat)
    requires
        forall|k: TileKey| #[trigger] a.image_of(k) == b.image_of(k),
    ensures
        a.nearest_from(z, cell, depth) == b.nearest_from(z, cell, depth),
    decreases z + 1 - depth,
{
    assert(a.image_of(ancestor_at(z, cell, depth)) == b.image_of(ancestor_at(z, cell, depth)));
    if depth <= z {
        lemma_nearest_by_images(a, b, z, cell, depth + 1);
    }
}

/// The store once `cell` too has been painted.
spec fn painted_cell(store: TileStore, z: u8, cell: Cell) -> TileStore {
    let key = tile_at(z, cell);
    let asked = store.ensured(key);
    if store.image_of(key) is Some {
        asked
    } else {
        match asked.nearest_from(z, cell, 1) {
            Some(depth) => asked.touched(ancestor_at(z, cell, depth)),
            None => asked,
        }
    }
}

proof fn lemma_paint_one(store: TileStore, z: u8, cells: Seq<Cell>, cell: Cell)
    ensures
        painted_cell(store.painted(z, cells), z, cell) == store.painted(z, cells.push(cell)),
        ({
            let cur = store.painted(z, cells);
            let asked = cur.ensured(tile_at(z, cell));
            &&& cur.image_of(tile_at(z, cell)) == store.image_of(tile_at(z, cell))
            &&& cur.image_of(tile_at(z, cell)) is None ==> asked.fallback_of(z, cell)
                == store.fallback_of(z, cell)
        }),
{
    let cur = store.painted(z, cells);
    let more = cells.push(cell);
    let post = store.painted(z, more);
    let key = tile_at(z, cell);
    let asked = cur.ensured(key);
    let next = painted_cell(cur, z, cell);
    assert forall|k: TileKey| #[trigger] cur.image_of(k) == store.image_of(k) by {
        law_painting_keeps_images(store, z, cells, k);
    }
    assert forall|k: TileKey| #[trigger] asked.image_of(k) == store.image_of(k) by {
        assert(cur.image_of(k) == store.image_of(k));
        assert(cur.image_of(key) == store.image_of(key));
    }
    lemma_nearest_by_images(asked, store, z, cell, 1);
    lemma_nearest_is_resident(store, z, cell, 1);
    if store.nearest_from(z, cell, 1) is Some {
        let a = ancestor_at(z, cell, store.nearest_from(z, cell, 1)->0);
        assert(asked.image_of(a) == store.image_of(a));
    }
    assert(more.last() == cell);
    assert(more.drop_last() =~= cells);
    assert(forall|i: int| 0 <= i < cells.len() ==> more[i] == cells[i]);
    // Which tiles are shown.
    assert forall|k: TileKey| #[trigger]
        store.shows(z, more, k) <==> store.shown_by(z, cell) == Some(k) || store.shows(
            z,
            cells,
            k,
        ) by {
        if store.shown_by(z, cell) == Some(k) {
            assert(store.shown_by(z, more[cells.len() as int]) == Some(k));
        }
        if store.shows(z, cells, k) {
            let i = choose|i: int|
                0 <= i < cells.len() && #[trigger] store.shown_by(z, cells[i]) == Some(k);
            assert(store.shown_by(z, more[i]) == Some(k));
        }
        if store.shows(z, more, k) {
            let i = choose|i: int|
                0 <= i < more.len() && #[trigger] store.shown_by(z, more[i]) == Some(k);
            if i < cells.len() {
                assert(store.shown_by(z, cells[i]) == Some(k));
            }
        }
    }
    // Which tiles are asked for.
    assert forall|k: TileKey| #[trigger]
        asks_for(z, more, k) <==> key == k || asks_for(z, cells, k) by {
        if key == k {
            assert(tile_at(z, more[cells.len() as int]) == k);
        }
        if asks_for(z, cells, k) {
            let i = choose|i: int| 0 <= i < cells.len() && #[trigger] tile_at(z, cells[i]) == k;
            assert(tile_at(z, more[i]) == k);
        }
        if asks_for(z, more, k) {
            let i = choose|i: int| 0 <= i < more.len() && #[trigger] tile_at(z, more[i]) == k;
            if i < cells.len() {
                assert(tile_at(z, cells[i]) == k);
            }
        }
    }
    lemma_missing_contains(store, z, cells, key);
    lemma_shown_is_resident(store, z, cell);
    assert(next.queue =~= post.queue);
    assert forall|k: TileKey| next.states.contains_key(k) <==> post.states.contains_key(k) by {}
    assert forall|k: TileKey| next.states.contains_key(k) implies next.states[k]
        == post.states[k] by {
        assert(cur.image_of(k) == store.image_of(k));
        assert(asked.image_of(k) == store.image_of(k));
    }
    assert(next.states =~= post.states);
}

proof fn lemma_missing_contains(store: TileStore, z: u8, cells: Seq<Cell>, key: TileKey)
    ensures
        store.missing(z, cells).contains(key) <==> !store.states.contains_key(key) && asks_for(
            z,
            cells,
            key,
        ),
    decreases cells.len(),
{
    if cells.len() > 0 {
        let before = cells.drop_last();
        lemma_missing_contains(store, z, before, key);
        let m = store.missing(z, before);
        let last = tile_at(z, cells.last());
        assert(m.push(last).contains(key) <==> m.contains(key) || last == key) by {
            if m.contains(key) {
                let j = m.index_of(key);
                assert(m.push(last)[j] == key);
            }
            assert(m.push(last)[m.len() as int] == last);
        }
        if asks_for(z, before, key) {
            let i = choose|i: int| 0 <= i < before.len() && #[trigger] tile_at(z, before[i]) == key;
            assert(tile_at(z, cells[i]) == key);
        }
        if asks_for(z, cells, key) {
            let i = choose|i: int| 0 <= i < cells.len() && #[trigger] tile_at(z, cells[i]) == key;
            if i < before.len() {
                assert(tile_at(z, before[i]) == key);
            }
        }
    }
}

/// Finds the nearest resident ancestor of a place, and marks it used.
pub fn fallback(tiles: &mut TileManager, z: u8, cell: Cell) -> (found: Option<Fallback>)
    requires
        old(tiles).wf(),
        z <= MAX_ZOOM,
        in_world(z, cell),
    ensures
        final(tiles).wf(),
        found == old(tiles)@.fallback_of(z, cell),
        final(tiles)@ == match old(tiles)@.nearest_from(z, cell, 1) {
            Some(depth) => old(tiles)@.touched(ancestor_at(z, cell, depth)),
            None => old(tiles)@,
        },
{
    let mut depth: u8 = 1;
    while depth <= z
        invariant
            tiles.wf(),
            tiles@ == old(tiles)@,
            z <= MAX_ZOOM,
            in_world(z, cell),
            1 <= depth <= z + 1,
            old(tiles)@.nearest_from(z, cell, 1) == old(tiles)@.nearest_from(
                z,
                cell,
                depth as nat,
            ),
        decreases z + 1 - depth,
    {
        proof {
            lemma_above_in_world(z, cell, depth as nat);
        }
        let above: Cell = step_above(cell, depth);
        let key: TileKey = tile_at_cell(z - depth, above);
        if let Some(image) = tiles.ready(key) {
            return Some(Fallback { depth, cell: above, image });
        }
        depth += 1;
    }
    None
}

/// Paints the given places: says how each is drawn, marks what is shown as
/// used in this frame, and asks for what is missing.
pub fn paint(tiles: &mut TileManager, z: u8, cells: &Vec<Cell>) -> (draws: Vec<Draw>)
    requires
        old(tiles).wf(),
        z <= MAX_ZOOM,
        forall|i: int| 0 <= i < cells@.len() ==> in_world(z, #[trigger] cells@[i]),
    ensures
        final(tiles).wf(),
        draws@ == cells@.map_values(|cell: Cell| old(tiles)@.draw_of(z, cell)),
        final(tiles)@ == old(tiles)@.painted(z, cells@),
{
    let ghost pre = tiles@;
    let mut draws: Vec<Draw> = Vec::new();
    let mut i: usize = 0;
    proof {
        assert(pre.painted(z, cells@.take(0)) =~= pre);
    }
    while i < cells.len()
        invariant
            tiles.wf(),
            pre == old(tiles)@,
            z <= MAX_ZOOM,
            forall|i: int| 0 <= i < cells@.len() ==> in_world(z, #[trigger] cells@[i]),
            i <= cells@.len(),
            draws@.len() == i,
            forall|j: int| 0 <= j < i ==> #[trigger] draws@[j] == pre.draw_of(z, cells@[j]),
            tiles@ == pre.painted(z, cells@.take(i as int)),
        decreases cells@.len() - i,
    {
        let cell: Cell = cells[i];
        let key: TileKey = tile_at_cell(z, cell);
        proof {
            lemma_paint_one(pre, z, cells@.take(i as int), cell);
            assert(cells@.take(i as int).push(cell) =~= cells@.take(i + 1));
        }
        match tiles.ensure(key) {
            Some(image) => draws.push(Draw::Tile { cell, image }),
            None => {
                let fallback: Option<Fallback> = fallback(tiles, z, cell);
                draws.push(Draw::Placeholder { cell, shade: shade(cell), fallback });
            },
        }
        i += 1;
    }
    assert(cells@.take(i as int) =~= cells@);
    assert(draws@ =~= cells@.map_values(|cell: Cell| pre.draw_of(z, cell)));
    draws
}

/// Paints a window of columns `tx0..=tx1` and rows `ty0..=ty1` at tile zoom
/// `z`, leaving out the rows beyond the poles.
pub fn paint_window(
    tiles: &mut TileManager,
    z: u8,
    tx0: i64,
    tx1: i64,
    ty0: i64,
    ty1: i64,
) -> (draws: Vec<Draw>)
    requires
        old(tiles).wf(),
        z <= MAX_ZOOM,
    ensures
        final(tiles).wf(),
        ({
            let cells = visible(z, tx0 as int, tx1 as int, ty0 as int, ty1 as int);
            &&& draws@ == cells.map_values(|cell: Cell| old(tiles)@.draw_of(z, cell))
            &&& final(tiles)@ == old(tiles)@.painted(z, cells)
        }),
{
    let cells: Vec<Cell> = visible_cells(z, tx0, tx1, ty0, ty1);
    paint(tiles, z, &cells)
}

/// Every tile of the grid exists: its column and row are below the number of
/// tiles around the world, so none is cut short.
pub proof fn law_tiles_exist(z: u8, cell: Cell)
    requires
        z <= MAX_ZOOM,
        in_world(z, cell),
    ensures
        tile_at(z, cell).z == z,
        tile_at(z, cell).x == cell.tx as int % pow2(z as nat) as int,
        tile_at(z, cell).x < pow2(z as nat),
        tile_at(z, cell).y == cell.ty,
        tile_at(z, cell).y < pow2(z as nat),
{
    lemma_side(z);
}

/// The world repeats: places whole worlds apart hold the same tile.
pub proof fn law_world_repeats(z: u8, a: Cell, b: Cell, worlds: int)
    requires
        z <= MAX_ZOOM,
        a.ty == b.ty,
        b.tx == a.tx + worlds * pow2(z as nat),
    ensures
        tile_at(z, a) == tile_at(z, b),
{
    lemma_side(z);
    vstd::arithmetic::div_mod::lemma_mod_multiples_vanish(
        worlds,
        a.tx as int,
        pow2(z as nat) as int,
    );
    assert(worlds * pow2(z as nat) == pow2(z as nat) * worlds) by (nonlinear_arith);
}

/// The stand-in of a place is an ancestor of the place's tile in the pyramid,
/// on either side of the antimeridian: column and row are those of the tile,
/// divided by two for each level.
pub proof fn law_fallback_is_ancestor(z: u8, cell: Cell, depth: nat)
    requires
        z <= MAX_ZOOM,
        in_world(z, cell),
        depth <= z,
    ensures
        ancestor_at(z, cell, depth).z == z - depth,
        ancestor_at(z, cell, depth).x == tile_at(z, cell).x as nat / pow2(depth),
        ancestor_at(z, cell, depth).y == tile_at(z, cell).y as nat / pow2(depth),
{
    let f = pow2(depth) as int;
    let m = pow2((z - depth) as nat) as int;
    let tx = cell.tx as int;
    lemma_above_in_world(z, cell, depth);
    lemma_side(z);
    lemma_side((z - depth) as u8);
    vstd::arithmetic::power2::lemma_pow2_adds(depth, (z - depth) as nat);
    let n = f * m;
    assert(n == pow2(z as nat));
    // tx == n * q + r, so tx / f == m * q + r / f, and r / f < m.
    let q = tx / n;
    let r = tx % n;
    vstd::arithmetic::div_mod::lemma_fundamental_div_mod(tx, n);
    vstd::arithmetic::div_mod::lemma_fundamental_div_mod(r, f);
    assert(tx == f * (m * q + r / f) + r % f) by (nonlinear_arith)
        requires
            tx == n * q + r,
            n == f * m,
            r == f * (r / f) + r % f,
    ;
    vstd::arithmetic::div_mod::lemma_fundamental_div_mod_converse(tx, f, m * q + r / f, r % f);
    assert(0 <= r / f < m) by (nonlinear_arith)
        requires
            0 <= r < f * m,
            f >= 1,
    ;
    assert(m * q + r / f == q * m + r / f) by (nonlinear_arith);
    vstd::arithmetic::div_mod::lemma_fundamental_div_mod_converse(
        m * q + r / f,
        m,
        q,
        r / f,
    );
}

/// The stand-in is the nearest one: it is resident, none of the levels between
/// it and the place's own tile is, and where nothing stands in, no ancestor is
/// resident up to the top of the pyramid.
pub proof fn law_fallback_is_nearest(store: TileStore, z: u8, cell: Cell)
    ensures
        match store.fallback_of(z, cell) {
            Some(found) => {
                &&& 1 <= found.depth <= z
                &&& found.cell == cell_above(cell, found.depth as nat)
                &&& store.image_of(ancestor_at(z, cell, found.depth as nat)) == Some(found.image)
                &&& forall|depth: nat|
                    1 <= depth < found.depth ==> store.image_of(
                        #[trigger] ancestor_at(z, cell, depth),
                    ) is None
            },
            None => forall|depth: nat|
                1 <= depth <= z ==> store.image_of(#[trigger] ancestor_at(z, cell, depth)) is None,
        },
{
    lemma_nearest_is_resident(store, z, cell, 1);
    assert forall|depth: nat|
        1 <= depth <= z && (store.fallback_of(z, cell) matches Some(found) ==> depth
            < found.depth) implies store.image_of(#[trigger] ancestor_at(z, cell, depth)) is None by {
        lemma_nearest_is_first(store, z, cell, 1, depth);
    }
}

proof fn lemma_nearest_is_first(store: TileStore, z: u8, cell: Cell, from: nat, depth: nat)
    requires
        from <= depth <= z,
    ensures
        store.nearest_from(z, cell, from) is None ==> store.image_of(ancestor_at(z, cell, depth))
            is None,
        store.nearest_from(z, cell, from) is Some && depth < store.nearest_from(z, cell, from)->0
            ==> store.image_of(ancestor_at(z, cell, depth)) is None,
    decreases z + 1 - from,
{
    if store.image_of(ancestor_at(z, cell, from)) is None && from < depth {
        lemma_nearest_is_first(store, z, cell, from + 1, depth);
    }
}

/// The place some levels up covers the place below it: it is the one whose
/// columns and rows, each split in two for every level, hold it.
pub proof fn law_place_above_covers(cell: Cell, depth: nat)
    ensures
        ({
            let above = cell_above(cell, depth);
            &&& above.tx * pow2(depth) <= cell.tx < (above.tx + 1) * pow2(depth)
            &&& above.ty * pow2(depth) <= cell.ty < (above.ty + 1) * pow2(depth)
        }),
{
    let f = pow2(depth) as int;
    vstd::arithmetic::power2::lemma_pow2_pos(depth);
    let (tx, ty) = (cell.tx as int, cell.ty as int);
    assert(i64::MIN <= tx / f <= i64::MAX && (tx / f) * f <= tx < (tx / f + 1) * f)
        by (nonlinear_arith)
        requires
            i64::MIN <= tx <= i64::MAX,
            f >= 1,
    ;
    assert(i64::MIN <= ty / f <= i64::MAX && (ty / f) * f <= ty < (ty / f + 1) * f)
        by (nonlinear_arith)
        requires
            i64::MIN <= ty <= i64::MAX,
            f >= 1,
    ;
}

/// The placeholder is a checkerboard: places that share an edge differ in
/// shade, places that share a corner do not, and the place at the origin is
/// dark.
pub proof fn law_shades_alternate(a: Cell, b: Cell)
    ensures
        shade_of(a) == 10 || shade_of(a) == 12,
        a.tx == 0 && a.ty == 0 ==> shade_of(a) == 10,
        (a.tx - b.tx + a.ty - b.ty) % 2 == 0 <==> shade_of(a) == shade_of(b),
{
}

/// What a place is drawn as. A resident tile is drawn itself, in its own place
/// with its own image, and nothing else is. Any other is a checkerboard square
/// of that place, overdrawn if and only if an ancestor is resident at some
/// level, by the nearest such one, in the place that covers this one and with
/// that ancestor's image.
pub proof fn law_drawn_as_itself_or_its_nearest_ancestor(store: TileStore, z: u8, cell: Cell)
    ensures
        store.image_of(tile_at(z, cell)) is Some <==> store.draw_of(z, cell) is Tile,
        match store.draw_of(z, cell) {
            Draw::Tile { cell: place, image } => {
                &&& place == cell
                &&& store.image_of(tile_at(z, cell)) == Some(image)
            },
            Draw::Placeholder { cell: place, shade, fallback } => {
                &&& place == cell
                &&& shade == (if (cell.tx + cell.ty) % 2 == 0 {
                    10u8
                } else {
                    12u8
                })
                &&& fallback is Some <==> exists|depth: nat|
                    1 <= depth <= z && store.image_of(#[trigger] ancestor_at(z, cell, depth))
                        is Some
                &&& fallback matches Some(found) ==> {
                    &&& 1 <= found.depth <= z
                    &&& found.cell == cell_above(cell, found.depth as nat)
                    &&& store.image_of(ancestor_at(z, cell, found.depth as nat)) == Some(
                        found.image,
                    )
                    &&& forall|depth: nat|
                        1 <= depth < found.depth ==> store.image_of(
                            #[trigger] ancestor_at(z, cell, depth),
                        ) is None
                }
            },
        },
{
    law_fallback_is_nearest(store, z, cell);
    if let Some(found) = store.fallback_of(z, cell) {
        let depth = found.depth as nat;
        assert(store.image_of(ancestor_at(z, cell, depth)) is Some);
    }
}

/// What painting draws it marks as used in this frame, image and all: the tile
/// of each place where it is resident, else the ancestor that stands in for it;
/// and the tile that a place waits for is known and not resident.
pub proof fn law_painting_marks_what_it_draws(store: TileStore, z: u8, cells: Seq<Cell>, i: int)
    requires
        0 <= i < cells.len(),
    ensures
        ({
            let states = store.painted(z, cells).states;
            let own = tile_at(z, cells[i]);
            match store.draw_of(z, cells[i]) {
                Draw::Tile { image, .. } => {
                    &&& states.contains_key(own)
                    &&& states[own] == (TileState::Ready { image, last_used: store.frame })
                },
                Draw::Placeholder { fallback, .. } => {
                    &&& states.contains_key(own)
                    &&& !(states[own] is Ready)
                    &&& fallback matches Some(found) ==> {
                        let above = ancestor_at(z, cells[i], found.depth as nat);
                        &&& states.contains_key(above)
                        &&& states[above] == (TileState::Ready {
                            image: found.image,
                            last_used: store.frame,
                        })
                    }
                },
            }
        }),
{
    let own = tile_at(z, cells[i]);
    assert(asks_for(z, cells, own));
    law_drawn_as_itself_or_its_nearest_ancestor(store, z, cells[i]);
    lemma_nearest_is_resident(store, z, cells[i], 1);
    lemma_shown_is_resident(store, z, cells[i]);
    if let Some(key) = store.shown_by(z, cells[i]) {
        assert(store.shows(z, cells, key));
    }
    law_painting_keeps_images(store, z, cells, own);
}

/// The tile whose image a place is drawn with, if any.
pub open spec fn drawn_with(store: TileStore, z: u8, cell: Cell) -> Option<TileKey> {
    match store.draw_of(z, cell) {
        Draw::Tile { .. } => Some(tile_at(z, cell)),
        Draw::Placeholder { fallback: Some(found), .. } => Some(
            ancestor_at(z, cell, found.depth as nat),
        ),
        Draw::Placeholder { fallback: None, .. } => None,
    }
}

/// Painting does nothing else. A tile that no place is drawn with keeps its
/// state; one not known before becomes pending if a place is its own, and
/// otherwise stays unknown. Frame, generation and released images stay.
pub proof fn law_painting_changes_nothing_else(
    store: TileStore,
    z: u8,
    cells: Seq<Cell>,
    key: TileKey,
)
    ensures
        ({
            let post = store.painted(z, cells);
            &&& store.states.contains_key(key) ==> post.states.contains_key(key)
            &&& store.states.contains_key(key) && (forall|i: int|
                0 <= i < cells.len() ==> drawn_with(store, z, #[trigger] cells[i]) != Some(key))
                ==> post.states[key] == store.states[key]
            &&& !store.states.contains_key(key) ==> (post.states.contains_key(key) <==> exists|
                i: int,
            |
                0 <= i < cells.len() && tile_at(z, #[trigger] cells[i]) == key)
            &&& !store.states.contains_key(key) && post.states.contains_key(key)
                ==> post.states[key] == TileState::Pending
            &&& post.frame == store.frame
            &&& post.generation == store.generation
            &&& post.released == store.released
        }),
{
    if store.shows(z, cells, key) {
        let i = choose|i: int|
            0 <= i < cells.len() && #[trigger] store.shown_by(z, cells[i]) == Some(key);
        lemma_nearest_is_resident(store, z, cells[i], 1);
        assert(drawn_with(store, z, cells[i]) == Some(key));
    }
    if asks_for(z, cells, key) {
        let i = choose|i: int| 0 <= i < cells.len() && #[trigger] tile_at(z, cells[i]) == key;
        assert(tile_at(z, cells[i]) == key);
    }
    if exists|i: int| 0 <= i < cells.len() && tile_at(z, #[trigger] cells[i]) == key {
        let i = choose|i: int| 0 <= i < cells.len() && tile_at(z, #[trigger] cells[i]) == key;
        assert(tile_at(z, cells[i]) == key);
    }
}

/// Painting adds to the end of the queue one fetch, of the current generation,
/// for each tile of its places that the store does not know, in the order in
/// which their first places come, and for no other.
pub proof fn law_painting_queues_in_order(store: TileStore, z: u8, cells: Seq<Cell>)
    ensures
        ({
            let before = store.queue;
            let after = store.painted(z, cells).queue;
            &&& before.len() <= after.len()
            &&& forall|i: int| 0 <= i < before.len() ==> #[trigger] after[i] == before[i]
            &&& forall|i: int|
                before.len() <= i < after.len() ==> {
                    &&& (#[trigger] after[i]).generation == store.generation
                    &&& !store.states.contains_key(after[i].key)
                    &&& exists|p: int| first_place(z, cells, after[i].key, p)
                }
            &&& forall|i: int, j: int, p: int, q: int|
                before.len() <= i < j < after.len() && #[trigger] first_place(
                    z,
                    cells,
                    after[i].key,
                    p,
                ) && #[trigger] first_place(z, cells, after[j].key, q) ==> p < q
            &&& forall|p: int|
                0 <= p < cells.len() && !store.states.contains_key(
                    tile_at(z, #[trigger] cells[p]),
                ) ==> exists|i: int|
                    before.len() <= i < after.len() && (#[trigger] after[i]).key == tile_at(
                        z,
                        cells[p],
                    )
        }),
{
    let before = store.queue;
    let after = store.painted(z, cells).queue;
    let missing = store.missing(z, cells);
    assert(after.len() == before.len() + missing.len());
    assert(forall|i: int|
        before.len() <= i < after.len() ==> #[trigger] after[i] == (FetchJob {
            generation: store.generation,
            key: missing[i - before.len()],
        }));
    assert forall|i: int| before.len() <= i < after.len() implies {
        &&& !store.states.contains_key((#[trigger] after[i]).key)
        &&& exists|p: int| first_place(z, cells, after[i].key, p)
    } by {
        let key = missing[i - before.len()];
        assert(missing.contains(key));
        lemma_missing_contains(store, z, cells, key);
        lemma_first_place(z, cells, key);
    }
    lemma_missing_order(store, z, cells);
    assert forall|i: int, j: int, p: int, q: int|
        before.len() <= i < j < after.len() && #[trigger] first_place(z, cells, after[i].key, p)
            && #[trigger] first_place(z, cells, after[j].key, q) implies p < q by {
        assert(after[i].key == missing[i - before.len()]);
        assert(after[j].key == missing[j - before.len()]);
    }
    assert forall|p: int|
        0 <= p < cells.len() && !store.states.contains_key(
            tile_at(z, #[trigger] cells[p]),
        ) implies exists|i: int|
        before.len() <= i < after.len() && (#[trigger] after[i]).key == tile_at(z, cells[p]) by {
        let key = tile_at(z, cells[p]);
        assert(asks_for(z, cells, key));
        lemma_missing_contains(store, z, cells, key);
        let i = missing.index_of(key) + before.len();
        assert(after[i].key == key);
    }
}

/// The first place of a tile among these.
pub open spec fn first_place(z: u8, cells: Seq<Cell>, key: TileKey, p: int) -> bool {
    &&& 0 <= p < cells.len()
    &&& tile_at(z, cells[p]) == key
    &&& forall|q: int| 0 <= q < p ==> tile_at(z, #[trigger] cells[q]) != key
}

proof fn lemma_first_place(z: u8, cells: Seq<Cell>, key: TileKey)
    requires
        asks_for(z, cells, key),
    ensures
        exists|p: int| first_place(z, cells, key, p),
    decreases cells.len(),
{
    let i = choose|i: int| 0 <= i < cells.len() && #[trigger] tile_at(z, cells[i]) == key;
    let before = cells.drop_last();
    if asks_for(z, before, key) {
        lemma_first_place(z, before, key);
        let p = choose|p: int| first_place(z, before, key, p);
        assert forall|q: int| 0 <= q < p implies tile_at(z, #[trigger] cells[q]) != key by {
            assert(before[q] == cells[q]);
        }
        assert(first_place(z, cells, key, p));
    } else {
        assert forall|q: int| 0 <= q < before.len() implies tile_at(z, #[trigger] cells[q])
            != key by {
            assert(tile_at(z, before[q]) == tile_at(z, cells[q]));
        }
        assert(first_place(z, cells, key, cells.len() - 1));
    }
}

proof fn lemma_missing_order(store: TileStore, z: u8, cells: Seq<Cell>)
    ensures
        ({
            let missing = store.missing(z, cells);
            forall|i: int, j: int, p: int, q: int|
                0 <= i < j < missing.len() && #[trigger] first_place(z, cells, missing[i], p)
                    && #[trigger] first_place(z, cells, missing[j], q) ==> p < q
        }),
    decreases cells.len(),
{
    if cells.len() > 0 {
        let before = cells.drop_last();
        let earlier = store.missing(z, before);
        let missing = store.missing(z, cells);
        lemma_missing_order(store, z, before);
        assert forall|i: int, j: int, p: int, q: int|
            0 <= i < j < missing.len() && #[trigger] first_place(z, cells, missing[i], p)
                && #[trigger] first_place(z, cells, missing[j], q) implies p < q by {
            assert(missing[i] == earlier[i]);
            assert(earlier.contains(missing[i]));
            lemma_missing_contains(store, z, before, missing[i]);
            lemma_first_place(z, before, missing[i]);
            let p0 = choose|p0: int| first_place(z, before, missing[i], p0);
            assert(before[p0] == cells[p0]);
            assert(p <= p0);
            assert(first_place(z, before, missing[i], p)) by {
                assert(forall|k: int| 0 <= k < before.len() ==> before[k] == cells[k]);
            }
            if q < before.len() {
                assert(first_place(z, before, missing[j], q)) by {
                    assert(forall|k: int| 0 <= k < before.len() ==> before[k] == cells[k]);
                }
                if j < earlier.len() {
                    assert(missing[j] == earlier[j]);
                } else {
                    assert(asks_for(z, before, missing[j])) by {
                        assert(tile_at(z, before[q]) == missing[j]);
                    }
                    lemma_missing_contains(store, z, before, missing[j]);
                    assert(missing[j] == tile_at(z, cells.last()));
                }
            }
        }
    }
}

/// Painting queues exactly the tiles of the window that the store does not
/// know, each once, however often the window repeats the world.
pub proof fn law_paint_queues_each_missing_tile_once(store: TileStore, z: u8, cells: Seq<Cell>)
    ensures
        store.missing(z, cells).no_duplicates(),
        forall|key: TileKey| #[trigger]
            store.missing(z, cells).contains(key) <==> !store.states.contains_key(key) && asks_for(
                z,
                cells,
                key,
            ),
    decreases cells.len(),
{
    assert forall|key: TileKey| #[trigger]
        store.missing(z, cells).contains(key) <==> !store.states.contains_key(key) && asks_for(
            z,
            cells,
            key,
        ) by {
        lemma_missing_contains(store, z, cells, key);
    }
    if cells.len() > 0 {
        law_paint_queues_each_missing_tile_once(store, z, cells.drop_last());
    }
}

/// The tiles that painting asks for.
pub open spec fn asked_tiles(z: u8, cells: Seq<Cell>) -> Set<TileKey> {
    Set::new(|key: TileKey| asks_for(z, cells, key))
}

impl TileStore {
    /// The tiles whose images painting shows.
    pub open spec fn shown_tiles(self, z: u8, cells: Seq<Cell>) -> Set<TileKey> {
        Set::new(|key: TileKey| self.shows(z, cells, key))
    }
}

/// A frame whose places fit the budget needs fewer tiles than are kept
/// resident: it asks for no more than the budget, queues no more and shows no
/// more.
pub proof fn law_frame_needs_fewer_tiles_than_are_kept(store: TileStore, z: u8, cells: Seq<Cell>)
    requires
        cells.len() <= TILE_BUDGET,
    ensures
        TILE_BUDGET < MAX_GPU_TILES,
        asked_tiles(z, cells).finite(),
        asked_tiles(z, cells).len() <= TILE_BUDGET,
        store.missing(z, cells).len() <= TILE_BUDGET,
        store.painted(z, cells).queue.len() <= store.queue.len() + TILE_BUDGET,
        store.shown_tiles(z, cells).finite(),
        store.shown_tiles(z, cells).len() <= TILE_BUDGET,
{
    lemma_tiles_per_place(store, z, cells);
}

/// No place needs more than one tile.
proof fn lemma_tiles_per_place(store: TileStore, z: u8, cells: Seq<Cell>)
    ensures
        asked_tiles(z, cells).finite(),
        asked_tiles(z, cells).len() <= cells.len(),
        store.missing(z, cells).len() <= cells.len(),
        store.shown_tiles(z, cells).finite(),
        store.shown_tiles(z, cells).len() <= cells.len(),
    decreases cells.len(),
{
    if cells.len() == 0 {
        assert(asked_tiles(z, cells) =~= Set::empty());
        assert(store.shown_tiles(z, cells) =~= Set::empty());
    } else {
        let before = cells.drop_last();
        lemma_tiles_per_place(store, z, before);
        let asked = asked_tiles(z, before).insert(tile_at(z, cells.last()));
        assert forall|key: TileKey| asks_for(z, cells, key) implies asked.contains(key) by {
            let i = choose|i: int| 0 <= i < cells.len() && #[trigger] tile_at(z, cells[i]) == key;
            if i < before.len() {
                assert(tile_at(z, before[i]) == key);
            }
        }
        vstd::set_lib::lemma_len_subset(asked_tiles(z, cells), asked);
        let shown = match store.shown_by(z, cells.last()) {
            Some(key) => store.shown_tiles(z, before).insert(key),
            None => store.shown_tiles(z, before),
        };
        assert forall|key: TileKey| store.shows(z, cells, key) implies shown.contains(key) by {
            let i = choose|i: int|
                0 <= i < cells.len() && #[trigger] store.shown_by(z, cells[i]) == Some(key);
            if i < before.len() {
                assert(store.shown_by(z, before[i]) == Some(key));
            }
        }
        vstd::set_lib::lemma_len_subset(store.shown_tiles(z, cells), shown);
    }
}

/// Painting the same window again queues nothing and draws the same.
pub proof fn law_repaint_is_quiet(store: TileStore, z: u8, cells: Seq<Cell>)
    ensures
        store.painted(z, cells).painted(z, cells).queue == store.painted(z, cells).queue,
        forall|cell: Cell| #[trigger]
            store.painted(z, cells).draw_of(z, cell) == store.draw_of(z, cell),
{
    let once = store.painted(z, cells);
    law_paint_queues_each_missing_tile_once(once, z, cells);
    let missing = once.missing(z, cells);
    if missing.len() > 0 {
        assert(missing.contains(missing[0]));
    }
    assert(once.painted(z, cells).queue =~= once.queue);
    assert forall|cell: Cell| #[trigger]
        store.painted(z, cells).draw_of(z, cell) == store.draw_of(z, cell) by {
        assert forall|k: TileKey| #[trigger] once.image_of(k) == store.image_of(k) by {
            law_painting_keeps_images(store, z, cells, k);
        }
        lemma_nearest_by_images(once, store, z, cell, 1);
        lemma_nearest_is_resident(store, z, cell, 1);
        assert(once.image_of(tile_at(z, cell)) == store.image_of(tile_at(z, cell)));
        if store.nearest_from(z, cell, 1) is Some {
            let a = ancestor_at(z, cell, store.nearest_from(z, cell, 1)->0);
            assert(once.image_of(a) == store.image_of(a));
        }
    }
}

/// What a frame draws stays until the frame ends: no image that painting
/// showed is evicted by a fetch of another tile that completes in that frame.
pub proof fn law_drawn_tiles_stay(
    store: TileStore,
    z: u8,
    cells: Seq<Cell>,
    i: int,
    arrived: TileKey,
    image: Option<u32>,
    post: TileStore,
    gone: Seq<TileKey>,
)
    requires
        0 <= i < cells.len(),
        store.shown_by(z, cells[i]) is Some,
        arrived != store.shown_by(z, cells[i])->0,
        store.painted(z, cells).settled(arrived, image).evicts(post, gone),
    ensures
        post.image_of(store.shown_by(z, cells[i])->0) == store.image_of(
            store.shown_by(z, cells[i])->0,
        ),
{
    let key = store.shown_by(z, cells[i])->0;
    lemma_shown_is_resident(store, z, cells[i]);
    assert(store.shows(z, cells, key));
    assert(store.painted(z, cells).states[key] == (TileState::Ready {
        image: store.states[key]->image,
        last_used: store.frame,
    }));
    crate::laws::law_touched_tiles_stay(
        store.painted(z, cells).settled(arrived, image),
        post,
        gone,
        key,
    );
}

} // verus!
