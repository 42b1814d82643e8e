//! Slippy-map raster tiles: the tile store with its least-recently-used
//! eviction, the choice of what one frame paints, the steps of a tile fetch,
//! and the map application's state machine.

pub mod control;
pub mod decode;
pub mod fetch;
pub mod frame;
pub mod laws;
pub mod png;
pub mod status;
pub mod text;
pub mod tiles;
