//! Core of a map-tile viewer: a camera over a normalized world map, the
//! projection from world coordinates to screen pixels, a per-layer tile cache
//! with an asynchronous fetch protocol, a fallback compositor that covers the
//! viewport with coarser tiles where fine ones are missing, and the spacing
//! rule for the latitude/longitude grid.
//!
//! All geometry is exact fixed-point arithmetic:
//! - world coordinates are `i64` in units of `WORLD_ONE = 2^32` per world
//!   width (the world is the square `[0, 1) x [0, 1)`; x wraps),
//! - screen coordinates are `i64` micro-pixels (`1_000_000` per pixel),
//! - zoom is a `u32` count of milli-zoom-levels in `[0, 1000 * MAX_ZOOM]`,
//! - angles are `i64` micro-degrees.

use vstd::prelude::*;

pub mod map;
pub mod map_renderer;
pub mod planes;
pub mod tile;
pub mod util;

verus! {

/// Deepest zoom level the tiling scheme supports.
pub const MAX_ZOOM: u32 = 20;

/// Zoom is measured in milli-levels; this is the largest stored value.
pub const MAX_ZOOM_MILLI: u32 = 20000;

/// One world width in fixed-point world units (2^32).
pub const WORLD_ONE: i64 = 0x1_0000_0000;

/// Micro-pixels per pixel.
pub const PIXEL_MICRO: i64 = 1_000_000;

} // verus!
