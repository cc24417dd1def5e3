//! The camera over the world map: a center, a fractional zoom in milli-levels
//! and a reference pixel scale. From it each frame derives the visible world
//! extent (`WorldViewport`) and the tile grid that covers the window
//! (`TileGrid`).
//!
//! The scale is exact: at `z` whole zoom levels and `f` milli-levels beyond
//! them, one world unit spans `ref_scale * 2^z * (1000 + f) / 1000` pixels,
//! interpolating linearly between neighbouring powers of two.

use vstd::prelude::*;

verus! {

use vstd::arithmetic::power2::{pow2, lemma_pow2_strictly_increases, lemma_pow2_adds, lemma2_to64};
use vstd::arithmetic::div_mod::{
    lemma_div_is_ordered,
    lemma_div_nonincreasing,
    lemma_div_pos_is_pos,
    lemma_fundamental_div_mod,
    lemma_fundamental_div_mod_converse,
    lemma_mod_bound,
};
use crate::util::{
    floor_div_i64,
    floor_div_i128,
    euclid_mod_i64,
    lemma_mul_magnitude,
    lemma_div_ge_self_neg,
};
use crate::{MAX_ZOOM, MAX_ZOOM_MILLI, WORLD_ONE};

/// A point in fixed-point world coordinates (`WORLD_ONE` units per world
/// width; x grows eastward, y grows southward).
#[derive(Clone, Copy, Debug, PartialEq, Eq, Structural)]
pub struct WorldPoint {
    pub x: i64,
    pub y: i64,
}

/// The world-coordinate rectangle visible on screen, derived fresh each frame
/// from the camera and the window size.
#[derive(Clone, Copy, Debug, PartialEq, Eq, Structural)]
pub struct WorldViewport {
    pub top_left: WorldPoint,
    pub bottom_right: WorldPoint,
}

/// 2^e as a machine word.
pub fn pow2_u64(e: u32) -> (r: u64)
    requires
        e <= 62,
    ensures
        r == pow2(e as nat),
        r >= 1,
{
    let mut r: u64 = 1;
    let mut i: u32 = 0;
    proof {
        lemma2_to64();
    }
    while i < e
        invariant
            i <= e <= 62,
            r == pow2(i as nat),
        decreases e - i,
    {
        proof {
            lemma2_to64();
            vstd::arithmetic::power2::lemma2_to64_rest();
            vstd::arithmetic::power2::lemma_pow2_unfold((i + 1) as nat);
            if i < 62 {
                lemma_pow2_strictly_increases(i as nat, 62);
            }
        }
        r = r * 2;
        i = i + 1;
    }
    proof {
        vstd::arithmetic::power2::lemma_pow2_pos(e as nat);
    }
    r
}

/// Clamping to a closed interval.
pub open spec fn clamp_spec(v: int, lo: int, hi: int) -> int {
    if v < lo {
        lo
    } else if v > hi {
        hi
    } else {
        v
    }
}

/// The camera: world-coordinate center, fractional zoom in milli-levels, and
/// the pixel span of one world unit at zoom level zero.
#[derive(Clone, Copy, Debug, PartialEq, Eq, Structural)]
pub struct TileView {
    pub center_x: i64,
    pub center_y: i64,
    pub zoom_milli: u32,
    pub ref_scale: u32,
}

impl TileView {
    /// The camera's fields stay within the world and the supported zoom span.
    pub open spec fn wf(self) -> bool {
        &&& 0 <= self.center_x < WORLD_ONE
        &&& 0 <= self.center_y <= WORLD_ONE
        &&& self.zoom_milli <= MAX_ZOOM_MILLI
        &&& 1 <= self.ref_scale <= 16384
    }

    /// Whole zoom levels below the camera's fractional zoom.
    pub open spec fn zoom_whole(self) -> int {
        self.zoom_milli as int / 1000
    }

    /// Milli-levels beyond the whole zoom level, in `[0, 1000)`.
    pub open spec fn zoom_frac(self) -> int {
        self.zoom_milli as int % 1000
    }

    /// Milli-pixels that one world unit spans at the camera's zoom.
    pub open spec fn scale_num(self) -> int {
        self.ref_scale as int * pow2(self.zoom_whole() as nat) * (1000 + self.zoom_frac())
    }

    pub open spec fn spec_center_x(self) -> int {
        self.center_x as int
    }

    pub open spec fn spec_center_y(self) -> int {
        self.center_y as int
    }

    pub open spec fn spec_zoom_milli(self) -> int {
        self.zoom_milli as int
    }

    pub open spec fn spec_ref_scale(self) -> int {
        self.ref_scale as int
    }

    pub fn new(center_x: i64, center_y: i64, zoom_milli: u32, ref_scale: u32) -> (v: TileView)
        requires
            0 <= center_x < WORLD_ONE,
            0 <= center_y <= WORLD_ONE,
            zoom_milli <= MAX_ZOOM_MILLI,
            1 <= ref_scale <= 16384,
        ensures
            v.wf(),
            v.spec_center_x() == center_x,
            v.spec_center_y() == center_y,
            v.spec_zoom_milli() == zoom_milli,
            v.spec_ref_scale() == ref_scale,
    {
        TileView { center_x, center_y, zoom_milli, ref_scale }
    }

    pub fn zoom_milli(&self) -> (z: u32)
        ensures
            z == self.spec_zoom_milli(),
    {
        self.zoom_milli
    }

    pub fn center(&self) -> (c: WorldPoint)
        ensures
            c.x == self.spec_center_x(),
            c.y == self.spec_center_y(),
    {
        WorldPoint { x: self.center_x, y: self.center_y }
    }

    /// Applies a multiplicative zoom change, given as `1000 * log2(factor)`.
    /// A single event may request at most half a zoom level in either
    /// direction: larger requests are clamped before they are applied, and
    /// the zoom itself is clamped to `[0, MAX_ZOOM]`.
    pub fn multiply_zoom(&mut self, factor_milli_log2: i64)
        requires
            old(self).wf(),
        ensures
            final(self).wf(),
            final(self).spec_zoom_milli() == clamp_spec(
                old(self).spec_zoom_milli() + clamp_spec(factor_milli_log2 as int, -500, 500),
                0,
                MAX_ZOOM_MILLI as int,
            ),
            -500 <= final(self).spec_zoom_milli() - old(self).spec_zoom_milli() <= 500,
            0 <= final(self).spec_zoom_milli() <= MAX_ZOOM_MILLI,
            final(self).spec_center_x() == old(self).spec_center_x(),
            final(self).spec_center_y() == old(self).spec_center_y(),
            final(self).spec_ref_scale() == old(self).spec_ref_scale(),
    {
        let step: i64 = if factor_milli_log2 < -500 {
            -500
        } else if factor_milli_log2 > 500 {
            500
        } else {
            factor_milli_log2
        };
        let raw: i64 = self.zoom_milli as i64 + step;
        let clamped: i64 = if raw < 0 {
            0
        } else if raw > MAX_ZOOM_MILLI as i64 {
            MAX_ZOOM_MILLI as i64
        } else {
            raw
        };
        self.zoom_milli = clamped as u32;
    }

    /// Moves the camera by a screen-pixel delta (milli-pixels), converted to
    /// world units at the current scale. Each component is clamped to 300
    /// pixels per event so one spurious input cannot throw the camera; x
    /// wraps around the world, y stops at the poles.
    pub fn move_camera_pixels(&mut self, dx_milli_px: i64, dy_milli_px: i64)
        requires
            old(self).wf(),
        ensures
            final(self).wf(),
            final(self).spec_center_x() == (old(self).spec_center_x() + Self::pan_world(
                clamp_spec(dx_milli_px as int, -300000, 300000),
                old(self).scale_num(),
            )) % (WORLD_ONE as int),
            final(self).spec_center_y() == clamp_spec(
                old(self).spec_center_y() + Self::pan_world(
                    clamp_spec(dy_milli_px as int, -300000, 300000),
                    old(self).scale_num(),
                ),
                0,
                WORLD_ONE as int,
            ),
            final(self).spec_zoom_milli() == old(self).spec_zoom_milli(),
            final(self).spec_ref_scale() == old(self).spec_ref_scale(),
    {
        let scale: i64 = self.scale_num_exec() as i64;
        let dx: i64 = Self::clamp_pan(dx_milli_px);
        let dy: i64 = Self::clamp_pan(dy_milli_px);
        let dxw: i64 = floor_div_i64(dx * WORLD_ONE, scale);
        let dyw: i64 = floor_div_i64(dy * WORLD_ONE, scale);
        proof {
            Self::lemma_pan_world_bounded(dx as int, self.scale_num());
            Self::lemma_pan_world_bounded(dy as int, self.scale_num());
        }
        self.center_x = euclid_mod_i64(self.center_x + dxw, WORLD_ONE);
        let ny: i64 = self.center_y + dyw;
        self.center_y = if ny < 0 {
            0
        } else if ny > WORLD_ONE {
            WORLD_ONE
        } else {
            ny
        };
    }

    /// A milli-pixel pan translated into fixed-point world units.
    pub open spec fn pan_world(milli_px: int, scale_num: int) -> int {
        milli_px * WORLD_ONE as int / scale_num
    }

    proof fn lemma_pan_world_bounded(milli_px: int, scale_num: int)
        requires
            -300000 <= milli_px <= 300000,
            scale_num >= 1000,
        ensures
            -(300000 * WORLD_ONE as int) <= Self::pan_world(milli_px, scale_num) <= 300000
                * WORLD_ONE as int,
    {
        let w = WORLD_ONE as int;
        lemma_mul_magnitude(milli_px, w, 300001, w + 1);
        if milli_px * w >= 0 {
            lemma_div_nonincreasing(milli_px * w, scale_num);
            lemma_div_pos_is_pos(milli_px * w, scale_num);
        } else {
            lemma_div_ge_self_neg(milli_px * w, scale_num);
        }
    }

    fn clamp_pan(v: i64) -> (r: i64)
        ensures
            r == clamp_spec(v as int, -300000, 300000),
    {
        if v < -300000 {
            -300000
        } else if v > 300000 {
            300000
        } else {
            v
        }
    }

    /// Exact milli-pixels per world unit at the camera's current zoom.
    pub fn scale_num_exec(&self) -> (s: u64)
        requires
            self.wf(),
        ensures
            s == self.scale_num(),
            1000 <= s < 0x4000_0000_0000,
    {
        let k: u32 = self.zoom_milli / 1000;
        let f: u32 = self.zoom_milli % 1000;
        proof {
            lemma_div_is_ordered(self.zoom_milli as int, 20000, 1000);
            vstd::arithmetic::div_mod::lemma_div_by_multiple(20, 1000);
            vstd::arithmetic::div_mod::lemma_mod_bound(self.zoom_milli as int, 1000);
            assert(k <= 20);
        }
        let p: u64 = pow2_u64(k);
        proof {
            lemma2_to64();
            if k < 20 {
                lemma_pow2_strictly_increases(k as nat, 20);
            }
            assert(1 <= p <= 0x100000);
            assert(1 <= self.ref_scale as int * p as int <= 16384 * 0x100000) by (nonlinear_arith)
                requires
                    1 <= self.ref_scale <= 16384,
                    1 <= p <= 0x100000,
            ;
            assert(self.ref_scale as int * p as int * (1000 + f as int) < 0x4000_0000_0000)
                by (nonlinear_arith)
                requires
                    1 <= self.ref_scale <= 16384,
                    1 <= p <= 0x100000,
                    0 <= f < 1000,
            ;
            assert(self.ref_scale as int * p as int * (1000 + f as int) >= 1000)
                by (nonlinear_arith)
                requires
                    self.ref_scale >= 1,
                    p >= 1,
                    f >= 0,
            ;
        }
        (self.ref_scale as u64) * p * (1000 + f as u64)
    }

    /// Half of a `px`-pixel window span, in fixed-point world units, at a
    /// scale of `scale_num` milli-pixels per world unit.
    pub open spec fn half_extent_world(scale_num: int, px: int) -> int {
        px * WORLD_ONE as int * 500 / scale_num
    }

    /// The world rectangle a `width_px` by `height_px` window sees, centered
    /// on the camera. A zero-sized window yields an empty rectangle rather
    /// than any division by zero.
    pub fn get_viewport(&self, width_px: u32, height_px: u32) -> (vp: WorldViewport)
        requires
            self.wf(),
            width_px <= 65536,
            height_px <= 65536,
        ensures
            vp.top_left.x == self.spec_center_x() - Self::half_extent_world(
                self.scale_num(),
                width_px as int,
            ),
            vp.bottom_right.x == self.spec_center_x() + Self::half_extent_world(
                self.scale_num(),
                width_px as int,
            ),
            vp.top_left.y == self.spec_center_y() - Self::half_extent_world(
                self.scale_num(),
                height_px as int,
            ),
            vp.bottom_right.y == self.spec_center_y() + Self::half_extent_world(
                self.scale_num(),
                height_px as int,
            ),
            vp.top_left.x <= vp.bottom_right.x,
            vp.top_left.y <= vp.bottom_right.y,
    {
        let scale: u64 = self.scale_num_exec();
        let wo: u64 = WORLD_ONE as u64;
        proof {
            assert(width_px as int * wo as int <= 65536 * 0x1_0000_0000) by (nonlinear_arith)
                requires
                    width_px <= 65536,
                    wo == 0x1_0000_0000,
            ;
            assert(height_px as int * wo as int <= 65536 * 0x1_0000_0000) by (nonlinear_arith)
                requires
                    height_px <= 65536,
                    wo == 0x1_0000_0000,
            ;
        }
        let hw: u64 = (width_px as u64 * wo * 500) / scale;
        let hh: u64 = (height_px as u64 * wo * 500) / scale;
        proof {
            lemma_div_nonincreasing(width_px as int * WORLD_ONE as int * 500, scale as int);
            lemma_div_nonincreasing(height_px as int * WORLD_ONE as int * 500, scale as int);
            lemma_div_pos_is_pos(width_px as int * WORLD_ONE as int * 500, scale as int);
            lemma_div_pos_is_pos(height_px as int * WORLD_ONE as int * 500, scale as int);
        }
        WorldViewport {
            top_left: WorldPoint { x: self.center_x - hw as i64, y: self.center_y - hh as i64 },
            bottom_right: WorldPoint {
                x: self.center_x + hw as i64,
                y: self.center_y + hh as i64,
            },
        }
    }

    /// Milli-pixels that one world unit spans when tiles of `tile_px` native
    /// pixels are drawn at the camera's zoom.
    pub open spec fn tile_scale_num(self, tile_px: int) -> int {
        tile_px * pow2(self.zoom_whole() as nat) * (1000 + self.zoom_frac())
    }

    /// Fixed-point world units one tile spans at the camera's whole zoom.
    pub open spec fn tile_world(self) -> int {
        pow2((32 - self.zoom_whole()) as nat) as int
    }

    /// Westmost world coordinate the window sees under the tile scale.
    pub open spec fn grid_left(self, tile_px: int, w: int) -> int {
        self.center_x - Self::half_extent_world(self.tile_scale_num(tile_px), w)
    }

    /// Northmost world coordinate the window sees under the tile scale.
    pub open spec fn grid_top(self, tile_px: int, h: int) -> int {
        self.center_y - Self::half_extent_world(self.tile_scale_num(tile_px), h)
    }

    /// First (unwrapped) tile column of the grid, one column of padding
    /// before the first visible one.
    pub open spec fn grid_t0x(self, tile_px: int, w: int) -> int {
        self.grid_left(tile_px, w) / self.tile_world() - 1
    }

    /// Last (unwrapped) tile column of the grid, one column of padding after
    /// the last visible one.
    pub open spec fn grid_t1x(self, tile_px: int, w: int) -> int {
        (self.center_x + Self::half_extent_world(self.tile_scale_num(tile_px), w))
            / self.tile_world() + 1
    }

    /// First (unwrapped) tile row of the grid.
    pub open spec fn grid_t0y(self, tile_px: int, h: int) -> int {
        self.grid_top(tile_px, h) / self.tile_world() - 1
    }

    /// Last (unwrapped) tile row of the grid.
    pub open spec fn grid_t1y(self, tile_px: int, h: int) -> int {
        (self.center_y + Self::half_extent_world(self.tile_scale_num(tile_px), h))
            / self.tile_world() + 1
    }

    /// A fixed-point world offset turned into micro-pixels at `scale_num`
    /// milli-pixels per world unit.
    pub open spec fn micro_px_of_world(delta: int, scale_num: int) -> int {
        delta * scale_num * 1000 / (WORLD_ONE as int)
    }

    /// The tile grid that covers the window at the camera's whole zoom level:
    /// every visible tile plus one tile of padding on each edge, enumerated
    /// column-major, with x and y wrapped into `[0, 2^zoom)`.
    pub fn tile_iter(&self, tile_px: u32, width_px: u32, height_px: u32) -> (grid: TileGrid)
        requires
            self.wf(),
            16 <= tile_px <= 4096,
            1 <= width_px <= 16384,
            1 <= height_px <= 16384,
        ensures
            grid.wf(),
            grid.zoom == self.zoom_whole(),
            grid.tile_size == tile_px as int * (1000 + self.zoom_frac()) * 1000,
            grid.half_w == width_px as int * 500000,
            grid.half_h == height_px as int * 500000,
            grid.offset_x == Self::micro_px_of_world(
                self.grid_t0x(tile_px as int, width_px as int) * self.tile_world() - self.grid_left(
                    tile_px as int,
                    width_px as int,
                ),
                self.tile_scale_num(tile_px as int),
            ),
            grid.offset_y == Self::micro_px_of_world(
                self.grid_t0y(tile_px as int, height_px as int) * self.tile_world()
                    - self.grid_top(tile_px as int, height_px as int),
                self.tile_scale_num(tile_px as int),
            ),
            grid.tiles_vertically == self.grid_t1y(tile_px as int, height_px as int) - self.grid_t0y(
                tile_px as int,
                height_px as int,
            ) + 1,
            grid.col0 == self.grid_t0x(tile_px as int, width_px as int),
            grid.col1 == self.grid_t1x(tile_px as int, width_px as int),
            grid.row0 == self.grid_t0y(tile_px as int, height_px as int),
            grid.row1 == self.grid_t1y(tile_px as int, height_px as int),
            grid.coords@.len() == (self.grid_t1x(tile_px as int, width_px as int) - self.grid_t0x(
                tile_px as int,
                width_px as int,
            ) + 1) * (grid.tiles_vertically as int),
            forall|i: int|
                0 <= i < grid.coords@.len() ==> #[trigger] grid.coords@[i].0 == (self.grid_t0x(
                    tile_px as int,
                    width_px as int,
                ) + i / (grid.tiles_vertically as int)) % pow2(self.zoom_whole() as nat) as int,
            forall|i: int|
                0 <= i < grid.coords@.len() ==> #[trigger] grid.coords@[i].1 == (self.grid_t0y(
                    tile_px as int,
                    height_px as int,
                ) + i % (grid.tiles_vertically as int)) % pow2(self.zoom_whole() as nat) as int,
    {
        let k: u32 = self.zoom_milli / 1000;
        let f: u32 = self.zoom_milli % 1000;
        proof {
            lemma_div_is_ordered(self.zoom_milli as int, 20000, 1000);
            vstd::arithmetic::div_mod::lemma_div_by_multiple(20, 1000);
            lemma_div_pos_is_pos(self.zoom_milli as int, 1000);
            lemma_mod_bound(self.zoom_milli as int, 1000);
            assert(k <= 20);
        }
        let p2k: u64 = pow2_u64(k);
        let twu: u64 = pow2_u64(32 - k);
        proof {
            lemma2_to64();
            if k < 20 {
                lemma_pow2_strictly_increases(k as nat, 20);
            }
            if 32 - k < 32 {
                lemma_pow2_strictly_increases((32 - k) as nat, 32);
            }
            assert(1 <= p2k <= 0x100000);
            assert(1 <= twu <= 0x1_0000_0000);
            if 12 < 32 - k {
                lemma_pow2_strictly_increases(12, (32 - k) as nat);
            }
            assert(0x1000 <= twu);
        }
        let tw: i64 = twu as i64;
        let ts: u64 = {
            proof {
                assert(16 <= (tile_px as int) * (p2k as int) <= 4096 * 0x100000)
                    by (nonlinear_arith)
                    requires
                        16 <= tile_px <= 4096,
                        1 <= p2k <= 0x100000,
                ;
                assert((tile_px as int) * (p2k as int) * (1000 + f as int) <= 4096 * 0x100000
                    * 2000) by (nonlinear_arith)
                    requires
                        16 <= (tile_px as int) * (p2k as int) <= 4096 * 0x100000,
                        0 <= f < 1000,
                ;
            }
            (tile_px as u64) * p2k * (1000 + f as u64)
        };
        proof {
            assert(ts == self.tile_scale_num(tile_px as int));
            assert(16000 <= ts) by (nonlinear_arith)
                requires
                    16 <= (tile_px as int) * (p2k as int),
                    1000 <= 1000 + (f as int),
                    ts == (tile_px as int) * (p2k as int) * (1000 + f as int),
            ;
            lemma_pow2_adds(k as nat, (32 - k) as nat);
            assert((tw as int) * (ts as int) == (tile_px as int) * (1000 + f as int)
                * 0x1_0000_0000) by (nonlinear_arith)
                requires
                    (p2k as int) * (tw as int) == 0x1_0000_0000,
                    ts == (tile_px as int) * (p2k as int) * (1000 + f as int),
            ;
            assert((tw as int) * (ts as int) <= 0x80_0000 * (WORLD_ONE as int))
                by (nonlinear_arith)
                requires
                    (tw as int) * (ts as int) == (tile_px as int) * (1000 + f as int)
                        * 0x1_0000_0000,
                    tile_px <= 4096,
                    f < 1000,
                    WORLD_ONE == 0x1_0000_0000,
            ;
        }
        let wo: u64 = WORLD_ONE as u64;
        proof {
            assert(width_px as int * wo as int <= 16384 * 0x1_0000_0000) by (nonlinear_arith)
                requires
                    width_px <= 16384,
                    wo == 0x1_0000_0000,
            ;
            assert(height_px as int * wo as int <= 16384 * 0x1_0000_0000) by (nonlinear_arith)
                requires
                    height_px <= 16384,
                    wo == 0x1_0000_0000,
            ;
        }
        let hww: u64 = (width_px as u64 * wo * 500) / ts;
        let hhw: u64 = (height_px as u64 * wo * 500) / ts;
        proof {
            lemma_div_nonincreasing(width_px as int * wo as int * 500, ts as int);
            lemma_div_nonincreasing(height_px as int * wo as int * 500, ts as int);
            lemma_div_pos_is_pos(width_px as int * wo as int * 500, ts as int);
            lemma_div_pos_is_pos(height_px as int * wo as int * 500, ts as int);
            assert(2 * (width_px as int) * 500 * (WORLD_ONE as int) <= 1024 * ((tw as int) * (
            ts as int))) by (nonlinear_arith)
                requires
                    (tw as int) * (ts as int) == (tile_px as int) * (1000 + f as int)
                        * 0x1_0000_0000,
                    width_px <= 16384,
                    tile_px >= 16,
                    f >= 0,
                    WORLD_ONE == 0x1_0000_0000,
            ;
            assert(2 * (height_px as int) * 500 * (WORLD_ONE as int) <= 1024 * ((tw as int) * (
            ts as int))) by (nonlinear_arith)
                requires
                    (tw as int) * (ts as int) == (tile_px as int) * (1000 + f as int)
                        * 0x1_0000_0000,
                    height_px <= 16384,
                    tile_px >= 16,
                    f >= 0,
                    WORLD_ONE == 0x1_0000_0000,
            ;
            Self::lemma_half_span_fits(width_px as int, ts as int, tw as int, hww as int);
            Self::lemma_half_span_fits(height_px as int, ts as int, tw as int, hhw as int);
        }
        let left: i64 = self.center_x - hww as i64;
        let right: i64 = self.center_x + hww as i64;
        let top: i64 = self.center_y - hhw as i64;
        let bottom: i64 = self.center_y + hhw as i64;
        proof {
            Self::lemma_axis_div_bounds(left as int, tw as int);
            Self::lemma_axis_div_bounds(right as int, tw as int);
            Self::lemma_axis_div_bounds(top as int, tw as int);
            Self::lemma_axis_div_bounds(bottom as int, tw as int);
        }
        let t0x: i64 = floor_div_i64(left, tw) - 1;
        let t1x: i64 = floor_div_i64(right, tw) + 1;
        let t0y: i64 = floor_div_i64(top, tw) - 1;
        let t1y: i64 = floor_div_i64(bottom, tw) + 1;
        proof {
            lemma_div_is_ordered(left as int, right as int, tw as int);
            lemma_div_is_ordered(top as int, bottom as int, tw as int);
            Self::lemma_span_tile_count(left as int, right as int, tw as int);
            Self::lemma_span_tile_count(top as int, bottom as int, tw as int);
        }
        let count_x: i64 = t1x - t0x + 1;
        let count_y: i64 = t1y - t0y + 1;
        let size: i64 = (tile_px as i64) * (1000 + f as i64) * 1000;
        proof {
            assert(16000 <= tile_px as int * (1000 + f as int) < 4096 * 2000) by (nonlinear_arith)
                requires
                    16 <= tile_px <= 4096,
                    0 <= f < 1000,
            ;
        }
        let offset_x: i64 = Self::world_to_micro_px_exec(t0x, tw, left, ts);
        let offset_y: i64 = Self::world_to_micro_px_exec(t0y, tw, top, ts);
        let mut coords: Vec<(u32, u32)> = Vec::new();
        let mut cx: i64 = 0;
        while cx < count_x
            invariant
                0 <= cx <= count_x,
                3 <= count_x <= 1028,
                3 <= count_y <= 1028,
                -0x8000_0000 < t0x < 0x8000_0000,
                -0x8000_0000 < t0y < 0x8000_0000,
                1 <= p2k <= 0x100000,
                p2k == pow2(k as nat),
                coords@.len() == cx * count_y,
                forall|i: int|
                    0 <= i < coords@.len() ==> #[trigger] coords@[i].0 == (t0x as int + i / (
                    count_y as int)) % p2k as int && coords@[i].1 == (t0y as int + i % (
                    count_y as int)) % p2k as int,
            decreases count_x - cx,
        {
            let mut cy: i64 = 0;
            while cy < count_y
                invariant
                    0 <= cy <= count_y,
                    0 <= cx < count_x,
                    3 <= count_x <= 1028,
                    3 <= count_y <= 1028,
                    -0x8000_0000 < t0x < 0x8000_0000,
                    -0x8000_0000 < t0y < 0x8000_0000,
                    1 <= p2k <= 0x100000,
                    p2k == pow2(k as nat),
                    coords@.len() == cx * count_y + cy,
                    forall|i: int|
                        0 <= i < coords@.len() ==> #[trigger] coords@[i].0 == (t0x as int + i / (
                        count_y as int)) % p2k as int && coords@[i].1 == (t0y as int + i % (
                        count_y as int)) % p2k as int,
                decreases count_y - cy,
            {
                let ex: i64 = euclid_mod_i64(t0x + cx, p2k as i64);
                let ey: i64 = euclid_mod_i64(t0y + cy, p2k as i64);
                let ghost before = coords@;
                coords.push((ex as u32, ey as u32));
                proof {
                    let cyi = count_y as int;
                    let i0 = cx as int * cyi + cy as int;
                    lemma_fundamental_div_mod_converse(i0, cyi, cx as int, cy as int);
                    assert forall|i: int|
                        0 <= i < coords@.len() implies #[trigger] coords@[i].0 == (t0x as int + i
                        / cyi) % p2k as int && coords@[i].1 == (t0y as int + i % cyi)
                        % p2k as int by {
                        if i < i0 {
                            assert(coords@[i] == before[i]);
                            assert(before[i].0 == (t0x as int + i / cyi) % p2k as int
                                && before[i].1 == (t0y as int + i % cyi) % p2k as int);
                        } else {
                            assert(i == i0);
                            assert(coords@[i] == ((ex as u32), (ey as u32)));
                        }
                    }
                }
                cy = cy + 1;
                proof {
                    assert(coords@.len() == cx * count_y + cy);
                }
            }
            cx = cx + 1;
            proof {
                assert(cx as int * count_y as int == (cx as int - 1) * count_y as int
                    + count_y as int) by (nonlinear_arith);
            }
        }
        proof {
            assert(coords@.len() == count_x * count_y);
            assert(count_x as int * count_y as int <= 1028 * 1028) by (nonlinear_arith)
                requires
                    3 <= count_x <= 1028,
                    3 <= count_y <= 1028,
            ;
            assert forall|i: int|
                0 <= i < coords@.len() implies (#[trigger] coords@[i].0 < pow2(k as nat)
                && coords@[i].1 < pow2(k as nat)) by {
                lemma_mod_bound(t0x as int + i / (count_y as int), p2k as int);
                lemma_mod_bound(t0y as int + i % (count_y as int), p2k as int);
            }
            assert(k as int == self.zoom_whole());
            assert(t0x as int == self.grid_t0x(tile_px as int, width_px as int));
            assert(t0y as int == self.grid_t0y(tile_px as int, height_px as int));
            assert(count_y as int == self.grid_t1y(tile_px as int, height_px as int)
                - self.grid_t0y(tile_px as int, height_px as int) + 1);
            assert(p2k as int == pow2(self.zoom_whole() as nat) as int);
        }
        let grid = TileGrid {
            tile_size: size,
            offset_x,
            offset_y,
            half_w: (width_px as i64) * 500000,
            half_h: (height_px as i64) * 500000,
            zoom: k,
            col0: t0x,
            col1: t1x,
            row0: t0y,
            row1: t1y,
            tiles_vertically: count_y as usize,
            coords,
        };
        proof {
            let tv = grid.tiles_vertically as int;
            assert(tv == count_y as int);
            assert forall|i: int|
                0 <= i < grid.coords@.len() implies #[trigger] grid.coords@[i].0 == (
            self.grid_t0x(tile_px as int, width_px as int) + i / tv) % pow2(
                self.zoom_whole() as nat,
            ) as int by {
                assert(grid.coords@[i].0 == (t0x as int + i / (count_y as int)) % p2k as int);
            }
            assert forall|i: int|
                0 <= i < grid.coords@.len() implies #[trigger] grid.coords@[i].1 == (
            self.grid_t0y(tile_px as int, height_px as int) + i % tv) % pow2(
                self.zoom_whole() as nat,
            ) as int by {
                assert(grid.coords@[i].0 == (t0x as int + i / (count_y as int)) % p2k as int);
                assert(grid.coords@[i].1 == (t0y as int + i % (count_y as int)) % p2k as int);
            }
        }
        grid
    }

    /// The half window extent under the tile scale fits comfortably, and the
    /// window spans at most 1024 tiles plus padding.
    proof fn lemma_half_span_fits(px: int, ts: int, tw: int, half: int)
        requires
            1 <= px <= 16384,
            16000 <= ts,
            1 <= tw <= 0x1_0000_0000,
            half == px * (WORLD_ONE as int) * 500 / ts,
            2 * px * 500 * (WORLD_ONE as int) <= 1024 * (tw * ts),
        ensures
            0 <= half <= 0x4000_0000_0000,
            2 * half <= 1024 * tw,
    {
        lemma_div_pos_is_pos(px * (WORLD_ONE as int) * 500, ts);
        lemma_fundamental_div_mod(px * (WORLD_ONE as int) * 500, ts);
        lemma_mod_bound(px * (WORLD_ONE as int) * 500, ts);
        assert(half * ts <= px * (WORLD_ONE as int) * 500) by (nonlinear_arith)
            requires
                px * (WORLD_ONE as int) * 500 == ts * half + (px * (WORLD_ONE as int) * 500) % ts,
                0 <= (px * (WORLD_ONE as int) * 500) % ts,
        ;
        assert(half <= 0x4000_0000_0000 && 2 * half <= 1024 * tw) by (nonlinear_arith)
            requires
                half * ts <= px * (WORLD_ONE as int) * 500,
                2 * px * 500 * (WORLD_ONE as int) <= 1024 * (tw * ts),
                px <= 16384,
                WORLD_ONE == 0x1_0000_0000,
                ts >= 16000,
                half >= 0,
        ;
    }

    /// A window edge sits within half a kilotile of the world square, so its
    /// tile index is small.
    proof fn lemma_axis_div_bounds(edge: int, tw: int)
        requires
            0x1000 <= tw <= 0x1_0000_0000,
            -0x200 * tw <= edge <= 0x1_0000_0000 + 0x200 * tw,
        ensures
            -0x200 <= edge / tw <= 0x100200,
    {
        lemma_div_is_ordered(-0x200 * tw, edge, tw);
        lemma_div_is_ordered(edge, 0x1_0000_0000 + 0x200 * tw, tw);
        vstd::arithmetic::div_mod::lemma_div_multiples_vanish(-0x200, tw);
        assert(0x1_0000_0000 + 0x200 * tw <= tw * 0x100200) by (nonlinear_arith)
            requires
                tw >= 0x1000,
        ;
        lemma_div_is_ordered(0x1_0000_0000 + 0x200 * tw, tw * 0x100200, tw);
        vstd::arithmetic::div_mod::lemma_div_multiples_vanish(0x100200, tw);
    }

    /// A window span of at most `1024` tiles yields at most `1028` grid
    /// columns, padding included.
    proof fn lemma_span_tile_count(a: int, b: int, tw: int)
        requires
            tw >= 1,
            0 <= b - a <= 1024 * tw,
        ensures
            b / tw - a / tw <= 1025,
    {
        lemma_fundamental_div_mod(a, tw);
        lemma_fundamental_div_mod(b, tw);
        lemma_mod_bound(a, tw);
        lemma_mod_bound(b, tw);
        assert(b / tw - a / tw <= 1025) by (nonlinear_arith)
            requires
                a == tw * (a / tw) + a % tw,
                b == tw * (b / tw) + b % tw,
                0 <= a % tw < tw,
                0 <= b % tw < tw,
                0 <= b - a <= 1024 * tw,
                tw >= 1,
        ;
    }

    /// Micro-pixel offset of the first grid tile's edge from the window edge.
    fn world_to_micro_px_exec(t0: i64, tw: i64, edge: i64, ts: u64) -> (r: i64)
        requires
            1 <= tw <= 0x1_0000_0000,
            16000 <= ts,
            (tw as int) * (ts as int) <= 0x80_0000 * (WORLD_ONE as int),
            t0 == edge as int / tw as int - 1,
            -0x5_0000_0000_0000 <= edge <= 0x5_0000_0000_0000,
        ensures
            r == Self::micro_px_of_world(t0 as int * tw as int - edge as int, ts as int),
            -0x1_0000_0000_0000 < r <= 0,
    {
        proof {
            lemma_fundamental_div_mod(edge as int, tw as int);
            lemma_mod_bound(edge as int, tw as int);
            assert((edge as int / tw as int) * tw as int == edge as int - edge as int % tw as int)
                by (nonlinear_arith)
                requires
                    edge as int == tw as int * (edge as int / tw as int) + edge as int % tw as int,
            ;
            assert((edge as int / tw as int - 1) * tw as int == (edge as int / tw as int)
                * tw as int - tw as int) by (nonlinear_arith);
            assert(ts as int <= (tw as int) * (ts as int)) by (nonlinear_arith)
                requires
                    tw >= 1,
                    ts >= 0,
            ;
        }
        let base: i64 = t0 * tw;
        let delta: i64 = base - edge;
        proof {
            assert(-2 * tw as int <= delta <= -(tw as int));
            lemma_mul_magnitude(
                delta as int,
                ts as int,
                0x2_0000_0001,
                0x80_0000 * (WORLD_ONE as int) + 1,
            );
        }
        let num: i128 = (delta as i128) * (ts as i128) * 1000;
        proof {
            assert((num as int) < 0 && num as int >= -2 * ((tw as int) * (ts as int)) * 1000)
                by (nonlinear_arith)
                requires
                    num as int == (delta as int) * (ts as int) * 1000,
                    -2 * (tw as int) <= (delta as int) <= -(tw as int),
                    tw >= 1,
                    ts as int >= 1,
            ;
        }
        let q: i128 = floor_div_i128(num, WORLD_ONE as i128);
        proof {
            let w = WORLD_ONE as int;
            lemma_fundamental_div_mod(num as int, w);
            lemma_mod_bound(num as int, w);
            assert(-0x1_0000_0000_0000 < q as int && q as int <= 0) by (nonlinear_arith)
                requires
                    num as int == w * (q as int) + (num as int) % w,
                    0 <= (num as int) % w < w,
                    (num as int) < 0,
                    num as int >= -2 * ((tw as int) * (ts as int)) * 1000,
                    (tw as int) * (ts as int) <= 0x80_0000 * w,
                    w == 0x1_0000_0000,
            ;
        }
        q as i64
    }
}

/// The tile grid one frame draws: the displayed tile size and screen offsets
/// in micro-pixels, the whole zoom level, the unwrapped column and row span,
/// and the wrapped tile coordinates in column-major order (`coords[i]` sits
/// in column `i / tiles_vertically`, row `i % tiles_vertically`).
pub struct TileGrid {
    pub tile_size: i64,
    pub offset_x: i64,
    pub offset_y: i64,
    pub half_w: i64,
    pub half_h: i64,
    pub zoom: u32,
    pub col0: i64,
    pub col1: i64,
    pub row0: i64,
    pub row1: i64,
    pub tiles_vertically: usize,
    pub coords: Vec<(u32, u32)>,
}

impl TileGrid {
    /// Every coordinate fits its zoom level and all sizes stay in the ranges
    /// the renderer's arithmetic needs.
    pub open spec fn wf(self) -> bool {
        &&& self.zoom <= MAX_ZOOM
        &&& 1 <= self.tiles_vertically <= 1028
        &&& self.coords@.len() <= 0x200000
        &&& 16000000 <= self.tile_size <= 0x2_0000_0000
        &&& -0x1_0000_0000_0000 < self.offset_x <= 0
        &&& -0x1_0000_0000_0000 < self.offset_y <= 0
        &&& 0 <= self.half_w <= 0x4_0000_0000
        &&& 0 <= self.half_h <= 0x4_0000_0000
        &&& -0x202 <= self.col0 <= self.col1 <= 0x100202
        &&& -0x202 <= self.row0 <= self.row1 <= 0x100202
        &&& 3 <= self.col1 - self.col0 + 1 <= 1028
        &&& self.tiles_vertically == self.row1 - self.row0 + 1
        &&& self.coords@.len() == (self.col1 - self.col0 + 1) * (self.tiles_vertically as int)
        &&& forall|i: int|
            0 <= i < self.coords@.len() ==> (#[trigger] self.coords@[i].0 < pow2(self.zoom as nat)
                && self.coords@[i].1 < pow2(self.zoom as nat))
    }
}

} // verus!
