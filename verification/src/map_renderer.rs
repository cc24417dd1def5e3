//! Screen-space rendering math: projecting world coordinates to pixel
//! positions, choosing the spacing of the latitude/longitude grid, and the
//! fallback compositor that covers the viewport with the finest cached
//! tiles available, substituting ancestors where fine tiles are missing.

use vstd::prelude::*;

verus! {

use vstd::arithmetic::power2::{pow2, lemma_pow2_strictly_increases, lemma2_to64};
use vstd::arithmetic::div_mod::{
    lemma_div_is_ordered,
    lemma_div_multiples_vanish,
    lemma_div_of0,
    lemma_fundamental_div_mod_converse,
    lemma_mod_bound,
};
use crate::map::{TileGrid, WorldViewport};
use crate::tile::{TileId, TilePipeline};
use crate::util::{remap_spec, pow10, lemma_pow10_bounded, lemma_pow10_values, pow10_u64};
use crate::MAX_ZOOM;

/// The remap stays within three spans of the target interval when the
/// input stays within two spans of the source interval.
proof fn lemma_remap_bounded(a: int, b: int, v: int, c: int, d: int)
    requires
        a < b,
        a - 2 * (b - a) <= v <= b + 2 * (b - a),
    ensures
        (d >= c ==> c - 3 * (d - c) <= remap_spec(a, b, v, c, d) <= c + 3 * (d - c)),
        (d < c ==> c + 3 * (d - c) <= remap_spec(a, b, v, c, d) <= c - 3 * (d - c)),
{
    let s = b - a;
    if d >= c {
        assert((v - a) * (d - c) <= s * (3 * (d - c)) && (v - a) * (d - c) >= s * (-3 * (d - c)))
            by (nonlinear_arith)
            requires
                -(2 * s) <= v - a <= 3 * s,
                d - c >= 0,
                s > 0,
        ;
        lemma_div_is_ordered((v - a) * (d - c), s * (3 * (d - c)), s);
        lemma_div_is_ordered(s * (-3 * (d - c)), (v - a) * (d - c), s);
        lemma_div_multiples_vanish(3 * (d - c), s);
        lemma_div_multiples_vanish(-3 * (d - c), s);
    } else {
        assert((v - a) * (d - c) >= s * (3 * (d - c)) && (v - a) * (d - c) <= s * (-3 * (d - c)))
            by (nonlinear_arith)
            requires
                -(2 * s) <= v - a <= 3 * s,
                d - c < 0,
                s > 0,
        ;
        lemma_div_is_ordered(s * (3 * (d - c)), (v - a) * (d - c), s);
        lemma_div_is_ordered((v - a) * (d - c), s * (-3 * (d - c)), s);
        lemma_div_multiples_vanish(3 * (d - c), s);
        lemma_div_multiples_vanish(-3 * (d - c), s);
    }
}

/// Projects a world x location through the viewport onto the horizontal
/// pixel axis: the viewport's left edge lands on `-width/2`, its right edge
/// on `+width/2` (micro-pixels, origin at the screen center, x to the
/// right).
pub fn world_x_to_pixel_x(world_x: i64, viewport: &WorldViewport, window_width_px: u32) -> (r: i64)
    requires
        viewport.top_left.x < viewport.bottom_right.x,
        1 <= window_width_px <= 65536,
        -0x4_0000_0000_0000 <= viewport.top_left.x,
        viewport.bottom_right.x <= 0x4_0000_0000_0000,
        viewport.top_left.x - 2 * (viewport.bottom_right.x - viewport.top_left.x) <= world_x,
        world_x <= viewport.bottom_right.x + 2 * (viewport.bottom_right.x
            - viewport.top_left.x),
    ensures
        r == remap_spec(
            viewport.top_left.x as int,
            viewport.bottom_right.x as int,
            world_x as int,
            -(window_width_px as int * 500000),
            window_width_px as int * 500000,
        ),
        world_x == viewport.top_left.x ==> r == -(window_width_px as int) * 500000,
        world_x == viewport.bottom_right.x ==> r == window_width_px as int * 500000,
{
    let hw: i64 = (window_width_px as i64) * 500000;
    proof {
        lemma_remap_bounded(
            viewport.top_left.x as int,
            viewport.bottom_right.x as int,
            world_x as int,
            -(hw as int),
            hw as int,
        );
    }
    crate::util::map(viewport.top_left.x, viewport.bottom_right.x, world_x, -hw, hw)
}

/// Projects a world y location through the viewport onto the vertical pixel
/// axis: the viewport's top edge lands on `+height/2`, its bottom edge on
/// `-height/2` (micro-pixels, origin at the screen center, y upward).
pub fn world_y_to_pixel_y(world_y: i64, viewport: &WorldViewport, window_height_px: u32) -> (r:
    i64)
    requires
        viewport.top_left.y < viewport.bottom_right.y,
        1 <= window_height_px <= 65536,
        -0x4_0000_0000_0000 <= viewport.top_left.y,
        viewport.bottom_right.y <= 0x4_0000_0000_0000,
        viewport.top_left.y - 2 * (viewport.bottom_right.y - viewport.top_left.y) <= world_y,
        world_y <= viewport.bottom_right.y + 2 * (viewport.bottom_right.y
            - viewport.top_left.y),
    ensures
        r == remap_spec(
            viewport.top_left.y as int,
            viewport.bottom_right.y as int,
            world_y as int,
            window_height_px as int * 500000,
            -(window_height_px as int * 500000),
        ),
        world_y == viewport.top_left.y ==> r == window_height_px as int * 500000,
        world_y == viewport.bottom_right.y ==> r == -(window_height_px as int) * 500000,
{
    let hh: i64 = (window_height_px as i64) * 500000;
    proof {
        lemma_remap_bounded(
            viewport.top_left.y as int,
            viewport.bottom_right.y as int,
            world_y as int,
            hh as int,
            -(hh as int),
        );
    }
    crate::util::map(viewport.top_left.y, viewport.bottom_right.y, world_y, hh, -hh)
}

/// Projecting the viewport's own edges yields exactly the window edges: the
/// left edge of the viewport maps to `-width/2` and the right edge to
/// `+width/2`, whatever camera produced the viewport.
pub proof fn lemma_viewport_projection_roundtrip(vp: WorldViewport, w: int)
    requires
        vp.top_left.x < vp.bottom_right.x,
        1 <= w <= 65536,
    ensures
        remap_spec(
            vp.top_left.x as int,
            vp.bottom_right.x as int,
            vp.top_left.x as int,
            -(w * 500000),
            w * 500000,
        ) == -(w * 500000),
        remap_spec(
            vp.top_left.x as int,
            vp.bottom_right.x as int,
            vp.bottom_right.x as int,
            -(w * 500000),
            w * 500000,
        ) == w * 500000,
{
    let a = vp.top_left.x as int;
    let b = vp.bottom_right.x as int;
    let c = -(w * 500000);
    let d = w * 500000;
    assert((a - a) * (d - c) == 0) by (nonlinear_arith);
    lemma_div_of0(b - a);
    lemma_div_multiples_vanish(d - c, b - a);
}

/// Whether `k >= 0` is the scale exponent of the mapped range `n / d2`:
/// `n * 10^k` still fits under `d2` but `n * 10^(k+1)` does not. For
/// `1 <= n <= d2` exactly one such `k` exists (`lemma_grat_k_unique`).
pub open spec fn grat_k_ok(n: int, d2: int, k: int) -> bool {
    &&& 0 <= k
    &&& n * pow10(k) <= d2
    &&& n * pow10(k + 1) > d2
}

/// The scale exponent is unique.
pub proof fn lemma_grat_k_unique(n: int, d2: int, k1: int, k2: int)
    requires
        n >= 1,
        grat_k_ok(n, d2, k1),
        grat_k_ok(n, d2, k2),
    ensures
        k1 == k2,
{
    if k1 < k2 {
        lemma_pow10_monotonic_mul(n, k1 + 1, k2);
        assert(false);
    }
    if k2 < k1 {
        lemma_pow10_monotonic_mul(n, k2 + 1, k1);
        assert(false);
    }
}

/// Larger exponents give larger scaled values.
proof fn lemma_pow10_monotonic_mul(n: int, e1: int, e2: int)
    requires
        n >= 1,
        0 <= e1 <= e2,
    ensures
        n * pow10(e1) <= n * pow10(e2),
{
    lemma_pow10_bounded(e1, e2);
    assert(n * pow10(e1) <= n * pow10(e2)) by (nonlinear_arith)
        requires
            n >= 1,
            0 < pow10(e1) <= pow10(e2),
    ;
}

/// The spacing chosen on the logarithmic scale once the exponent `k` is
/// known: with `m` the mapped range scaled into `(1, 10]` as the fraction
/// `nn / dd`, the mantissa is `0.5` when `m` is at least `10^(1/2)`
/// (`m^2 >= 10`), `0.2` when `m` is at least `10^(1/5)` (`m^5 >= 10`), and
/// `0.1` otherwise — including when `m` is exactly `10`, where the
/// fractional part of the logarithm is zero. The result is
/// `mantissa * 10^(1-k)` degrees, in micro-degrees.
pub open spec fn grat_log_spacing(range: int, axis: int, k: int) -> int {
    let nn = if k == 0 {
        range * 9
    } else {
        range * 9 * pow10(k - 1)
    };
    let dd = if k == 0 {
        axis * 20
    } else {
        axis * 2
    };
    if nn == 10 * dd {
        pow10(5 - k)
    } else if nn * nn >= 10 * (dd * dd) {
        5 * pow10(5 - k)
    } else if nn * nn * nn * nn * nn >= 10 * (dd * dd * dd * dd * dd) {
        2 * pow10(5 - k)
    } else {
        pow10(5 - k)
    }
}

/// How many micro-degrees separate two grid lines, for a viewport spanning
/// `range_micro_world` micro-world-units on an axis of `axis_px` pixels.
/// The mapped range is `range * 180 * 500 / axis_px` degrees. The first of
/// the nice distances 45, 15, 5, 2, 1 that keeps `mapped > 2 * distance` is
/// used; when none fits, the spacing comes from the logarithmic scale
/// (`grat_log_spacing`).
pub fn line_distance_for_viewport_degrees(range_micro_world: u64, axis_px: u32) -> (spacing: u64)
    requires
        1 <= range_micro_world <= 4_000_000,
        1 <= axis_px <= 65536,
        range_micro_world * 45000 > axis_px,
    ensures
        ({
            let n = range_micro_world as int * 90000;
            let d = axis_px as int * 1000000;
            &&& (n > 90 * d ==> spacing == 45_000_000)
            &&& (n <= 90 * d && n > 30 * d ==> spacing == 15_000_000)
            &&& (n <= 30 * d && n > 10 * d ==> spacing == 5_000_000)
            &&& (n <= 10 * d && n > 4 * d ==> spacing == 2_000_000)
            &&& (n <= 4 * d && n > 2 * d ==> spacing == 1_000_000)
            &&& (n <= 2 * d ==> ((exists|k: int| #[trigger] grat_k_ok(n, 2 * d, k)) && (forall|
            k: int|
                #[trigger] grat_k_ok(n, 2 * d, k) ==> spacing == grat_log_spacing(
                    range_micro_world as int,
                    axis_px as int,
                    k,
                ))))
        }),
        1 <= spacing <= 45_000_000,
{
    let n: u64 = range_micro_world * 90000;
    let d: u64 = (axis_px as u64) * 1000000;
    if n > 90 * d {
        return 45_000_000;
    }
    if n > 30 * d {
        return 15_000_000;
    }
    if n > 10 * d {
        return 5_000_000;
    }
    if n > 4 * d {
        return 2_000_000;
    }
    if n > 2 * d {
        return 1_000_000;
    }
    let d2: u64 = 2 * d;
    let mut k: u32 = 0;
    let mut p: u64 = 1;
    proof {
        lemma_pow10_values();
        assert(n as int * pow10(6) > d2 as int) by (nonlinear_arith)
            requires
                range_micro_world as u64 * 45000 > axis_px as u64,
                n == range_micro_world as int * 90000,
                d2 == 2 * (axis_px as int * 1000000),
                pow10(6) == 1000000,
        ;
    }
    while (n as u128) * (p as u128) * 10 <= d2 as u128
        invariant
            p == pow10(k as int),
            n as int * pow10(k as int) <= d2,
            n as int * pow10(6) > d2,
            k <= 5,
            n >= 1,
            d2 >= 2000000,
            n as int == range_micro_world as int * 90000,
            d2 as int == 2 * (axis_px as int * 1000000),
            1 <= range_micro_world <= 4_000_000,
            1 <= axis_px <= 65536,
        decreases 6 - k,
    {
        proof {
            lemma_pow10_values();
            if k >= 5 {
                assert(n as int * pow10(6) == (n as int * pow10(5)) * 10) by (nonlinear_arith)
                    requires
                        pow10(6) == 10 * pow10(5),
                ;
                assert(false);
            }
            lemma_pow10_bounded(k as int, 5);
            assert(n as int * pow10(k as int + 1) == (n as int * pow10(k as int)) * 10)
                by (nonlinear_arith)
                requires
                    pow10(k as int + 1) == 10 * pow10(k as int),
            ;
        }
        p = p * 10;
        k = k + 1;
    }
    proof {
        lemma_pow10_values();
        assert(n as int * pow10(k as int + 1) == (n as int * pow10(k as int)) * 10)
            by (nonlinear_arith)
            requires
                pow10(k as int + 1) == 10 * pow10(k as int),
        ;
        assert(grat_k_ok(n as int, d2 as int, k as int));
    }
    let (nn, dd): (u64, u64) = if k == 0 {
        (range_micro_world * 9, (axis_px as u64) * 20)
    } else {
        proof {
            lemma_pow10_bounded(k as int - 1, 4);
            assert(range_micro_world as int * 9 * pow10(k as int - 1) <= 4_000_000 * 9 * 10000)
                by (nonlinear_arith)
                requires
                    1 <= range_micro_world <= 4_000_000,
                    0 < pow10(k as int - 1) <= 10000,
            ;
        }
        (range_micro_world * 9 * pow10_u64(k - 1), (axis_px as u64) * 2)
    };
    proof {
        lemma_grat_reduced_bound(
            range_micro_world as int,
            axis_px as int,
            k as int,
            nn as int,
            dd as int,
        );
    }
    proof {
        assert((nn as int) * (nn as int) <= 13107200 * 13107200 && (dd as int) * (dd as int)
            <= 1310720 * 1310720) by (nonlinear_arith)
            requires
                1 <= nn <= 13107200,
                1 <= dd <= 1310720,
        ;
    }
    let mant: u64 = if nn == 10 * dd {
        1
    } else {
        let nn2: u128 = (nn as u128) * (nn as u128);
        let dd2: u128 = (dd as u128) * (dd as u128);
        if nn2 >= 10 * dd2 {
            5
        } else {
            proof {
                assert((nn2 as int) * (nn2 as int) < 0x10_0000_0000_0000_0000_0000_0000 && (
                dd2 as int) * (dd2 as int) < 0x10_0000_0000_0000_0000_0000 && (nn2 as int) * (
                nn2 as int) * (nn as int) < 0x1000_0000_0000_0000_0000_0000_0000_0000 && (
                dd2 as int) * (dd2 as int) * (dd as int) < 0x1000_0000_0000_0000_0000_0000_0000)
                    by (nonlinear_arith)
                    requires
                        1 <= nn <= 13107200,
                        1 <= dd <= 1310720,
                        nn2 == (nn as int) * (nn as int),
                        dd2 == (dd as int) * (dd as int),
                ;
            }
            let nn5: u128 = nn2 * nn2 * (nn as u128);
            let dd5: u128 = dd2 * dd2 * (dd as u128);
            proof {
                assert(nn5 as int == (nn as int) * (nn as int) * (nn as int) * (nn as int) * (
                nn as int) && dd5 as int == (dd as int) * (dd as int) * (dd as int) * (dd as int)
                    * (dd as int)) by (nonlinear_arith)
                    requires
                        nn2 == (nn as int) * (nn as int),
                        dd2 == (dd as int) * (dd as int),
                        nn5 == (nn2 as int) * (nn2 as int) * (nn as int),
                        dd5 == (dd2 as int) * (dd2 as int) * (dd as int),
                ;
            }
            if nn5 >= 10 * dd5 {
                2
            } else {
                1
            }
        }
    };
    proof {
        lemma_pow10_bounded(5 - k as int, 5);
        lemma_pow10_values();
    }
    let spacing: u64 = mant * pow10_u64(5 - k);
    proof {
        assert forall|k2: int| grat_k_ok(n as int, d2 as int, k2) implies spacing
            == grat_log_spacing(range_micro_world as int, axis_px as int, k2) by {
            lemma_grat_k_unique(n as int, d2 as int, k as int, k2);
        }
    }
    spacing
}

/// One pass of the fallback compositor's output: tiles of one zoom level,
/// drawn at `size` micro-pixels, each at a screen position in centered
/// y-up micro-pixel coordinates (`(x, y, tile_x, tile_y)`).
pub struct RenderLayer {
    pub size: i64,
    pub zoom_level: u32,
    pub tiles: Vec<(i64, i64, u32, u32)>,
}

impl RenderLayer {
    pub fn new(size: i64, zoom_level: u32) -> (l: RenderLayer)
        ensures
            l.size == size,
            l.zoom_level == zoom_level,
            l.tiles@.len() == 0,
    {
        RenderLayer { size, zoom_level, tiles: Vec::new() }
    }
}

/// Total number of tiles over a list of layers.
pub open spec fn sum_tiles(layers: Seq<RenderLayer>) -> int
    decreases layers.len(),
{
    if layers.len() == 0 {
        0
    } else {
        layers[0].tiles@.len() + sum_tiles(layers.subrange(1, layers.len() as int))
    }
}

proof fn lemma_sum_push(layers: Seq<RenderLayer>, l: RenderLayer)
    ensures
        sum_tiles(layers.push(l)) == sum_tiles(layers) + l.tiles@.len(),
    decreases layers.len(),
{
    assert(layers.push(l).len() == layers.len() + 1);
    if layers.len() == 0 {
        assert(layers.push(l)[0] == l);
        assert(layers.push(l).subrange(1, 1) =~= Seq::<RenderLayer>::empty());
        assert(sum_tiles(Seq::<RenderLayer>::empty()) == 0);
    } else {
        assert(layers.push(l)[0] == layers[0]);
        assert(layers.push(l).subrange(1, layers.len() as int + 1) =~= layers.subrange(
            1,
            layers.len() as int,
        ).push(l));
        lemma_sum_push(layers.subrange(1, layers.len() as int), l);
    }
}

/// Every tile the grid asks for at its own zoom is cached and ready.
pub open spec fn all_cached(p: TilePipeline, grid: TileGrid) -> bool {
    forall|i: int|
        0 <= i < grid.coords@.len() ==> p.spec_get_tile(
            (TileId {
                x: (#[trigger] grid.coords@[i]).0,
                y: grid.coords@[i].1,
                zoom: grid.zoom,
            }),
        ) is Some
}

/// The cache holds exactly the single zoom-zero tile.
pub open spec fn only_root_cached(p: TilePipeline) -> bool {
    forall|t: TileId| t.wf() ==> (#[trigger] p.spec_get_tile(t) is Some <==> t.zoom == 0)
}

/// Covers the grid with the finest cached tiles available. Starting from
/// the tiles the grid needs at its target zoom, each level resolves the
/// cells whose tile is cached and passes the rest to their parent tiles,
/// positioned so the parent is drawn at double size over the child's cell;
/// cells still unresolved below the root are left undrawn for this frame.
/// Layers come back coarsest first, so fallback tiles never paint over
/// finer ones; a cell is drawn in at most one layer, and in exactly one
/// when the root tile is ready.
pub fn build_render_layers(pipeline: &TilePipeline, grid: &TileGrid) -> (layers: Vec<RenderLayer>)
    requires
        grid.wf(),
    ensures
        forall|li: int|
            0 <= li < layers@.len() ==> (#[trigger] layers@[li]).zoom_level <= grid.zoom
                && layers@[li].tiles@.len() > 0,
        forall|li: int, ti: int|
            0 <= li < layers@.len() && 0 <= ti < layers@[li].tiles@.len() ==> ((
            #[trigger] layers@[li].tiles@[ti]).2 < pow2(layers@[li].zoom_level as nat)
                && layers@[li].tiles@[ti].3 < pow2(layers@[li].zoom_level as nat)
                && pipeline.spec_get_tile(
                (TileId {
                    x: layers@[li].tiles@[ti].2,
                    y: layers@[li].tiles@[ti].3,
                    zoom: layers@[li].zoom_level,
                }),
            ) is Some),
        forall|li: int, lj: int|
            0 <= li < lj < layers@.len() ==> (#[trigger] layers@[li]).zoom_level < (
            #[trigger] layers@[lj]).zoom_level,
        sum_tiles(layers@) <= grid.coords@.len(),
        pipeline.spec_get_tile((TileId { x: 0, y: 0, zoom: 0 })) is Some ==> sum_tiles(layers@)
            == grid.coords@.len(),
        (all_cached(*pipeline, *grid) && grid.coords@.len() > 0) ==> (layers@.len() == 1
            && layers@[0].zoom_level == grid.zoom && layers@[0].tiles@.len()
            == grid.coords@.len()),
        (only_root_cached(*pipeline) && grid.coords@.len() > 0) ==> (layers@.len() == 1
            && layers@[0].zoom_level == 0 && layers@[0].tiles@.len() == grid.coords@.len()),
{
    let tv: usize = grid.tiles_vertically;
    let size0: i64 = grid.tile_size;
    let half0: i64 = ((size0 as u64) / 2) as i64;
    let n: usize = grid.coords.len();
    let ghost h4: bool = all_cached(*pipeline, *grid) && n > 0;
    let ghost h3: bool = only_root_cached(*pipeline) && n > 0;
    let mut missing: Vec<(i64, i64, u32, u32)> = Vec::new();
    let mut i: usize = 0;
    while i < n
        invariant
            grid.wf(),
            i <= n == grid.coords@.len(),
            tv == grid.tiles_vertically,
            size0 == grid.tile_size,
            half0 == size0 as int / 2,
            missing@.len() == i,
            forall|j: int|
                0 <= j < i ==> (#[trigger] missing@[j]).2 == grid.coords@[j].0 && missing@[j].3
                    == grid.coords@[j].1,
            forall|j: int|
                0 <= j < i ==> -0x40_0000_0000_0000 <= (#[trigger] missing@[j]).0
                    <= 0x40_0000_0000_0000 && -0x40_0000_0000_0000 <= missing@[j].1
                    <= 0x40_0000_0000_0000,
        decreases n - i,
    {
        let cx: usize = i / tv;
        let cy: usize = i % tv;
        proof {
            lemma_mod_bound(i as int, tv as int);
            assert(i < (grid.col1 - grid.col0 + 1) * (tv as int));
            assert((grid.col1 - grid.col0 + 1) * (tv as int) == (tv as int) * (grid.col1
                - grid.col0 + 1)) by (nonlinear_arith);
            vstd::arithmetic::div_mod::lemma_multiply_divide_lt(
                i as int,
                tv as int,
                grid.col1 - grid.col0 + 1,
            );
            assert(cx < grid.col1 - grid.col0 + 1);
            assert((cx as int) * (size0 as int) <= 1028 * 0x2_0000_0000 && (cy as int) * (
            size0 as int) <= 1028 * 0x2_0000_0000 && (cx as int) * (size0 as int) >= 0 && (
            cy as int) * (size0 as int) >= 0) by (nonlinear_arith)
                requires
                    0 <= cx <= 1028,
                    0 <= cy <= 1028,
                    0 < size0 <= 0x2_0000_0000,
            ;
        }
        let x: i64 = grid.offset_x + (cx as i64) * size0 + half0 - grid.half_w;
        let y: i64 = grid.half_h - grid.offset_y - (cy as i64) * size0 - half0;
        let c: (u32, u32) = grid.coords[i];
        missing.push((x, y, c.0, c.1));
        i = i + 1;
    }
    let mut z: u32 = grid.zoom;
    let mut size: i64 = size0;
    let mut done: bool = false;
    let mut rev: Vec<RenderLayer> = Vec::new();
    proof {
        lemma2_to64();
        if grid.zoom < MAX_ZOOM {
            lemma_pow2_strictly_increases(grid.zoom as nat, MAX_ZOOM as nat);
        }
        assert(pow2((grid.zoom - grid.zoom) as nat) == 1);
        assert(size as int == grid.tile_size * pow2((grid.zoom - z) as nat)) by (nonlinear_arith)
            requires
                size == grid.tile_size,
                z == grid.zoom,
                pow2((grid.zoom - z) as nat) == 1,
        ;
    }
    while !done
        invariant
            grid.wf(),
            n == grid.coords@.len(),
            z <= grid.zoom <= MAX_ZOOM,
            h4 == (all_cached(*pipeline, *grid) && n > 0),
            h3 == (only_root_cached(*pipeline) && n > 0),
            size as int == grid.tile_size * pow2((grid.zoom - z) as nat),
            0 < size as int <= 0x2_0000_0000 * 0x100000,
            forall|j: int|
                0 <= j < missing@.len() ==> ((#[trigger] missing@[j]).2 < pow2(z as nat)
                    && missing@[j].3 < pow2(z as nat)),
            forall|j: int|
                0 <= j < missing@.len() ==> (-0x40_0000_0000_0000 - 3 * (size as int) <= (
                #[trigger] missing@[j]).0 <= 0x40_0000_0000_0000 + 3 * (size as int)
                    && -0x40_0000_0000_0000 - 3 * (size as int) <= missing@[j].1
                    <= 0x40_0000_0000_0000 + 3 * (size as int)),
            forall|li: int|
                0 <= li < rev@.len() ==> ((#[trigger] rev@[li]).zoom_level <= grid.zoom
                    && rev@[li].tiles@.len() > 0),
            forall|li: int, lj: int|
                0 <= li < lj < rev@.len() ==> (#[trigger] rev@[li]).zoom_level > (
                #[trigger] rev@[lj]).zoom_level,
            !done ==> forall|li: int|
                0 <= li < rev@.len() ==> (#[trigger] rev@[li]).zoom_level > z,
            done ==> forall|li: int|
                0 <= li < rev@.len() ==> (#[trigger] rev@[li]).zoom_level >= z,
            forall|li: int, ti: int|
                0 <= li < rev@.len() && 0 <= ti < rev@[li].tiles@.len() ==> ((
                #[trigger] rev@[li].tiles@[ti]).2 < pow2(rev@[li].zoom_level as nat)
                    && rev@[li].tiles@[ti].3 < pow2(rev@[li].zoom_level as nat)
                    && pipeline.spec_get_tile(
                    (TileId {
                        x: rev@[li].tiles@[ti].2,
                        y: rev@[li].tiles@[ti].3,
                        zoom: rev@[li].zoom_level,
                    }),
                ) is Some),
            sum_tiles(rev@) + missing@.len() == n,
            h4 ==> (done || (z == grid.zoom && rev@.len() == 0 && missing@.len() == n && (forall|
            j: int|
                0 <= j < n ==> (#[trigger] missing@[j]).2 == grid.coords@[j].0 && missing@[j].3
                    == grid.coords@[j].1))),
            (h4 && done) ==> (rev@.len() == 1 && rev@[0].zoom_level == grid.zoom
                && rev@[0].tiles@.len() == n),
            (h3 && !done) ==> rev@.len() == 0,
            (h3 && !done) ==> missing@.len() == n,
            (h3 && done) ==> (rev@.len() == 1 && rev@[0].zoom_level == 0 && rev@[0].tiles@.len()
                == n),
            (pipeline.spec_get_tile((TileId { x: 0, y: 0, zoom: 0 })) is Some && done)
                ==> missing@.len() == 0,
        decreases 2 * z + (if done {
            0int
        } else {
            1int
        }),
    {
        let m: usize = missing.len();
        let mut resolved: Vec<(i64, i64, u32, u32)> = Vec::new();
        let mut rest: Vec<(i64, i64, u32, u32)> = Vec::new();
        let mut i: usize = 0;
        while i < m
            invariant
                grid.wf(),
                i <= m == missing@.len(),
                z <= grid.zoom <= MAX_ZOOM,
                h4 == (all_cached(*pipeline, *grid) && n > 0),
                h3 == (only_root_cached(*pipeline) && n > 0),
                n == grid.coords@.len(),
                forall|j: int|
                    0 <= j < missing@.len() ==> ((#[trigger] missing@[j]).2 < pow2(z as nat)
                        && missing@[j].3 < pow2(z as nat)),
                forall|j: int|
                    0 <= j < missing@.len() ==> (-0x40_0000_0000_0000 - 3 * (size as int) <= (
                    #[trigger] missing@[j]).0 <= 0x40_0000_0000_0000 + 3 * (size as int)
                        && -0x40_0000_0000_0000 - 3 * (size as int) <= missing@[j].1
                        <= 0x40_0000_0000_0000 + 3 * (size as int)),
                resolved@.len() + rest@.len() == i,
                forall|j: int|
                    0 <= j < resolved@.len() ==> ((#[trigger] resolved@[j]).2 < pow2(z as nat)
                        && resolved@[j].3 < pow2(z as nat) && pipeline.spec_get_tile(
                        (TileId { x: resolved@[j].2, y: resolved@[j].3, zoom: z }),
                    ) is Some),
                forall|j: int|
                    0 <= j < rest@.len() ==> ((#[trigger] rest@[j]).2 < pow2(z as nat)
                        && rest@[j].3 < pow2(z as nat) && pipeline.spec_get_tile(
                        (TileId { x: rest@[j].2, y: rest@[j].3, zoom: z }),
                    ) is None),
                forall|j: int|
                    0 <= j < rest@.len() ==> (-0x40_0000_0000_0000 - 3 * (size as int) <= (
                    #[trigger] rest@[j]).0 <= 0x40_0000_0000_0000 + 3 * (size as int)
                        && -0x40_0000_0000_0000 - 3 * (size as int) <= rest@[j].1
                        <= 0x40_0000_0000_0000 + 3 * (size as int)),
                forall|j: int|
                    0 <= j < resolved@.len() ==> (-0x40_0000_0000_0000 - 3 * (size as int) <= (
                    #[trigger] resolved@[j]).0 <= 0x40_0000_0000_0000 + 3 * (size as int)
                        && -0x40_0000_0000_0000 - 3 * (size as int) <= resolved@[j].1
                        <= 0x40_0000_0000_0000 + 3 * (size as int)),
                (h4 && z == grid.zoom && missing@.len() == n && (forall|j: int|
                    0 <= j < n ==> (#[trigger] missing@[j]).2 == grid.coords@[j].0
                        && missing@[j].3 == grid.coords@[j].1)) ==> rest@.len() == 0,
                (h3 && z > 0) ==> resolved@.len() == 0,
                (pipeline.spec_get_tile((TileId { x: 0, y: 0, zoom: 0 })) is Some && z == 0)
                    ==> rest@.len() == 0,
            decreases m - i,
        {
            let t: (i64, i64, u32, u32) = missing[i];
            let id: TileId = TileId::new(t.2, t.3, z);
            if pipeline.get_tile(id).is_some() {
                resolved.push(t);
                proof {
                    if h3 && z > 0 {
                        assert(id.wf());
                        assert(pipeline.spec_get_tile(id) is Some);
                        assert(false);
                    }
                }
            } else {
                rest.push(t);
                proof {
                    if h4 && z == grid.zoom && missing@.len() == n && (forall|j: int|
                        0 <= j < n ==> (#[trigger] missing@[j]).2 == grid.coords@[j].0
                            && missing@[j].3 == grid.coords@[j].1) {
                        assert(missing@[i as int].2 == grid.coords@[i as int].0);
                        assert(pipeline.spec_get_tile(
                            (TileId {
                                x: grid.coords@[i as int].0,
                                y: grid.coords@[i as int].1,
                                zoom: grid.zoom,
                            }),
                        ) is Some);
                        assert(false);
                    }
                    if pipeline.spec_get_tile((TileId { x: 0, y: 0, zoom: 0 })) is Some && z == 0 {
                        lemma2_to64();
                        assert(t.2 == 0 && t.3 == 0);
                        assert(false);
                    }
                }
            }
            i = i + 1;
        }
        let ghost rev_pre = rev@;
        let resolved_len: usize = resolved.len();
        let rest_len: usize = rest.len();
        if resolved_len > 0 {
            let layer: RenderLayer = RenderLayer { size, zoom_level: z, tiles: resolved };
            rev.push(layer);
            proof {
                lemma_sum_push(rev_pre, layer);
            }
        }
        proof {
            lemma2_to64();
            if h3 && z == 0 {
                let root = (TileId { x: 0u32, y: 0u32, zoom: 0u32 });
                assert(root.wf());
                assert(pipeline.spec_get_tile(root) is Some);
                assert(rest@.len() == 0);
            }
        }
        if z == 0 || rest_len == 0 {
            missing = rest;
            done = true;
        } else {
            let mut parents: Vec<(i64, i64, u32, u32)> = Vec::new();
            let mut i: usize = 0;
            while i < rest_len
                invariant
                    i <= rest_len == rest@.len(),
                    1 <= z <= grid.zoom <= MAX_ZOOM,
                    0 < size as int <= 0x2_0000_0000 * 0x100000,
                    parents@.len() == i,
                    forall|j: int|
                        0 <= j < rest@.len() ==> ((#[trigger] rest@[j]).2 < pow2(z as nat)
                            && rest@[j].3 < pow2(z as nat)),
                    forall|j: int|
                        0 <= j < rest@.len() ==> (-0x40_0000_0000_0000 - 3 * (size as int) <= (
                        #[trigger] rest@[j]).0 <= 0x40_0000_0000_0000 + 3 * (size as int)
                            && -0x40_0000_0000_0000 - 3 * (size as int) <= rest@[j].1
                            <= 0x40_0000_0000_0000 + 3 * (size as int)),
                    forall|j: int|
                        0 <= j < parents@.len() ==> ((#[trigger] parents@[j]).2 < pow2(
                            (z - 1) as nat,
                        ) && parents@[j].3 < pow2((z - 1) as nat)),
                    forall|j: int|
                        0 <= j < parents@.len() ==> (-0x40_0000_0000_0000 - 3 * (2 * (
                        size as int)) <= (#[trigger] parents@[j]).0 <= 0x40_0000_0000_0000 + 3 * (
                        2 * (size as int)) && -0x40_0000_0000_0000 - 3 * (2 * (size as int))
                            <= parents@[j].1 <= 0x40_0000_0000_0000 + 3 * (2 * (size as int))),
                decreases rest_len - i,
            {
                let t: (i64, i64, u32, u32) = rest[i];
                let ox: u32 = t.2 % 2;
                let oy: u32 = t.3 % 2;
                let hs: i64 = ((size as u64) / 2) as i64;
                proof {
                    lemma_mod_bound(t.2 as int, 2);
                    lemma_mod_bound(t.3 as int, 2);
                    assert(0 <= (ox as int) * (size as int) <= size as int && 0 <= (oy as int) * (
                    size as int) <= size as int) by (nonlinear_arith)
                        requires
                            0 <= ox <= 1,
                            0 <= oy <= 1,
                            0 < size,
                    ;
                }
                let x: i64 = t.0 - (ox as i64) * size + hs;
                let y: i64 = t.1 + (oy as i64) * size - hs;
                proof {
                    vstd::arithmetic::power2::lemma_pow2_unfold(z as nat);
                    vstd::arithmetic::div_mod::lemma_div_is_ordered(
                        t.2 as int,
                        pow2(z as nat) as int - 1,
                        2,
                    );
                    vstd::arithmetic::div_mod::lemma_div_is_ordered(
                        t.3 as int,
                        pow2(z as nat) as int - 1,
                        2,
                    );
                    assert((2 * pow2((z - 1) as nat) - 1) as int / 2 == pow2((z - 1) as nat) - 1)
                        by {
                        lemma_fundamental_div_mod_converse(
                            2 * pow2((z - 1) as nat) - 1,
                            2,
                            pow2((z - 1) as nat) as int - 1,
                            1,
                        );
                    }
                }
                parents.push((x, y, t.2 / 2, t.3 / 2));
                i = i + 1;
            }
            missing = parents;
            z = z - 1;
            size = size * 2;
            proof {
                vstd::arithmetic::power2::lemma_pow2_unfold((grid.zoom - z) as nat);
                assert(grid.tile_size * pow2((grid.zoom - z) as nat) == 2 * (grid.tile_size * pow2(
                    (grid.zoom - z - 1) as nat,
                ))) by (nonlinear_arith)
                    requires
                        pow2((grid.zoom - z) as nat) == 2 * pow2((grid.zoom - z - 1) as nat),
                ;
                lemma2_to64();
                if grid.zoom - z < 20 {
                    lemma_pow2_strictly_increases((grid.zoom - z) as nat, 20);
                }
                assert(grid.tile_size * pow2((grid.zoom - z) as nat) <= 0x2_0000_0000 * 0x100000)
                    by (nonlinear_arith)
                    requires
                        0 < grid.tile_size <= 0x2_0000_0000,
                        0 < pow2((grid.zoom - z) as nat) <= 0x100000,
                ;
            }
        }
    }
    let ghost rev_all = rev@;
    let total: usize = rev.len();
    let mut layers: Vec<RenderLayer> = Vec::new();
    while layers.len() < total
        invariant
            layers@.len() + rev@.len() == total == rev_all.len(),
            rev@ == rev_all.subrange(0, rev@.len() as int),
            forall|li: int|
                0 <= li < layers@.len() ==> layers@[li] == rev_all[total - 1 - li],
            sum_tiles(rev@) + sum_tiles(layers@) == sum_tiles(rev_all),
        decreases total - layers@.len(),
    {
        let ghost rev_now = rev@;
        let ghost layers_now = layers@;
        let l: Option<RenderLayer> = rev.pop();
        match l {
            Some(layer) => {
                proof {
                    assert(rev_now =~= rev@.push(layer));
                    lemma_sum_push(rev@, layer);
                    lemma_sum_push(layers_now, layer);
                    assert(rev@ =~= rev_all.subrange(0, rev@.len() as int));
                }
                layers.push(layer);
            },
            None => {
                proof {
                    assert(false);
                }
            },
        }
    }
    proof {
        assert(sum_tiles(rev@) == 0);
        assert forall|li: int, lj: int|
            0 <= li < lj < layers@.len() implies (#[trigger] layers@[li]).zoom_level < (
        #[trigger] layers@[lj]).zoom_level by {
            assert(layers@[li] == rev_all[total - 1 - li]);
            assert(layers@[lj] == rev_all[total - 1 - lj]);
        }
        if h4 {
            assert(layers@.len() == 1);
            assert(layers@[0] == rev_all[0]);
        }
        if h3 {
            assert(layers@.len() == 1);
            assert(layers@[0] == rev_all[0]);
        }
    }
    layers
}

/// The reduced fraction `nn / dd` equals the scaled mapped range and stays
/// small: `nn <= 10 * dd` and `dd` is bounded by the axis size.
proof fn lemma_grat_reduced_bound(range: int, axis: int, k: int, nn: int, dd: int)
    requires
        1 <= range <= 4_000_000,
        1 <= axis <= 65536,
        0 <= k <= 5,
        nn == (if k == 0 {
            range * 9
        } else {
            range * 9 * pow10(k - 1)
        }),
        dd == (if k == 0 {
            axis * 20
        } else {
            axis * 2
        }),
        range * 90000 * pow10(k) <= 2 * (axis * 1000000),
    ensures
        1 <= nn,
        nn <= 10 * dd,
        1 <= dd <= 20 * 65536,
{
    lemma_pow10_values();
    if k == 0 {
        assert(nn <= 10 * dd) by (nonlinear_arith)
            requires
                nn == range * 9,
                dd == axis * 20,
                range * 90000 * pow10(0) <= 2 * (axis * 1000000),
                pow10(0) == 1,
        ;
    } else {
        lemma_pow10_bounded(k - 1, 4);
        assert(range * 90000 * pow10(k) == (range * 9 * pow10(k - 1)) * 100000)
            by (nonlinear_arith)
            requires
                pow10(k) == 10 * pow10(k - 1),
                k >= 1,
        ;
        assert(nn <= 10 * dd) by (nonlinear_arith)
            requires
                nn * 100000 <= 2 * (axis * 1000000),
                dd == axis * 2,
        ;
        assert(nn >= 1) by (nonlinear_arith)
            requires
                nn == range * 9 * pow10(k - 1),
                range >= 1,
                pow10(k - 1) >= 1,
        ;
    }
}

} // verus!
