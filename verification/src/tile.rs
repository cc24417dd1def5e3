//! The per-layer tile cache and fetch protocol. A `TilePipeline` owns one
//! entry per requested tile: `Pending` while a fetch is outstanding,
//! `Ready` once the decoded image has been uploaded, `Failed` with a
//! retry-after time when the fetch or decode failed. `update` runs once per
//! frame: it folds in the fetches that completed, requests every tile the
//! viewport needs that is neither cached nor outstanding, and, when the
//! cache has outgrown its capacity, evicts entries that fell outside the
//! viewport's neighbourhood.

use vstd::prelude::*;

verus! {

use std::collections::HashMap;
use vstd::arithmetic::power2::{pow2, lemma_pow2_strictly_increases, lemma2_to64};
use vstd::arithmetic::div_mod::{
    lemma_fundamental_div_mod_converse,
    lemma_mod_multiples_vanish,
    lemma_mod_bound,
};
use crate::map::{TileGrid, pow2_u64};
use crate::util::euclid_mod_i64;
use crate::MAX_ZOOM;

broadcast use vstd::std_specs::hash::group_hash_axioms;

/// Milliseconds a failed tile waits before `update` may request it again.
pub const RETRY_DELAY_MS: u64 = 2000;

/// The address of one map tile: `0 <= x, y < 2^zoom`, `zoom <= MAX_ZOOM`.
#[derive(Clone, Copy, Debug, PartialEq, Eq, Structural)]
pub struct TileId {
    pub x: u32,
    pub y: u32,
    pub zoom: u32,
}

impl TileId {
    /// The address lies inside the tiling pyramid.
    pub open spec fn wf(self) -> bool {
        &&& self.zoom <= MAX_ZOOM
        &&& (self.x as int) < pow2(self.zoom as nat)
        &&& (self.y as int) < pow2(self.zoom as nat)
    }

    pub fn new(x: u32, y: u32, zoom: u32) -> (id: TileId)
        requires
            zoom <= MAX_ZOOM,
            (x as int) < pow2(zoom as nat),
            (y as int) < pow2(zoom as nat),
        ensures
            id.wf(),
            id.x == x,
            id.y == y,
            id.zoom == zoom,
    {
        TileId { x, y, zoom }
    }

    /// The cache key this address packs to.
    pub open spec fn key_spec(self) -> int {
        self.zoom * 0x100_0000_0000 + self.x * 0x100000 + self.y
    }

    /// Packs the address into its cache key.
    pub fn key(&self) -> (k: u64)
        requires
            self.wf(),
        ensures
            k == self.key_spec(),
            valid_key(k as int),
            key_zoom(k as int) == self.zoom,
            key_x(k as int) == self.x,
            key_y(k as int) == self.y,
    {
        proof {
            lemma_key_unpack(*self);
        }
        (self.zoom as u64) * 0x100_0000_0000 + (self.x as u64) * 0x100000 + (self.y as u64)
    }
}

/// Zoom level a cache key encodes.
pub open spec fn key_zoom(k: int) -> int {
    k / 0x100_0000_0000
}

/// Tile column a cache key encodes.
pub open spec fn key_x(k: int) -> int {
    (k / 0x100000) % 0x100000
}

/// Tile row a cache key encodes.
pub open spec fn key_y(k: int) -> int {
    k % 0x100000
}

/// The key encodes a well-formed tile address.
pub open spec fn valid_key(k: int) -> bool {
    &&& 0 <= k
    &&& key_zoom(k) <= MAX_ZOOM
    &&& key_x(k) < pow2(key_zoom(k) as nat)
    &&& key_y(k) < pow2(key_zoom(k) as nat)
}

/// Packing then unpacking a well-formed address gives its fields back.
pub proof fn lemma_key_unpack(id: TileId)
    requires
        id.wf(),
    ensures
        key_zoom(id.key_spec()) == id.zoom,
        key_x(id.key_spec()) == id.x,
        key_y(id.key_spec()) == id.y,
        0 <= id.key_spec() < 0x1_0000_0000_0000,
        valid_key(id.key_spec()),
{
    lemma2_to64();
    if id.zoom < MAX_ZOOM {
        lemma_pow2_strictly_increases(id.zoom as nat, MAX_ZOOM as nat);
    }
    assert(id.x < 0x100000 && id.y < 0x100000);
    let k = id.key_spec();
    let zi = id.zoom as int;
    let xi = id.x as int;
    let yi = id.y as int;
    assert(k == (zi * 0x100000 + xi) * 0x100000 + yi) by (nonlinear_arith)
        requires
            k == zi * 0x100_0000_0000 + xi * 0x100000 + yi,
    ;
    lemma_fundamental_div_mod_converse(k, 0x100000, zi * 0x100000 + xi, yi);
    assert(k == zi * 0x100_0000_0000 + (xi * 0x100000 + yi));
    lemma_fundamental_div_mod_converse(k, 0x100_0000_0000, zi, xi * 0x100000 + yi);
    lemma_mod_multiples_vanish(zi, xi, 0x100000);
    assert(zi * 0x100000 + xi == 0x100000 * zi + xi);
}

/// The lifecycle of one cache entry. An entry never moves backward: it is
/// created `Pending`, resolves to `Ready` or `Failed`, and a `Failed` entry
/// becomes `Pending` again only after its retry time has passed.
#[derive(Clone, Copy, Debug)]
pub enum TileState {
    /// A fetch for this tile is outstanding.
    Pending,
    /// The tile was fetched, decoded and uploaded; the handle names the
    /// renderable resource.
    Ready(u64),
    /// The fetch or decode failed; no retry before the given time.
    Failed(u64),
}

/// What one completed fetch reports back to `update`: the tile it was for
/// and, on success, the resource handle with the tile's pixel dimensions.
#[derive(Clone, Copy, Debug)]
pub struct FetchOutcome {
    pub id: TileId,
    pub result: Option<(u64, u32, u32)>,
}

/// One completed fetch folded into the cache: only a `Pending` entry moves,
/// to `Ready` on success and to `Failed` with a retry time on failure.
pub open spec fn complete_one(
    m: Map<u64, TileState>,
    c: FetchOutcome,
    now: u64,
) -> Map<u64, TileState> {
    let k = c.id.key_spec() as u64;
    if m.contains_key(k) && m[k] is Pending {
        match c.result {
            Some(t) => m.insert(k, TileState::Ready(t.0)),
            None => m.insert(k, TileState::Failed((now + RETRY_DELAY_MS) as u64)),
        }
    } else {
        m
    }
}

/// All completed fetches folded into the cache, in order.
pub open spec fn complete_all(
    m: Map<u64, TileState>,
    s: Seq<FetchOutcome>,
    now: u64,
) -> Map<u64, TileState>
    decreases s.len(),
{
    if s.len() == 0 {
        m
    } else {
        complete_all(complete_one(m, s[0], now), s.subrange(1, s.len() as int), now)
    }
}

/// A tile must be fetched when it has no entry, or its entry failed and the
/// retry time has passed.
pub open spec fn needs_fetch(m: Map<u64, TileState>, k: u64, now: u64) -> bool {
    ||| !m.contains_key(k)
    ||| (m[k] matches TileState::Failed(t) && t <= now)
}

/// One needed tile folded into the cache: it becomes `Pending` exactly when
/// it must be fetched.
pub open spec fn request_one(m: Map<u64, TileState>, k: u64, now: u64) -> Map<u64, TileState> {
    if needs_fetch(m, k, now) {
        m.insert(k, TileState::Pending)
    } else {
        m
    }
}

/// All needed tiles folded into the cache, in order.
pub open spec fn request_all(m: Map<u64, TileState>, keys: Seq<u64>, now: u64) -> Map<
    u64,
    TileState,
>
    decreases keys.len(),
{
    if keys.len() == 0 {
        m
    } else {
        request_all(request_one(m, keys[0], now), keys.subrange(1, keys.len() as int), now)
    }
}

/// The fetches `update` starts: each needed tile exactly once, in grid
/// order, skipping tiles that are cached or already outstanding. Because a
/// requested tile becomes `Pending` at once, no key appears twice.
pub open spec fn request_list(m: Map<u64, TileState>, keys: Seq<u64>, now: u64) -> Seq<u64>
    decreases keys.len(),
{
    if keys.len() == 0 {
        Seq::empty()
    } else {
        let rest = keys.subrange(1, keys.len() as int);
        if needs_fetch(m, keys[0], now) {
            seq![keys[0]] + request_list(m.insert(keys[0], TileState::Pending), rest, now)
        } else {
            request_list(m, rest, now)
        }
    }
}

/// The native tile dimensions after folding in completed fetches: the first
/// successful fetch fixes them, later ones leave them alone.
pub open spec fn dims_after(d: Option<(u32, u32)>, s: Seq<FetchOutcome>) -> Option<(u32, u32)>
    decreases s.len(),
{
    if s.len() == 0 {
        d
    } else {
        let d1 = if d is None && s[0].result is Some {
            Some(((s[0].result->0).1, (s[0].result->0).2))
        } else {
            d
        };
        dims_after(d1, s.subrange(1, s.len() as int))
    }
}

/// The cache keys the grid asks for, in the grid's column-major order.
pub open spec fn grid_keys(grid: TileGrid) -> Seq<u64> {
    grid.coords@.map_values(
        |c: (u32, u32)|
            (grid.zoom * 0x100_0000_0000 + c.0 * 0x100000 + c.1) as u64,
    )
}

/// Projection of a tile coordinate at zoom `z` onto the grid's zoom `gz`:
/// the first column (or row) at `gz` the tile covers.
pub open spec fn proj_lo(v: int, z: int, gz: int) -> int {
    if z <= gz {
        v * pow2((gz - z) as nat)
    } else {
        v / pow2((z - gz) as nat) as int
    }
}

/// How many columns (or rows) at the grid's zoom the projection covers.
pub open spec fn proj_span(z: int, gz: int) -> int {
    if z <= gz {
        pow2((gz - z) as nat) as int
    } else {
        1
    }
}

/// Whether a cached tile still lies in the viewport's neighbourhood: within
/// two zoom levels of the grid, and, projected onto the grid's zoom, within
/// one grid span of the grid's rectangle, wrapping around the world.
pub open spec fn in_interest(k: int, gz: int, c0: int, c1: int, r0: int, r1: int) -> bool {
    let z = key_zoom(k);
    let m = pow2(gz as nat) as int;
    let w = c1 - c0 + 1;
    let h = r1 - r0 + 1;
    &&& gz - 2 <= z <= gz + 2
    &&& (proj_lo(key_x(k), z, gz) - (c0 - w)) % m <= 3 * w + proj_span(z, gz) - 2
    &&& (proj_lo(key_y(k), z, gz) - (r0 - h)) % m <= 3 * h + proj_span(z, gz) - 2
}

/// Whether the key's tile is in the grid's neighbourhood (see
/// [`in_interest`]).
pub fn in_interest_exec(k: u64, grid: &TileGrid) -> (r: bool)
    requires
        valid_key(k as int),
        grid.wf(),
    ensures
        r == in_interest(
            k as int,
            grid.zoom as int,
            grid.col0 as int,
            grid.col1 as int,
            grid.row0 as int,
            grid.row1 as int,
        ),
{
    let z: u64 = k / 0x100_0000_0000;
    let x: u64 = (k / 0x100000) % 0x100000;
    let y: u64 = k % 0x100000;
    let gz: u64 = grid.zoom as u64;
    proof {
        lemma_mod_bound((k / 0x100000) as int, 0x100000);
        lemma_mod_bound(k as int, 0x100000);
        lemma2_to64();
        if key_zoom(k as int) < MAX_ZOOM {
            lemma_pow2_strictly_increases(key_zoom(k as int) as nat, MAX_ZOOM as nat);
        }
    }
    if z + 2 < gz || z > gz + 2 {
        return false;
    }
    let (xlo, span): (i64, i64) = if z <= gz {
        let spu: u64 = pow2_u64((gz - z) as u32);
        proof {
            lemma2_to64();
            assert(spu <= 4);
            assert((x as int) * (spu as int) <= 0x400000) by (nonlinear_arith)
                requires
                    0 <= x < 0x100000,
                    0 <= spu <= 4,
            ;
        }
        ((x as i64) * (spu as i64), spu as i64)
    } else {
        let d: i64 = pow2_u64((z - gz) as u32) as i64;
        (crate::util::floor_div_i64(x as i64, d), 1)
    };
    let (ylo, yspan): (i64, i64) = if z <= gz {
        let spu: u64 = pow2_u64((gz - z) as u32);
        proof {
            lemma2_to64();
            assert(spu <= 4);
            assert((y as int) * (spu as int) <= 0x400000) by (nonlinear_arith)
                requires
                    0 <= y < 0x100000,
                    0 <= spu <= 4,
            ;
        }
        ((y as i64) * (spu as i64), spu as i64)
    } else {
        let d: i64 = pow2_u64((z - gz) as u32) as i64;
        (crate::util::floor_div_i64(y as i64, d), 1)
    };
    let m: i64 = pow2_u64(grid.zoom) as i64;
    proof {
        lemma2_to64();
        if grid.zoom < MAX_ZOOM {
            lemma_pow2_strictly_increases(grid.zoom as nat, MAX_ZOOM as nat);
        }
        assert((x as int) * (span as int) <= 0x100000 * 4) by (nonlinear_arith)
            requires
                0 <= x < 0x100000,
                0 <= span <= 4,
        ;
        assert((y as int) * (yspan as int) <= 0x100000 * 4) by (nonlinear_arith)
            requires
                0 <= y < 0x100000,
                0 <= yspan <= 4,
        ;
    }
    let w: i64 = grid.col1 - grid.col0 + 1;
    let h: i64 = grid.row1 - grid.row0 + 1;
    let dx: i64 = euclid_mod_i64(xlo - (grid.col0 - w), m);
    let dy: i64 = euclid_mod_i64(ylo - (grid.row0 - h), m);
    dx <= 3 * w + span - 2 && dy <= 3 * h + yspan - 2
}

/// What decoding a fetched tile's bytes yields: `None` when the bytes are
/// not a readable raster image, otherwise the pixel width and height and
/// the raw RGBA bytes. Decoding is a pure function of the bytes.
pub uninterp spec fn decoded_rgba(bytes: Seq<u8>) -> Option<(u32, u32, Seq<u8>)>;

/// Relies on image::load_from_memory and DynamicImage::to_rgba8: decoding
/// is deterministic in the bytes alone, and a decoded `w` by `h` image
/// yields exactly `4 * w * h` RGBA bytes (ImageBuffer::into_raw).
#[verifier::external_body]
fn decode_rgba_bytes(bytes: &[u8]) -> (r: Option<(u32, u32, Vec<u8>)>)
    ensures
        (match r {
            Some(t) => decoded_rgba(bytes@) == Some((t.0, t.1, t.2@)) && t.2@.len() == 4 * t.0
                * t.1,
            None => decoded_rgba(bytes@) is None,
        }),
{
    match image::load_from_memory(bytes) {
        Ok(img) => {
            let rgba = img.to_rgba8();
            let (w, h) = (rgba.width(), rgba.height());
            Some((w, h, rgba.into_raw()))
        },
        Err(_) => None,
    }
}

/// A fetched tile decoded to raw RGBA, ready for upload.
pub struct DecodedTile {
    pub width: u32,
    pub height: u32,
    pub rgba: Vec<u8>,
}

/// Decodes a fetched tile's bytes. Returns the decoded image exactly when
/// the bytes decode (`decoded_rgba`), `None` otherwise; a failed decode is
/// what marks the tile `Failed` rather than `Ready`.
pub fn decode_tile(bytes: &[u8]) -> (r: Option<DecodedTile>)
    ensures
        (match r {
            Some(d) => decoded_rgba(bytes@) == Some((d.width, d.height, d.rgba@)) && d.rgba@.len()
                == 4 * d.width * d.height,
            None => decoded_rgba(bytes@) is None,
        }),
{
    match decode_rgba_bytes(bytes) {
        Some(t) => Some(DecodedTile { width: t.0, height: t.1, rgba: t.2 }),
        None => None,
    }
}

/// One visual layer's tile cache: an entry per requested tile, the list of
/// its keys (for eviction scans), the native tile dimensions once known,
/// and the soft capacity past which eviction runs.
pub struct TilePipeline {
    pub entries: HashMap<u64, TileState>,
    pub keys: Vec<u64>,
    pub tile_dims: Option<(u32, u32)>,
    pub capacity: usize,
}

impl TilePipeline {
    /// The key list carries exactly the cache's keys, once each, and every
    /// cached key addresses a well-formed tile.
    pub open spec fn wf(self) -> bool {
        &&& self.keys@.no_duplicates()
        &&& forall|i: int|
            0 <= i < self.keys@.len() ==> self.entries@.contains_key(#[trigger] self.keys@[i])
        &&& forall|k: u64| #[trigger] self.entries@.contains_key(k) ==> self.keys@.contains(k)
        &&& forall|k: u64| #[trigger] self.entries@.contains_key(k) ==> valid_key(k as int)
        &&& 1 <= self.capacity
    }

    pub fn new(capacity: usize) -> (p: TilePipeline)
        requires
            1 <= capacity,
        ensures
            p.wf(),
            p.entries@ == Map::<u64, TileState>::empty(),
            p.tile_dims is None,
            p.capacity == capacity,
            p.keys@.len() == 0,
    {
        TilePipeline { entries: HashMap::new(), keys: Vec::new(), tile_dims: None, capacity }
    }

    /// The handle `get_tile` hands out: `Some` exactly for a `Ready` entry.
    pub open spec fn spec_get_tile(self, id: TileId) -> Option<u64> {
        let k = id.key_spec() as u64;
        if self.entries@.contains_key(k) {
            match self.entries@[k] {
                TileState::Ready(h) => Some(h),
                _ => None,
            }
        } else {
            None
        }
    }

    /// Cache lookup: `Some` only for entries in state `Ready`. A pure read
    /// with no side effect, so between two calls to `update` repeated
    /// lookups return identical results.
    pub fn get_tile(&self, id: TileId) -> (r: Option<u64>)
        requires
            id.wf(),
        ensures
            r == self.spec_get_tile(id),
    {
        let k = id.key();
        match self.entries.get(&k) {
            Some(TileState::Ready(h)) => Some(*h),
            _ => None,
        }
    }

    /// Native tile pixel dimensions once at least one tile has ever been
    /// fetched; `None` beforehand.
    pub fn tile_size(&self) -> (r: Option<(u32, u32)>)
        ensures
            r == self.tile_dims,
    {
        self.tile_dims
    }
}

impl TilePipeline {
    /// One frame's cache maintenance, in three steps. Completed fetches
    /// resolve their `Pending` entries to `Ready` or `Failed` and fix the
    /// native tile size (`complete_all`, `dims_after`). Every tile the grid
    /// needs that is absent, or failed with its retry time passed, becomes
    /// `Pending` and is returned for fetching, each at most once
    /// (`request_all`, `request_list`). Finally, if the cache has outgrown
    /// its capacity, entries outside the viewport's neighbourhood are
    /// evicted (`in_interest`), so the cache cannot grow without bound as
    /// the camera roams.
    pub fn update(
        &mut self,
        grid: &TileGrid,
        completed: &Vec<FetchOutcome>,
        now_ms: u64,
    ) -> (fetches: Vec<TileId>)
        requires
            old(self).wf(),
            grid.wf(),
            forall|i: int| 0 <= i < completed@.len() ==> (#[trigger] completed@[i]).id.wf(),
            now_ms + RETRY_DELAY_MS < 0x8000_0000_0000_0000,
        ensures
            final(self).wf(),
            final(self).capacity == old(self).capacity,
            final(self).tile_dims == dims_after(old(self).tile_dims, completed@),
            ({
                let m2 = request_all(
                    complete_all(old(self).entries@, completed@, now_ms),
                    grid_keys(*grid),
                    now_ms,
                );
                &&& (m2.len() <= old(self).capacity ==> final(self).entries@ == m2)
                &&& (m2.len() > old(self).capacity ==> forall|k: u64|
                    final(self).entries@.contains_key(k) <==> (#[trigger] m2.contains_key(k)
                        && in_interest(
                        k as int,
                        grid.zoom as int,
                        grid.col0 as int,
                        grid.col1 as int,
                        grid.row0 as int,
                        grid.row1 as int,
                    )))
                &&& (forall|k: u64| #[trigger]
                    final(self).entries@.contains_key(k) ==> m2.contains_key(k)
                        && final(self).entries@[k] == m2[k])
            }),
            ({
                let lst = request_list(
                    complete_all(old(self).entries@, completed@, now_ms),
                    grid_keys(*grid),
                    now_ms,
                );
                &&& fetches@.len() == lst.len()
                &&& forall|i: int|
                    0 <= i < fetches@.len() ==> (#[trigger] fetches@[i]).wf()
                        && fetches@[i].key_spec() == lst[i] && fetches@[i].zoom == grid.zoom
            }),
    {
        let ghost m0 = self.entries@;
        let ghost d0 = self.tile_dims;
        let ghost cap0 = self.capacity as int;
        proof {
            assert(completed@.subrange(0, completed@.len() as int) =~= completed@);
        }
        let clen: usize = completed.len();
        let mut j: usize = 0;
        while j < clen
            invariant
                j <= clen == completed@.len(),
                forall|i: int| 0 <= i < completed@.len() ==> (#[trigger] completed@[i]).id.wf(),
                now_ms + RETRY_DELAY_MS < 0x8000_0000_0000_0000,
                self.capacity as int == cap0,
                self.keys@.no_duplicates(),
                complete_all(m0, completed@, now_ms) == complete_all(
                    self.entries@,
                    completed@.subrange(j as int, completed@.len() as int),
                    now_ms,
                ),
                dims_after(d0, completed@) == dims_after(
                    self.tile_dims,
                    completed@.subrange(j as int, completed@.len() as int),
                ),
                self.entries@.dom() == m0.dom(),
                forall|i: int|
                    0 <= i < self.keys@.len() ==> m0.contains_key(#[trigger] self.keys@[i]),
                forall|k: u64| #[trigger] m0.contains_key(k) ==> self.keys@.contains(k),
                forall|k: u64| #[trigger] m0.contains_key(k) ==> valid_key(k as int),
            decreases clen - j,
        {
            let c: FetchOutcome = completed[j];
            let k: u64 = c.id.key();
            let ghost mpre = self.entries@;
            let ghost dpre = self.tile_dims;
            match c.result {
                Some(t) => {
                    if self.tile_dims.is_none() {
                        self.tile_dims = Some((t.1, t.2));
                    }
                },
                None => {},
            }
            let pending: bool = (match self.entries.get(&k) {
                Some(TileState::Pending) => true,
                _ => false,
            });
            if pending {
                match c.result {
                    Some(t) => {
                        self.entries.insert(k, TileState::Ready(t.0));
                    },
                    None => {
                        self.entries.insert(k, TileState::Failed(now_ms + RETRY_DELAY_MS));
                    },
                }
                proof {
                    assert(self.entries@.dom() =~= mpre.dom());
                }
            }
            proof {
                lemma_complete_all_step(mpre, completed@, j as int, now_ms);
                lemma_dims_step(dpre, completed@, j as int);
                assert(self.entries@ == complete_one(mpre, c, now_ms));
            }
            j = j + 1;
        }
        proof {
            assert(completed@.subrange(clen as int, completed@.len() as int).len() == 0);
            assert(complete_all(m0, completed@, now_ms) == self.entries@);
            assert(dims_after(d0, completed@) == self.tile_dims);
        }
        let ghost m1 = self.entries@;
        let ghost d1 = self.tile_dims;
        let ghost kseq = grid_keys(*grid);
        let ghost keyf = |t: TileId| t.key_spec() as u64;
        let gz: u32 = grid.zoom;
        proof {
            lemma2_to64();
            if gz < MAX_ZOOM {
                lemma_pow2_strictly_increases(gz as nat, MAX_ZOOM as nat);
            }
        }
        proof {
            assert(kseq.subrange(0, kseq.len() as int) =~= kseq);
            assert(Seq::<u64>::empty() + request_list(m1, kseq, now_ms) =~= request_list(
                m1,
                kseq,
                now_ms,
            ));
            assert(Seq::<TileId>::empty().map_values(keyf) =~= Seq::<u64>::empty());
        }
        let mut fetches: Vec<TileId> = Vec::new();
        let nlen: usize = grid.coords.len();
        let mut j: usize = 0;
        while j < nlen
            invariant
                j <= nlen == grid.coords@.len(),
                grid.wf(),
                gz == grid.zoom,
                pow2(gz as nat) <= 0x100000,
                now_ms + RETRY_DELAY_MS < 0x8000_0000_0000_0000,
                self.capacity as int == cap0,
                self.tile_dims == d1,
                kseq == grid_keys(*grid),
                keyf == (|t: TileId| t.key_spec() as u64),
                request_all(m1, kseq, now_ms) == request_all(
                    self.entries@,
                    kseq.subrange(j as int, kseq.len() as int),
                    now_ms,
                ),
                request_list(m1, kseq, now_ms) == fetches@.map_values(keyf) + request_list(
                    self.entries@,
                    kseq.subrange(j as int, kseq.len() as int),
                    now_ms,
                ),
                forall|i: int|
                    0 <= i < fetches@.len() ==> (#[trigger] fetches@[i]).wf() && fetches@[i].zoom
                        == gz,
                self.keys@.no_duplicates(),
                forall|i: int|
                    0 <= i < self.keys@.len() ==> self.entries@.contains_key(
                        #[trigger] self.keys@[i],
                    ),
                forall|k: u64| #[trigger] self.entries@.contains_key(k) ==> self.keys@.contains(k),
                forall|k: u64| #[trigger] self.entries@.contains_key(k) ==> valid_key(k as int),
            decreases nlen - j,
        {
            let c: (u32, u32) = grid.coords[j];
            let id: TileId = TileId::new(c.0, c.1, gz);
            let k: u64 = id.key();
            proof {
                assert(kseq[j as int] == (gz * 0x100_0000_0000 + c.0 * 0x100000 + c.1) as u64);
                assert(k == kseq[j as int]);
            }
            let ghost mpre = self.entries@;
            let ghost fpre = fetches@;
            let ghost kvpre = self.keys@;
            let (needs, absent): (bool, bool) = (match self.entries.get(&k) {
                None => (true, true),
                Some(TileState::Failed(t)) => (*t <= now_ms, false),
                Some(_) => (false, false),
            });
            if needs {
                self.entries.insert(k, TileState::Pending);
                if absent {
                    proof {
                        if kvpre.contains(k) {
                            let ix = choose|ix: int| 0 <= ix < kvpre.len() && kvpre[ix] == k;
                            assert(mpre.contains_key(kvpre[ix]));
                            assert(false);
                        }
                        lemma_push_keeps_distinct(kvpre, k);
                    }
                    self.keys.push(k);
                    proof {
                        assert(self.keys@ == kvpre.push(k));
                        assert(self.keys@[kvpre.len() as int] == k);
                        assert forall|k2: u64| #[trigger]
                            self.entries@.contains_key(k2) implies self.keys@.contains(k2) by {
                            if k2 == k {
                                assert(self.keys@[kvpre.len() as int] == k2);
                            } else {
                                assert(mpre.contains_key(k2));
                                assert(kvpre.contains(k2));
                                let ix = choose|ix: int|
                                    0 <= ix < kvpre.len() && kvpre[ix] == k2;
                                assert(self.keys@[ix] == k2);
                            }
                        }
                    }
                } else {
                    proof {
                        assert(mpre.contains_key(k));
                        assert forall|k2: u64| #[trigger]
                            self.entries@.contains_key(k2) implies self.keys@.contains(k2) by {
                            assert(mpre.contains_key(k2));
                        }
                    }
                }
                fetches.push(id);
            }
            proof {
                lemma_request_step(mpre, kseq, j as int, now_ms);
                assert(needs == needs_fetch(mpre, k, now_ms));
                if needs {
                    assert(self.entries@ == request_one(mpre, k, now_ms));
                    assert(fetches@ == fpre.push(id));
                    assert(fetches@.map_values(keyf) =~= fpre.map_values(keyf) + seq![k]);
                    let tail = request_list(
                        mpre.insert(k, TileState::Pending),
                        kseq.subrange(j as int + 1, kseq.len() as int),
                        now_ms,
                    );
                    assert((fpre.map_values(keyf) + seq![k]) + tail =~= fpre.map_values(keyf) + (
                    seq![k] + tail));
                } else {
                    assert(self.entries@ == request_one(mpre, k, now_ms));
                }
            }
            j = j + 1;
        }
        proof {
            assert(kseq.subrange(nlen as int, kseq.len() as int).len() == 0);
            assert(request_all(m1, kseq, now_ms) == self.entries@);
            assert(request_list(m1, kseq, now_ms) =~= fetches@.map_values(keyf));
            assert(forall|i: int|
                0 <= i < fetches@.len() ==> fetches@.map_values(keyf)[i] == keyf(
                    #[trigger] fetches@[i],
                ));
        }
        let ghost m2 = self.entries@;
        if self.entries.len() > self.capacity {
            let ghost keys2 = self.keys@;
            let mut kept: Vec<u64> = Vec::new();
            let klen: usize = self.keys.len();
            let mut i: usize = 0;
            while i < klen
                invariant
                    i <= klen == self.keys@.len(),
                    self.keys@ == keys2,
                    keys2.no_duplicates(),
                    grid.wf(),
                    self.capacity as int == cap0,
                    self.tile_dims == d1,
                    forall|j2: int| 0 <= j2 < keys2.len() ==> m2.contains_key(#[trigger] keys2[j2]),
                    forall|k: u64| #[trigger] m2.contains_key(k) ==> keys2.contains(k),
                    forall|k: u64| #[trigger] m2.contains_key(k) ==> valid_key(k as int),
                    forall|k: u64| #[trigger]
                        self.entries@.contains_key(k) ==> m2.contains_key(k) && self.entries@[k]
                            == m2[k],
                    forall|j2: int|
                        i <= j2 < keys2.len() ==> self.entries@.contains_key(#[trigger] keys2[j2]),
                    forall|j2: int|
                        0 <= j2 < i ==> (self.entries@.contains_key(#[trigger] keys2[j2])
                            <==> in_interest(
                            keys2[j2] as int,
                            grid.zoom as int,
                            grid.col0 as int,
                            grid.col1 as int,
                            grid.row0 as int,
                            grid.row1 as int,
                        )),
                    kept@.no_duplicates(),
                    forall|j2: int|
                        0 <= j2 < kept@.len() ==> keys2.take(i as int).contains(
                            #[trigger] kept@[j2],
                        ),
                    forall|j2: int|
                        0 <= j2 < kept@.len() ==> self.entries@.contains_key(#[trigger] kept@[j2]),
                    forall|j2: int|
                        0 <= j2 < i && self.entries@.contains_key(keys2[j2]) ==> kept@.contains(
                            #[trigger] keys2[j2],
                        ),
                decreases klen - i,
            {
                let k: u64 = self.keys[i];
                let ghost epre = self.entries@;
                let ghost kpre = kept@;
                let keep: bool = in_interest_exec(k, grid);
                if keep {
                    proof {
                        if kpre.contains(k) {
                            let j2 = choose|j2: int| 0 <= j2 < kpre.len() && kpre[j2] == k;
                            assert(keys2.take(i as int).contains(kpre[j2]));
                            let j3 = choose|j3: int|
                                0 <= j3 < keys2.take(i as int).len() && keys2.take(i as int)[j3]
                                    == k;
                            assert(keys2[j3] == k && keys2[i as int] == k);
                            assert(false);
                        }
                        lemma_push_keeps_distinct(kpre, k);
                    }
                    kept.push(k);
                    proof {
                        assert forall|j2: int|
                            0 <= j2 < kept@.len() implies keys2.take(i as int + 1).contains(
                            #[trigger] kept@[j2],
                        ) by {
                            if j2 < kpre.len() {
                                assert(keys2.take(i as int).contains(kpre[j2]));
                                let j3 = choose|j3: int|
                                    0 <= j3 < keys2.take(i as int).len() && keys2.take(
                                        i as int,
                                    )[j3] == kpre[j2];
                                assert(keys2.take(i as int + 1)[j3] == kpre[j2]);
                            } else {
                                assert(kept@[j2] == k);
                                assert(keys2.take(i as int + 1)[i as int] == k);
                            }
                        }
                    }
                } else {
                    self.entries.remove(&k);
                    proof {
                        assert(self.entries@ == epre.remove(k));
                        assert forall|j2: int|
                            0 <= j2 < kept@.len() implies self.entries@.contains_key(
                            #[trigger] kept@[j2],
                        ) by {
                            assert(keys2.take(i as int).contains(kept@[j2]));
                            let j3 = choose|j3: int|
                                0 <= j3 < keys2.take(i as int).len() && keys2.take(i as int)[j3]
                                    == kept@[j2];
                            assert(keys2[j3] == kept@[j2] && keys2[i as int] == k);
                            assert(kept@[j2] != k);
                        }
                        assert forall|j2: int|
                            i + 1 <= j2 < keys2.len() implies self.entries@.contains_key(
                            #[trigger] keys2[j2],
                        ) by {
                            assert(keys2[j2] != k);
                        }
                        assert forall|j2: int|
                            0 <= j2 < kept@.len() implies keys2.take(i as int + 1).contains(
                            #[trigger] kept@[j2],
                        ) by {
                            assert(keys2.take(i as int).contains(kept@[j2]));
                            let j3 = choose|j3: int|
                                0 <= j3 < keys2.take(i as int).len() && keys2.take(i as int)[j3]
                                    == kept@[j2];
                            assert(keys2.take(i as int + 1)[j3] == kept@[j2]);
                        }
                    }
                }
                proof {
                    assert forall|j2: int|
                        0 <= j2 < i + 1 && self.entries@.contains_key(keys2[j2])
                        implies kept@.contains(#[trigger] keys2[j2]) by {
                        if j2 == i {
                            if keep {
                                assert(kept@[kpre.len() as int] == k);
                            }
                        } else {
                            if self.entries@.contains_key(keys2[j2]) {
                                assert(epre.contains_key(keys2[j2]));
                                assert(kpre.contains(keys2[j2]));
                                let ix = choose|ix: int|
                                    0 <= ix < kpre.len() && kpre[ix] == keys2[j2];
                                assert(kept@[ix] == keys2[j2]);
                            }
                        }
                    }
                }
                i = i + 1;
            }
            self.keys = kept;
            proof {
                assert forall|k: u64|
                    m2.contains_key(k) && in_interest(
                        k as int,
                        grid.zoom as int,
                        grid.col0 as int,
                        grid.col1 as int,
                        grid.row0 as int,
                        grid.row1 as int,
                    ) implies #[trigger] self.entries@.contains_key(k) by {
                    assert(keys2.contains(k));
                    let j2 = choose|j2: int| 0 <= j2 < keys2.len() && keys2[j2] == k;
                    assert(self.entries@.contains_key(keys2[j2]) <==> in_interest(
                        keys2[j2] as int,
                        grid.zoom as int,
                        grid.col0 as int,
                        grid.col1 as int,
                        grid.row0 as int,
                        grid.row1 as int,
                    ));
                }
                assert forall|k: u64| #[trigger]
                    self.entries@.contains_key(k) implies self.keys@.contains(k) by {
                    assert(m2.contains_key(k));
                    assert(keys2.contains(k));
                    let j2 = choose|j2: int| 0 <= j2 < keys2.len() && keys2[j2] == k;
                    assert(kept@.contains(keys2[j2]));
                }
            }
        }
        fetches
    }
}

/// A cache entry never moves backward: a tile that is `Ready` before
/// `update`'s fold stays `Ready` with the same handle afterwards, whatever
/// fetches completed and whatever tiles the frame requested. Completions
/// only resolve `Pending` entries, and requests only touch absent or
/// retry-expired `Failed` entries.
pub proof fn lemma_ready_entries_never_move_backward(
    m: Map<u64, TileState>,
    completed: Seq<FetchOutcome>,
    keys: Seq<u64>,
    now: u64,
    k: u64,
    h: u64,
)
    requires
        m.contains_key(k),
        m[k] == TileState::Ready(h),
    ensures
        ({
            let m2 = request_all(complete_all(m, completed, now), keys, now);
            m2.contains_key(k) && m2[k] == TileState::Ready(h)
        }),
{
    lemma_complete_all_keeps_ready(m, completed, now, k, h);
    lemma_request_all_keeps_ready(complete_all(m, completed, now), keys, now, k, h);
}

proof fn lemma_complete_all_keeps_ready(
    m: Map<u64, TileState>,
    completed: Seq<FetchOutcome>,
    now: u64,
    k: u64,
    h: u64,
)
    requires
        m.contains_key(k),
        m[k] == TileState::Ready(h),
    ensures
        complete_all(m, completed, now).contains_key(k),
        complete_all(m, completed, now)[k] == TileState::Ready(h),
    decreases completed.len(),
{
    if completed.len() > 0 {
        let m1 = complete_one(m, completed[0], now);
        assert(m1.contains_key(k) && m1[k] == TileState::Ready(h));
        lemma_complete_all_keeps_ready(
            m1,
            completed.subrange(1, completed.len() as int),
            now,
            k,
            h,
        );
    }
}

proof fn lemma_request_all_keeps_ready(
    m: Map<u64, TileState>,
    keys: Seq<u64>,
    now: u64,
    k: u64,
    h: u64,
)
    requires
        m.contains_key(k),
        m[k] == TileState::Ready(h),
    ensures
        request_all(m, keys, now).contains_key(k),
        request_all(m, keys, now)[k] == TileState::Ready(h),
    decreases keys.len(),
{
    if keys.len() > 0 {
        let m1 = request_one(m, keys[0], now);
        assert(m1.contains_key(k) && m1[k] == TileState::Ready(h));
        lemma_request_all_keeps_ready(m1, keys.subrange(1, keys.len() as int), now, k, h);
    }
}

/// Appending a value a duplicate-free sequence lacks keeps it
/// duplicate-free.
proof fn lemma_push_keeps_distinct(s: Seq<u64>, v: u64)
    requires
        s.no_duplicates(),
        !s.contains(v),
    ensures
        s.push(v).no_duplicates(),
{
    let t = s.push(v);
    assert forall|i: int, j: int|
        0 <= i < t.len() && 0 <= j < t.len() && i != j implies t[i] != t[j] by {
        if i < s.len() && j < s.len() {
            assert(t[i] == s[i] && t[j] == s[j]);
        } else if i == s.len() && j < s.len() {
            if s[j] == v {
                assert(s.contains(v));
            }
            assert(t[i] == v && t[j] == s[j]);
        } else if j == s.len() && i < s.len() {
            if s[i] == v {
                assert(s.contains(v));
            }
            assert(t[j] == v && t[i] == s[i]);
        }
    }
}

proof fn lemma_complete_all_step(m: Map<u64, TileState>, s: Seq<FetchOutcome>, j: int, now: u64)
    requires
        0 <= j < s.len(),
    ensures
        complete_all(m, s.subrange(j, s.len() as int), now) == complete_all(
            complete_one(m, s[j], now),
            s.subrange(j + 1, s.len() as int),
            now,
        ),
{
    let sub = s.subrange(j, s.len() as int);
    assert(sub[0] == s[j]);
    assert(sub.subrange(1, sub.len() as int) =~= s.subrange(j + 1, s.len() as int));
}

proof fn lemma_dims_step(d: Option<(u32, u32)>, s: Seq<FetchOutcome>, j: int)
    requires
        0 <= j < s.len(),
    ensures
        dims_after(d, s.subrange(j, s.len() as int)) == dims_after(
            (if d is None && s[j].result is Some {
                Some(((s[j].result->0).1, (s[j].result->0).2))
            } else {
                d
            }),
            s.subrange(j + 1, s.len() as int),
        ),
{
    let sub = s.subrange(j, s.len() as int);
    assert(sub[0] == s[j]);
    assert(sub.subrange(1, sub.len() as int) =~= s.subrange(j + 1, s.len() as int));
}

proof fn lemma_request_step(m: Map<u64, TileState>, keys: Seq<u64>, j: int, now: u64)
    requires
        0 <= j < keys.len(),
    ensures
        request_all(m, keys.subrange(j, keys.len() as int), now) == request_all(
            request_one(m, keys[j], now),
            keys.subrange(j + 1, keys.len() as int),
            now,
        ),
        request_list(m, keys.subrange(j, keys.len() as int), now) == (if needs_fetch(
            m,
            keys[j],
            now,
        ) {
            seq![keys[j]] + request_list(
                m.insert(keys[j], TileState::Pending),
                keys.subrange(j + 1, keys.len() as int),
                now,
            )
        } else {
            request_list(m, keys.subrange(j + 1, keys.len() as int), now)
        }),
{
    let sub = keys.subrange(j, keys.len() as int);
    assert(sub[0] == keys[j]);
    assert(sub.subrange(1, sub.len() as int) =~= keys.subrange(j + 1, keys.len() as int));
}

} // verus!

