use flight_tracker::map::{TileGrid, TileView};
use flight_tracker::map_renderer::build_render_layers;
use flight_tracker::tile::{in_interest_exec, FetchOutcome, TileId, TilePipeline, RETRY_DELAY_MS};
use flight_tracker::WORLD_ONE;

fn grid_at(zoom_milli: u32) -> TileGrid {
    let v = TileView::new(WORLD_ONE / 2, WORLD_ONE / 2, zoom_milli, 540);
    v.tile_iter(256, 1280, 720)
}

fn complete_all_fetches(p: &mut TilePipeline, grid: &TileGrid, fetches: Vec<TileId>, now: u64) {
    let mut done = Vec::new();
    for (i, id) in fetches.into_iter().enumerate() {
        done.push(FetchOutcome { id, result: Some((100 + i as u64, 256, 256)) });
    }
    let _ = p.update(grid, &done, now);
}

#[test]
fn update_requests_each_needed_tile_once() {
    let mut p = TilePipeline::new(10_000);
    let g = grid_at(3_000);
    let fetches = p.update(&g, &Vec::new(), 0);
    assert!(!fetches.is_empty());
    let mut keys: Vec<u64> = fetches.iter().map(|t| t.key()).collect();
    let before = keys.len();
    keys.sort_unstable();
    keys.dedup();
    assert_eq!(keys.len(), before);
    for t in &fetches {
        assert_eq!(t.zoom, 3);
        assert!(t.x < 8 && t.y < 8);
    }
    // A second frame with nothing completed requests nothing new.
    let again = p.update(&g, &Vec::new(), 16);
    assert!(again.is_empty());
}

#[test]
fn get_tile_returns_ready_tiles_and_is_idempotent() {
    let mut p = TilePipeline::new(10_000);
    let g = grid_at(3_000);
    let fetches = p.update(&g, &Vec::new(), 0);
    let id = fetches[0];
    assert_eq!(p.get_tile(id), None);
    let done = vec![FetchOutcome { id, result: Some((42, 256, 256)) }];
    let _ = p.update(&g, &done, 16);
    assert_eq!(p.get_tile(id), Some(42));
    assert_eq!(p.get_tile(id), p.get_tile(id));
    assert_eq!(p.tile_size(), Some((256, 256)));
}

#[test]
fn tile_size_is_fixed_by_the_first_fetch() {
    let mut p = TilePipeline::new(10_000);
    let g = grid_at(3_000);
    let fetches = p.update(&g, &Vec::new(), 0);
    assert_eq!(p.tile_size(), None);
    let first = vec![FetchOutcome { id: fetches[0], result: Some((1, 256, 256)) }];
    let _ = p.update(&g, &first, 16);
    let second = vec![FetchOutcome { id: fetches[1], result: Some((2, 512, 512)) }];
    let _ = p.update(&g, &second, 32);
    assert_eq!(p.tile_size(), Some((256, 256)));
}

#[test]
fn failed_fetches_retry_only_after_their_backoff() {
    let mut p = TilePipeline::new(10_000);
    let g = grid_at(3_000);
    let fetches = p.update(&g, &Vec::new(), 0);
    let id = fetches[0];
    let failed = vec![FetchOutcome { id, result: None }];
    let _ = p.update(&g, &failed, 10);
    assert_eq!(p.get_tile(id), None);
    // Before the backoff elapses the tile is not requested again.
    let early = p.update(&g, &Vec::new(), 10 + RETRY_DELAY_MS - 1);
    assert!(!early.iter().any(|t| t.key() == id.key()));
    // Once it has elapsed, it is.
    let late = p.update(&g, &Vec::new(), 10 + RETRY_DELAY_MS);
    assert!(late.iter().any(|t| t.key() == id.key()));
}

#[test]
fn compositor_with_only_the_root_tile_draws_one_coarse_layer() {
    let mut p = TilePipeline::new(10_000);
    let g0 = grid_at(0);
    let fetches = p.update(&g0, &Vec::new(), 0);
    assert!(fetches.iter().any(|t| t.x == 0 && t.y == 0 && t.zoom == 0));
    let done = vec![FetchOutcome { id: TileId::new(0, 0, 0), result: Some((1, 256, 256)) }];
    let _ = p.update(&g0, &done, 16);
    assert_eq!(p.get_tile(TileId::new(0, 0, 0)), Some(1));

    let g3 = grid_at(3_000);
    let layers = build_render_layers(&p, &g3);
    assert_eq!(layers.len(), 1);
    assert_eq!(layers[0].zoom_level, 0);
    assert_eq!(layers[0].tiles.len(), g3.coords.len());
    for &(_, _, tx, ty) in layers[0].tiles.iter() {
        assert_eq!((tx, ty), (0, 0));
    }
}

#[test]
fn compositor_with_a_full_cache_never_falls_back() {
    let mut p = TilePipeline::new(10_000);
    let g3 = grid_at(3_000);
    let fetches = p.update(&g3, &Vec::new(), 0);
    complete_all_fetches(&mut p, &g3, fetches, 16);
    let layers = build_render_layers(&p, &g3);
    assert_eq!(layers.len(), 1);
    assert_eq!(layers[0].zoom_level, 3);
    assert_eq!(layers[0].tiles.len(), g3.coords.len());
}

#[test]
fn compositor_mixes_fine_tiles_with_coarser_fallback() {
    let mut p = TilePipeline::new(10_000);
    // Root ready.
    let g0 = grid_at(0);
    let f0 = p.update(&g0, &Vec::new(), 0);
    complete_all_fetches(&mut p, &g0, f0, 16);
    // Half of the zoom-3 tiles ready.
    let g3 = grid_at(3_000);
    let f3 = p.update(&g3, &Vec::new(), 32);
    let half: Vec<TileId> = f3.iter().take(f3.len() / 2).cloned().collect();
    complete_all_fetches(&mut p, &g3, half, 48);
    let layers = build_render_layers(&p, &g3);
    assert!(layers.len() >= 2);
    // Coarsest first, strictly increasing zoom.
    for w in layers.windows(2) {
        assert!(w[0].zoom_level < w[1].zoom_level);
    }
    // Full coverage: with the root present every cell is drawn exactly once.
    let drawn: usize = layers.iter().map(|l| l.tiles.len()).sum();
    assert_eq!(drawn, g3.coords.len());
    assert_eq!(layers.last().unwrap().zoom_level, 3);
}

#[test]
fn eviction_drops_tiles_far_from_the_viewport() {
    let mut p = TilePipeline::new(1);
    let g3 = grid_at(3_000);
    let f3 = p.update(&g3, &Vec::new(), 0);
    let id = f3[0];
    complete_all_fetches(&mut p, &g3, f3, 16);
    assert!(p.get_tile(id).is_some());
    // Jump to a much deeper zoom: the zoom-3 entries leave the
    // neighbourhood and the over-capacity cache drops them.
    let g10 = grid_at(10_000);
    let _ = p.update(&g10, &Vec::new(), 32);
    assert_eq!(p.get_tile(id), None);
    for &k in p.keys.iter() {
        assert!(in_interest_exec(k, &g10));
    }
}

#[test]
fn tile_id_keys_are_distinct_addresses() {
    let a = TileId::new(1, 2, 3).key();
    let b = TileId::new(2, 1, 3).key();
    let c = TileId::new(1, 2, 4).key();
    assert_ne!(a, b);
    assert_ne!(a, c);
    assert_ne!(b, c);
}

#[test]
fn tile_keys_pack_zoom_column_and_row() {
    let k = TileId::new(1, 2, 3).key();
    assert_eq!(k, 3 * (1u64 << 40) + 1 * (1u64 << 20) + 2);
}
