use pixelypse::{classify, CameraRect, VisibleTile, WorldMap, CHUNK_TILES};

fn cam(x: i32, y: i32, width: u32, height: u32) -> CameraRect {
    CameraRect { x, y, width, height }
}

fn origins(tiles: &[VisibleTile], cp: i32) -> Vec<(i32, i32)> {
    let mut out: Vec<(i32, i32)> = Vec::new();
    for t in tiles {
        let o = (t.x - t.x.rem_euclid(cp), t.y - t.y.rem_euclid(cp));
        if !out.contains(&o) {
            out.push(o);
        }
    }
    out
}

#[test]
fn small_world_scenario() {
    let m = WorldMap::new(2, 2, 16, 42).unwrap();
    assert_eq!(m.pixel_extent(), (256, 256));
    let tiles = m.visible_tiles(cam(0, 0, 100, 100));
    let seen = origins(&tiles, 128);
    assert!(seen.contains(&(0, 0)));
    assert!(!seen.contains(&(128, 128)));
    assert!(tiles.iter().all(|t| !(t.x >= 128 && t.y >= 128)));
}

#[test]
fn visible_chunk_emits_all_tiles_row_by_row() {
    let m = WorldMap::new(2, 2, 16, 42).unwrap();
    let tiles = m.visible_tiles(cam(0, 0, 100, 100));
    assert_eq!(tiles.len(), CHUNK_TILES);
    let c = m.chunk_at(0, 0).unwrap();
    for (k, t) in tiles.iter().enumerate() {
        assert_eq!(t.x, (k % 8) as i32 * 16);
        assert_eq!(t.y, (k / 8) as i32 * 16);
        assert_eq!(t.kind, classify(c.tile_code(k)));
    }
}

#[test]
fn chunks_come_in_grid_order() {
    let m = WorldMap::new(2, 2, 16, 42).unwrap();
    let tiles = m.visible_tiles(cam(-10, -10, 1000, 1000));
    assert_eq!(tiles.len(), 4 * CHUNK_TILES);
    assert_eq!(origins(&tiles, 128), vec![(0, 0), (128, 0), (0, 128), (128, 128)]);
}

#[test]
fn touching_edge_is_not_visible() {
    let m = WorldMap::new(2, 2, 16, 42).unwrap();
    assert_eq!(origins(&m.visible_tiles(cam(0, 0, 128, 128)), 128), vec![(0, 0)]);
    assert_eq!(origins(&m.visible_tiles(cam(0, 0, 129, 128)), 128), vec![(0, 0), (128, 0)]);
    assert!(m.visible_tiles(cam(-50, 0, 50, 50)).is_empty());
    assert!(m.visible_tiles(cam(256, 0, 50, 50)).is_empty());
    assert!(m.visible_tiles(cam(0, 256, 50, 50)).is_empty());
}

#[test]
fn camera_outside_world_sees_nothing() {
    let m = WorldMap::new(2, 2, 32, 42).unwrap();
    assert!(m.visible_tiles(cam(1000, 1000, 200, 200)).is_empty());
    assert!(m.visible_tiles(cam(-500, -500, 100, 100)).is_empty());
    assert!(m.visible_tiles(cam(i32::MIN, i32::MIN, u32::MAX, 10)).is_empty());
}

#[test]
fn zero_size_camera_follows_the_strict_rule() {
    let m = WorldMap::new(2, 2, 32, 42).unwrap();
    // Strictly inside a chunk: that chunk's left edge lies before the
    // camera's right edge and its right edge after the camera's left edge.
    assert_eq!(origins(&m.visible_tiles(cam(10, 10, 0, 0)), 256), vec![(0, 0)]);
    // On the line between two chunks: neither passes the strict test.
    assert!(m.visible_tiles(cam(256, 10, 0, 0)).is_empty());
}

#[test]
fn every_tile_overlapping_the_camera_is_emitted() {
    let m = WorldMap::new(3, 3, 16, 8).unwrap();
    let view = cam(70, 140, 90, 30);
    let tiles = m.visible_tiles(view);
    for i in 0..m.chunk_count() {
        let c = m.chunk(i);
        for k in 0..CHUNK_TILES {
            let tx = c.x() + (k % 8) as i32 * 16;
            let ty = c.y() + (k / 8) as i32 * 16;
            let overlaps = tx < view.x + view.width as i32
                && view.x < tx + 16
                && ty < view.y + view.height as i32
                && view.y < ty + 16;
            if overlaps {
                let want = VisibleTile { x: tx, y: ty, kind: classify(c.tile_code(k)) };
                assert!(tiles.contains(&want));
            }
        }
    }
}

#[test]
fn culling_is_recomputed_each_call() {
    let m = WorldMap::new(2, 2, 16, 42).unwrap();
    let a = m.visible_tiles(cam(0, 0, 100, 100));
    let b = m.visible_tiles(cam(0, 0, 100, 100));
    assert_eq!(a, b);
}
