use pixelypse::{classify, generate_batch, random_seed, Chunk, TileKind, CHUNK_SIZE, CHUNK_TILES, MAX_CODE, SEED_END, SEED_LOW, TEMPLATE_CODE};

fn codes(c: &Chunk) -> Vec<u16> {
    (0..CHUNK_TILES).map(|k| c.tile_code(k)).collect()
}

#[test]
fn classify_known_codes() {
    assert_eq!(classify(0), TileKind::Grass);
    assert_eq!(classify(1), TileKind::Sand);
    assert_eq!(classify(2), TileKind::Dirt);
    assert_eq!(classify(3), TileKind::Stone);
}

#[test]
fn classify_unknown_codes_fall_back_to_grass() {
    assert_eq!(classify(4), TileKind::Grass);
    assert_eq!(classify(999), TileKind::Grass);
    assert_eq!(classify(u16::MAX), TileKind::Grass);
}

#[test]
fn sheet_cells_of_kinds() {
    assert_eq!(TileKind::Grass.sheet_cell(), (0, 0));
    assert_eq!(TileKind::Sand.sheet_cell(), (1, 0));
    assert_eq!(TileKind::Dirt.sheet_cell(), (0, 1));
    assert_eq!(TileKind::Stone.sheet_cell(), (1, 1));
}

#[test]
fn template_is_uniform() {
    let c = Chunk::template(256, -512);
    assert_eq!(c.x(), 256);
    assert_eq!(c.y(), -512);
    assert!(c.has_all_tiles());
    for k in 0..CHUNK_TILES {
        assert_eq!(c.tile_code(k), TEMPLATE_CODE);
    }
    assert_eq!(c.tile(CHUNK_SIZE - 1, CHUNK_SIZE - 1), 1);
}

#[test]
fn generation_is_deterministic() {
    for &(x, y) in &[(0, 0), (0, 256), (-256, 512), (-7, -9), (i32::MIN, i32::MAX)] {
        let a = Chunk::random(x, y, 123456789);
        let b = Chunk::random(x, y, 123456789);
        assert_eq!(a, b);
        assert_eq!(codes(&a), codes(&b));
        assert_eq!(a.x(), x);
        assert_eq!(a.y(), y);
    }
}

#[test]
fn generated_codes_are_in_range() {
    let c = Chunk::random(1024, 768, 42);
    assert!(c.has_all_tiles());
    assert!(codes(&c).iter().all(|&t| t <= MAX_CODE));
}

#[test]
fn generation_uses_more_than_one_code() {
    let c = Chunk::random(0, 0, 42);
    let first = c.tile_code(0);
    assert!(codes(&c).iter().any(|&t| t != first));
}

#[test]
fn zero_coordinates_do_not_collapse_seeds() {
    let seed = 987654321;
    let a = Chunk::random(0, 256, seed);
    let b = Chunk::random(0, 512, seed);
    let c = Chunk::random(256, 0, seed);
    let d = Chunk::random(0, 0, seed);
    assert_ne!(codes(&a), codes(&b));
    assert_ne!(codes(&a), codes(&c));
    assert_ne!(codes(&b), codes(&d));
}

#[test]
fn sign_of_coordinates_matters() {
    let seed = 555;
    assert_ne!(codes(&Chunk::random(256, 256, seed)), codes(&Chunk::random(-256, 256, seed)));
    assert_ne!(codes(&Chunk::random(256, 256, seed)), codes(&Chunk::random(256, -256, seed)));
}

#[test]
fn seed_changes_tiles() {
    assert_ne!(codes(&Chunk::random(256, 256, 1)), codes(&Chunk::random(256, 256, 2)));
}

#[test]
fn worker_and_direct_generation_agree() {
    let from_worker = generate_batch(&vec![(5, 5)], 42);
    let direct = Chunk::random(5, 5, 42);
    assert_eq!(from_worker.len(), 1);
    assert_eq!(from_worker[0], direct);
    assert_eq!(codes(&from_worker[0]), codes(&direct));
}

#[test]
fn batch_keeps_request_order() {
    let request = vec![(0, 0), (256, 0), (-256, 512)];
    let response = generate_batch(&request, 7);
    assert_eq!(response.len(), 3);
    for (i, &(x, y)) in request.iter().enumerate() {
        assert_eq!(response[i], Chunk::random(x, y, 7));
        assert_eq!((response[i].x(), response[i].y()), (x, y));
    }
}

#[test]
fn empty_batch() {
    assert!(generate_batch(&Vec::new(), 7).is_empty());
}

#[test]
fn world_seed_in_range() {
    for _ in 0..20 {
        let s = random_seed();
        assert!(SEED_LOW <= s && s < SEED_END);
    }
}

#[test]
fn mix_matches_splitmix_output() {
    assert_eq!(pixelypse::chunk::mix(0x9e3779b97f4a7c15), 0xe220a8397b1dcdaf);
    assert_eq!(pixelypse::chunk::mix(0), 0);
}

#[test]
fn chunk_and_tile_seeds() {
    assert_eq!(pixelypse::chunk::chunk_seed(42, 5, 5), 0x5c9a65e0084b8dab);
    assert_eq!(pixelypse::chunk::chunk_seed(42, -256, 0), 0x9c89e09a8f8c832f);
    assert_eq!(pixelypse::chunk::tile_seed(0x5c9a65e0084b8dab, 7), 0x56f1d13131d21373);
}
