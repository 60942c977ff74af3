use fvz::seeding::{
    advance_seed_frame, map_seed, spawn_draws, tick_seed, tile_variants, PlayerNames, Seed,
    SeedFrame,
};

#[test]
fn tick_key_layout() {
    let key = tick_seed(&Seed([3, 4, 5]), 0x0102_0304);
    let block = [0x03u8, 0x04, 4, 5, 0x02, 0x01, 4, 5];
    assert_eq!(key.len(), 32);
    for i in 0..32 {
        assert_eq!(key[i], block[i % 8]);
    }
}

#[test]
fn map_key_layout() {
    let key = map_seed(&Seed([3, 4, 5]));
    assert_eq!(key.len(), 32);
    for i in 0..32 {
        assert_eq!(key[i], if i % 2 == 0 { 4 } else { 5 });
    }
}

#[test]
fn spawn_draws_match_reference_stream() {
    // ChaCha8 keyed as laid out above, asked for draws below 41, 41 and 100.
    let seed = Seed([3, 4, 5]);
    let expected: [(u32, [u32; 3]); 7] = [
        (0, [15, 0, 53]),
        (1, [17, 37, 36]),
        (2, [37, 23, 44]),
        (300, [40, 39, 28]),
        (600, [22, 13, 10]),
        (900, [26, 14, 76]),
        (1200, [1, 28, 7]),
    ];
    for (frame, draws) in expected.iter() {
        assert_eq!(spawn_draws(&seed, *frame), draws.to_vec(), "frame {}", frame);
    }
}

#[test]
fn spawn_draws_are_reproducible() {
    let seed = Seed([9, 8, 7]);
    for frame in 0..50u32 {
        let a = spawn_draws(&seed, frame);
        let b = spawn_draws(&seed, frame);
        assert_eq!(a, b);
        assert!(a[0] < 41 && a[1] < 41 && a[2] < 100);
    }
}

#[test]
fn tile_variants_match_reference_stream() {
    let tiles = tile_variants(&Seed([3, 4, 5]));
    assert_eq!(tiles.len(), 42 * 42);
    assert_eq!(&tiles[..10], &[24, 1, 2, 3, 30, 21, 12, 26, 31, 8]);
    assert!(tiles.iter().all(|t| *t < 32));
}

#[test]
fn seed_frame_wraps() {
    let mut f = SeedFrame(u32::MAX);
    advance_seed_frame(&mut f);
    assert_eq!(f.0, 0);
    advance_seed_frame(&mut f);
    assert_eq!(f.0, 1);
}

#[test]
fn names_are_stable_per_identifier() {
    let names = PlayerNames(vec!["Ada".to_string(), "Bo".to_string(), "Cy".to_string()]);
    let id = "0123456789abcdef0123456789abcdef-peer";
    let a = names.get_name_from_id(id);
    let b = names.get_name_from_id(id);
    assert_eq!(a, b);
    assert!(names.0.contains(&a));
}
