//! Deterministic randomness: every random decision of the simulation draws
//! from a ChaCha8 stream whose 32-byte key is laid out from the session seed
//! and the current tick, so that every peer draws the same numbers.
use vstd::prelude::*;
use vstd::string::StringSliceAdditionalSpecFns;
use rand::{Rng, SeedableRng};
use rand_chacha::ChaCha8Rng;

verus! {

/// The 3-byte session seed that every peer adopts before the match starts.
#[derive(Clone, Copy, Debug)]
pub struct Seed(pub [u8; 3]);

/// The tick counter that keys seeded draws; it wraps on overflow.
#[derive(Clone, Copy, PartialEq, Eq, Structural, Debug)]
pub struct SeedFrame(pub u32);

/// `v + 1`, wrapping at 2^32.
pub open spec fn next_tick(v: u32) -> u32 {
    if v == u32::MAX {
        0
    } else {
        (v + 1) as u32
    }
}

/// Moves the tick counter one tick forward.
pub fn advance_seed_frame(frame: &mut SeedFrame)
    ensures
        final(frame).0 == next_tick(old(frame).0),
{
    frame.0 = frame.0.wrapping_add(1);
}

/// Byte `k` (0 = least significant) of `v`.
pub open spec fn byte_of(v: u32, k: int) -> u8 {
    if k == 0 {
        (v % 256) as u8
    } else if k == 1 {
        ((v / 256) % 256) as u8
    } else if k == 2 {
        ((v / 65536) % 256) as u8
    } else {
        (v / 16777216) as u8
    }
}

/// The 8-byte block that keys a tick's draws: bytes 1 and 0 of the tick, the
/// last two seed bytes, bytes 2 and 3 of the tick, the last two seed bytes.
pub open spec fn tick_key_block(seed: Seq<u8>, frame: u32) -> Seq<u8> {
    seq![byte_of(frame, 1), byte_of(frame, 0), seed[1], seed[2], byte_of(frame, 2), byte_of(frame, 3), seed[1], seed[2]]
}

/// The 32-byte key of a tick's draws: its block, four times over.
pub open spec fn tick_key(seed: Seq<u8>, frame: u32) -> Seq<u8> {
    Seq::new(32, |i: int| tick_key_block(seed, frame)[i % 8])
}

/// The 32-byte key of the map's draws: the last two seed bytes, alternating.
pub open spec fn map_key(seed: Seq<u8>) -> Seq<u8> {
    Seq::new(32, |i: int| if i % 2 == 0 { seed[1] } else { seed[2] })
}

/// The numbers that a ChaCha8 stream keyed with `key` gives when asked, in
/// turn, for a number below each of `bounds`.
pub uninterp spec fn chacha8_draws(key: Seq<u8>, bounds: Seq<u32>) -> Seq<u32>;

/// Relies on `rand_chacha::ChaCha8Rng::from_seed` and `rand::Rng::gen_range`:
/// a generator keyed with `key` gives, for each bound in turn, a number below
/// it; the numbers depend on the key and the bounds alone.
#[verifier::external_body]
fn draw_below(key: &Vec<u8>, bounds: &Vec<u32>) -> (r: Vec<u32>)
    requires
        key@.len() == 32,
        forall|i: int| 0 <= i < bounds@.len() ==> bounds@[i] > 0,
    ensures
        r@ == chacha8_draws(key@, bounds@),
        r@.len() == bounds@.len(),
        forall|i: int| 0 <= i < r@.len() ==> r@[i] < bounds@[i],
{
    let seed: [u8; 32] = key.as_slice().try_into().unwrap();
    let mut rng = ChaCha8Rng::from_seed(seed);
    bounds.iter().map(|b| rng.gen_range(0..*b)).collect()
}

/// The key of the draws made at tick `frame`.
pub fn tick_seed(seed: &Seed, frame: u32) -> (r: Vec<u8>)
    ensures
        r@ == tick_key(seed.0@, frame),
{
    let block: Vec<u8> = vec![
        ((frame / 256) % 256) as u8,
        (frame % 256) as u8,
        seed.0[1],
        seed.0[2],
        ((frame / 65536) % 256) as u8,
        (frame / 16777216) as u8,
        seed.0[1],
        seed.0[2],
    ];
    assert(block@ =~= tick_key_block(seed.0@, frame));
    let mut key: Vec<u8> = Vec::new();
    let mut i: usize = 0;
    while i < 32
        invariant
            i <= 32,
            block@ == tick_key_block(seed.0@, frame),
            key@ =~= tick_key(seed.0@, frame).take(i as int),
        decreases 32 - i,
    {
        key.push(block[i % 8]);
        i = i + 1;
    }
    assert(key@ =~= tick_key(seed.0@, frame));
    key
}

/// The key of the map's draws.
pub fn map_seed(seed: &Seed) -> (r: Vec<u8>)
    ensures
        r@ == map_key(seed.0@),
{
    let mut key: Vec<u8> = Vec::new();
    let mut i: usize = 0;
    while i < 32
        invariant
            i <= 32,
            key@ =~= map_key(seed.0@).take(i as int),
        decreases 32 - i,
    {
        if i % 2 == 0 {
            key.push(seed.0[1]);
        } else {
            key.push(seed.0[2]);
        }
        i = i + 1;
    }
    assert(key@ =~= map_key(seed.0@));
    key
}

/// Side length, in tiles, of the square field.
pub const MAP_SIZE: u32 = 41;

/// Number of variants of a ground tile.
pub const TILE_VARIANTS: u32 = 32;

/// Number of ground tiles along one side: one more than the field's size.
pub const TILES_PER_SIDE: usize = 42;

/// The bounds of the draws for an enemy's spawn: column, row and species roll.
pub open spec fn spawn_bounds() -> Seq<u32> {
    seq![MAP_SIZE, MAP_SIZE, 100u32]
}

/// The draws that decide the enemy spawned at tick `frame`.
pub open spec fn spawn_draws_at(seed: Seq<u8>, frame: u32) -> Seq<u32> {
    chacha8_draws(tick_key(seed, frame), spawn_bounds())
}

/// The column, row and species roll drawn for an enemy spawned at tick
/// `frame`: each below its bound (41, 41 and 100).
pub fn spawn_draws(seed: &Seed, frame: u32) -> (r: Vec<u32>)
    ensures
        r@ == spawn_draws_at(seed.0@, frame),
        r@.len() == 3,
        r@[0] < MAP_SIZE,
        r@[1] < MAP_SIZE,
        r@[2] < 100,
{
    let key = tick_seed(seed, frame);
    let bounds: Vec<u32> = vec![MAP_SIZE, MAP_SIZE, 100];
    assert(bounds@ =~= spawn_bounds());
    draw_below(&key, &bounds)
}

/// The bounds of the map's draws: one variant per tile, row by row.
pub open spec fn tile_bounds() -> Seq<u32> {
    Seq::new((TILES_PER_SIDE * TILES_PER_SIDE) as nat, |i: int| TILE_VARIANTS)
}

/// The variant of every ground tile, row by row from the bottom-left one.
pub fn tile_variants(seed: &Seed) -> (r: Vec<u32>)
    ensures
        r@ == chacha8_draws(map_key(seed.0@), tile_bounds()),
        r@.len() == TILES_PER_SIDE * TILES_PER_SIDE,
        forall|i: int| 0 <= i < r@.len() ==> r@[i] < TILE_VARIANTS,
{
    let key = map_seed(seed);
    let mut bounds: Vec<u32> = Vec::new();
    let n: usize = TILES_PER_SIDE * TILES_PER_SIDE;
    let mut i: usize = 0;
    while i < n
        invariant
            i <= n,
            n == TILES_PER_SIDE * TILES_PER_SIDE,
            bounds@ =~= tile_bounds().take(i as int),
        decreases n - i,
    {
        bounds.push(TILE_VARIANTS);
        i = i + 1;
    }
    assert(bounds@ =~= tile_bounds());
    draw_below(&key, &bounds)
}

/// Display names to pick from, one of which is assigned to each peer.
pub struct PlayerNames(pub Vec<String>);

/// The key of a peer's name draw: the first 32 bytes of its identifier.
pub open spec fn name_key(id: Seq<u8>) -> Seq<u8> {
    id.take(32)
}

impl PlayerNames {
    /// The display name assigned to the peer with identifier `id`: the same
    /// identifier always gets the same name.
    pub fn get_name_from_id(&self, id: &str) -> (r: String)
        requires
            self.0@.len() > 0,
            self.0@.len() <= u32::MAX,
            id.spec_bytes().len() >= 32,
        ensures
            chacha8_draws(name_key(id.spec_bytes()), seq![self.0@.len() as u32]).len() == 1,
            chacha8_draws(name_key(id.spec_bytes()), seq![self.0@.len() as u32])[0] < self.0@.len(),
            r@ == self.0@[chacha8_draws(name_key(id.spec_bytes()), seq![self.0@.len() as u32])[0] as int]@,
    {
        let bytes = id.as_bytes();
        let mut key: Vec<u8> = Vec::new();
        let mut i: usize = 0;
        while i < 32
            invariant
                i <= 32,
                bytes@ == id.spec_bytes(),
                bytes@.len() >= 32,
                key@ =~= name_key(bytes@).take(i as int),
            decreases 32 - i,
        {
            key.push(bytes[i]);
            i = i + 1;
        }
        assert(key@ =~= name_key(bytes@));
        let bounds: Vec<u32> = vec![self.0.len() as u32];
        assert(bounds@ =~= seq![self.0@.len() as u32]);
        let draws = draw_below(&key, &bounds);
        let index = draws[0] as usize;
        self.0[index].clone()
    }
}

} // verus!
