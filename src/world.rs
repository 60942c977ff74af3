//! The rollback-relevant simulation state and the step functions of one
//! tick. Positions are fixed-point: 1000 units make one tile, and the field
//! is centred on the origin.
use vstd::prelude::*;
use crate::events::{FvzEvent, SafeEvent};
use crate::input::{axis_x, axis_y, direction, GameInput};
use crate::seeding::{advance_seed_frame, next_tick, spawn_draws, spawn_draws_at, Seed, SeedFrame};

verus! {

/// Units in one tile.
pub const UNIT: i32 = 1000;
/// Players stay within this distance of the centre on each axis.
pub const PLAYER_LIMIT: i32 = 20000;
/// Enemies stay within this distance of the centre on each axis.
pub const ENEMY_LIMIT: i32 = 20500;
/// A bullet that flies further than this from the centre is removed.
pub const BULLET_LIMIT: i32 = 25000;
/// Distance a player covers in one tick along an axis.
pub const PLAYER_SPEED: i32 = 130;
/// Distance a player covers in one tick along each axis when moving diagonally.
pub const PLAYER_DIAGONAL_SPEED: i32 = 92;
/// Distance a bullet covers in one tick along an axis.
pub const BULLET_SPEED: i32 = 350;
/// Distance a bullet covers in one tick along each axis when flying diagonally.
pub const BULLET_DIAGONAL_SPEED: i32 = 247;
pub const PLAYER_RADIUS: i64 = 500;
pub const ENEMY_RADIUS: i64 = 500;
pub const BULLET_RADIUS: i64 = 25;
/// An enemy closer than this to its target attacks instead of moving.
pub const ATTACK_RANGE: i64 = 125;
/// A living player can revive a dead one at most this far away.
pub const REVIVE_DISTANCE: i64 = 1200;
pub const PLAYER_HEALTH: u32 = 510;
pub const BULLET_DAMAGE: u32 = 50;
pub const WEAPON_COOLDOWN: u32 = 30;
/// Ticks between two enemy spawns.
pub const ENEMY_SPAWN_TICKS: u32 = 300;
/// Fastest enemy speed the simulation accepts, in units per tick.
pub const MAX_ENEMY_SPEED: u32 = 1000;

#[derive(Clone, Copy, PartialEq, Eq, Structural, Debug)]
pub struct Health {
    pub max: u32,
    pub current: u32,
}

impl Health {
    pub fn new(hp: u32) -> (r: Health)
        ensures
            r == (Health { max: hp, current: hp }),
    {
        Health { max: hp, current: hp }
    }
}

/// `a - b`, or 0 where `b` exceeds `a`.
pub open spec fn sat_sub(a: u32, b: u32) -> u32 {
    if a >= b {
        (a - b) as u32
    } else {
        0
    }
}

/// `a + b`, wrapping at 2^32.
pub open spec fn wrap_add(a: u32, b: u32) -> u32 {
    ((a + b) % 0x1_0000_0000) as u32
}

/// `a * b`, wrapping at 2^32.
pub open spec fn wrap_mul(a: u32, b: u32) -> u32 {
    ((a * b) % 0x1_0000_0000) as u32
}

/// A player's gun: it fires at most once per cooldown.
#[derive(Clone, Copy, PartialEq, Eq, Structural, Debug)]
pub struct Weapon {
    pub fire_frame: u32,
    pub frame_cooldown: u32,
}

impl Weapon {
    pub fn new() -> (r: Weapon)
        ensures
            r == (Weapon { fire_frame: 0, frame_cooldown: WEAPON_COOLDOWN }),
    {
        Weapon { fire_frame: 0, frame_cooldown: WEAPON_COOLDOWN }
    }

    pub open spec fn can_shoot(self, frame: u32) -> bool {
        wrap_add(self.fire_frame, self.frame_cooldown) < frame
    }

    /// Fires when the cooldown since the last shot has passed at tick
    /// `seed_frame`, and then remembers that tick.
    pub fn shoot(&mut self, seed_frame: &SeedFrame) -> (r: bool)
        ensures
            r == old(self).can_shoot(seed_frame.0),
            r ==> *final(self) == (Weapon { fire_frame: seed_frame.0, ..*old(self) }),
            !r ==> *final(self) == *old(self),
    {
        if self.fire_frame.wrapping_add(self.frame_cooldown) < seed_frame.0 {
            self.fire_frame = seed_frame.0;
            true
        } else {
            false
        }
    }
}

/// A direction of movement: each axis is -1, 0 or 1.
#[derive(Clone, Copy, PartialEq, Eq, Structural, Debug)]
pub struct MoveDir(pub i32, pub i32);

impl MoveDir {
    pub open spec fn wf(self) -> bool {
        -1 <= self.0 <= 1 && -1 <= self.1 <= 1
    }
}

/// How far one tick of movement along `d` takes a mover of the given axis
/// and diagonal speeds, on one axis whose direction is `a`.
pub open spec fn axis_delta(a: int, d: MoveDir, speed: int, diagonal: int) -> int {
    let s = if d.0 != 0 && d.1 != 0 { diagonal } else { speed };
    if a > 0 {
        s
    } else if a < 0 {
        -s
    } else {
        0
    }
}

pub open spec fn clamp(v: int, limit: int) -> int {
    if v > limit {
        limit
    } else if v < -limit {
        -limit
    } else {
        v
    }
}

#[derive(Clone, Copy, PartialEq, Eq, Structural, Debug)]
pub struct Player {
    /// The player's handle, which is also its place in the world's list.
    pub handle: usize,
    /// Stable entity identifier.
    pub id: u32,
    pub x: i32,
    pub y: i32,
    /// The direction of the last movement; bullets fly that way.
    pub move_dir: MoveDir,
    pub health: Health,
    pub weapon: Weapon,
    pub dead: bool,
}

/// The statistics of one enemy species.
#[derive(Clone, Copy, PartialEq, Eq, Structural, Debug)]
pub struct EnemyData {
    pub speed: u32,
    pub damage: u32,
    pub health: u32,
    pub attack_cooldown: u32,
}

/// The enemy species the spawner chooses from.
#[derive(Clone, Copy, PartialEq, Eq, Structural, Debug)]
pub struct EnemyAssets {
    pub devil: EnemyData,
    pub zombie: EnemyData,
}

impl EnemyAssets {
    pub open spec fn wf(self) -> bool {
        self.devil.speed <= MAX_ENEMY_SPEED && self.zombie.speed <= MAX_ENEMY_SPEED
    }

    /// The standard species table.
    pub fn standard() -> (r: EnemyAssets)
        ensures
            r.wf(),
            r == (EnemyAssets {
                devil: EnemyData { speed: 35, damage: 20, health: 150, attack_cooldown: 40 },
                zombie: EnemyData { speed: 20, damage: 10, health: 100, attack_cooldown: 60 },
            }),
    {
        EnemyAssets {
            devil: EnemyData { speed: 35, damage: 20, health: 150, attack_cooldown: 40 },
            zombie: EnemyData { speed: 20, damage: 10, health: 100, attack_cooldown: 60 },
        }
    }

    pub open spec fn get_spec(self, random_index: i32) -> EnemyData {
        if random_index > 80 {
            self.devil
        } else {
            self.zombie
        }
    }

    /// The species for a roll below 100: above 80 a devil, else a zombie.
    pub fn get(&self, random_index: i32) -> (r: EnemyData)
        ensures
            r == self.get_spec(random_index),
    {
        if random_index > 80 {
            self.devil
        } else {
            self.zombie
        }
    }
}

#[derive(Clone, Copy, PartialEq, Eq, Structural, Debug)]
pub struct Enemy {
    pub id: u32,
    pub x: i32,
    pub y: i32,
    pub health: Health,
    pub damage: u32,
    pub speed: u32,
    pub last_attack: u32,
    pub attack_cooldown: u32,
}

/// A bullet as a list of the entities it has hit, its shooter first.
pub struct Bullet {
    pub damage: u32,
    pub max_hits: usize,
    pub already_hit: Vec<u32>,
}

impl Bullet {
    /// A bullet of `shooter`, which counts as already hit.
    pub fn fire(damage: u32, shooter: u32) -> (r: Bullet)
        ensures
            r.damage == damage,
            r.max_hits == 1,
            r.already_hit@ == seq![shooter],
    {
        let already_hit: Vec<u32> = vec![shooter];
        assert(already_hit@ =~= seq![shooter]);
        Bullet { damage, max_hits: 1, already_hit }
    }

    /// Records a hit on `entity`; false (and nothing recorded) where the
    /// bullet has already hit it.
    pub fn hit(&mut self, entity: u32) -> (r: bool)
        ensures
            r == !old(self).already_hit@.contains(entity),
            r ==> final(self).already_hit@ == old(self).already_hit@.push(entity),
            !r ==> final(self).already_hit@ == old(self).already_hit@,
            final(self).damage == old(self).damage,
            final(self).max_hits == old(self).max_hits,
    {
        let mut i: usize = 0;
        while i < self.already_hit.len()
            invariant
                0 <= i <= self.already_hit@.len(),
                self.already_hit@ == old(self).already_hit@,
                self.damage == old(self).damage,
                self.max_hits == old(self).max_hits,
                forall|j: int| 0 <= j < i ==> self.already_hit@[j] != entity,
            decreases self.already_hit@.len() - i,
        {
            if self.already_hit[i] == entity {
                return false;
            }
            i = i + 1;
        }
        self.already_hit.push(entity);
        true
    }

    /// Whether the bullet has hit all it may (its shooter counts as one).
    pub fn is_used_up(&self) -> (r: bool)
        ensures
            r == (self.already_hit@.len() > self.max_hits),
    {
        self.already_hit.len() > self.max_hits
    }
}

/// The record a bullet in flight carries in the world: its damage, its
/// shooter (whom it never hits) and how many other entities it has hit out of
/// the most it may. The world removes a bullet as soon as it is used up, and
/// fires every bullet with room for one hit, so a count is all it needs to
/// tell which entities a bullet may still hit.
#[derive(Clone, Copy, PartialEq, Eq, Structural, Debug)]
pub struct Shot {
    pub damage: u32,
    pub max_hits: u32,
    pub shooter: u32,
    pub hits: u32,
}

impl Shot {
    pub fn fire(damage: u32, shooter: u32) -> (r: Shot)
        ensures
            r == (Shot { damage, max_hits: 1, shooter, hits: 0 }),
    {
        Shot { damage, max_hits: 1, shooter, hits: 0 }
    }

    pub open spec fn hit_spec(self, entity: u32) -> (Shot, bool) {
        if entity == self.shooter {
            (self, false)
        } else {
            (Shot { hits: if self.hits < u32::MAX { (self.hits + 1) as u32 } else { self.hits }, ..self }, true)
        }
    }

    /// Records a hit on `entity`; false (and nothing recorded) where it is
    /// the shooter.
    pub fn hit(&mut self, entity: u32) -> (r: bool)
        ensures
            (*final(self), r) == old(self).hit_spec(entity),
    {
        if entity == self.shooter {
            return false;
        }
        if self.hits < u32::MAX {
            self.hits = self.hits + 1;
        }
        true
    }

    pub open spec fn used_up(self) -> bool {
        self.hits as int + 1 > self.max_hits as int
    }

    /// Whether the bullet has hit all it may (its shooter counts as one).
    pub fn is_used_up(&self) -> (r: bool)
        ensures
            r == self.used_up(),
    {
        self.hits as u64 + 1 > self.max_hits as u64
    }
}

/// A bullet in flight.
#[derive(Clone, Copy, PartialEq, Eq, Structural, Debug)]
pub struct Projectile {
    pub id: u32,
    pub x: i32,
    pub y: i32,
    pub dir: MoveDir,
    pub bullet: Shot,
}

/// Damage dealt to enemies so far.
#[derive(Clone, Copy, PartialEq, Eq, Structural, Debug)]
pub struct Score(pub u64);

/// All state that a rollback restores.
pub struct World {
    pub frame: SeedFrame,
    /// Ticks since the last enemy spawn.
    pub enemy_timer: u32,
    /// The identifier the next spawned entity gets.
    pub next_id: u32,
    pub score: Score,
    /// The match is over: every player is dead.
    pub lost: bool,
    pub players: Vec<Player>,
    pub enemies: Vec<Enemy>,
    pub projectiles: Vec<Projectile>,
    pub enemy_assets: EnemyAssets,
}

/// The value of a world, as contracts see it.
pub struct WorldModel {
    pub frame: u32,
    pub enemy_timer: u32,
    pub next_id: u32,
    pub score: u64,
    pub lost: bool,
    pub players: Seq<Player>,
    pub enemies: Seq<Enemy>,
    pub projectiles: Seq<Projectile>,
    pub enemy_assets: EnemyAssets,
}

impl View for World {
    type V = WorldModel;

    open spec fn view(&self) -> WorldModel {
        WorldModel {
            frame: self.frame.0,
            enemy_timer: self.enemy_timer,
            next_id: self.next_id,
            score: self.score.0,
            lost: self.lost,
            players: self.players@,
            enemies: self.enemies@,
            projectiles: self.projectiles@,
            enemy_assets: self.enemy_assets,
        }
    }
}

pub open spec fn player_wf(p: Player) -> bool {
    -PLAYER_LIMIT <= p.x <= PLAYER_LIMIT && -PLAYER_LIMIT <= p.y <= PLAYER_LIMIT && p.move_dir.wf()
}

pub open spec fn enemy_wf(e: Enemy) -> bool {
    -ENEMY_LIMIT <= e.x <= ENEMY_LIMIT && -ENEMY_LIMIT <= e.y <= ENEMY_LIMIT && e.speed <= MAX_ENEMY_SPEED
}

pub open spec fn projectile_wf(b: Projectile) -> bool {
    -BULLET_LIMIT <= b.x <= BULLET_LIMIT && -BULLET_LIMIT <= b.y <= BULLET_LIMIT && b.dir.wf()
}

pub open spec fn players_wf(ps: Seq<Player>) -> bool {
    forall|i: int| 0 <= i < ps.len() ==> (#[trigger] ps[i]).handle == i && player_wf(ps[i])
}

pub open spec fn enemies_wf(es: Seq<Enemy>) -> bool {
    forall|i: int| 0 <= i < es.len() ==> enemy_wf(#[trigger] es[i])
}

pub open spec fn projectiles_wf(bs: Seq<Projectile>) -> bool {
    forall|i: int| 0 <= i < bs.len() ==> projectile_wf(#[trigger] bs[i])
}

impl WorldModel {
    /// Every position lies in its range, every player sits at its handle's
    /// place, and every species is slow enough.
    pub open spec fn wf(self) -> bool {
        &&& players_wf(self.players)
        &&& enemies_wf(self.enemies)
        &&& projectiles_wf(self.projectiles)
        &&& self.enemy_assets.wf()
    }
}

/// The square of the distance between two points.
pub open spec fn dist2(ax: int, ay: int, bx: int, by: int) -> int {
    (ax - bx) * (ax - bx) + (ay - by) * (ay - by)
}

fn distance_squared(ax: i32, ay: i32, bx: i32, by: i32) -> (r: i64)
    requires
        -BULLET_LIMIT <= ax <= BULLET_LIMIT,
        -BULLET_LIMIT <= ay <= BULLET_LIMIT,
        -BULLET_LIMIT <= bx <= BULLET_LIMIT,
        -BULLET_LIMIT <= by <= BULLET_LIMIT,
    ensures
        r == dist2(ax as int, ay as int, bx as int, by as int),
        0 <= r <= 5_000_000_000,
{
    let dx = ax as i64 - bx as i64;
    let dy = ay as i64 - by as i64;
    assert(0 <= dx * dx <= 2_500_000_000) by (nonlinear_arith)
        requires
            -50000 <= dx <= 50000,
    ;
    assert(0 <= dy * dy <= 2_500_000_000) by (nonlinear_arith)
        requires
            -50000 <= dy <= 50000,
    ;
    dx * dx + dy * dy
}

fn clamp_i64(v: i64, limit: i32) -> (r: i32)
    requires
        limit >= 0,
    ensures
        r as int == clamp(v as int, limit as int),
{
    if v > limit as i64 {
        limit
    } else if v < -(limit as i64) {
        -limit
    } else {
        v as i32
    }
}

/// A player after the movement step of a tick with input `input`.
pub open spec fn moved_player(p: Player, input: u8) -> Player {
    let d = MoveDir(axis_x(input) as i32, axis_y(input) as i32);
    if p.dead || (axis_x(input) == 0 && axis_y(input) == 0) {
        p
    } else {
        Player {
            move_dir: d,
            x: clamp(p.x + axis_delta(axis_x(input), d, PLAYER_SPEED as int, PLAYER_DIAGONAL_SPEED as int), PLAYER_LIMIT as int) as i32,
            y: clamp(p.y + axis_delta(axis_y(input), d, PLAYER_SPEED as int, PLAYER_DIAGONAL_SPEED as int), PLAYER_LIMIT as int) as i32,
            ..p
        }
    }
}

fn axis_step(a: i32, d: MoveDir, speed: i32, diagonal: i32) -> (r: i32)
    requires
        0 <= speed <= 1000,
        0 <= diagonal <= 1000,
    ensures
        r as int == axis_delta(a as int, d, speed as int, diagonal as int),
{
    let s = if d.0 != 0 && d.1 != 0 { diagonal } else { speed };
    if a > 0 {
        s
    } else if a < 0 {
        -s
    } else {
        0
    }
}

/// Moves every living player by its input; a player without a direction
/// stays where it is.
pub fn move_players(players: &mut Vec<Player>, inputs: &Vec<u8>)
    requires
        players_wf(old(players)@),
        inputs@.len() == old(players)@.len(),
    ensures
        final(players)@ == Seq::new(old(players)@.len(), |i: int| moved_player(old(players)@[i], inputs@[i])),
        players_wf(final(players)@),
{
    let ghost ps0 = players@;
    let mut i: usize = 0;
    while i < players.len()
        invariant
            0 <= i <= ps0.len(),
            players@.len() == ps0.len(),
            inputs@.len() == ps0.len(),
            players_wf(ps0),
            forall|j: int| 0 <= j < i ==> players@[j] == moved_player(ps0[j], inputs@[j]),
            forall|j: int| i <= j < ps0.len() ==> players@[j] == ps0[j],
            players_wf(players@),
        decreases ps0.len() - i,
    {
        let mut p = players[i];
        let input = inputs[i];
        let (dx, dy) = direction(input);
        if !p.dead && !(dx == 0 && dy == 0) {
            let d = MoveDir(dx, dy);
            p.move_dir = d;
            let sx = axis_step(dx, d, PLAYER_SPEED, PLAYER_DIAGONAL_SPEED);
            let sy = axis_step(dy, d, PLAYER_SPEED, PLAYER_DIAGONAL_SPEED);
            p.x = clamp_i64(p.x as i64 + sx as i64, PLAYER_LIMIT);
            p.y = clamp_i64(p.y as i64 + sy as i64, PLAYER_LIMIT);
        }
        players.set(i, p);
        i = i + 1;
    }
    assert(players@ =~= Seq::new(ps0.len(), |i: int| moved_player(ps0[i], inputs@[i])));
}

/// A bullet after one tick of flight.
pub open spec fn flown(b: Projectile) -> Projectile {
    Projectile {
        x: (b.x + axis_delta(b.dir.0 as int, b.dir, BULLET_SPEED as int, BULLET_DIAGONAL_SPEED as int)) as i32,
        y: (b.y + axis_delta(b.dir.1 as int, b.dir, BULLET_SPEED as int, BULLET_DIAGONAL_SPEED as int)) as i32,
        ..b
    }
}

pub open spec fn in_field(b: Projectile) -> bool {
    -BULLET_LIMIT <= b.x <= BULLET_LIMIT && -BULLET_LIMIT <= b.y <= BULLET_LIMIT
}

/// The bullets after one tick of flight, without those that left the field.
pub open spec fn flown_all(bs: Seq<Projectile>) -> Seq<Projectile>
    decreases bs.len(),
{
    if bs.len() == 0 {
        bs
    } else {
        let rest = flown_all(bs.drop_last());
        if in_field(flown(bs.last())) {
            rest.push(flown(bs.last()))
        } else {
            rest
        }
    }
}

proof fn lemma_flown_all_wf(bs: Seq<Projectile>)
    requires
        projectiles_wf(bs),
    ensures
        projectiles_wf(flown_all(bs)),
    decreases bs.len(),
{
    if bs.len() > 0 {
        let p = bs.drop_last();
        assert(projectiles_wf(p)) by {
            assert forall|i: int| 0 <= i < p.len() implies projectile_wf(#[trigger] p[i]) by {
                assert(p[i] == bs[i]);
            }
        }
        lemma_flown_all_wf(p);
        assert(projectile_wf(bs[bs.len() - 1]));
    }
}

/// Moves every bullet along its direction and removes those that left the
/// field.
pub fn move_bullet(projectiles: &mut Vec<Projectile>)
    requires
        projectiles_wf(old(projectiles)@),
    ensures
        final(projectiles)@ == flown_all(old(projectiles)@),
        projectiles_wf(final(projectiles)@),
{
    let ghost b0 = projectiles@;
    let mut kept: Vec<Projectile> = Vec::new();
    let mut i: usize = 0;
    proof {
        assert(b0.take(0) =~= Seq::<Projectile>::empty());
    }
    while i < projectiles.len()
        invariant
            0 <= i <= b0.len(),
            projectiles@ == b0,
            projectiles_wf(b0),
            kept@ == flown_all(b0.take(i as int)),
        decreases b0.len() - i,
    {
        let mut b = projectiles[i];
        proof {
            assert(b0.take(i + 1).drop_last() =~= b0.take(i as int));
            assert(b0.take(i + 1).last() == b);
            assert(projectile_wf(b0[i as int]));
        }
        let sx = axis_step(b.dir.0, b.dir, BULLET_SPEED, BULLET_DIAGONAL_SPEED);
        let sy = axis_step(b.dir.1, b.dir, BULLET_SPEED, BULLET_DIAGONAL_SPEED);
        b.x = b.x + sx;
        b.y = b.y + sy;
        if -BULLET_LIMIT <= b.x && b.x <= BULLET_LIMIT && -BULLET_LIMIT <= b.y && b.y <= BULLET_LIMIT {
            kept.push(b);
        }
        i = i + 1;
    }
    proof {
        assert(b0.take(b0.len() as int) =~= b0);
        lemma_flown_all_wf(b0);
    }
    *projectiles = kept;
}

/// A player after the death step: one without health left is dead.
pub open spec fn after_death_check(p: Player) -> Player {
    if !p.dead && p.health.current == 0 {
        Player { dead: true, ..p }
    } else {
        p
    }
}

/// Marks every living player without health left as dead.
pub fn kill_players(players: &mut Vec<Player>)
    requires
        players_wf(old(players)@),
    ensures
        final(players)@ == old(players)@.map_values(|p: Player| after_death_check(p)),
        players_wf(final(players)@),
{
    let ghost ps0 = players@;
    let mut i: usize = 0;
    while i < players.len()
        invariant
            0 <= i <= ps0.len(),
            players@.len() == ps0.len(),
            players_wf(ps0),
            forall|j: int| 0 <= j < i ==> players@[j] == after_death_check(ps0[j]),
            forall|j: int| i <= j < ps0.len() ==> players@[j] == ps0[j],
        decreases ps0.len() - i,
    {
        let mut p = players[i];
        if !p.dead && p.health.current == 0 {
            p.dead = true;
        }
        players.set(i, p);
        i = i + 1;
    }
    assert(players@ =~= ps0.map_values(|p: Player| after_death_check(p)));
}

pub open spec fn all_dead(ps: Seq<Player>) -> bool {
    forall|i: int| 0 <= i < ps.len() ==> (#[trigger] ps[i]).dead
}

/// The fingerprint of the end of the match.
pub const LOST_FINGERPRINT: u32 = 0;

/// Ends the match when no player is alive, raising the matching event.
pub fn end_game(world: &mut World, events: &mut Vec<SafeEvent>)
    ensures
        final(world)@ == (WorldModel { lost: old(world)@.lost || all_dead(old(world)@.players), ..old(world)@ }),
        final(events)@ == if all_dead(old(world)@.players) {
            old(events)@.push(SafeEvent { real_age: 0, id: LOST_FINGERPRINT, event: FvzEvent::Lost })
        } else {
            old(events)@
        },
{
    let mut i: usize = 0;
    while i < world.players.len()
        invariant
            0 <= i <= world.players@.len(),
            forall|j: int| 0 <= j < i ==> (#[trigger] world.players@[j]).dead,
        decreases world.players@.len() - i,
    {
        if !world.players[i].dead {
            return;
        }
        i = i + 1;
    }
    events.push(SafeEvent::new(FvzEvent::Lost, LOST_FINGERPRINT));
    world.lost = true;
}

/// The enemy spawned from draws `d` (column, row, species roll) with
/// identifier `id`.
pub open spec fn spawned_enemy(assets: EnemyAssets, d: Seq<u32>, id: u32) -> Enemy {
    let data = assets.get_spec(d[2] as i32);
    Enemy {
        id,
        x: (d[0] * UNIT - 20500) as i32,
        y: (d[1] * UNIT - 20500) as i32,
        health: Health { max: data.health, current: data.health },
        damage: data.damage,
        speed: data.speed,
        last_attack: 0,
        attack_cooldown: data.attack_cooldown,
    }
}

/// The enemy for the given draws: the column and row (each below 41) place it
/// on the field, and the species roll picks its species.
pub fn spawn_enemy(assets: &EnemyAssets, draws: &Vec<u32>, id: u32) -> (r: Enemy)
    requires
        draws@.len() == 3,
        draws@[0] < 41,
        draws@[1] < 41,
        draws@[2] < 100,
    ensures
        r == spawned_enemy(*assets, draws@, id),
{
    let data = assets.get(draws[2] as i32);
    Enemy {
        id,
        x: (draws[0] as i32) * UNIT - 20500,
        y: (draws[1] as i32) * UNIT - 20500,
        health: Health::new(data.health),
        damage: data.damage,
        speed: data.speed,
        last_attack: 0,
        attack_cooldown: data.attack_cooldown,
    }
}

/// The world after the spawn step: the timer counts one more tick, and when
/// it reaches the spawn interval it restarts and an enemy drawn from this
/// tick's seeded stream joins.
pub open spec fn spawned(w: WorldModel, seed: Seq<u8>) -> WorldModel {
    if w.enemy_timer as int + 1 >= ENEMY_SPAWN_TICKS {
        WorldModel {
            enemy_timer: 0,
            next_id: wrap_add(w.next_id, 1),
            enemies: w.enemies.push(spawned_enemy(w.enemy_assets, spawn_draws_at(seed, w.frame), w.next_id)),
            ..w
        }
    } else {
        WorldModel { enemy_timer: (w.enemy_timer + 1) as u32, ..w }
    }
}

/// Counts the spawn timer one tick on and spawns an enemy when it fires.
pub fn spawn_enemies(world: &mut World, seed: &Seed)
    requires
        old(world)@.wf(),
    ensures
        final(world)@ == spawned(old(world)@, seed.0@),
        final(world)@.wf(),
        old(world)@.enemy_timer as int + 1 >= ENEMY_SPAWN_TICKS ==> ({
            let d = spawn_draws_at(seed.0@, old(world)@.frame);
            let e = final(world)@.enemies.last();
            &&& d.len() == 3 && d[0] < 41 && d[1] < 41 && d[2] < 100
            &&& -20500 <= e.x <= 19500 && -20500 <= e.y <= 19500
            &&& (e.x + 20500) % 1000 == 0 && (e.y + 20500) % 1000 == 0
        }),
{
    if world.enemy_timer >= ENEMY_SPAWN_TICKS - 1 {
        world.enemy_timer = 0;
        let draws = spawn_draws(seed, world.frame.0);
        let e = spawn_enemy(&world.enemy_assets, &draws, world.next_id);
        world.next_id = world.next_id.wrapping_add(1);
        world.enemies.push(e);
        proof {
            let es = world.enemies@;
            assert forall|i: int| 0 <= i < es.len() implies enemy_wf(#[trigger] es[i]) by {
                if i < es.len() - 1 {
                    assert(es[i] == old(world)@.enemies[i]);
                }
            }
        }
    } else {
        world.enemy_timer = world.enemy_timer + 1;
    }
}

/// The living player nearest to `(x, y)` among the first `n`: on a tie the
/// one that comes first.
pub open spec fn closest_alive(ps: Seq<Player>, x: int, y: int, n: int) -> Option<int>
    decreases n,
{
    if n <= 0 {
        None
    } else {
        let c = closest_alive(ps, x, y, n - 1);
        let p = ps[n - 1];
        if p.dead {
            c
        } else {
            match c {
                None => Some(n - 1),
                Some(k) => if dist2(ps[k].x as int, ps[k].y as int, x, y) > dist2(p.x as int, p.y as int, x, y) {
                    Some(n - 1)
                } else {
                    Some(k)
                },
            }
        }
    }
}

proof fn lemma_closest_alive_range(ps: Seq<Player>, x: int, y: int, n: int)
    requires
        0 <= n <= ps.len(),
    ensures
        closest_alive(ps, x, y, n) matches Some(k) ==> 0 <= k < n && !ps[k].dead,
    decreases n,
{
    if n > 0 {
        lemma_closest_alive_range(ps, x, y, n - 1);
    }
}

fn closest_alive_index(players: &Vec<Player>, x: i32, y: i32) -> (r: Option<usize>)
    requires
        players_wf(players@),
        -ENEMY_LIMIT <= x <= ENEMY_LIMIT,
        -ENEMY_LIMIT <= y <= ENEMY_LIMIT,
    ensures
        match r {
            None => closest_alive(players@, x as int, y as int, players@.len() as int) is None,
            Some(k) => closest_alive(players@, x as int, y as int, players@.len() as int) == Some(k as int),
        },
        r matches Some(k) ==> k < players@.len() && !players@[k as int].dead,
{
    let mut best: Option<usize> = None;
    let mut best_d: i64 = 0;
    let mut i: usize = 0;
    while i < players.len()
        invariant
            0 <= i <= players@.len(),
            players_wf(players@),
            -ENEMY_LIMIT <= x <= ENEMY_LIMIT,
            -ENEMY_LIMIT <= y <= ENEMY_LIMIT,
            match best {
                None => closest_alive(players@, x as int, y as int, i as int) is None,
                Some(k) => closest_alive(players@, x as int, y as int, i as int) == Some(k as int)
                    && k < i && best_d == dist2(players@[k as int].x as int, players@[k as int].y as int, x as int, y as int),
            },
        decreases players@.len() - i,
    {
        let p = players[i];
        assert(player_wf(players@[i as int]));
        if !p.dead {
            let d = distance_squared(p.x, p.y, x, y);
            match best {
                None => {
                    best = Some(i);
                    best_d = d;
                },
                Some(k) => {
                    if best_d > d {
                        best = Some(i);
                        best_d = d;
                    }
                },
            }
        }
        i = i + 1;
    }
    proof {
        lemma_closest_alive_range(players@, x as int, y as int, players@.len() as int);
    }
    best
}

/// The integer square root of `n`: the largest `r` with `r * r <= n`.
pub open spec fn isqrt(n: int) -> int
    decreases n,
{
    if n <= 0 {
        0
    } else {
        let r = isqrt(n - 1);
        if (r + 1) * (r + 1) <= n {
            r + 1
        } else {
            r
        }
    }
}

pub proof fn lemma_isqrt(n: int)
    requires
        n >= 0,
    ensures
        isqrt(n) >= 0,
        isqrt(n) * isqrt(n) <= n < (isqrt(n) + 1) * (isqrt(n) + 1),
    decreases n,
{
    if n > 0 {
        lemma_isqrt(n - 1);
        let r = isqrt(n - 1);
        if (r + 1) * (r + 1) <= n {
            assert(n < (r + 2) * (r + 2)) by (nonlinear_arith)
                requires
                    r >= 0,
                    n - 1 < (r + 1) * (r + 1),
                    (r + 1) * (r + 1) <= n,
            ;
        }
    }
}

proof fn lemma_isqrt_unique(n: int, r: int)
    requires
        n >= 0,
        r >= 0,
        r * r <= n < (r + 1) * (r + 1),
    ensures
        r == isqrt(n),
{
    lemma_isqrt(n);
    let q = isqrt(n);
    if r < q {
        assert((r + 1) * (r + 1) <= q * q) by (nonlinear_arith)
            requires
                0 <= r < q,
        ;
    } else if q < r {
        assert((q + 1) * (q + 1) <= r * r) by (nonlinear_arith)
            requires
                0 <= q < r,
        ;
    }
}

fn integer_sqrt(n: i64) -> (r: i64)
    requires
        0 <= n <= 6_000_000_000,
    ensures
        r == isqrt(n as int),
        0 <= r <= 80000,
{
    let mut lo: i64 = 0;
    let mut hi: i64 = 80000;
    while hi - lo > 1
        invariant
            0 <= lo < hi <= 80000,
            0 <= n <= 6_000_000_000,
            lo * lo <= n < hi * hi,
        decreases hi - lo,
    {
        let mid = lo + (hi - lo) / 2;
        assert(0 <= mid * mid <= 6_400_000_000) by (nonlinear_arith)
            requires
                0 <= mid <= 80000,
        ;
        if mid * mid <= n {
            lo = mid;
        } else {
            hi = mid;
        }
    }
    proof {
        lemma_isqrt_unique(n as int, lo as int);
    }
    lo
}

/// How far an enemy steps along one axis toward a target `d` away on that
/// axis, where the target is `m` away in a straight line: each axis moves in
/// proportion, so the step is `speed` long (rounded toward zero).
pub open spec fn approach(d: int, m: int, speed: int) -> int {
    if d >= 0 {
        d * speed / m
    } else {
        -((-d) * speed / m)
    }
}

fn approach_exec(d: i64, m: i64, speed: u32) -> (r: i64)
    requires
        -50000 <= d <= 50000,
        0 < m,
        speed <= MAX_ENEMY_SPEED,
    ensures
        r == approach(d as int, m as int, speed as int),
        -50_000_000 <= r <= 50_000_000,
{
    let sp = speed as i64;
    if d >= 0 {
        assert(0 <= d * sp <= 50_000_000) by (nonlinear_arith)
            requires
                0 <= d <= 50000,
                0 <= sp <= 1000,
        ;
        let prod: i64 = d * sp;
        assert(0 <= prod / m <= prod) by (nonlinear_arith)
            requires
                0 <= prod,
                0 < m,
        ;
        prod / m
    } else {
        let nd: i64 = -d;
        assert(0 <= nd * sp <= 50_000_000) by (nonlinear_arith)
            requires
                0 <= nd <= 50000,
                0 <= sp <= 1000,
        ;
        let prod: i64 = nd * sp;
        assert(0 <= prod / m <= prod) by (nonlinear_arith)
            requires
                0 <= prod,
                0 < m,
        ;
        -(prod / m)
    }
}

pub open spec fn abs(v: int) -> int {
    if v < 0 {
        -v
    } else {
        v
    }
}

/// The fingerprint of an enemy hitting a player.
pub open spec fn player_hit_fingerprint(player: u32, enemy: u32) -> u32 {
    wrap_add(wrap_mul(3, player), enemy)
}

/// One enemy's turn: it targets the nearest living player; within attack
/// range it attacks when its cooldown has passed (damaging the player and
/// raising an event), else it steps toward the target.
pub open spec fn enemy_turn(e: Enemy, ps: Seq<Player>, frame: u32) -> (Enemy, Seq<Player>, Seq<SafeEvent>) {
    match closest_alive(ps, e.x as int, e.y as int, ps.len() as int) {
        None => (e, ps, Seq::empty()),
        Some(k) => {
            let p = ps[k];
            let dx = p.x - e.x;
            let dy = p.y - e.y;
            if dist2(p.x as int, p.y as int, e.x as int, e.y as int) < ATTACK_RANGE * ATTACK_RANGE {
                if e.last_attack + e.attack_cooldown < frame {
                    (
                        Enemy { last_attack: frame, ..e },
                        ps.update(k, Player { health: Health { current: sat_sub(p.health.current, e.damage), ..p.health }, ..p }),
                        seq![SafeEvent { real_age: 0, id: player_hit_fingerprint(p.id, e.id), event: FvzEvent::PlayerHit }],
                    )
                } else {
                    (e, ps, Seq::empty())
                }
            } else {
                let m = isqrt(dist2(p.x as int, p.y as int, e.x as int, e.y as int));
                (
                    Enemy {
                        x: clamp(e.x + approach(dx, m, e.speed as int), ENEMY_LIMIT as int) as i32,
                        y: clamp(e.y + approach(dy, m, e.speed as int), ENEMY_LIMIT as int) as i32,
                        ..e
                    },
                    ps,
                    Seq::empty(),
                )
            }
        },
    }
}

/// The first `n` enemies' turns, one after another.
pub open spec fn enemy_turns(es: Seq<Enemy>, ps: Seq<Player>, frame: u32, n: int) -> (Seq<Enemy>, Seq<Player>, Seq<SafeEvent>)
    decreases n,
{
    if n <= 0 {
        (es, ps, Seq::empty())
    } else {
        let (es1, ps1, ev1) = enemy_turns(es, ps, frame, n - 1);
        let (e2, ps2, ev2) = enemy_turn(es1[n - 1], ps1, frame);
        (es1.update(n - 1, e2), ps2, ev1 + ev2)
    }
}

proof fn lemma_enemy_turns_shape(es: Seq<Enemy>, ps: Seq<Player>, frame: u32, n: int)
    requires
        0 <= n <= es.len(),
    ensures
        enemy_turns(es, ps, frame, n).0.len() == es.len(),
        enemy_turns(es, ps, frame, n).1.len() == ps.len(),
        forall|j: int| n <= j < es.len() ==> enemy_turns(es, ps, frame, n).0[j] == es[j],
    decreases n,
{
    if n > 0 {
        lemma_enemy_turns_shape(es, ps, frame, n - 1);
        let t = enemy_turns(es, ps, frame, n - 1);
        lemma_closest_alive_range(t.1, t.0[n - 1].x as int, t.0[n - 1].y as int, t.1.len() as int);
    }
}

fn enemy_turn_exec(e: Enemy, players: &mut Vec<Player>, frame: u32, events: &mut Vec<SafeEvent>) -> (r: Enemy)
    requires
        players_wf(old(players)@),
        enemy_wf(e),
    ensures
        (r, final(players)@, final(events)@) == ({
            let t = enemy_turn(e, old(players)@, frame);
            (t.0, t.1, old(events)@ + t.2)
        }),
        players_wf(final(players)@),
        enemy_wf(r),
{
    let target = closest_alive_index(players, e.x, e.y);
    match target {
        None => {
            assert(events@ =~= old(events)@ + Seq::<SafeEvent>::empty());
            e
        },
        Some(k) => {
            let mut p = players[k];
            assert(player_wf(p));
            let dx: i64 = p.x as i64 - e.x as i64;
            let dy: i64 = p.y as i64 - e.y as i64;
            let d = distance_squared(p.x, p.y, e.x, e.y);
            if d < ATTACK_RANGE * ATTACK_RANGE {
                if (e.last_attack as u64) + (e.attack_cooldown as u64) < frame as u64 {
                    let id = 3u32.wrapping_mul(p.id).wrapping_add(e.id);
                    events.push(SafeEvent::new(FvzEvent::PlayerHit, id));
                    p.health.current = if p.health.current >= e.damage { p.health.current - e.damage } else { 0 };
                    players.set(k, p);
                    proof {
                        assert(events@ =~= old(events)@ + seq![SafeEvent { real_age: 0, id: player_hit_fingerprint(p.id, e.id), event: FvzEvent::PlayerHit }]);
                        let ps = players@;
                        assert forall|i: int| 0 <= i < ps.len() implies (#[trigger] ps[i]).handle == i && player_wf(ps[i]) by {
                            if i != k {
                                assert(ps[i] == old(players)@[i]);
                            }
                        }
                    }
                    Enemy { last_attack: frame, ..e }
                } else {
                    assert(events@ =~= old(events)@ + Seq::<SafeEvent>::empty());
                    e
                }
            } else {
                let m = integer_sqrt(d);
                proof {
                    lemma_isqrt(d as int);
                    let r = isqrt(d as int);
                    if r < 125 {
                        assert((r + 1) * (r + 1) <= 125 * 125) by (nonlinear_arith)
                            requires
                                0 <= r < 125,
                        ;
                    }
                }
                let sx = approach_exec(dx, m, e.speed);
                let sy = approach_exec(dy, m, e.speed);
                let mut moved = e;
                moved.x = clamp_i64(e.x as i64 + sx, ENEMY_LIMIT);
                moved.y = clamp_i64(e.y as i64 + sy, ENEMY_LIMIT);
                assert(events@ =~= old(events)@ + Seq::<SafeEvent>::empty());
                moved
            }
        },
    }
}

/// Moves every enemy toward the nearest living player, or lets it attack
/// that player when it is close enough.
pub fn move_enemies(world: &mut World, events: &mut Vec<SafeEvent>)
    requires
        old(world)@.wf(),
    ensures
        ({
            let t = enemy_turns(old(world)@.enemies, old(world)@.players, old(world)@.frame, old(world)@.enemies.len() as int);
            &&& final(world)@ == (WorldModel { enemies: t.0, players: t.1, ..old(world)@ })
            &&& final(events)@ == old(events)@ + t.2
        }),
        final(world)@.wf(),
        final(world)@.players.len() == old(world)@.players.len(),
{
    let ghost w0 = world@;
    let ghost ev0 = events@;
    let mut i: usize = 0;
    while i < world.enemies.len()
        invariant
            0 <= i <= w0.enemies.len(),
            world.enemies@.len() == w0.enemies.len(),
            world@.wf(),
            ({
                let t = enemy_turns(w0.enemies, w0.players, w0.frame, i as int);
                &&& world@ == (WorldModel { enemies: t.0, players: t.1, ..w0 })
                &&& events@ == ev0 + t.2
            }),
        decreases w0.enemies.len() - i,
    {
        proof {
            lemma_enemy_turns_shape(w0.enemies, w0.players, w0.frame, i as int);
        }
        let e = world.enemies[i];
        assert(enemy_wf(world@.enemies[i as int]));
        let moved = enemy_turn_exec(e, &mut world.players, world.frame.0, events);
        world.enemies.set(i, moved);
        proof {
            let t = enemy_turns(w0.enemies, w0.players, w0.frame, i as int);
            let u = enemy_turn(t.0[i as int], t.1, w0.frame);
            assert(events@ =~= ev0 + (t.2 + u.2));
            let es = world.enemies@;
            assert forall|j: int| 0 <= j < es.len() implies enemy_wf(#[trigger] es[j]) by {
                if j != i {
                    assert(es[j] == t.0[j]);
                }
            }
            lemma_enemy_turns_shape(w0.enemies, w0.players, w0.frame, i + 1);
        }
        i = i + 1;
    }
    proof {
        lemma_enemy_turns_shape(w0.enemies, w0.players, w0.frame, i as int);
    }
}

/// The fingerprint of a shot.
pub open spec fn pew_fingerprint(player: u32, frame: u32) -> u32 {
    wrap_add(wrap_mul(2, player), frame)
}

/// The state that the firing step changes: players, bullets, the next
/// identifier and the events raised.
pub open spec fn fire_turn(ps: Seq<Player>, bs: Seq<Projectile>, next_id: u32, i: int, input: u8, frame: u32) -> (Seq<Player>, Seq<Projectile>, u32, Seq<SafeEvent>) {
    let p = ps[i];
    if !p.dead && input.spec_is_fire() && p.weapon.can_shoot(frame) {
        (
            ps.update(i, Player { weapon: Weapon { fire_frame: frame, ..p.weapon }, ..p }),
            bs.push(Projectile { id: next_id, x: p.x, y: p.y, dir: p.move_dir, bullet: Shot { damage: BULLET_DAMAGE, max_hits: 1, shooter: p.id, hits: 0 } }),
            wrap_add(next_id, 1),
            seq![SafeEvent { real_age: 0, id: pew_fingerprint(p.id, frame), event: FvzEvent::Pew }],
        )
    } else {
        (ps, bs, next_id, Seq::empty())
    }
}

/// The first `n` players' firing turns, one after another.
pub open spec fn fire_turns(ps: Seq<Player>, bs: Seq<Projectile>, next_id: u32, inputs: Seq<u8>, frame: u32, n: int) -> (Seq<Player>, Seq<Projectile>, u32, Seq<SafeEvent>)
    decreases n,
{
    if n <= 0 {
        (ps, bs, next_id, Seq::empty())
    } else {
        let (ps1, bs1, id1, ev1) = fire_turns(ps, bs, next_id, inputs, frame, n - 1);
        let (ps2, bs2, id2, ev2) = fire_turn(ps1, bs1, id1, n - 1, inputs[n - 1], frame);
        (ps2, bs2, id2, ev1 + ev2)
    }
}

proof fn lemma_fire_turns_shape(ps: Seq<Player>, bs: Seq<Projectile>, next_id: u32, inputs: Seq<u8>, frame: u32, n: int)
    requires
        0 <= n <= ps.len(),
    ensures
        fire_turns(ps, bs, next_id, inputs, frame, n).0.len() == ps.len(),
    decreases n,
{
    if n > 0 {
        lemma_fire_turns_shape(ps, bs, next_id, inputs, frame, n - 1);
    }
}

fn fire_turn_exec(world: &mut World, i: usize, input: u8, events: &mut Vec<SafeEvent>)
    requires
        old(world)@.wf(),
        i < old(world)@.players.len(),
    ensures
        ({
            let w = old(world)@;
            let u = fire_turn(w.players, w.projectiles, w.next_id, i as int, input, w.frame);
            &&& final(world)@ == (WorldModel { players: u.0, projectiles: u.1, next_id: u.2, ..w })
            &&& final(events)@ == old(events)@ + u.3
        }),
        final(world)@.wf(),
        final(world)@.players.len() == old(world)@.players.len(),
{
    let mut p = world.players[i];
    assert(player_wf(p));
    if !p.dead && input.is_fire() && p.weapon.shoot(&world.frame) {
        let id = 2u32.wrapping_mul(p.id).wrapping_add(world.frame.0);
        events.push(SafeEvent::new(FvzEvent::Pew, id));
        world.projectiles.push(Projectile { id: world.next_id, x: p.x, y: p.y, dir: p.move_dir, bullet: Shot::fire(BULLET_DAMAGE, p.id) });
        world.next_id = world.next_id.wrapping_add(1);
        world.players.set(i, p);
        proof {
            let w = old(world)@;
            let u = fire_turn(w.players, w.projectiles, w.next_id, i as int, input, w.frame);
            assert(events@ =~= old(events)@ + u.3);
            assert(world.players@ =~= u.0);
            let ps = world.players@;
            assert forall|j: int| 0 <= j < ps.len() implies (#[trigger] ps[j]).handle == j && player_wf(ps[j]) by {
                if j != i {
                    assert(ps[j] == w.players[j]);
                }
            }
            let bs = world.projectiles@;
            assert forall|j: int| 0 <= j < bs.len() implies projectile_wf(#[trigger] bs[j]) by {
                if j < bs.len() - 1 {
                    assert(bs[j] == w.projectiles[j]);
                }
            }
        }
    } else {
        assert(events@ =~= old(events)@ + Seq::<SafeEvent>::empty());
    }
}

/// Every living player that presses fire, with its weapon ready, shoots a
/// bullet from where it stands along its last direction.
pub fn fire_bullets(world: &mut World, inputs: &Vec<u8>, events: &mut Vec<SafeEvent>)
    requires
        old(world)@.wf(),
        inputs@.len() == old(world)@.players.len(),
    ensures
        ({
            let w = old(world)@;
            let t = fire_turns(w.players, w.projectiles, w.next_id, inputs@, w.frame, w.players.len() as int);
            &&& final(world)@ == (WorldModel { players: t.0, projectiles: t.1, next_id: t.2, ..w })
            &&& final(events)@ == old(events)@ + t.3
        }),
        final(world)@.wf(),
        final(world)@.players.len() == old(world)@.players.len(),
{
    let ghost w0 = world@;
    let ghost ev0 = events@;
    let mut i: usize = 0;
    while i < world.players.len()
        invariant
            0 <= i <= w0.players.len(),
            inputs@.len() == w0.players.len(),
            world.players@.len() == w0.players.len(),
            world@.wf(),
            ({
                let t = fire_turns(w0.players, w0.projectiles, w0.next_id, inputs@, w0.frame, i as int);
                &&& world@ == (WorldModel { players: t.0, projectiles: t.1, next_id: t.2, ..w0 })
                &&& events@ == ev0 + t.3
            }),
        decreases w0.players.len() - i,
    {
        let ghost t = fire_turns(w0.players, w0.projectiles, w0.next_id, inputs@, w0.frame, i as int);
        fire_turn_exec(world, i, inputs[i], events);
        proof {
            let u = fire_turn(t.0, t.1, t.2, i as int, inputs@[i as int], w0.frame);
            assert(events@ =~= ev0 + (t.3 + u.3));
        }
        i = i + 1;
    }
}

/// `a + b`, or the largest `u64` where the sum would exceed it.
pub open spec fn sat_add64(a: u64, b: u32) -> u64 {
    if a + b <= u64::MAX {
        (a + b) as u64
    } else {
        u64::MAX
    }
}

pub open spec fn enemy_fall_fingerprint(enemy: u32) -> u32 {
    enemy
}

/// Bullet `b` against enemy `k`: a bullet that is not used up and touches the
/// enemy hits it, adding its damage to the score and taking it off the
/// enemy's health; an enemy left without health raises its fall.
pub open spec fn bullet_vs_enemy(b: Projectile, es: Seq<Enemy>, score: u64, k: int) -> (Projectile, Seq<Enemy>, u64, Seq<SafeEvent>) {
    let e = es[k];
    if !b.bullet.used_up() && dist2(e.x as int, e.y as int, b.x as int, b.y as int) < (ENEMY_RADIUS + BULLET_RADIUS) * (ENEMY_RADIUS + BULLET_RADIUS)
        && e.id != b.bullet.shooter {
        let cur = sat_sub(e.health.current, b.bullet.damage);
        (
            Projectile { bullet: b.bullet.hit_spec(e.id).0, ..b },
            es.update(k, Enemy { health: Health { current: cur, ..e.health }, ..e }),
            sat_add64(score, b.bullet.damage),
            if cur == 0 {
                seq![SafeEvent { real_age: 0, id: enemy_fall_fingerprint(e.id), event: FvzEvent::EnemyFall }]
            } else {
                Seq::empty()
            },
        )
    } else {
        (b, es, score, Seq::empty())
    }
}

/// Bullet `b` against the first `n` enemies in turn.
pub open spec fn bullet_sweep_enemies(b: Projectile, es: Seq<Enemy>, score: u64, n: int) -> (Projectile, Seq<Enemy>, u64, Seq<SafeEvent>)
    decreases n,
{
    if n <= 0 {
        (b, es, score, Seq::empty())
    } else {
        let (b1, es1, s1, ev1) = bullet_sweep_enemies(b, es, score, n - 1);
        let (b2, es2, s2, ev2) = bullet_vs_enemy(b1, es1, s1, n - 1);
        (b2, es2, s2, ev1 + ev2)
    }
}

/// The first `n` bullets, each against every enemy, in turn.
pub open spec fn bullets_vs_enemies(bs: Seq<Projectile>, es: Seq<Enemy>, score: u64, n: int) -> (Seq<Projectile>, Seq<Enemy>, u64, Seq<SafeEvent>)
    decreases n,
{
    if n <= 0 {
        (bs, es, score, Seq::empty())
    } else {
        let (bs1, es1, s1, ev1) = bullets_vs_enemies(bs, es, score, n - 1);
        let (b2, es2, s2, ev2) = bullet_sweep_enemies(bs1[n - 1], es1, s1, es1.len() as int);
        (bs1.update(n - 1, b2), es2, s2, ev1 + ev2)
    }
}

proof fn lemma_sweep_enemies_shape(b: Projectile, es: Seq<Enemy>, score: u64, n: int)
    requires
        0 <= n <= es.len(),
    ensures
        bullet_sweep_enemies(b, es, score, n).1.len() == es.len(),
        enemies_wf(es) ==> enemies_wf(bullet_sweep_enemies(b, es, score, n).1),
        projectile_wf(b) ==> projectile_wf(bullet_sweep_enemies(b, es, score, n).0),
    decreases n,
{
    if n > 0 {
        lemma_sweep_enemies_shape(b, es, score, n - 1);
        let t = bullet_sweep_enemies(b, es, score, n - 1);
        let u = bullet_vs_enemy(t.0, t.1, t.2, n - 1);
        if enemies_wf(es) {
            assert forall|j: int| 0 <= j < u.1.len() implies enemy_wf(#[trigger] u.1[j]) by {
                assert(enemy_wf(t.1[j]));
            }
        }
    }
}

proof fn lemma_bullets_vs_enemies_shape(bs: Seq<Projectile>, es: Seq<Enemy>, score: u64, n: int)
    requires
        0 <= n <= bs.len(),
    ensures
        bullets_vs_enemies(bs, es, score, n).0.len() == bs.len(),
        bullets_vs_enemies(bs, es, score, n).1.len() == es.len(),
        enemies_wf(es) ==> enemies_wf(bullets_vs_enemies(bs, es, score, n).1),
        projectiles_wf(bs) ==> projectiles_wf(bullets_vs_enemies(bs, es, score, n).0),
    decreases n,
{
    if n > 0 {
        lemma_bullets_vs_enemies_shape(bs, es, score, n - 1);
        let t = bullets_vs_enemies(bs, es, score, n - 1);
        lemma_sweep_enemies_shape(t.0[n - 1], t.1, t.2, t.1.len() as int);
        let u = bullet_sweep_enemies(t.0[n - 1], t.1, t.2, t.1.len() as int);
        if projectiles_wf(bs) {
            assert(projectile_wf(t.0[n - 1]));
            let r = t.0.update(n - 1, u.0);
            assert forall|j: int| 0 <= j < r.len() implies projectile_wf(#[trigger] r[j]) by {
                if j != n - 1 {
                    assert(r[j] == t.0[j]);
                }
            }
        }
    }
}

fn bullet_sweep_enemies_exec(b: Projectile, enemies: &mut Vec<Enemy>, score: &mut u64, events: &mut Vec<SafeEvent>) -> (r: Projectile)
    requires
        enemies_wf(old(enemies)@),
        projectile_wf(b),
    ensures
        ({
            let t = bullet_sweep_enemies(b, old(enemies)@, *old(score), old(enemies)@.len() as int);
            &&& r == t.0
            &&& final(enemies)@ == t.1
            &&& *final(score) == t.2
            &&& final(events)@ == old(events)@ + t.3
        }),
{
    let ghost es0 = enemies@;
    let ghost s0 = *score;
    let ghost ev0 = events@;
    let mut b = b;
    let ghost b0 = b;
    let mut k: usize = 0;
    while k < enemies.len()
        invariant
            0 <= k <= es0.len(),
            enemies@.len() == es0.len(),
            enemies_wf(enemies@),
            projectile_wf(b),
            ({
                let t = bullet_sweep_enemies(b0, es0, s0, k as int);
                &&& b == t.0
                &&& enemies@ == t.1
                &&& *score == t.2
                &&& events@ == ev0 + t.3
            }),
        decreases es0.len() - k,
    {
        proof {
            lemma_sweep_enemies_shape(b0, es0, s0, k as int);
        }
        let ghost t = bullet_sweep_enemies(b0, es0, s0, k as int);
        let mut e = enemies[k];
        assert(enemy_wf(e));
        let r2 = (ENEMY_RADIUS + BULLET_RADIUS) * (ENEMY_RADIUS + BULLET_RADIUS);
        if !b.bullet.is_used_up() && distance_squared(e.x, e.y, b.x, b.y) < r2 && e.id != b.bullet.shooter {
            let _ = b.bullet.hit(e.id);
            let dmg = b.bullet.damage;
            e.health.current = if e.health.current >= dmg { e.health.current - dmg } else { 0 };
            *score = if *score <= u64::MAX - dmg as u64 { *score + dmg as u64 } else { u64::MAX };
            if e.health.current == 0 {
                events.push(SafeEvent::new(FvzEvent::EnemyFall, e.id));
            }
            enemies.set(k, e);
            proof {
                let u = bullet_vs_enemy(t.0, t.1, t.2, k as int);
                assert(events@ =~= ev0 + (t.3 + u.3));
                assert(enemies@ =~= u.1);
                let es = enemies@;
                assert forall|j: int| 0 <= j < es.len() implies enemy_wf(#[trigger] es[j]) by {
                    if j != k {
                        assert(es[j] == t.1[j]);
                    }
                }
            }
        } else {
            proof {
                let u = bullet_vs_enemy(t.0, t.1, t.2, k as int);
                assert(events@ =~= ev0 + (t.3 + u.3));
            }
        }
        k = k + 1;
    }
    b
}

/// The enemies that still have health.
pub open spec fn surviving_enemies(es: Seq<Enemy>) -> Seq<Enemy>
    decreases es.len(),
{
    if es.len() == 0 {
        es
    } else {
        let rest = surviving_enemies(es.drop_last());
        if es.last().health.current > 0 {
            rest.push(es.last())
        } else {
            rest
        }
    }
}

/// The bullets that may still hit something.
pub open spec fn unused_bullets(bs: Seq<Projectile>) -> Seq<Projectile>
    decreases bs.len(),
{
    if bs.len() == 0 {
        bs
    } else {
        let rest = unused_bullets(bs.drop_last());
        if !bs.last().bullet.used_up() {
            rest.push(bs.last())
        } else {
            rest
        }
    }
}

fn remove_fallen(enemies: &mut Vec<Enemy>)
    requires
        enemies_wf(old(enemies)@),
    ensures
        final(enemies)@ == surviving_enemies(old(enemies)@),
        enemies_wf(final(enemies)@),
{
    let ghost e0 = enemies@;
    let mut kept: Vec<Enemy> = Vec::new();
    let mut i: usize = 0;
    proof {
        assert(e0.take(0) =~= Seq::<Enemy>::empty());
    }
    while i < enemies.len()
        invariant
            0 <= i <= e0.len(),
            enemies@ == e0,
            enemies_wf(e0),
            kept@ == surviving_enemies(e0.take(i as int)),
            enemies_wf(kept@),
        decreases e0.len() - i,
    {
        let e = enemies[i];
        proof {
            assert(e0.take(i + 1).drop_last() =~= e0.take(i as int));
            assert(e0.take(i + 1).last() == e);
            assert(enemy_wf(e0[i as int]));
        }
        if e.health.current > 0 {
            kept.push(e);
            proof {
                let ks = kept@;
                assert forall|j: int| 0 <= j < ks.len() implies enemy_wf(#[trigger] ks[j]) by {
                    if j < ks.len() - 1 {
                        assert(ks[j] == ks.drop_last()[j]);
                    }
                }
            }
        }
        i = i + 1;
    }
    proof {
        assert(e0.take(e0.len() as int) =~= e0);
    }
    *enemies = kept;
}

fn remove_used_up(projectiles: &mut Vec<Projectile>)
    requires
        projectiles_wf(old(projectiles)@),
    ensures
        final(projectiles)@ == unused_bullets(old(projectiles)@),
        projectiles_wf(final(projectiles)@),
{
    let ghost b0 = projectiles@;
    let mut kept: Vec<Projectile> = Vec::new();
    let mut i: usize = 0;
    proof {
        assert(b0.take(0) =~= Seq::<Projectile>::empty());
    }
    while i < projectiles.len()
        invariant
            0 <= i <= b0.len(),
            projectiles@ == b0,
            projectiles_wf(b0),
            kept@ == unused_bullets(b0.take(i as int)),
            projectiles_wf(kept@),
        decreases b0.len() - i,
    {
        let b = projectiles[i];
        proof {
            assert(b0.take(i + 1).drop_last() =~= b0.take(i as int));
            assert(b0.take(i + 1).last() == b);
            assert(projectile_wf(b0[i as int]));
        }
        if !b.bullet.is_used_up() {
            kept.push(b);
            proof {
                let ks = kept@;
                assert forall|j: int| 0 <= j < ks.len() implies projectile_wf(#[trigger] ks[j]) by {
                    if j < ks.len() - 1 {
                        assert(ks[j] == ks.drop_last()[j]);
                    }
                }
            }
        }
        i = i + 1;
    }
    proof {
        assert(b0.take(b0.len() as int) =~= b0);
    }
    *projectiles = kept;
}

/// Every bullet meets every enemy in turn; afterwards enemies without health
/// and bullets that are used up leave the world.
pub fn kill_enemies(world: &mut World, events: &mut Vec<SafeEvent>)
    requires
        old(world)@.wf(),
    ensures
        ({
            let w = old(world)@;
            let t = bullets_vs_enemies(w.projectiles, w.enemies, w.score, w.projectiles.len() as int);
            &&& final(world)@ == (WorldModel {
                projectiles: unused_bullets(t.0),
                enemies: surviving_enemies(t.1),
                score: t.2,
                ..w
            })
            &&& final(events)@ == old(events)@ + t.3
        }),
        final(world)@.wf(),
{
    let ghost w0 = world@;
    let ghost ev0 = events@;
    let mut j: usize = 0;
    while j < world.projectiles.len()
        invariant
            0 <= j <= w0.projectiles.len(),
            world.projectiles@.len() == w0.projectiles.len(),
            w0.wf(),
            world@.wf(),
            ({
                let t = bullets_vs_enemies(w0.projectiles, w0.enemies, w0.score, j as int);
                &&& world@ == (WorldModel { projectiles: t.0, enemies: t.1, score: t.2, ..w0 })
                &&& events@ == ev0 + t.3
            }),
        decreases w0.projectiles.len() - j,
    {
        proof {
            lemma_bullets_vs_enemies_shape(w0.projectiles, w0.enemies, w0.score, j as int);
        }
        let ghost t = bullets_vs_enemies(w0.projectiles, w0.enemies, w0.score, j as int);
        let b = world.projectiles[j];
        assert(projectile_wf(b));
        let b2 = bullet_sweep_enemies_exec(b, &mut world.enemies, &mut world.score.0, events);
        world.projectiles.set(j, b2);
        proof {
            let u = bullet_sweep_enemies(t.0[j as int], t.1, t.2, t.1.len() as int);
            assert(events@ =~= ev0 + (t.3 + u.3));
            lemma_bullets_vs_enemies_shape(w0.projectiles, w0.enemies, w0.score, j + 1);
        }
        j = j + 1;
    }
    remove_fallen(&mut world.enemies);
    remove_used_up(&mut world.projectiles);
}

/// The fingerprint of a bullet hitting a player.
pub open spec fn bullet_hit_fingerprint(bullet: u32, player: u32) -> u32 {
    wrap_add(wrap_mul(3, bullet), player)
}

/// Bullet `b` against player `k`: a bullet that is not used up and touches a
/// living player other than its shooter hits it and takes its damage off the
/// player's health.
pub open spec fn bullet_vs_player(b: Projectile, ps: Seq<Player>, k: int) -> (Projectile, Seq<Player>, Seq<SafeEvent>) {
    let p = ps[k];
    if !b.bullet.used_up() && !p.dead && dist2(p.x as int, p.y as int, b.x as int, b.y as int) < (PLAYER_RADIUS + BULLET_RADIUS) * (PLAYER_RADIUS + BULLET_RADIUS)
        && p.id != b.bullet.shooter {
        (
            Projectile { bullet: b.bullet.hit_spec(p.id).0, ..b },
            ps.update(k, Player { health: Health { current: sat_sub(p.health.current, b.bullet.damage), ..p.health }, ..p }),
            seq![SafeEvent { real_age: 0, id: bullet_hit_fingerprint(b.id, p.id), event: FvzEvent::PlayerHitBullet }],
        )
    } else {
        (b, ps, Seq::empty())
    }
}

/// Bullet `b` against the first `n` players in turn.
pub open spec fn bullet_sweep_players(b: Projectile, ps: Seq<Player>, n: int) -> (Projectile, Seq<Player>, Seq<SafeEvent>)
    decreases n,
{
    if n <= 0 {
        (b, ps, Seq::empty())
    } else {
        let (b1, ps1, ev1) = bullet_sweep_players(b, ps, n - 1);
        let (b2, ps2, ev2) = bullet_vs_player(b1, ps1, n - 1);
        (b2, ps2, ev1 + ev2)
    }
}

/// The first `n` bullets, each against every player, in turn.
pub open spec fn bullets_vs_players(bs: Seq<Projectile>, ps: Seq<Player>, n: int) -> (Seq<Projectile>, Seq<Player>, Seq<SafeEvent>)
    decreases n,
{
    if n <= 0 {
        (bs, ps, Seq::empty())
    } else {
        let (bs1, ps1, ev1) = bullets_vs_players(bs, ps, n - 1);
        let (b2, ps2, ev2) = bullet_sweep_players(bs1[n - 1], ps1, ps1.len() as int);
        (bs1.update(n - 1, b2), ps2, ev1 + ev2)
    }
}

proof fn lemma_sweep_players_shape(b: Projectile, ps: Seq<Player>, n: int)
    requires
        0 <= n <= ps.len(),
    ensures
        bullet_sweep_players(b, ps, n).1.len() == ps.len(),
        players_wf(ps) ==> players_wf(bullet_sweep_players(b, ps, n).1),
        projectile_wf(b) ==> projectile_wf(bullet_sweep_players(b, ps, n).0),
    decreases n,
{
    if n > 0 {
        lemma_sweep_players_shape(b, ps, n - 1);
        let t = bullet_sweep_players(b, ps, n - 1);
        let u = bullet_vs_player(t.0, t.1, n - 1);
        if players_wf(ps) {
            assert forall|j: int| 0 <= j < u.1.len() implies (#[trigger] u.1[j]).handle == j && player_wf(u.1[j]) by {
                assert(t.1[j].handle == j && player_wf(t.1[j]));
            }
        }
    }
}

proof fn lemma_bullets_vs_players_shape(bs: Seq<Projectile>, ps: Seq<Player>, n: int)
    requires
        0 <= n <= bs.len(),
    ensures
        bullets_vs_players(bs, ps, n).0.len() == bs.len(),
        bullets_vs_players(bs, ps, n).1.len() == ps.len(),
        players_wf(ps) ==> players_wf(bullets_vs_players(bs, ps, n).1),
        projectiles_wf(bs) ==> projectiles_wf(bullets_vs_players(bs, ps, n).0),
    decreases n,
{
    if n > 0 {
        lemma_bullets_vs_players_shape(bs, ps, n - 1);
        let t = bullets_vs_players(bs, ps, n - 1);
        lemma_sweep_players_shape(t.0[n - 1], t.1, t.1.len() as int);
        let u = bullet_sweep_players(t.0[n - 1], t.1, t.1.len() as int);
        if projectiles_wf(bs) {
            assert(projectile_wf(t.0[n - 1]));
            let r = t.0.update(n - 1, u.0);
            assert forall|j: int| 0 <= j < r.len() implies projectile_wf(#[trigger] r[j]) by {
                if j != n - 1 {
                    assert(r[j] == t.0[j]);
                }
            }
        }
    }
}

fn bullet_sweep_players_exec(b: Projectile, players: &mut Vec<Player>, events: &mut Vec<SafeEvent>) -> (r: Projectile)
    requires
        players_wf(old(players)@),
        projectile_wf(b),
    ensures
        ({
            let t = bullet_sweep_players(b, old(players)@, old(players)@.len() as int);
            &&& r == t.0
            &&& final(players)@ == t.1
            &&& final(events)@ == old(events)@ + t.2
        }),
{
    let ghost ps0 = players@;
    let ghost ev0 = events@;
    let mut b = b;
    let ghost b0 = b;
    let mut k: usize = 0;
    while k < players.len()
        invariant
            0 <= k <= ps0.len(),
            players@.len() == ps0.len(),
            players_wf(players@),
            projectile_wf(b),
            ({
                let t = bullet_sweep_players(b0, ps0, k as int);
                &&& b == t.0
                &&& players@ == t.1
                &&& events@ == ev0 + t.2
            }),
        decreases ps0.len() - k,
    {
        proof {
            lemma_sweep_players_shape(b0, ps0, k as int);
        }
        let ghost t = bullet_sweep_players(b0, ps0, k as int);
        let mut p = players[k];
        assert(player_wf(p));
        let r2 = (PLAYER_RADIUS + BULLET_RADIUS) * (PLAYER_RADIUS + BULLET_RADIUS);
        if !b.bullet.is_used_up() && !p.dead && distance_squared(p.x, p.y, b.x, b.y) < r2 && p.id != b.bullet.shooter {
            let _ = b.bullet.hit(p.id);
            let dmg = b.bullet.damage;
            events.push(SafeEvent::new(FvzEvent::PlayerHitBullet, 3u32.wrapping_mul(b.id).wrapping_add(p.id)));
            p.health.current = if p.health.current >= dmg { p.health.current - dmg } else { 0 };
            players.set(k, p);
            proof {
                let u = bullet_vs_player(t.0, t.1, k as int);
                assert(events@ =~= ev0 + (t.2 + u.2));
                assert(players@ =~= u.1);
                let ps = players@;
                assert forall|j: int| 0 <= j < ps.len() implies (#[trigger] ps[j]).handle == j && player_wf(ps[j]) by {
                    if j != k {
                        assert(ps[j] == t.1[j]);
                    }
                }
            }
        } else {
            proof {
                let u = bullet_vs_player(t.0, t.1, k as int);
                assert(events@ =~= ev0 + (t.2 + u.2));
            }
        }
        k = k + 1;
    }
    b
}

/// Every bullet meets every living player in turn; afterwards used-up
/// bullets leave the world.
pub fn bullets_hitting_players(world: &mut World, events: &mut Vec<SafeEvent>)
    requires
        old(world)@.wf(),
    ensures
        ({
            let w = old(world)@;
            let t = bullets_vs_players(w.projectiles, w.players, w.projectiles.len() as int);
            &&& final(world)@ == (WorldModel { projectiles: unused_bullets(t.0), players: t.1, ..w })
            &&& final(events)@ == old(events)@ + t.2
        }),
        final(world)@.wf(),
        final(world)@.players.len() == old(world)@.players.len(),
{
    let ghost w0 = world@;
    let ghost ev0 = events@;
    let mut j: usize = 0;
    while j < world.projectiles.len()
        invariant
            0 <= j <= w0.projectiles.len(),
            world.projectiles@.len() == w0.projectiles.len(),
            w0.wf(),
            world@.wf(),
            ({
                let t = bullets_vs_players(w0.projectiles, w0.players, j as int);
                &&& world@ == (WorldModel { projectiles: t.0, players: t.1, ..w0 })
                &&& events@ == ev0 + t.2
            }),
        decreases w0.projectiles.len() - j,
    {
        proof {
            lemma_bullets_vs_players_shape(w0.projectiles, w0.players, j as int);
        }
        let ghost t = bullets_vs_players(w0.projectiles, w0.players, j as int);
        let b = world.projectiles[j];
        assert(projectile_wf(b));
        let b2 = bullet_sweep_players_exec(b, &mut world.players, events);
        world.projectiles.set(j, b2);
        proof {
            let u = bullet_sweep_players(t.0[j as int], t.1, t.1.len() as int);
            assert(events@ =~= ev0 + (t.2 + u.2));
            lemma_bullets_vs_players_shape(w0.projectiles, w0.players, j + 1);
        }
        j = j + 1;
    }
    proof {
        lemma_bullets_vs_players_shape(w0.projectiles, w0.players, j as int);
    }
    remove_used_up(&mut world.projectiles);
}

/// The dead player nearest to `(x, y)` among the first `n`: on a tie the one
/// that comes last.
pub open spec fn nearest_dead(ps: Seq<Player>, x: int, y: int, n: int) -> Option<int>
    decreases n,
{
    if n <= 0 {
        None
    } else {
        let c = nearest_dead(ps, x, y, n - 1);
        let p = ps[n - 1];
        if !p.dead {
            c
        } else {
            match c {
                None => Some(n - 1),
                Some(k) => if dist2(ps[k].x as int, ps[k].y as int, x, y) < dist2(p.x as int, p.y as int, x, y) {
                    Some(k)
                } else {
                    Some(n - 1)
                },
            }
        }
    }
}

proof fn lemma_nearest_dead_range(ps: Seq<Player>, x: int, y: int, n: int)
    requires
        0 <= n <= ps.len(),
    ensures
        nearest_dead(ps, x, y, n) matches Some(k) ==> 0 <= k < n && ps[k].dead,
    decreases n,
{
    if n > 0 {
        lemma_nearest_dead_range(ps, x, y, n - 1);
    }
}

fn nearest_dead_index(players: &Vec<Player>, x: i32, y: i32) -> (r: Option<usize>)
    requires
        players_wf(players@),
        -PLAYER_LIMIT <= x <= PLAYER_LIMIT,
        -PLAYER_LIMIT <= y <= PLAYER_LIMIT,
    ensures
        match r {
            None => nearest_dead(players@, x as int, y as int, players@.len() as int) is None,
            Some(k) => nearest_dead(players@, x as int, y as int, players@.len() as int) == Some(k as int),
        },
        r matches Some(k) ==> k < players@.len() && players@[k as int].dead,
{
    let mut best: Option<usize> = None;
    let mut best_d: i64 = 0;
    let mut i: usize = 0;
    while i < players.len()
        invariant
            0 <= i <= players@.len(),
            players_wf(players@),
            -PLAYER_LIMIT <= x <= PLAYER_LIMIT,
            -PLAYER_LIMIT <= y <= PLAYER_LIMIT,
            match best {
                None => nearest_dead(players@, x as int, y as int, i as int) is None,
                Some(k) => nearest_dead(players@, x as int, y as int, i as int) == Some(k as int)
                    && k < i && best_d == dist2(players@[k as int].x as int, players@[k as int].y as int, x as int, y as int),
            },
        decreases players@.len() - i,
    {
        let p = players[i];
        assert(player_wf(players@[i as int]));
        if p.dead {
            let d = distance_squared(p.x, p.y, x, y);
            match best {
                None => {
                    best = Some(i);
                    best_d = d;
                },
                Some(k) => {
                    if !(best_d < d) {
                        best = Some(i);
                        best_d = d;
                    }
                },
            }
        }
        i = i + 1;
    }
    proof {
        lemma_nearest_dead_range(players@, x as int, y as int, players@.len() as int);
    }
    best
}

/// The fingerprint of a revival.
pub open spec fn revive_fingerprint(dead: u32, reviver: u32) -> u32 {
    wrap_add(wrap_mul(5, dead), reviver)
}

/// The health a revived player comes back with: four fifths of its maximum.
pub open spec fn revived_health(max: u32) -> u32 {
    (max * 8 / 10) as u32
}

/// Player `i`'s revive turn. Who is alive, who is dead and where everyone
/// stands are read from `start`, the players as the revive step found them,
/// so a player revived in this step neither revives others nor stops being a
/// choice until the step is over. A living player that presses revive brings
/// the nearest dead player back into `ps`, if that one lies within reach.
pub open spec fn revive_turn(start: Seq<Player>, ps: Seq<Player>, i: int, input: u8) -> (Seq<Player>, Seq<SafeEvent>) {
    let p = start[i];
    if !p.dead && input.spec_is_revive() {
        match nearest_dead(start, p.x as int, p.y as int, start.len() as int) {
            None => (ps, Seq::empty()),
            Some(k) => {
                let d = start[k];
                if dist2(p.x as int, p.y as int, d.x as int, d.y as int) > REVIVE_DISTANCE * REVIVE_DISTANCE {
                    (ps, Seq::empty())
                } else {
                    let cur = ps[k];
                    (
                        ps.update(k, Player { dead: false, health: Health { current: revived_health(cur.health.max), ..cur.health }, ..cur }),
                        seq![SafeEvent { real_age: 0, id: revive_fingerprint(d.id, p.id), event: FvzEvent::Revive }],
                    )
                }
            },
        }
    } else {
        (ps, Seq::empty())
    }
}

/// The first `n` players' revive turns, one after another, all reading the
/// players as the step found them.
pub open spec fn revive_turns(start: Seq<Player>, inputs: Seq<u8>, n: int) -> (Seq<Player>, Seq<SafeEvent>)
    decreases n,
{
    if n <= 0 {
        (start, Seq::empty())
    } else {
        let (ps1, ev1) = revive_turns(start, inputs, n - 1);
        let (ps2, ev2) = revive_turn(start, ps1, n - 1, inputs[n - 1]);
        (ps2, ev1 + ev2)
    }
}

proof fn lemma_revive_turns_shape(start: Seq<Player>, inputs: Seq<u8>, n: int)
    requires
        0 <= n <= start.len(),
    ensures
        revive_turns(start, inputs, n).0.len() == start.len(),
        players_wf(start) ==> players_wf(revive_turns(start, inputs, n).0),
    decreases n,
{
    if n > 0 {
        lemma_revive_turns_shape(start, inputs, n - 1);
        let t = revive_turns(start, inputs, n - 1);
        let p = start[n - 1];
        lemma_nearest_dead_range(start, p.x as int, p.y as int, start.len() as int);
        if players_wf(start) {
            let u = revive_turn(start, t.0, n - 1, inputs[n - 1]);
            assert forall|j: int| 0 <= j < u.0.len() implies (#[trigger] u.0[j]).handle == j && player_wf(u.0[j]) by {
                assert(t.0[j].handle == j && player_wf(t.0[j]));
            }
        }
    }
}

/// Lets every player alive at the start of the step that presses revive bring
/// back the nearest player dead at the start of the step, if within reach.
pub fn revive_players(players: &mut Vec<Player>, inputs: &Vec<u8>, events: &mut Vec<SafeEvent>)
    requires
        players_wf(old(players)@),
        inputs@.len() == old(players)@.len(),
    ensures
        ({
            let t = revive_turns(old(players)@, inputs@, old(players)@.len() as int);
            &&& final(players)@ == t.0
            &&& final(events)@ == old(events)@ + t.1
        }),
        players_wf(final(players)@),
        final(players)@.len() == old(players)@.len(),
{
    let start = copy_vec(players);
    let ghost ps0 = players@;
    let ghost ev0 = events@;
    let mut i: usize = 0;
    while i < players.len()
        invariant
            0 <= i <= ps0.len(),
            start@ == ps0,
            inputs@.len() == ps0.len(),
            players@.len() == ps0.len(),
            players_wf(ps0),
            players_wf(players@),
            ({
                let t = revive_turns(ps0, inputs@, i as int);
                &&& players@ == t.0
                &&& events@ == ev0 + t.1
            }),
        decreases ps0.len() - i,
    {
        let ghost t = revive_turns(ps0, inputs@, i as int);
        let p = start[i];
        assert(player_wf(p));
        let mut done = false;
        if !p.dead && inputs[i].is_revive() {
            match nearest_dead_index(&start, p.x, p.y) {
                None => {},
                Some(k) => {
                    let d = start[k];
                    assert(player_wf(d));
                    if distance_squared(p.x, p.y, d.x, d.y) <= REVIVE_DISTANCE * REVIVE_DISTANCE {
                        events.push(SafeEvent::new(FvzEvent::Revive, 5u32.wrapping_mul(d.id).wrapping_add(p.id)));
                        let mut cur = players[k];
                        cur.dead = false;
                        cur.health.current = ((cur.health.max as u64) * 8 / 10) as u32;
                        players.set(k, cur);
                        done = true;
                        proof {
                            let u = revive_turn(ps0, t.0, i as int, inputs@[i as int]);
                            assert(events@ =~= ev0 + (t.1 + u.1));
                            assert(players@ =~= u.0);
                        }
                    }
                },
            }
        }
        proof {
            if !done {
                let u = revive_turn(ps0, t.0, i as int, inputs@[i as int]);
                assert(events@ =~= ev0 + (t.1 + u.1));
            }
            lemma_revive_turns_shape(ps0, inputs@, i + 1);
        }
        i = i + 1;
    }
}

/// The movement half of a tick: advance the tick counter, spawn, move the
/// players, move the bullets.
pub open spec fn tick_motion(w: WorldModel, seed: Seq<u8>, inputs: Seq<u8>) -> WorldModel {
    let w1 = WorldModel { frame: next_tick(w.frame), ..w };
    let w2 = spawned(w1, seed);
    let w3 = WorldModel { players: Seq::new(w2.players.len(), |i: int| moved_player(w2.players[i], inputs[i])), ..w2 };
    WorldModel { projectiles: flown_all(w3.projectiles), ..w3 }
}

/// The combat part of a tick: enemies move and attack, players fire, bullets
/// hit enemies, bullets hit players.
pub open spec fn tick_combat(w4: WorldModel, inputs: Seq<u8>) -> (WorldModel, Seq<SafeEvent>) {
    let t5 = enemy_turns(w4.enemies, w4.players, w4.frame, w4.enemies.len() as int);
    let w5 = WorldModel { enemies: t5.0, players: t5.1, ..w4 };
    let t6 = fire_turns(w5.players, w5.projectiles, w5.next_id, inputs, w5.frame, w5.players.len() as int);
    let w6 = WorldModel { players: t6.0, projectiles: t6.1, next_id: t6.2, ..w5 };
    let t7 = bullets_vs_enemies(w6.projectiles, w6.enemies, w6.score, w6.projectiles.len() as int);
    let w7 = WorldModel { projectiles: unused_bullets(t7.0), enemies: surviving_enemies(t7.1), score: t7.2, ..w6 };
    let t8 = bullets_vs_players(w7.projectiles, w7.players, w7.projectiles.len() as int);
    let w8 = WorldModel { projectiles: unused_bullets(t8.0), players: t8.1, ..w7 };
    (w8, t5.2 + t6.3 + t7.3 + t8.2)
}

/// The resolution part of a tick: deaths, revivals, and the end-of-match
/// check.
pub open spec fn tick_resolution(w8: WorldModel, inputs: Seq<u8>) -> (WorldModel, Seq<SafeEvent>) {
    let w9 = WorldModel { players: w8.players.map_values(|p: Player| after_death_check(p)), ..w8 };
    let t10 = revive_turns(w9.players, inputs, w9.players.len() as int);
    let w10 = WorldModel { players: t10.0, ..w9 };
    let lost = all_dead(w10.players);
    let w11 = WorldModel { lost: w10.lost || lost, ..w10 };
    let ev11: Seq<SafeEvent> = if lost {
        seq![SafeEvent { real_age: 0, id: LOST_FINGERPRINT, event: FvzEvent::Lost }]
    } else {
        Seq::empty()
    };
    (w11, t10.1 + ev11)
}

/// The world and the events of one tick of the fixed pipeline: advance the
/// tick counter, spawn, move players, move bullets, move enemies, fire, hit
/// enemies, hit players, deaths, revivals, and the end-of-match check. A
/// world whose match is lost no longer changes.
pub open spec fn tick(w: WorldModel, seed: Seq<u8>, inputs: Seq<u8>) -> (WorldModel, Seq<SafeEvent>) {
    if w.lost {
        (w, Seq::empty())
    } else {
        let m = tick_motion(w, seed, inputs);
        let c = tick_combat(m, inputs);
        let r = tick_resolution(c.0, inputs);
        (r.0, c.1 + r.1)
    }
}

/// A tick moves the tick counter one on, except in a lost match.
pub proof fn lemma_tick_frame(w: WorldModel, seed: Seq<u8>, inputs: Seq<u8>)
    ensures
        tick(w, seed, inputs).0.frame == if w.lost { w.frame } else { next_tick(w.frame) },
{
}

fn advance_motion(world: &mut World, seed: &Seed, inputs: &Vec<u8>)
    requires
        old(world)@.wf(),
        inputs@.len() == old(world)@.players.len(),
    ensures
        final(world)@ == tick_motion(old(world)@, seed.0@, inputs@),
        final(world)@.wf(),
        final(world)@.players.len() == old(world)@.players.len(),
{
    advance_seed_frame(&mut world.frame);
    spawn_enemies(world, seed);
    move_players(&mut world.players, inputs);
    move_bullet(&mut world.projectiles);
}

fn advance_combat(world: &mut World, inputs: &Vec<u8>, events: &mut Vec<SafeEvent>)
    requires
        old(world)@.wf(),
        inputs@.len() == old(world)@.players.len(),
    ensures
        final(world)@ == tick_combat(old(world)@, inputs@).0,
        final(events)@ == old(events)@ + tick_combat(old(world)@, inputs@).1,
        final(world)@.wf(),
        final(world)@.players.len() == old(world)@.players.len(),
{
    let ghost ev0 = events@;
    let ghost w4 = world@;
    move_enemies(world, events);
    let ghost e5 = events@;
    fire_bullets(world, inputs, events);
    kill_enemies(world, events);
    bullets_hitting_players(world, events);
    proof {
        let t5 = enemy_turns(w4.enemies, w4.players, w4.frame, w4.enemies.len() as int);
        assert(e5 == ev0 + t5.2);
        assert(events@ =~= ev0 + tick_combat(w4, inputs@).1);
    }
}

fn advance_resolution(world: &mut World, inputs: &Vec<u8>, events: &mut Vec<SafeEvent>)
    requires
        old(world)@.wf(),
        inputs@.len() == old(world)@.players.len(),
    ensures
        final(world)@ == tick_resolution(old(world)@, inputs@).0,
        final(events)@ == old(events)@ + tick_resolution(old(world)@, inputs@).1,
        final(world)@.wf(),
        final(world)@.players.len() == old(world)@.players.len(),
{
    let ghost ev0 = events@;
    kill_players(&mut world.players);
    revive_players(&mut world.players, inputs, events);
    end_game(world, events);
    proof {
        assert(events@ =~= ev0 + tick_resolution(old(world)@, inputs@).1);
    }
}

/// Runs one tick of the simulation with one input frame per player,
/// appending the events it raises.
pub fn advance_frame(world: &mut World, seed: &Seed, inputs: &Vec<u8>, events: &mut Vec<SafeEvent>)
    requires
        old(world)@.wf(),
        inputs@.len() == old(world)@.players.len(),
    ensures
        final(world)@ == tick(old(world)@, seed.0@, inputs@).0,
        final(events)@ == old(events)@ + tick(old(world)@, seed.0@, inputs@).1,
        final(world)@.wf(),
        final(world)@.players.len() == old(world)@.players.len(),
{
    if world.lost {
        assert(events@ =~= old(events)@ + Seq::<SafeEvent>::empty());
        return;
    }
    let ghost ev0 = events@;
    advance_motion(world, seed, inputs);
    advance_combat(world, inputs, events);
    advance_resolution(world, inputs, events);
    proof {
        assert(events@ =~= ev0 + tick(old(world)@, seed.0@, inputs@).1);
    }
}

impl World {
    /// The world at the start of a match of `num_players` players: everyone
    /// at the centre, facing left, at full health; player `i` has handle and
    /// identifier `i`.
    pub fn new(num_players: usize, enemy_assets: EnemyAssets) -> (r: World)
        requires
            num_players <= u32::MAX,
            enemy_assets.wf(),
        ensures
            r@.wf(),
            r@.frame == 0,
            r@.enemy_timer == 0,
            r@.next_id == num_players,
            r@.score == 0,
            !r@.lost,
            r@.enemies.len() == 0,
            r@.projectiles.len() == 0,
            r@.enemy_assets == enemy_assets,
            r@.players.len() == num_players,
            forall|i: int| 0 <= i < num_players ==> (#[trigger] r@.players[i]) == (Player {
                handle: i as usize,
                id: i as u32,
                x: 0,
                y: 0,
                move_dir: MoveDir(-1i32, 0i32),
                health: Health { max: PLAYER_HEALTH, current: PLAYER_HEALTH },
                weapon: Weapon { fire_frame: 0, frame_cooldown: WEAPON_COOLDOWN },
                dead: false,
            }),
    {
        let mut players: Vec<Player> = Vec::new();
        let mut i: usize = 0;
        while i < num_players
            invariant
                i <= num_players <= u32::MAX,
                players@.len() == i,
                forall|j: int| 0 <= j < i ==> (#[trigger] players@[j]) == (Player {
                    handle: j as usize,
                    id: j as u32,
                    x: 0,
                    y: 0,
                    move_dir: MoveDir(-1i32, 0i32),
                    health: Health { max: PLAYER_HEALTH, current: PLAYER_HEALTH },
                    weapon: Weapon { fire_frame: 0, frame_cooldown: WEAPON_COOLDOWN },
                    dead: false,
                }),
            decreases num_players - i,
        {
            players.push(Player {
                handle: i,
                id: i as u32,
                x: 0,
                y: 0,
                move_dir: MoveDir(-1i32, 0i32),
                health: Health::new(PLAYER_HEALTH),
                weapon: Weapon::new(),
                dead: false,
            });
            i = i + 1;
        }
        World {
            frame: SeedFrame(0),
            enemy_timer: 0,
            next_id: num_players as u32,
            score: Score(0),
            lost: false,
            players,
            enemies: Vec::new(),
            projectiles: Vec::new(),
            enemy_assets,
        }
    }

    /// An independent copy of the world.
    pub fn duplicate(&self) -> (r: World)
        ensures
            r@ == self@,
    {
        World {
            frame: self.frame,
            enemy_timer: self.enemy_timer,
            next_id: self.next_id,
            score: self.score,
            lost: self.lost,
            players: copy_vec(&self.players),
            enemies: copy_vec(&self.enemies),
            projectiles: copy_vec(&self.projectiles),
            enemy_assets: self.enemy_assets,
        }
    }
}

fn copy_vec<T: Copy>(v: &Vec<T>) -> (r: Vec<T>)
    ensures
        r@ == v@,
{
    let mut r: Vec<T> = Vec::new();
    let mut i: usize = 0;
    while i < v.len()
        invariant
            0 <= i <= v@.len(),
            r@ =~= v@.take(i as int),
        decreases v@.len() - i,
    {
        r.push(v[i]);
        i = i + 1;
    }
    assert(r@ =~= v@);
    r
}

} // verus!
