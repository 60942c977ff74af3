use fvz::events::{FvzEvent, SafeEvent};
use fvz::input::{game_input, INPUT_FIRE, INPUT_REVIVE, INPUT_RIGHT, INPUT_UP};
use fvz::seeding::{Seed, SeedFrame};
use fvz::world::{
    advance_frame, bullets_hitting_players, end_game, fire_bullets, kill_enemies, kill_players,
    move_bullet, move_enemies, move_players, revive_players, spawn_enemy, Bullet, Enemy,
    EnemyAssets, Health, MoveDir, Projectile, Shot, Weapon, World,
};

fn world(n: usize) -> World {
    World::new(n, EnemyAssets::standard())
}

fn zombie_at(id: u32, x: i32, y: i32) -> Enemy {
    Enemy {
        id,
        x,
        y,
        health: Health::new(100),
        damage: 10,
        speed: 20,
        last_attack: 0,
        attack_cooldown: 60,
    }
}

#[test]
fn new_world_places_players_at_the_centre() {
    let w = world(3);
    assert_eq!(w.players.len(), 3);
    for (i, p) in w.players.iter().enumerate() {
        assert_eq!(p.handle, i);
        assert_eq!(p.id, i as u32);
        assert_eq!((p.x, p.y), (0, 0));
        assert_eq!(p.move_dir, MoveDir(-1, 0));
        assert_eq!(p.health, Health { max: 510, current: 510 });
        assert!(!p.dead);
    }
    assert_eq!(w.next_id, 3);
    assert_eq!(w.frame.0, 0);
}

#[test]
fn players_move_straight_and_diagonally() {
    let mut w = world(3);
    w.players[2].dead = true;
    let inputs = vec![INPUT_RIGHT, INPUT_UP | INPUT_RIGHT, INPUT_RIGHT];
    move_players(&mut w.players, &inputs);
    assert_eq!((w.players[0].x, w.players[0].y), (130, 0));
    assert_eq!(w.players[0].move_dir, MoveDir(1, 0));
    assert_eq!((w.players[1].x, w.players[1].y), (92, 92));
    assert_eq!(w.players[1].move_dir, MoveDir(1, 1));
    assert_eq!((w.players[2].x, w.players[2].y), (0, 0));
}

#[test]
fn players_stop_at_the_edge_and_keep_their_direction_when_idle() {
    let mut w = world(1);
    w.players[0].x = 19950;
    move_players(&mut w.players, &vec![INPUT_RIGHT]);
    assert_eq!(w.players[0].x, 20000);
    move_players(&mut w.players, &vec![0]);
    assert_eq!(w.players[0].x, 20000);
    assert_eq!(w.players[0].move_dir, MoveDir(1, 0));
}

#[test]
fn weapon_respects_its_cooldown() {
    let mut weapon = Weapon::new();
    assert!(!weapon.shoot(&SeedFrame(30)));
    assert!(weapon.shoot(&SeedFrame(31)));
    assert_eq!(weapon.fire_frame, 31);
    assert!(!weapon.shoot(&SeedFrame(61)));
    assert!(weapon.shoot(&SeedFrame(62)));
}

#[test]
fn bullet_never_hits_its_shooter_and_is_used_up_after_one_hit() {
    let mut b = Bullet::fire(50, 4);
    assert_eq!(b.already_hit, vec![4]);
    assert!(!b.is_used_up());
    assert!(!b.hit(4));
    assert!(!b.is_used_up());
    assert!(b.hit(9));
    assert!(b.is_used_up());
    assert_eq!(b.already_hit, vec![4, 9]);
}

#[test]
fn bullet_remembers_every_entity_it_hit() {
    let mut b = Bullet::fire(50, 7);
    assert!(b.hit(8));
    assert!(!b.hit(8));
    assert_eq!(b.already_hit, vec![7, 8]);
}

#[test]
fn shot_record_skips_its_shooter() {
    let mut s = Shot::fire(50, 4);
    assert!(!s.is_used_up());
    assert!(!s.hit(4));
    assert!(s.hit(9));
    assert!(s.is_used_up());
}

#[test]
fn firing_spawns_a_bullet_and_raises_a_pew() {
    let mut w = world(2);
    w.frame = SeedFrame(40);
    let mut events: Vec<SafeEvent> = Vec::new();
    fire_bullets(&mut w, &vec![INPUT_FIRE, 0], &mut events);
    assert_eq!(w.projectiles.len(), 1);
    let b = w.projectiles[0];
    assert_eq!((b.x, b.y), (0, 0));
    assert_eq!(b.dir, MoveDir(-1, 0));
    assert_eq!(b.id, 2);
    assert_eq!(b.bullet, Shot::fire(50, 0));
    assert_eq!(w.next_id, 3);
    assert_eq!(w.players[0].weapon.fire_frame, 40);
    assert_eq!(events, vec![SafeEvent::new(FvzEvent::Pew, 2 * 0 + 40)]);
}

#[test]
fn bullets_fly_and_leave_the_field() {
    let mut w = world(1);
    w.projectiles.push(Projectile { id: 5, x: 0, y: 0, dir: MoveDir(1, 0), bullet: Shot::fire(50, 0) });
    w.projectiles.push(Projectile { id: 6, x: 24900, y: 0, dir: MoveDir(1, 1), bullet: Shot::fire(50, 0) });
    move_bullet(&mut w.projectiles);
    assert_eq!(w.projectiles.len(), 1);
    assert_eq!((w.projectiles[0].x, w.projectiles[0].y), (350, 0));
}

#[test]
fn bullet_damages_and_kills_an_enemy() {
    let mut w = world(1);
    let mut e = zombie_at(7, 400, 0);
    e.health = Health { max: 100, current: 90 };
    w.enemies.push(e);
    w.projectiles.push(Projectile { id: 5, x: 0, y: 0, dir: MoveDir(1, 0), bullet: Shot::fire(50, 0) });
    let mut events: Vec<SafeEvent> = Vec::new();
    kill_enemies(&mut w, &mut events);
    assert_eq!(w.enemies[0].health.current, 40);
    assert_eq!(w.score.0, 50);
    assert!(w.projectiles.is_empty());
    assert!(events.is_empty());
    w.projectiles.push(Projectile { id: 8, x: 0, y: 0, dir: MoveDir(1, 0), bullet: Shot::fire(50, 0) });
    kill_enemies(&mut w, &mut events);
    assert!(w.enemies.is_empty());
    assert_eq!(w.score.0, 100);
    assert_eq!(events, vec![SafeEvent::new(FvzEvent::EnemyFall, 7)]);
}

#[test]
fn bullet_out_of_reach_misses() {
    let mut w = world(1);
    w.enemies.push(zombie_at(7, 525, 0));
    w.projectiles.push(Projectile { id: 5, x: 0, y: 0, dir: MoveDir(1, 0), bullet: Shot::fire(50, 0) });
    let mut events: Vec<SafeEvent> = Vec::new();
    kill_enemies(&mut w, &mut events);
    assert_eq!(w.enemies[0].health.current, 100);
    assert_eq!(w.projectiles.len(), 1);
    assert_eq!(w.score.0, 0);
}

#[test]
fn bullet_hits_another_player_but_not_its_shooter() {
    let mut w = world(2);
    w.players[1].x = 300;
    w.projectiles.push(Projectile { id: 9, x: 0, y: 0, dir: MoveDir(1, 0), bullet: Shot::fire(50, 0) });
    let mut events: Vec<SafeEvent> = Vec::new();
    bullets_hitting_players(&mut w, &mut events);
    assert_eq!(w.players[0].health.current, 510);
    assert_eq!(w.players[1].health.current, 460);
    assert!(w.projectiles.is_empty());
    assert_eq!(events, vec![SafeEvent::new(FvzEvent::PlayerHitBullet, 3 * 9 + 1)]);
}

#[test]
fn enemy_steps_toward_the_nearest_player() {
    let mut w = world(2);
    w.players[1].x = 10000;
    w.enemies.push(zombie_at(4, 3000, 1000));
    let mut events: Vec<SafeEvent> = Vec::new();
    move_enemies(&mut w, &mut events);
    // Nearest is player 0 at the origin, 3162 away: the step of 20 splits
    // in proportion over the two axes.
    assert_eq!((w.enemies[0].x, w.enemies[0].y), (2982, 994));
    assert!(events.is_empty());
}

#[test]
fn enemy_in_range_attacks_after_its_cooldown() {
    let mut w = world(1);
    w.frame = SeedFrame(61);
    w.enemies.push(zombie_at(4, 100, 0));
    let mut events: Vec<SafeEvent> = Vec::new();
    move_enemies(&mut w, &mut events);
    assert_eq!(w.players[0].health.current, 500);
    assert_eq!(w.enemies[0].last_attack, 61);
    assert_eq!((w.enemies[0].x, w.enemies[0].y), (100, 0));
    assert_eq!(events, vec![SafeEvent::new(FvzEvent::PlayerHit, 3 * 0 + 4)]);
    move_enemies(&mut w, &mut events);
    assert_eq!(w.players[0].health.current, 500);
    assert_eq!(events.len(), 1);
}

#[test]
fn dead_players_are_marked_and_revived_nearby() {
    let mut w = world(3);
    w.players[1].health.current = 0;
    w.players[1].x = 1000;
    w.players[2].health.current = 0;
    w.players[2].x = 5000;
    kill_players(&mut w.players);
    assert!(!w.players[0].dead);
    assert!(w.players[1].dead && w.players[2].dead);
    let mut events: Vec<SafeEvent> = Vec::new();
    revive_players(&mut w.players, &vec![INPUT_REVIVE, 0, 0], &mut events);
    assert!(!w.players[1].dead);
    assert_eq!(w.players[1].health.current, 408);
    assert!(w.players[2].dead);
    assert_eq!(events, vec![SafeEvent::new(FvzEvent::Revive, 5 * 1 + 0)]);
}

#[test]
fn revive_fails_beyond_reach() {
    let mut w = world(2);
    w.players[1].dead = true;
    w.players[1].health.current = 0;
    w.players[1].x = 1201;
    let mut events: Vec<SafeEvent> = Vec::new();
    revive_players(&mut w.players, &vec![INPUT_REVIVE, 0], &mut events);
    assert!(w.players[1].dead);
    assert!(events.is_empty());
}

#[test]
fn match_is_lost_when_everyone_is_dead() {
    let mut w = world(2);
    let mut events: Vec<SafeEvent> = Vec::new();
    end_game(&mut w, &mut events);
    assert!(!w.lost);
    assert!(events.is_empty());
    w.players[0].dead = true;
    w.players[1].dead = true;
    end_game(&mut w, &mut events);
    assert!(w.lost);
    assert_eq!(events, vec![SafeEvent::new(FvzEvent::Lost, 0)]);
    let frame = w.frame.0;
    advance_frame(&mut w, &Seed([3, 4, 5]), &vec![INPUT_RIGHT, 0], &mut events);
    assert_eq!(w.frame.0, frame);
    assert_eq!(events.len(), 1);
}

#[test]
fn first_enemy_spawns_on_the_three_hundredth_tick() {
    let mut w = world(1);
    let seed = Seed([3, 4, 5]);
    let mut events: Vec<SafeEvent> = Vec::new();
    for _ in 0..299 {
        advance_frame(&mut w, &seed, &vec![0], &mut events);
    }
    assert!(w.enemies.is_empty());
    advance_frame(&mut w, &seed, &vec![0], &mut events);
    assert_eq!(w.frame.0, 300);
    assert_eq!(w.enemies.len(), 1);
    let e = w.enemies[0];
    assert_eq!(e.id, 1);
    assert_eq!(e.health, Health::new(100));
    // Drawn at (19500, 18500), then one step toward the player.
    assert_eq!((e.x, e.y), (19486, 18487));
    assert_eq!(w.enemy_timer, 0);
    assert_eq!(w.next_id, 2);
}

#[test]
fn spawned_enemy_species_follows_the_roll() {
    let assets = EnemyAssets::standard();
    let devil = spawn_enemy(&assets, &vec![0, 40, 81], 3);
    assert_eq!((devil.x, devil.y), (-20500, 19500));
    assert_eq!(devil.speed, assets.devil.speed);
    assert_eq!(devil.health, Health::new(assets.devil.health));
    let zombie = spawn_enemy(&assets, &vec![20, 20, 80], 4);
    assert_eq!((zombie.x, zombie.y), (-500, -500));
    assert_eq!(zombie.damage, assets.zombie.damage);
    assert_eq!(assets.get(81), assets.devil);
    assert_eq!(assets.get(80), assets.zombie);
}

#[test]
fn input_bits_pack_the_controls() {
    assert_eq!(game_input(true, false, false, true, true, false), INPUT_UP | INPUT_RIGHT | INPUT_FIRE);
    assert_eq!(game_input(false, false, false, false, false, true), INPUT_REVIVE);
}

#[test]
fn a_player_revived_this_tick_does_not_revive_others() {
    let mut w = world(3);
    w.players[1].dead = true;
    w.players[1].health.current = 0;
    w.players[1].x = 1000;
    w.players[2].dead = true;
    w.players[2].health.current = 0;
    w.players[2].x = 2000;
    let mut events: Vec<SafeEvent> = Vec::new();
    revive_players(&mut w.players, &vec![INPUT_REVIVE, INPUT_REVIVE, 0], &mut events);
    assert!(!w.players[1].dead);
    assert!(w.players[2].dead);
    assert_eq!(events, vec![SafeEvent::new(FvzEvent::Revive, 5)]);
}

#[test]
fn two_revivers_may_pick_the_same_dead_player() {
    let mut w = world(3);
    w.players[1].x = 500;
    w.players[2].dead = true;
    w.players[2].health.current = 0;
    w.players[2].x = 1000;
    let mut events: Vec<SafeEvent> = Vec::new();
    revive_players(&mut w.players, &vec![INPUT_REVIVE, INPUT_REVIVE, 0], &mut events);
    assert!(!w.players[2].dead);
    assert_eq!(w.players[2].health.current, 408);
    assert_eq!(events, vec![SafeEvent::new(FvzEvent::Revive, 10), SafeEvent::new(FvzEvent::Revive, 11)]);
}
