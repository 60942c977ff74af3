use fvz::events::{DispatchPolicy, FvzEvent};
use fvz::input::{INPUT_FIRE, INPUT_RIGHT, INPUT_UP};
use fvz::seeding::Seed;
use fvz::sim::{run_ticks, SimError, Simulation};
use fvz::world::{EnemyAssets, World};

fn same(a: &World, b: &World) -> bool {
    a.frame == b.frame
        && a.enemy_timer == b.enemy_timer
        && a.next_id == b.next_id
        && a.score == b.score
        && a.lost == b.lost
        && a.players == b.players
        && a.enemies == b.enemies
        && a.projectiles == b.projectiles
}

fn sim(n: usize, policy: DispatchPolicy) -> Simulation {
    Simulation::new(Seed([3, 4, 5]), n, EnemyAssets::standard(), 128, 60, policy)
}

/// A busy input script: both players wander and fire.
fn inputs_at(t: u32) -> Vec<u8> {
    let a = if t % 7 < 4 { INPUT_RIGHT | INPUT_FIRE } else { INPUT_UP };
    let b = if t % 5 < 2 { INPUT_FIRE } else { INPUT_RIGHT | INPUT_UP };
    vec![a, b]
}

#[test]
fn two_simulations_agree_at_every_tick() {
    let mut a = sim(2, DispatchPolicy::EveryPass);
    let mut b = sim(2, DispatchPolicy::EveryPass);
    for t in 1..=700u32 {
        let inputs = inputs_at(t);
        a.advance(&inputs, false);
        b.advance(&inputs, false);
        assert!(same(&a.world, &b.world), "diverged at tick {}", t);
    }
    assert_eq!(a.world.frame.0, 700);
}

#[test]
fn run_ticks_matches_advancing_one_by_one() {
    let seed = Seed([3, 4, 5]);
    let frames: Vec<Vec<u8>> = (1..=400u32).map(inputs_at).collect();
    let mut w = World::new(2, EnemyAssets::standard());
    let mut events = Vec::new();
    run_ticks(&mut w, &seed, &frames, &mut events);
    let mut s = sim(2, DispatchPolicy::EveryPass);
    for f in frames.iter() {
        s.advance(f, false);
    }
    assert!(same(&w, &s.world));
}

#[test]
fn rollback_and_resimulation_match_direct_simulation() {
    let t_split = 320u32;
    let k = 60u32;
    let mut direct = sim(2, DispatchPolicy::EveryPass);
    for t in 1..=t_split + k {
        direct.advance(&inputs_at(t), false);
    }
    let mut peer = sim(2, DispatchPolicy::EveryPass);
    for t in 1..=t_split {
        peer.advance(&inputs_at(t), false);
        peer.save_state().unwrap();
    }
    // Run ahead with wrong predictions, then roll back to the split tick.
    for _ in 0..k {
        peer.advance(&vec![0, 0], true);
        peer.save_state().unwrap();
    }
    peer.load_state(t_split).unwrap();
    assert_eq!(peer.world.frame.0, t_split);
    for t in t_split + 1..=t_split + k {
        peer.advance(&inputs_at(t), false);
    }
    assert!(same(&direct.world, &peer.world));
}

#[test]
fn rollback_past_the_retained_horizon_fails() {
    let mut s = Simulation::new(Seed([3, 4, 5]), 1, EnemyAssets::standard(), 4, 60, DispatchPolicy::EveryPass);
    for _ in 0..10 {
        s.advance(&vec![0], false);
        s.save_state().unwrap();
    }
    let frame = s.world.frame.0;
    assert_eq!(s.load_state(3), Err(SimError::RollbackHorizonExceeded));
    assert_eq!(s.world.frame.0, frame);
    assert_eq!(s.load_state(7), Ok(()));
    assert_eq!(s.world.frame.0, 7);
    s.prune(9);
    assert_eq!(s.load_state(8), Err(SimError::RollbackHorizonExceeded));
}

#[test]
fn cross_peer_convergence_after_late_input() {
    // Two peers with an input delay of two ticks. Peer A presses fire at
    // tick 10 and holds it; with the delay its input applies from tick 12.
    // Peer B walks out of the line of fire and predicts no input from A until
    // A's confirmed inputs arrive at tick 40, then rolls back and re-simulates.
    let delay = 2u32;
    let pressed_at = 10u32;
    let arrives = 40u32;
    let a_input = |t: u32| if t >= pressed_at + delay { INPUT_FIRE } else { 0 };
    let b_input = |t: u32| if t <= 20 { INPUT_RIGHT } else { 0 };
    let mut a = sim(2, DispatchPolicy::ConfirmedOnly);
    let mut b = sim(2, DispatchPolicy::ConfirmedOnly);
    b.save_state().unwrap();
    let mut a_sounds = Vec::new();
    for t in 1..=arrives {
        a_sounds.extend(a.advance(&vec![a_input(t), b_input(t)], false));
        let confirmed = t < pressed_at + delay;
        b.advance(&vec![0, b_input(t)], !confirmed);
        b.save_state().unwrap();
    }
    assert!(b.world.projectiles.is_empty());
    assert!(!a.world.projectiles.is_empty());
    b.load_state(pressed_at + delay - 1).unwrap();
    let mut b_sounds = Vec::new();
    for t in pressed_at + delay..=arrives {
        b_sounds.extend(b.advance(&vec![a_input(t), b_input(t)], false));
        b.save_state().unwrap();
    }
    assert_eq!(a.world.projectiles, b.world.projectiles);
    assert!(same(&a.world, &b.world));
    let pews = |s: &Vec<fvz::events::SafeEvent>| s.iter().filter(|e| e.event == FvzEvent::Pew).count();
    assert_eq!(pews(&a_sounds), pews(&b_sounds));
    assert_eq!(pews(&a_sounds), 1);
}

#[test]
fn speculative_passes_present_nothing_under_confirmed_only() {
    let mut s = sim(1, DispatchPolicy::ConfirmedOnly);
    for _ in 0..30 {
        s.advance(&vec![0], false);
    }
    let out = s.advance(&vec![INPUT_FIRE], true);
    assert!(out.is_empty());
    assert!(s.pending.0.is_empty());
    assert_eq!(s.cache.len(), 0);
}

#[test]
fn replayed_pass_is_deduplicated_under_every_pass() {
    let mut s = sim(1, DispatchPolicy::EveryPass);
    for _ in 0..30 {
        s.advance(&vec![0], false);
        s.save_state().unwrap();
    }
    let first = s.advance(&vec![INPUT_FIRE], true);
    assert_eq!(first.len(), 1);
    assert_eq!(first[0].event, FvzEvent::Pew);
    s.load_state(30).unwrap();
    let again = s.advance(&vec![INPUT_FIRE], false);
    assert!(again.is_empty());
}

#[test]
fn teardown_discards_pending_state() {
    let mut s = sim(1, DispatchPolicy::EveryPass);
    s.advance(&vec![0], false);
    s.save_state().unwrap();
    s.teardown();
    assert_eq!(s.store.len(), 0);
    assert!(s.pending.0.is_empty());
    assert_eq!(s.cache.len(), 0);
}

#[test]
fn resimulate_rewrites_the_revisited_ticks() {
    let mut direct = sim(2, DispatchPolicy::EveryPass);
    for t in 1..=380u32 {
        direct.advance(&inputs_at(t), false);
    }
    let mut peer = sim(2, DispatchPolicy::EveryPass);
    peer.save_state().unwrap();
    for t in 1..=320u32 {
        peer.advance(&inputs_at(t), false);
        peer.save_state().unwrap();
    }
    for _ in 0..60 {
        peer.advance(&vec![0, 0], true);
        peer.save_state().unwrap();
    }
    let corrected: Vec<Vec<u8>> = (321..=380u32).map(inputs_at).collect();
    let presented = peer.resimulate(320, &corrected).unwrap();
    assert_eq!(presented.len(), 60);
    assert!(same(&direct.world, &peer.world));
    let saved = peer.store.load(380).unwrap();
    assert!(same(saved, &direct.world));
    assert_eq!(peer.resimulate(1000, &corrected).err(), Some(SimError::RollbackHorizonExceeded));
    assert!(same(&direct.world, &peer.world));
}
