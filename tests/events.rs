use fvz::events::{
    audio_event, propagate, AudioEvent, FvzEvent, RollbackSafeEvents, SafeEvent, SafeEventsCache,
    DEFAULT_DEDUP_HORIZON,
};

fn pending(events: &[(FvzEvent, u32)]) -> RollbackSafeEvents {
    let mut p = RollbackSafeEvents::new();
    for (kind, id) in events {
        p.push(SafeEvent::new(*kind, *id));
    }
    p
}

#[test]
fn new_event_starts_at_age_zero() {
    let e = SafeEvent::new(FvzEvent::Pew, 7);
    assert_eq!(e.real_age, 0);
    assert_eq!(e.id, 7);
    assert_eq!(e.event, FvzEvent::Pew);
}

#[test]
fn fresh_events_are_dispatched_in_order() {
    let mut cache = SafeEventsCache::default();
    let mut p = pending(&[(FvzEvent::Pew, 1), (FvzEvent::EnemyFall, 2)]);
    let out = propagate(&mut cache, &mut p);
    assert_eq!(out.len(), 2);
    assert_eq!(out[0].id, 1);
    assert_eq!(out[0].event, FvzEvent::Pew);
    assert_eq!(out[1].id, 2);
    assert!(p.0.is_empty());
    assert_eq!(cache.len(), 2);
    assert!(cache.contains(1) && cache.contains(2));
}

#[test]
fn repeated_fingerprint_in_one_pass_is_dispatched_once() {
    let mut cache = SafeEventsCache::default();
    let mut p = pending(&[(FvzEvent::Revive, 5), (FvzEvent::Revive, 5), (FvzEvent::Lost, 0)]);
    let out = propagate(&mut cache, &mut p);
    assert_eq!(out.len(), 2);
    assert_eq!(out[0].id, 5);
    assert_eq!(out[1].id, 0);
}

#[test]
fn dedup_horizon_of_sixty_passes() {
    let mut cache = SafeEventsCache::default();
    assert_eq!(cache.horizon(), DEFAULT_DEDUP_HORIZON);
    assert_eq!(DEFAULT_DEDUP_HORIZON, 60);
    let mut p = pending(&[(FvzEvent::PlayerHit, 42)]);
    assert_eq!(propagate(&mut cache, &mut p).len(), 1);
    // Pushed again on every one of the next 59 passes: never presented.
    for _ in 1..60 {
        let mut p = pending(&[(FvzEvent::PlayerHit, 42)]);
        assert!(propagate(&mut cache, &mut p).is_empty());
    }
    // The entry has now reached the horizon and was evicted.
    assert!(!cache.contains(42));
    let mut p = pending(&[(FvzEvent::PlayerHit, 42)]);
    assert_eq!(propagate(&mut cache, &mut p).len(), 1);
}

#[test]
fn entry_ages_without_repeats_and_is_evicted() {
    let mut cache = SafeEventsCache::new(3);
    let mut p = pending(&[(FvzEvent::Pew, 9)]);
    propagate(&mut cache, &mut p);
    assert!(cache.contains(9));
    let mut empty = RollbackSafeEvents::new();
    propagate(&mut cache, &mut empty);
    assert!(cache.contains(9));
    propagate(&mut cache, &mut empty);
    assert!(!cache.contains(9));
    assert_eq!(cache.len(), 0);
}

#[test]
fn horizon_of_one_forgets_after_each_pass() {
    let mut cache = SafeEventsCache::new(1);
    let mut p = pending(&[(FvzEvent::Pew, 3)]);
    assert_eq!(propagate(&mut cache, &mut p).len(), 1);
    let mut p = pending(&[(FvzEvent::Pew, 3)]);
    assert_eq!(propagate(&mut cache, &mut p).len(), 1);
}

#[test]
fn colliding_fingerprints_drop_the_second_event() {
    let mut cache = SafeEventsCache::default();
    let mut p = pending(&[(FvzEvent::EnemyFall, 11), (FvzEvent::Pew, 11)]);
    let out = propagate(&mut cache, &mut p);
    assert_eq!(out.len(), 1);
    assert_eq!(out[0].event, FvzEvent::EnemyFall);
}

#[test]
fn clear_forgets_everything() {
    let mut cache = SafeEventsCache::default();
    let mut p = pending(&[(FvzEvent::Pew, 1)]);
    propagate(&mut cache, &mut p);
    cache.clear();
    assert_eq!(cache.len(), 0);
    assert_eq!(cache.horizon(), 60);
}

#[test]
fn every_event_has_its_sound() {
    assert_eq!(audio_event(FvzEvent::EnemyFall), AudioEvent::EnemyFall);
    assert_eq!(audio_event(FvzEvent::PlayerHit), AudioEvent::PlayerHit);
    assert_eq!(audio_event(FvzEvent::PlayerHitBullet), AudioEvent::PlayerHitBullet);
    assert_eq!(audio_event(FvzEvent::Lost), AudioEvent::Lost);
    assert_eq!(audio_event(FvzEvent::Pew), AudioEvent::Pew);
    assert_eq!(audio_event(FvzEvent::Revive), AudioEvent::Revive);
}
