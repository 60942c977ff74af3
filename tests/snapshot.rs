use fvz::snapshot::{SnapshotError, SnapshotStore};

#[test]
fn save_then_load_returns_the_state() {
    let mut store: SnapshotStore<u64> = SnapshotStore::new(8);
    assert_eq!(store.save(5, 1234), Ok(()));
    assert_eq!(store.load(5), Ok(&1234));
}

#[test]
fn load_of_a_pruned_tick_is_not_found() {
    let mut store: SnapshotStore<u64> = SnapshotStore::new(8);
    for t in 3..8u32 {
        assert_eq!(store.save(t, t as u64 * 10), Ok(()));
    }
    store.prune(5);
    assert_eq!(store.load(3), Err(SnapshotError::NotFound));
    assert_eq!(store.load(4), Err(SnapshotError::NotFound));
    assert_eq!(store.load(5), Ok(&50));
    assert_eq!(store.load(7), Ok(&70));
    assert_eq!(store.oldest(), 5);
    assert_eq!(store.len(), 3);
}

#[test]
fn save_overwrites_an_existing_tick() {
    let mut store: SnapshotStore<u64> = SnapshotStore::new(4);
    store.save(1, 10).unwrap();
    store.save(2, 20).unwrap();
    store.save(1, 11).unwrap();
    assert_eq!(store.load(1), Ok(&11));
    assert_eq!(store.load(2), Ok(&20));
}

#[test]
fn a_gap_is_refused() {
    let mut store: SnapshotStore<u64> = SnapshotStore::new(4);
    store.save(1, 10).unwrap();
    assert_eq!(store.save(3, 30), Err(SnapshotError::NotContiguous));
    assert_eq!(store.len(), 1);
    assert_eq!(store.load(3), Err(SnapshotError::NotFound));
}

#[test]
fn a_full_store_drops_its_oldest_tick() {
    let mut store: SnapshotStore<u64> = SnapshotStore::new(2);
    store.save(1, 10).unwrap();
    store.save(2, 20).unwrap();
    store.save(3, 30).unwrap();
    assert_eq!(store.len(), 2);
    assert_eq!(store.load(1), Err(SnapshotError::NotFound));
    assert_eq!(store.load(2), Ok(&20));
    assert_eq!(store.load(3), Ok(&30));
}

#[test]
fn ticks_wrap_around() {
    let mut store: SnapshotStore<u64> = SnapshotStore::new(4);
    store.save(u32::MAX, 1).unwrap();
    store.save(0, 2).unwrap();
    assert_eq!(store.load(u32::MAX), Ok(&1));
    assert_eq!(store.load(0), Ok(&2));
    store.prune(0);
    assert_eq!(store.load(u32::MAX), Err(SnapshotError::NotFound));
    assert_eq!(store.load(0), Ok(&2));
}

#[test]
fn empty_store_finds_nothing() {
    let store: SnapshotStore<u64> = SnapshotStore::new(4);
    assert_eq!(store.load(0), Err(SnapshotError::NotFound));
}

#[test]
fn clear_drops_every_snapshot() {
    let mut store: SnapshotStore<u64> = SnapshotStore::new(4);
    store.save(9, 1).unwrap();
    store.clear();
    assert_eq!(store.len(), 0);
    assert_eq!(store.load(9), Err(SnapshotError::NotFound));
}

#[test]
fn pruning_past_the_newest_tick_empties_the_store() {
    let mut store: SnapshotStore<u64> = SnapshotStore::new(8);
    for t in 0..3u32 {
        store.save(t, t as u64).unwrap();
    }
    store.prune(10);
    assert_eq!(store.len(), 0);
    assert_eq!(store.load(1), Err(SnapshotError::NotFound));
    assert_eq!(store.oldest(), 10);
    assert_eq!(store.save(10, 100), Ok(()));
    assert_eq!(store.load(10), Ok(&100));
}

#[test]
fn pruning_at_an_older_tick_changes_nothing() {
    let mut store: SnapshotStore<u64> = SnapshotStore::new(8);
    for t in 5..8u32 {
        store.save(t, t as u64).unwrap();
    }
    store.prune(2);
    assert_eq!(store.len(), 3);
    assert_eq!(store.load(5), Ok(&5));
}
