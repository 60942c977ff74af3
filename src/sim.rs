//! The rollback loop: runs ticks, keeps a snapshot of each, rewinds to a past
//! tick when a prediction turns out wrong, and hands the events of each pass
//! through the dedup cache.
use vstd::prelude::*;
use crate::events::{drain_pass, drain_passes, propagate, DispatchPolicy, RollbackSafeEvents, SafeEvent, SafeEventsCache};
use crate::seeding::Seed;
use crate::seeding::next_tick;
use crate::snapshot::{
    lemma_offset_bounds, lemma_offset_of_add, lemma_save_then_load, lemma_tick_add_add, tick_add, tick_offset,
    SnapshotStore, StoreModel,
};
use crate::world::{advance_frame, lemma_tick_frame, tick, EnemyAssets, World, WorldModel};

verus! {

/// Why the rollback loop cannot go on with the session.
#[derive(Clone, Copy, PartialEq, Eq, Structural, Debug)]
pub enum SimError {
    /// A rollback asked for a tick whose snapshot is no longer retained.
    RollbackHorizonExceeded,
    /// A snapshot could not be saved without leaving a gap.
    SnapshotGap,
}

/// The world after the given input frames, one tick each, from `w`.
pub open spec fn run(w: WorldModel, seed: Seq<u8>, frames: Seq<Seq<u8>>) -> WorldModel
    decreases frames.len(),
{
    if frames.len() == 0 {
        w
    } else {
        tick(run(w, seed, frames.drop_last()), seed, frames.last()).0
    }
}

/// The input frames as contracts see them.
pub open spec fn frames_view(frames: Seq<Vec<u8>>) -> Seq<Seq<u8>> {
    frames.map_values(|f: Vec<u8>| f@)
}

/// Runs one tick per input frame, appending the events raised.
pub fn run_ticks(world: &mut World, seed: &Seed, frames: &Vec<Vec<u8>>, events: &mut Vec<SafeEvent>)
    requires
        old(world)@.wf(),
        forall|i: int| 0 <= i < frames@.len() ==> (#[trigger] frames@[i])@.len() == old(world)@.players.len(),
    ensures
        final(world)@ == run(old(world)@, seed.0@, frames_view(frames@)),
        final(world)@.wf(),
        final(world)@.players.len() == old(world)@.players.len(),
{
    let ghost w0 = world@;
    let ghost fv = frames_view(frames@);
    let mut i: usize = 0;
    proof {
        assert(fv.take(0) =~= Seq::<Seq<u8>>::empty());
    }
    while i < frames.len()
        invariant
            0 <= i <= frames@.len(),
            fv == frames_view(frames@),
            world@.wf(),
            world@.players.len() == w0.players.len(),
            forall|j: int| 0 <= j < frames@.len() ==> (#[trigger] frames@[j])@.len() == w0.players.len(),
            world@ == run(w0, seed.0@, fv.take(i as int)),
        decreases frames@.len() - i,
    {
        proof {
            assert(fv.take(i + 1).drop_last() =~= fv.take(i as int));
            assert(fv.take(i + 1).last() == frames@[i as int]@);
        }
        advance_frame(world, seed, &frames[i], events);
        i = i + 1;
    }
    proof {
        assert(fv.take(frames@.len() as int) =~= fv);
    }
}

/// Lockstep: two peers that start from the same world and apply the same
/// input frames under the same seed hold identical worlds after every tick.
pub proof fn lemma_lockstep(w1: WorldModel, w2: WorldModel, seed: Seq<u8>, frames: Seq<Seq<u8>>)
    requires
        w1 == w2,
    ensures
        forall|t: int| 0 <= t <= frames.len() ==> #[trigger] run(w1, seed, frames.take(t)) == run(w2, seed, frames.take(t)),
{
}

/// Running a prefix of the frames and then the rest is running them all.
pub proof fn lemma_run_split(w: WorldModel, seed: Seq<u8>, frames: Seq<Seq<u8>>, t: int)
    requires
        0 <= t <= frames.len(),
    ensures
        run(run(w, seed, frames.take(t)), seed, frames.skip(t)) == run(w, seed, frames),
    decreases frames.len(),
{
    if frames.len() == t {
        assert(frames.take(t) =~= frames);
        assert(frames.skip(t) =~= Seq::<Seq<u8>>::empty());
    } else {
        let f = frames.drop_last();
        lemma_run_split(w, seed, f, t);
        assert(f.take(t) =~= frames.take(t));
        assert(frames.skip(t).drop_last() =~= f.skip(t));
        assert(frames.skip(t).last() == frames.last());
    }
}

/// Rollback correctness: a peer that simulated ticks up to `t`, saved the
/// world of tick `t`, and later restores it and re-simulates the remaining
/// final frames reaches the same world as a peer that simulated every final
/// frame directly.
pub proof fn lemma_rollback_resimulation(
    w0: WorldModel,
    seed: Seq<u8>,
    frames: Seq<Seq<u8>>,
    t: int,
    store: StoreModel<World>,
    tick_id: u32,
    snapshot: World,
)
    requires
        0 <= t <= frames.len(),
        store.wf(),
        store.saved(tick_id, snapshot) is Some,
        snapshot@ == run(w0, seed, frames.take(t)),
    ensures
        store.saved(tick_id, snapshot)->Some_0.lookup(tick_id) matches Some(s)
            && run(s@, seed, frames.skip(t)) == run(w0, seed, frames),
{
    crate::snapshot::lemma_save_then_load(store, tick_id, snapshot);
    lemma_run_split(w0, seed, frames, t);
}

/// Every retained snapshot is a well-formed world of `n` players, saved under
/// its own tick.
pub open spec fn snapshots_wf(m: StoreModel<World>, n: nat) -> bool {
    forall|i: int| 0 <= i < m.snaps.len() ==> (#[trigger] m.snaps[i])@.wf() && m.snaps[i]@.players.len() == n
        && m.snaps[i]@.frame == tick_add(m.first, i)
}

/// The events each of the given input frames raises, one tick each, from `w`.
pub open spec fn run_events(w: WorldModel, seed: Seq<u8>, frames: Seq<Seq<u8>>) -> Seq<Seq<SafeEvent>>
    decreases frames.len(),
{
    if frames.len() == 0 {
        Seq::empty()
    } else {
        run_events(w, seed, frames.drop_last()).push(tick(run(w, seed, frames.drop_last()), seed, frames.last()).1)
    }
}

/// A running match on one peer: the world, the snapshots of past ticks, the
/// events raised and not yet drained, and the dedup cache.
pub struct Simulation {
    pub world: World,
    pub seed: Seed,
    pub store: SnapshotStore<World>,
    pub pending: RollbackSafeEvents,
    pub cache: SafeEventsCache,
    pub policy: DispatchPolicy,
    pub num_players: usize,
}

impl Simulation {
    pub open spec fn wf(&self) -> bool {
        &&& self.world@.wf()
        &&& self.world@.players.len() == self.num_players
        &&& self.store@.wf()
        &&& snapshots_wf(self.store@, self.num_players as nat)
        &&& self.cache.wf()
        &&& self.pending.0@.len() == 0
    }

    /// A match of `num_players` players at its first tick, retaining
    /// `retained` snapshots and remembering fingerprints for `dedup_horizon`
    /// drain passes.
    pub fn new(
        seed: Seed,
        num_players: usize,
        enemy_assets: EnemyAssets,
        retained: usize,
        dedup_horizon: u32,
        policy: DispatchPolicy,
    ) -> (r: Simulation)
        requires
            num_players <= u32::MAX,
            enemy_assets.wf(),
            0 < retained < 0x8000_0000,
            dedup_horizon > 0,
        ensures
            r.wf(),
            r.world@.players.len() == num_players,
            r.world@.enemy_assets == enemy_assets,
            !r.world@.lost,
            r.world@.frame == 0,
            r.seed == seed,
            r.policy == policy,
            r.store@.snaps.len() == 0,
            r.store@.capacity == retained,
            r.pending.0@.len() == 0,
            r.cache@.len() == 0,
            r.cache.horizon_spec() == dedup_horizon,
    {
        Simulation {
            world: World::new(num_players, enemy_assets),
            seed,
            store: SnapshotStore::new(retained),
            pending: RollbackSafeEvents::new(),
            cache: SafeEventsCache::new(dedup_horizon),
            policy,
            num_players,
        }
    }

    /// Saves the current world as the snapshot of its tick.
    pub fn save_state(&mut self) -> (r: Result<(), SimError>)
        requires
            old(self).wf(),
        ensures
            final(self).wf(),
            final(self).world@ == old(self).world@,
            final(self).seed == old(self).seed,
            final(self).num_players == old(self).num_players,
            final(self).policy == old(self).policy,
            final(self).cache@ == old(self).cache@,
            final(self).cache.horizon_spec() == old(self).cache.horizon_spec(),
            old(self).store@.saved(old(self).world@.frame, old(self).world) is Some ==> r == Ok::<(), SimError>(()) && exists|c: World|
                #![trigger old(self).store@.saved(old(self).world@.frame, c)]
                c@ == old(self).world@ && old(self).store@.saved(old(self).world@.frame, c) == Some(final(self).store@),
            old(self).store@.saved(old(self).world@.frame, old(self).world) is None ==> r == Err::<(), SimError>(SimError::SnapshotGap)
                && final(self).store@ == old(self).store@,
    {
        let copy = self.world.duplicate();
        let ghost m = self.store@;
        let res = self.store.save(self.world.frame.0, copy);
        proof {
            let n = self.num_players as nat;
            let m2 = self.store@;
            let f = self.world@.frame;
            let off = tick_offset(m.first, f);
            lemma_offset_bounds(m.first, f);
            assert forall|i: int| 0 <= i < m2.snaps.len() implies (#[trigger] m2.snaps[i])@.wf() && m2.snaps[i]@.players.len() == n
                && m2.snaps[i]@.frame == tick_add(m2.first, i) by {
                if m.snaps.len() == 0 {
                    vstd::arithmetic::div_mod::lemma_small_mod(f as nat, 0x1_0000_0000);
                } else if off < m.snaps.len() {
                    if i != off {
                        assert(m2.snaps[i] == m.snaps[i]);
                    }
                } else if off == m.snaps.len() && m.snaps.len() < m.capacity {
                    if i != off {
                        assert(m2.snaps[i] == m.snaps[i]);
                    }
                } else if off == m.snaps.len() {
                    lemma_tick_add_add(m.first, 1, i);
                    if i < m2.snaps.len() - 1 {
                        assert(m2.snaps[i] == m.snaps[i + 1]);
                    } else {
                        assert(m2.snaps[i] == copy);
                    }
                }
            }
        }
        match res {
            Ok(()) => Ok(()),
            Err(_) => Err(SimError::SnapshotGap),
        }
    }

    /// Restores the world of tick `tick`; fails when its snapshot is no
    /// longer retained, leaving the world as it was.
    pub fn load_state(&mut self, tick: u32) -> (r: Result<(), SimError>)
        requires
            old(self).wf(),
        ensures
            final(self).wf(),
            final(self).store@ == old(self).store@,
            final(self).seed == old(self).seed,
            final(self).num_players == old(self).num_players,
            final(self).policy == old(self).policy,
            final(self).cache@ == old(self).cache@,
            final(self).cache.horizon_spec() == old(self).cache.horizon_spec(),
            match old(self).store@.lookup(tick) {
                Some(s) => r == Ok::<(), SimError>(()) && final(self).world@ == s@ && final(self).world@.frame == tick,
                None => r == Err::<(), SimError>(SimError::RollbackHorizonExceeded) && final(self).world@ == old(self).world@,
            },
    {
        proof {
            lemma_offset_bounds(self.store@.first, tick);
        }
        match self.store.load(tick) {
            Ok(w) => {
                self.world = w.duplicate();
                Ok(())
            },
            Err(_) => Err(SimError::RollbackHorizonExceeded),
        }
    }

    /// Runs one tick with one input frame per player and drains its events.
    /// A speculative pass under the confirmed-only policy presents nothing and
    /// leaves the cache alone; any other pass goes through the cache.
    pub fn advance(&mut self, inputs: &Vec<u8>, speculative: bool) -> (r: Vec<SafeEvent>)
        requires
            old(self).wf(),
            inputs@.len() == old(self).num_players,
        ensures
            final(self).wf(),
            final(self).seed == old(self).seed,
            final(self).num_players == old(self).num_players,
            final(self).policy == old(self).policy,
            final(self).world@ == tick(old(self).world@, old(self).seed.0@, inputs@).0,
            final(self).store@ == old(self).store@,
            final(self).pending.0@.len() == 0,
            final(self).cache.horizon_spec() == old(self).cache.horizon_spec(),
            ({
                let raised = old(self).pending.0@ + tick(old(self).world@, old(self).seed.0@, inputs@).1;
                if speculative && old(self).policy == DispatchPolicy::ConfirmedOnly {
                    r@.len() == 0 && final(self).cache@ == old(self).cache@
                } else {
                    (final(self).cache@, r@) == drain_pass(old(self).cache@, raised, old(self).cache.horizon_spec())
                }
            }),
    {
        advance_frame(&mut self.world, &self.seed, inputs, &mut self.pending.0);
        if speculative && self.policy == DispatchPolicy::ConfirmedOnly {
            self.pending.0.clear();
            Vec::new()
        } else {
            propagate(&mut self.cache, &mut self.pending)
        }
    }

    /// Rolls back to tick `tick` and re-runs the given (now confirmed) input
    /// frames from there, saving over the snapshot of every tick it visits
    /// again. Fails, changing nothing, when the snapshot of `tick` is no
    /// longer retained. Gives the events presented by each re-run tick.
    pub fn resimulate(&mut self, tick: u32, frames: &Vec<Vec<u8>>) -> (r: Result<Vec<Vec<SafeEvent>>, SimError>)
        requires
            old(self).wf(),
            forall|i: int| 0 <= i < frames@.len() ==> (#[trigger] frames@[i])@.len() == old(self).num_players,
        ensures
            final(self).wf(),
            match old(self).store@.lookup(tick) {
                None => r == Err::<Vec<Vec<SafeEvent>>, SimError>(SimError::RollbackHorizonExceeded)
                    && final(self).world@ == old(self).world@ && final(self).store@ == old(self).store@
                    && final(self).cache@ == old(self).cache@,
                Some(s) => r matches Ok(v) && {
                    &&& final(self).world@ == run(s@, old(self).seed.0@, frames_view(frames@))
                    &&& (final(self).cache@, v@.map_values(|d: Vec<SafeEvent>| d@))
                        == drain_passes(old(self).cache@, run_events(s@, old(self).seed.0@, frames_view(frames@)), old(self).cache.horizon_spec())
                    &&& final(self).store@.lookup(final(self).world@.frame) matches Some(w) && w@ == final(self).world@
                },
            },
    {
        let ghost c0 = self.cache@;
        let ghost h = self.cache.horizon_spec();
        match self.load_state(tick) {
            Ok(()) => {},
            Err(e) => {
                return Err(e);
            },
        }
        let ghost s0 = self.world@;
        let ghost fv = frames_view(frames@);
        let ghost seed = self.seed.0@;
        let mut out: Vec<Vec<SafeEvent>> = Vec::new();
        proof {
            assert(fv.take(0) =~= Seq::<Seq<u8>>::empty());
            assert(out@.map_values(|d: Vec<SafeEvent>| d@) =~= Seq::<Seq<SafeEvent>>::empty());
        }
        let mut i: usize = 0;
        while i < frames.len()
            invariant
                0 <= i <= frames@.len(),
                self.wf(),
                fv == frames_view(frames@),
                seed == self.seed.0@,
                self.cache.horizon_spec() == h,
                forall|j: int| 0 <= j < frames@.len() ==> (#[trigger] frames@[j])@.len() == self.num_players,
                self.world@ == run(s0, seed, fv.take(i as int)),
                (self.cache@, out@.map_values(|d: Vec<SafeEvent>| d@)) == drain_passes(c0, run_events(s0, seed, fv.take(i as int)), h),
                self.store@.lookup(self.world@.frame) matches Some(w) && w@ == self.world@,
            decreases frames@.len() - i,
        {
            proof {
                assert(fv.take(i + 1).drop_last() =~= fv.take(i as int));
                assert(fv.take(i + 1).last() == frames@[i as int]@);
            }
            let ghost w_before = self.world@;
            let ghost m = self.store@;
            let dispatched = self.advance(&frames[i], false);
            proof {
                let k = tick_offset(m.first, w_before.frame);
                lemma_offset_bounds(m.first, w_before.frame);
                assert(m.snaps[k]@ == w_before);
                lemma_tick_frame(w_before, seed, frames@[i as int]@);
                if !w_before.lost {
                    lemma_tick_add_add(m.first, k, 1);
                    lemma_offset_of_add(m.first, k + 1);
                    assert(next_tick(w_before.frame) == tick_add(w_before.frame, 1));
                }
            }
            let saved = self.save_state();
            proof {
                assert(saved is Ok);
                let c = choose|c: World| #![trigger m.saved(self.world@.frame, c)]
                    c@ == self.world@ && m.saved(self.world@.frame, c) == Some(self.store@);
                lemma_save_then_load(m, self.world@.frame, c);
            }
            let ghost before_out = out@;
            out.push(dispatched);
            proof {
                assert(out@.map_values(|d: Vec<SafeEvent>| d@) =~= before_out.map_values(|d: Vec<SafeEvent>| d@).push(out@.last()@));
                assert(run_events(s0, seed, fv.take(i + 1)).drop_last() == run_events(s0, seed, fv.take(i as int)));
            }
            i = i + 1;
        }
        proof {
            assert(fv.take(frames@.len() as int) =~= fv);
        }
        Ok(out)
    }

    /// Discards the snapshots of every tick before `confirmed_tick`.
    pub fn prune(&mut self, confirmed_tick: u32)
        requires
            old(self).wf(),
        ensures
            final(self).wf(),
            final(self).store@ == old(self).store@.pruned(confirmed_tick),
            final(self).world@ == old(self).world@,
    {
        let ghost m = self.store@;
        self.store.prune(confirmed_tick);
        proof {
            let n = self.num_players as nat;
            let m2 = self.store@;
            let off = tick_offset(m.first, confirmed_tick);
            lemma_offset_bounds(m.first, confirmed_tick);
            assert forall|i: int| 0 <= i < m2.snaps.len() implies (#[trigger] m2.snaps[i])@.wf() && m2.snaps[i]@.players.len() == n
                && m2.snaps[i]@.frame == tick_add(m2.first, i) by {
                if off <= m.snaps.len() {
                    assert(m2.snaps[i] == m.snaps[i + off]);
                    lemma_tick_add_add(m.first, off, i);
                }
            }
        }
    }

    /// Tears the match down: snapshots and events not yet presented are
    /// dropped without reaching the presentation layer.
    pub fn teardown(&mut self)
        requires
            old(self).wf(),
        ensures
            final(self).wf(),
            final(self).store@.snaps.len() == 0,
            final(self).pending.0@.len() == 0,
            final(self).cache@.len() == 0,
    {
        self.store.clear();
        self.pending.0.clear();
        self.cache.clear();
    }
}

} // verus!
