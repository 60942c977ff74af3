//! Per-tick snapshots of the simulation state, kept for a bounded horizon so
//! that a misprediction can be rolled back. Ticks are 32-bit counters that
//! wrap; the store always holds one contiguous run of ticks.
use vstd::prelude::*;

verus! {

/// Why a snapshot operation could not be done.
#[derive(Clone, Copy, PartialEq, Eq, Structural, Debug)]
pub enum SnapshotError {
    /// The tick is not (or no longer) retained.
    NotFound,
    /// Saving this tick would leave a gap in the retained run.
    NotContiguous,
}

/// The number of ticks from `first` forward to `tick`, counting modulo 2^32.
pub open spec fn tick_offset(first: u32, tick: u32) -> int {
    if tick >= first {
        tick - first
    } else {
        tick + 0x1_0000_0000 - first
    }
}

/// `first` advanced by `n` ticks, wrapping.
pub open spec fn tick_add(first: u32, n: int) -> u32 {
    ((first + n) % 0x1_0000_0000) as u32
}

/// The abstract store: snapshot `snaps[i]` belongs to tick `first + i`.
pub struct StoreModel<S> {
    pub first: u32,
    pub snaps: Seq<S>,
    pub capacity: nat,
}

impl<S> StoreModel<S> {
    pub open spec fn wf(self) -> bool {
        0 < self.capacity < 0x8000_0000 && self.snaps.len() <= self.capacity
    }

    /// The snapshot of `tick`, if it is retained.
    pub open spec fn lookup(self, tick: u32) -> Option<S> {
        if tick_offset(self.first, tick) < self.snaps.len() {
            Some(self.snaps[tick_offset(self.first, tick)])
        } else {
            None
        }
    }

    /// The store after saving `s` for `tick`, or `None` where that would
    /// leave a gap. An empty store starts its run at `tick`; a retained tick is
    /// overwritten; the tick after the newest is appended, dropping the oldest
    /// when the horizon is full.
    pub open spec fn saved(self, tick: u32, s: S) -> Option<StoreModel<S>> {
        let off = tick_offset(self.first, tick);
        if self.snaps.len() == 0 {
            Some(StoreModel { first: tick, snaps: seq![s], capacity: self.capacity })
        } else if off < self.snaps.len() {
            Some(StoreModel { snaps: self.snaps.update(off, s), ..self })
        } else if off == self.snaps.len() {
            if self.snaps.len() < self.capacity {
                Some(StoreModel { snaps: self.snaps.push(s), ..self })
            } else {
                Some(StoreModel { first: tick_add(self.first, 1), snaps: self.snaps.push(s).drop_first(), ..self })
            }
        } else {
            None
        }
    }

    /// The store after discarding every tick strictly before `confirmed`. A
    /// `confirmed` up to half the tick range ahead of the oldest retained tick
    /// counts as later than it: the run then starts at `confirmed` (and is
    /// empty when `confirmed` lies past the newest tick). A `confirmed`
    /// further ahead counts as behind the run, which is already pruned past it,
    /// so the store is unchanged.
    pub open spec fn pruned(self, confirmed: u32) -> StoreModel<S> {
        let off = tick_offset(self.first, confirmed);
        if off <= self.snaps.len() {
            StoreModel { first: confirmed, snaps: self.snaps.skip(off), ..self }
        } else if off < 0x8000_0000 {
            StoreModel { first: confirmed, snaps: Seq::empty(), ..self }
        } else {
            self
        }
    }
}

/// Snapshots of consecutive ticks, at most `capacity` of them.
pub struct SnapshotStore<S> {
    first: u32,
    snaps: Vec<S>,
    capacity: usize,
}

impl<S> View for SnapshotStore<S> {
    type V = StoreModel<S>;

    closed spec fn view(&self) -> StoreModel<S> {
        StoreModel { first: self.first, snaps: self.snaps@, capacity: self.capacity as nat }
    }
}

pub proof fn lemma_offset_bounds(first: u32, tick: u32)
    ensures
        0 <= tick_offset(first, tick) < 0x1_0000_0000,
        tick_add(first, tick_offset(first, tick)) == tick,
{
}

/// Advancing `m` ticks and then `n` more is advancing `m + n`.
pub proof fn lemma_tick_add_add(a: u32, m: int, n: int)
    requires
        0 <= m,
        0 <= n,
    ensures
        tick_add(tick_add(a, m), n) == tick_add(a, m + n),
{
    vstd::arithmetic::div_mod::lemma_add_mod_noop_right(n, a + m, 0x1_0000_0000);
    assert(tick_add(a, m) as int == (a + m) % 0x1_0000_0000);
    assert((n + (a + m)) == (a + (m + n)));
}

/// `k` ticks after `first` lies `k` ticks after `first`.
pub proof fn lemma_offset_of_add(first: u32, k: int)
    requires
        0 <= k < 0x1_0000_0000,
    ensures
        tick_offset(first, tick_add(first, k)) == k,
{
    if first + k < 0x1_0000_0000 {
        vstd::arithmetic::div_mod::lemma_small_mod((first + k) as nat, 0x1_0000_0000);
    } else {
        vstd::arithmetic::div_mod::lemma_small_mod((first + k - 0x1_0000_0000) as nat, 0x1_0000_0000);
        vstd::arithmetic::div_mod::lemma_mod_sub_multiples_vanish(first + k, 0x1_0000_0000);
    }
}

impl<S> SnapshotStore<S> {
    /// An empty store that retains up to `capacity` ticks.
    pub fn new(capacity: usize) -> (r: SnapshotStore<S>)
        requires
            0 < capacity < 0x8000_0000,
        ensures
            r@.wf(),
            r@.snaps.len() == 0,
            r@.capacity == capacity,
    {
        SnapshotStore { first: 0, snaps: Vec::new(), capacity }
    }

    pub fn len(&self) -> (r: usize)
        ensures
            r == self@.snaps.len(),
    {
        self.snaps.len()
    }

    /// The oldest retained tick (meaningful when the store is not empty).
    pub fn oldest(&self) -> (r: u32)
        ensures
            r == self@.first,
    {
        self.first
    }

    /// Saves `state` as the snapshot of `tick`, overwriting any snapshot that
    /// tick already has.
    pub fn save(&mut self, tick: u32, state: S) -> (r: Result<(), SnapshotError>)
        requires
            old(self)@.wf(),
        ensures
            final(self)@.wf(),
            match old(self)@.saved(tick, state) {
                Some(m) => r == Ok::<(), SnapshotError>(()) && final(self)@ == m,
                None => r == Err::<(), SnapshotError>(SnapshotError::NotContiguous) && final(self)@ == old(self)@,
            },
    {
        if self.snaps.len() == 0 {
            self.first = tick;
            self.snaps.push(state);
            proof {
                assert(self.snaps@ =~= seq![state]);
            }
            return Ok(());
        }
        let off = tick.wrapping_sub(self.first) as usize;
        assert(off as int == tick_offset(old(self)@.first, tick));
        if off < self.snaps.len() {
            self.snaps.set(off, state);
            Ok(())
        } else if off == self.snaps.len() {
            self.snaps.push(state);
            if self.snaps.len() > self.capacity {
                self.snaps.remove(0);
                self.first = self.first.wrapping_add(1);
                proof {
                    assert(self.snaps@ =~= old(self)@.snaps.push(state).drop_first());
                }
            }
            Ok(())
        } else {
            Err(SnapshotError::NotContiguous)
        }
    }

    /// The snapshot of exactly `tick`; `NotFound` when it is not retained.
    pub fn load(&self, tick: u32) -> (r: Result<&S, SnapshotError>)
        ensures
            match self@.lookup(tick) {
                Some(s) => r matches Ok(x) && *x == s,
                None => r matches Err(e) && e == SnapshotError::NotFound,
            },
    {
        let off = tick.wrapping_sub(self.first) as usize;
        assert(off as int == tick_offset(self@.first, tick));
        if off < self.snaps.len() {
            Ok(&self.snaps[off])
        } else {
            Err(SnapshotError::NotFound)
        }
    }

    /// Discards every snapshot of a tick strictly before `confirmed_tick`.
    pub fn prune(&mut self, confirmed_tick: u32)
        requires
            old(self)@.wf(),
        ensures
            final(self)@.wf(),
            final(self)@ == old(self)@.pruned(confirmed_tick),
    {
        let off = confirmed_tick.wrapping_sub(self.first) as usize;
        assert(off as int == tick_offset(old(self)@.first, confirmed_tick));
        if off <= self.snaps.len() {
            let tail = self.snaps.split_off(off);
            self.snaps = tail;
            self.first = confirmed_tick;
            proof {
                assert(self.snaps@ =~= old(self)@.snaps.skip(off as int));
            }
        } else if off < 0x8000_0000 {
            self.snaps.clear();
            self.first = confirmed_tick;
        }
    }

    /// Discards every snapshot (a torn-down session).
    pub fn clear(&mut self)
        requires
            old(self)@.wf(),
        ensures
            final(self)@.wf(),
            final(self)@.snaps.len() == 0,
            final(self)@.capacity == old(self)@.capacity,
    {
        self.snaps.clear();
    }
}

/// A save is accepted exactly when the store is empty or the tick lies
/// within the run or just after it.
pub proof fn lemma_save_accepted<S>(m: StoreModel<S>, tick: u32, s: S)
    requires
        m.wf(),
    ensures
        m.saved(tick, s) is Some <==> (m.snaps.len() == 0 || tick_offset(m.first, tick) <= m.snaps.len()),
{
}

/// Round trip: on a store that accepts a save of `tick` (an empty store, or
/// a tick within the run or just after it), saving `s` and then loading `tick`
/// gives back `s`.
pub proof fn lemma_save_load_round_trip<S>(m: StoreModel<S>, tick: u32, s: S)
    requires
        m.wf(),
        m.snaps.len() == 0 || tick_offset(m.first, tick) <= m.snaps.len(),
    ensures
        m.saved(tick, s) is Some,
        m.saved(tick, s)->Some_0.lookup(tick) == Some(s),
{
    lemma_save_then_load(m, tick, s);
}

/// Saving `s` for `tick` and then loading `tick` gives back `s`.
pub proof fn lemma_save_then_load<S>(m: StoreModel<S>, tick: u32, s: S)
    requires
        m.wf(),
        m.saved(tick, s) is Some,
    ensures
        m.saved(tick, s)->Some_0.wf(),
        m.saved(tick, s)->Some_0.lookup(tick) == Some(s),
{
}

/// Saving a tick leaves the snapshot of every other retained tick as it was,
/// except the oldest one when a full store drops it to make room.
pub proof fn lemma_save_keeps_others<S>(m: StoreModel<S>, tick: u32, s: S, other: u32)
    requires
        m.wf(),
        m.saved(tick, s) is Some,
        m.snaps.len() > 0,
        other != tick,
        m.lookup(other) is Some,
        m.snaps.len() < m.capacity || other != m.first,
    ensures
        m.saved(tick, s)->Some_0.lookup(other) == m.lookup(other),
{
}

/// Once the store is pruned at `confirmed`, no tick from the oldest retained
/// one up to (but not including) `confirmed` is found, wherever `confirmed`
/// lies ahead of the run.
pub proof fn lemma_pruned_not_found<S>(m: StoreModel<S>, confirmed: u32, tick: u32)
    requires
        m.wf(),
        tick_offset(m.first, confirmed) < 0x8000_0000,
        tick_offset(m.first, tick) < tick_offset(m.first, confirmed),
    ensures
        m.pruned(confirmed).wf(),
        m.pruned(confirmed).lookup(tick) is None,
{
}

/// Pruning keeps the snapshot of every tick from `confirmed` on.
pub proof fn lemma_pruned_keeps<S>(m: StoreModel<S>, confirmed: u32, tick: u32)
    requires
        m.wf(),
        tick_offset(m.first, confirmed) <= tick_offset(m.first, tick),
    ensures
        m.pruned(confirmed).lookup(tick) == m.lookup(tick),
{
}

} // verus!
