//! Rollback-safe presentation events: a pending list filled by the step
//! functions, and a cache of fingerprints that keeps re-simulated ticks from
//! presenting the same occurrence twice.
use vstd::prelude::*;

verus! {

/// What happened in the simulation, as seen by the presentation layer.
#[derive(Clone, Copy, PartialEq, Eq, Structural, Debug)]
pub enum FvzEvent {
    EnemyFall,
    PlayerHit,
    PlayerHitBullet,
    Lost,
    Pew,
    Revive,
}

/// The sound that the presentation layer plays for an event.
#[derive(Clone, Copy, PartialEq, Eq, Structural, Debug)]
pub enum AudioEvent {
    EnemyFall,
    PlayerHit,
    PlayerHitBullet,
    Lost,
    Pew,
    Revive,
}

pub open spec fn audio_of(kind: FvzEvent) -> AudioEvent {
    match kind {
        FvzEvent::EnemyFall => AudioEvent::EnemyFall,
        FvzEvent::PlayerHit => AudioEvent::PlayerHit,
        FvzEvent::PlayerHitBullet => AudioEvent::PlayerHitBullet,
        FvzEvent::Lost => AudioEvent::Lost,
        FvzEvent::Pew => AudioEvent::Pew,
        FvzEvent::Revive => AudioEvent::Revive,
    }
}

/// The sound to play for a dispatched event.
pub fn audio_event(kind: FvzEvent) -> (r: AudioEvent)
    ensures
        r == audio_of(kind),
{
    match kind {
        FvzEvent::EnemyFall => AudioEvent::EnemyFall,
        FvzEvent::PlayerHit => AudioEvent::PlayerHit,
        FvzEvent::PlayerHitBullet => AudioEvent::PlayerHitBullet,
        FvzEvent::Lost => AudioEvent::Lost,
        FvzEvent::Pew => AudioEvent::Pew,
        FvzEvent::Revive => AudioEvent::Revive,
    }
}

/// An event raised inside a tick. `id` is its fingerprint, computed from
/// stable entity identifiers only; `real_age` counts the drain passes that an
/// entry of the cache has lived through.
#[derive(Clone, Copy, PartialEq, Eq, Structural, Debug)]
pub struct SafeEvent {
    pub real_age: u32,
    pub id: u32,
    pub event: FvzEvent,
}

impl SafeEvent {
    pub fn new(event: FvzEvent, id: u32) -> (r: SafeEvent)
        ensures
            r == (SafeEvent { real_age: 0, id, event }),
    {
        SafeEvent { real_age: 0, id, event }
    }
}

/// Events raised during the current tick, in the order they were raised.
/// Pushing never deduplicates.
pub struct RollbackSafeEvents(pub Vec<SafeEvent>);

impl RollbackSafeEvents {
    pub fn new() -> (r: RollbackSafeEvents)
        ensures
            r.0@ == Seq::<SafeEvent>::empty(),
    {
        RollbackSafeEvents(Vec::new())
    }

    pub fn push(&mut self, event: SafeEvent)
        ensures
            final(self).0@ == old(self).0@.push(event),
    {
        self.0.push(event);
    }
}

/// The number of drain passes a fingerprint is remembered by default.
pub const DEFAULT_DEDUP_HORIZON: u32 = 60;

/// Whether events raised during a speculative pass (one that a later rollback
/// may redo) reach the presentation sink.
#[derive(Clone, Copy, PartialEq, Eq, Structural, Debug)]
pub enum DispatchPolicy {
    /// Every pass drains and dispatches; only the cache suppresses repeats.
    EveryPass,
    /// Speculative passes drop their events; only confirmed ticks dispatch.
    ConfirmedOnly,
}

/// Fingerprints seen recently, each with its age in drain passes.
pub struct SafeEventsCache {
    entries: Vec<SafeEvent>,
    horizon: u32,
}

/// The cache holds an entry with fingerprint `id`.
pub open spec fn cache_holds(c: Seq<SafeEvent>, id: u32) -> bool {
    exists|i: int| 0 <= i < c.len() && #[trigger] c[i].id == id
}

/// Entries have distinct fingerprints and ages below the horizon.
pub open spec fn cache_wf(c: Seq<SafeEvent>, horizon: u32) -> bool {
    &&& horizon > 0
    &&& forall|i: int| 0 <= i < c.len() ==> #[trigger] c[i].real_age < horizon
    &&& forall|i: int, j: int| 0 <= i < c.len() && 0 <= j < c.len() && i != j ==> #[trigger] c[i].id != #[trigger] c[j].id
}

/// The first half of a drain pass: walk the pending events in order; an event
/// whose fingerprint the cache holds is discarded, any other is dispatched and
/// enters the cache at age 0. Gives the new cache and the dispatched events.
pub open spec fn screen_pending(c: Seq<SafeEvent>, pending: Seq<SafeEvent>) -> (Seq<SafeEvent>, Seq<SafeEvent>)
    decreases pending.len(),
{
    if pending.len() == 0 {
        (c, Seq::empty())
    } else {
        let (c1, d1) = screen_pending(c, pending.drop_last());
        let e = pending.last();
        if cache_holds(c1, e.id) {
            (c1, d1)
        } else {
            (c1.push(SafeEvent { real_age: 0, id: e.id, event: e.event }), d1.push(e))
        }
    }
}

/// The second half of a drain pass: every entry ages by one, and those whose
/// age reaches the horizon are evicted.
pub open spec fn aged(c: Seq<SafeEvent>, horizon: u32) -> Seq<SafeEvent>
    decreases c.len(),
{
    if c.len() == 0 {
        c
    } else {
        let rest = aged(c.drop_last(), horizon);
        let e = c.last();
        if e.real_age + 1 < horizon {
            rest.push(SafeEvent { real_age: (e.real_age + 1) as u32, id: e.id, event: e.event })
        } else {
            rest
        }
    }
}

/// One drain pass: the cache after it, and the events dispatched, in order.
pub open spec fn drain_pass(c: Seq<SafeEvent>, pending: Seq<SafeEvent>, horizon: u32) -> (Seq<SafeEvent>, Seq<SafeEvent>) {
    let (c1, d) = screen_pending(c, pending);
    (aged(c1, horizon), d)
}

impl View for SafeEventsCache {
    type V = Seq<SafeEvent>;

    closed spec fn view(&self) -> Seq<SafeEvent> {
        self.entries@
    }
}

impl SafeEventsCache {
    pub closed spec fn horizon_spec(&self) -> u32 {
        self.horizon
    }

    pub open spec fn wf(&self) -> bool {
        cache_wf(self@, self.horizon_spec())
    }

    /// An empty cache that remembers fingerprints for `horizon` passes.
    pub fn new(horizon: u32) -> (r: SafeEventsCache)
        requires
            horizon > 0,
        ensures
            r.wf(),
            r@ == Seq::<SafeEvent>::empty(),
            r.horizon_spec() == horizon,
    {
        SafeEventsCache { entries: Vec::new(), horizon }
    }

    pub fn horizon(&self) -> (r: u32)
        ensures
            r == self.horizon_spec(),
    {
        self.horizon
    }

    pub fn len(&self) -> (r: usize)
        ensures
            r == self@.len(),
    {
        self.entries.len()
    }

    /// Whether an entry with fingerprint `id` is held.
    pub fn contains(&self, id: u32) -> (r: bool)
        ensures
            r == cache_holds(self@, id),
    {
        let mut i: usize = 0;
        while i < self.entries.len()
            invariant
                0 <= i <= self.entries@.len(),
                forall|j: int| 0 <= j < i ==> self.entries@[j].id != id,
            decreases self.entries@.len() - i,
        {
            if self.entries[i].id == id {
                return true;
            }
            i = i + 1;
        }
        false
    }

    /// Drops every entry (a torn-down session).
    pub fn clear(&mut self)
        ensures
            final(self)@ == Seq::<SafeEvent>::empty(),
            final(self).horizon_spec() == old(self).horizon_spec(),
    {
        self.entries.clear();
    }
}

impl Default for SafeEventsCache {
    fn default() -> (r: SafeEventsCache)
        ensures
            r.wf(),
            r@ == Seq::<SafeEvent>::empty(),
            r.horizon_spec() == DEFAULT_DEDUP_HORIZON,
    {
        SafeEventsCache::new(DEFAULT_DEDUP_HORIZON)
    }
}

proof fn lemma_screen_wf(c: Seq<SafeEvent>, pending: Seq<SafeEvent>, horizon: u32)
    requires
        cache_wf(c, horizon),
    ensures
        cache_wf(screen_pending(c, pending).0, horizon),
    decreases pending.len(),
{
    if pending.len() > 0 {
        lemma_screen_wf(c, pending.drop_last(), horizon);
        let c1 = screen_pending(c, pending.drop_last()).0;
        let e = pending.last();
        if !cache_holds(c1, e.id) {
            let c2 = c1.push(SafeEvent { real_age: 0, id: e.id, event: e.event });
            assert forall|i: int, j: int| 0 <= i < c2.len() && 0 <= j < c2.len() && i != j implies #[trigger] c2[i].id != #[trigger] c2[j].id by {
                if i < c1.len() && j < c1.len() {
                    assert(c2[i] == c1[i] && c2[j] == c1[j]);
                } else if i < c1.len() {
                    assert(c2[i] == c1[i]);
                } else {
                    assert(c2[j] == c1[j]);
                }
            }
        }
    }
}

/// Every entry of the aged cache carries a fingerprint of the original and an
/// age below the horizon.
proof fn lemma_aged_ids(c: Seq<SafeEvent>, horizon: u32)
    ensures
        forall|k: int| 0 <= k < aged(c, horizon).len() ==> cache_holds(c, #[trigger] aged(c, horizon)[k].id)
            && aged(c, horizon)[k].real_age < horizon,
    decreases c.len(),
{
    if c.len() > 0 {
        let p = c.drop_last();
        lemma_aged_ids(p, horizon);
        let rest = aged(p, horizon);
        let a = aged(c, horizon);
        assert forall|k: int| 0 <= k < a.len() implies cache_holds(c, #[trigger] a[k].id) && a[k].real_age < horizon by {
            if k < rest.len() {
                assert(a[k] == rest[k]);
                assert(cache_holds(p, rest[k].id));
                let m = choose|m: int| 0 <= m < p.len() && #[trigger] p[m].id == rest[k].id;
                assert(c[m] == p[m]);
            } else {
                assert(c[c.len() - 1] == c.last());
            }
        }
    }
}

proof fn lemma_aged_wf(c: Seq<SafeEvent>, horizon: u32)
    requires
        cache_wf(c, horizon),
    ensures
        cache_wf(aged(c, horizon), horizon),
    decreases c.len(),
{
    if c.len() > 0 {
        let p = c.drop_last();
        assert(cache_wf(p, horizon)) by {
            assert forall|i: int, j: int| 0 <= i < p.len() && 0 <= j < p.len() && i != j implies #[trigger] p[i].id != #[trigger] p[j].id by {
                assert(p[i] == c[i] && p[j] == c[j]);
            }
            assert forall|i: int| 0 <= i < p.len() implies #[trigger] p[i].real_age < horizon by {
                assert(p[i] == c[i]);
            }
        }
        lemma_aged_wf(p, horizon);
        lemma_aged_ids(p, horizon);
        let rest = aged(p, horizon);
        let a = aged(c, horizon);
        let e = c.last();
        if e.real_age + 1 < horizon {
            assert forall|k: int| 0 <= k < rest.len() implies #[trigger] rest[k].id != e.id by {
                assert(cache_holds(p, rest[k].id));
                let m = choose|m: int| 0 <= m < p.len() && #[trigger] p[m].id == rest[k].id;
                assert(c[m] == p[m]);
                assert(c[c.len() - 1] == e);
            }
            assert forall|i: int, j: int| 0 <= i < a.len() && 0 <= j < a.len() && i != j implies #[trigger] a[i].id != #[trigger] a[j].id by {
                if i < rest.len() && j < rest.len() {
                    assert(a[i] == rest[i] && a[j] == rest[j]);
                } else if i < rest.len() {
                    assert(a[i] == rest[i]);
                } else {
                    assert(a[j] == rest[j]);
                }
            }
        }
    }
}

/// Every entry of the aged cache comes from an entry of the original with the
/// same fingerprint and one pass younger, and every entry young enough survives.
proof fn lemma_aged_entries(c: Seq<SafeEvent>, horizon: u32)
    ensures
        forall|k: int| 0 <= k < aged(c, horizon).len() ==> exists|i: int| 0 <= i < c.len()
            && (#[trigger] aged(c, horizon)[k]) == (SafeEvent { real_age: (c[i].real_age + 1) as u32, id: c[i].id, event: c[i].event })
            && c[i].real_age + 1 < horizon,
        forall|i: int| 0 <= i < c.len() && #[trigger] c[i].real_age + 1 < horizon ==> exists|k: int| 0 <= k < aged(c, horizon).len()
            && aged(c, horizon)[k] == (SafeEvent { real_age: (c[i].real_age + 1) as u32, id: c[i].id, event: c[i].event }),
    decreases c.len(),
{
    if c.len() > 0 {
        let p = c.drop_last();
        lemma_aged_entries(p, horizon);
        let rest = aged(p, horizon);
        let a = aged(c, horizon);
        assert forall|k: int| 0 <= k < a.len() implies exists|i: int| 0 <= i < c.len()
            && (#[trigger] a[k]) == (SafeEvent { real_age: (c[i].real_age + 1) as u32, id: c[i].id, event: c[i].event })
            && c[i].real_age + 1 < horizon by {
            if k < rest.len() {
                assert(a[k] == rest[k]);
                let i = choose|i: int| 0 <= i < p.len()
                    && (#[trigger] rest[k]) == (SafeEvent { real_age: (p[i].real_age + 1) as u32, id: p[i].id, event: p[i].event })
                    && p[i].real_age + 1 < horizon;
                assert(c[i] == p[i]);
            } else {
                assert(c[c.len() - 1] == c.last());
            }
        }
        assert forall|i: int| 0 <= i < c.len() && #[trigger] c[i].real_age + 1 < horizon implies exists|k: int| 0 <= k < a.len()
            && a[k] == (SafeEvent { real_age: (c[i].real_age + 1) as u32, id: c[i].id, event: c[i].event }) by {
            if i < p.len() {
                assert(c[i] == p[i]);
                assert(p[i].real_age + 1 < horizon);
                let k = choose|k: int| 0 <= k < rest.len()
                    && rest[k] == (SafeEvent { real_age: (p[i].real_age + 1) as u32, id: p[i].id, event: p[i].event });
                assert(a[k] == rest[k]);
            } else {
                assert(a[a.len() - 1] == a.last());
            }
        }
    }
}

/// Screening only appends to the cache, and each dispatched event has a
/// fingerprint that the cache did not hold before.
proof fn lemma_screen_extends(c: Seq<SafeEvent>, pending: Seq<SafeEvent>)
    ensures
        screen_pending(c, pending).0.len() >= c.len(),
        screen_pending(c, pending).0.take(c.len() as int) == c,
        forall|k: int| 0 <= k < screen_pending(c, pending).1.len() ==> !cache_holds(c, #[trigger] screen_pending(c, pending).1[k].id),
        forall|i: int| 0 <= i < pending.len() ==> cache_holds(screen_pending(c, pending).0, #[trigger] pending[i].id),
    decreases pending.len(),
{
    if pending.len() == 0 {
        assert(c.take(c.len() as int) =~= c);
    } else {
        let q = pending.drop_last();
        lemma_screen_extends(c, q);
        let (c1, d1) = screen_pending(c, q);
        let e = pending.last();
        if !cache_holds(c1, e.id) {
            let c2 = c1.push(SafeEvent { real_age: 0, id: e.id, event: e.event });
            assert(c2.take(c.len() as int) =~= c1.take(c.len() as int));
            assert(!cache_holds(c, e.id)) by {
                if cache_holds(c, e.id) {
                    let m = choose|m: int| 0 <= m < c.len() && #[trigger] c[m].id == e.id;
                    assert(c1.take(c.len() as int)[m] == c1[m]);
                }
            }
            assert forall|i: int| 0 <= i < pending.len() implies cache_holds(c2, #[trigger] pending[i].id) by {
                if i < q.len() {
                    assert(pending[i] == q[i]);
                    let m = choose|m: int| 0 <= m < c1.len() && #[trigger] c1[m].id == q[i].id;
                    assert(c2[m] == c1[m]);
                } else {
                    assert(c2[c1.len() as int].id == e.id);
                }
            }
        } else {
            assert forall|i: int| 0 <= i < pending.len() implies cache_holds(c1, #[trigger] pending[i].id) by {
                if i < q.len() {
                    assert(pending[i] == q[i]);
                }
            }
        }
    }
}

/// A pass that finds the fingerprint of entry `i` in the cache does not
/// present it again, whatever is pending; the entry ages by one, and is gone
/// once its age reaches the horizon.
#[verifier::rlimit(40)]
pub proof fn lemma_held_fingerprint_suppressed(c: Seq<SafeEvent>, pending: Seq<SafeEvent>, horizon: u32, i: int)
    requires
        cache_wf(c, horizon),
        0 <= i < c.len(),
    ensures
        forall|k: int| 0 <= k < drain_pass(c, pending, horizon).1.len() ==> (#[trigger] drain_pass(c, pending, horizon).1[k]).id != c[i].id,
        c[i].real_age + 1 < horizon ==> exists|k: int| 0 <= k < drain_pass(c, pending, horizon).0.len()
            && (#[trigger] drain_pass(c, pending, horizon).0[k]).id == c[i].id
            && drain_pass(c, pending, horizon).0[k].real_age == c[i].real_age + 1,
        c[i].real_age + 1 >= horizon ==> !cache_holds(drain_pass(c, pending, horizon).0, c[i].id),
{
    let c1 = screen_pending(c, pending).0;
    let d = screen_pending(c, pending).1;
    assert(drain_pass(c, pending, horizon) == (aged(c1, horizon), d));
    lemma_screen_extends(c, pending);
    lemma_screen_wf(c, pending, horizon);
    lemma_aged_entries(c1, horizon);
    assert(c1[i] == c1.take(c.len() as int)[i]);
    assert forall|k: int| 0 <= k < d.len() implies (#[trigger] d[k]).id != c[i].id by {
        assert(!cache_holds(c, d[k].id));
        if d[k].id == c[i].id {
            assert(c[i].id == d[k].id);
            assert(cache_holds(c, d[k].id));
        }
    }
    let a = aged(c1, horizon);
    if c[i].real_age + 1 < horizon {
        assert(c1[i].real_age + 1 < horizon);
        let k = choose|k: int| 0 <= k < a.len()
            && a[k] == (SafeEvent { real_age: (c1[i].real_age + 1) as u32, id: c1[i].id, event: c1[i].event });
        assert(a[k].id == c[i].id && a[k].real_age == c[i].real_age + 1);
        assert(drain_pass(c, pending, horizon).0[k] == a[k]);
    } else {
        if cache_holds(a, c[i].id) {
            let k = choose|k: int| 0 <= k < a.len() && #[trigger] a[k].id == c[i].id;
            let m = choose|m: int| 0 <= m < c1.len()
                && (#[trigger] a[k]) == (SafeEvent { real_age: (c1[m].real_age + 1) as u32, id: c1[m].id, event: c1[m].event })
                && c1[m].real_age + 1 < horizon;
            assert(m == i);
        }
    }
}

/// A pass that finds fingerprint `f` pending but not in the cache presents it
/// exactly once, and remembers it at age one (when the horizon exceeds one).
#[verifier::rlimit(40)]
pub proof fn lemma_fresh_fingerprint_dispatched(c: Seq<SafeEvent>, pending: Seq<SafeEvent>, horizon: u32, f: u32)
    requires
        cache_wf(c, horizon),
        !cache_holds(c, f),
        exists|j: int| 0 <= j < pending.len() && (#[trigger] pending[j]).id == f,
    ensures
        exists|k: int| 0 <= k < drain_pass(c, pending, horizon).1.len() && (#[trigger] drain_pass(c, pending, horizon).1[k]).id == f,
        forall|k1: int, k2: int| 0 <= k1 < drain_pass(c, pending, horizon).1.len() && 0 <= k2 < drain_pass(c, pending, horizon).1.len()
            && (#[trigger] drain_pass(c, pending, horizon).1[k1]).id == f && (#[trigger] drain_pass(c, pending, horizon).1[k2]).id == f ==> k1 == k2,
        1 < horizon ==> exists|k: int| 0 <= k < drain_pass(c, pending, horizon).0.len()
            && (#[trigger] drain_pass(c, pending, horizon).0[k]).id == f && drain_pass(c, pending, horizon).0[k].real_age == 1,
{
    lemma_screen_dispatch_entries(c, pending);
    let c1 = screen_pending(c, pending).0;
    let d = screen_pending(c, pending).1;
    assert(drain_pass(c, pending, horizon) == (aged(c1, horizon), d));
    lemma_screen_extends(c, pending);
    lemma_screen_wf(c, pending, horizon);
    lemma_aged_entries(c1, horizon);
    let j = choose|j: int| 0 <= j < pending.len() && (#[trigger] pending[j]).id == f;
    assert(cache_holds(c1, pending[j].id));
    let m = choose|m: int| 0 <= m < c1.len() && #[trigger] c1[m].id == f;
    if m < c.len() {
        assert(c1.take(c.len() as int)[m] == c1[m]);
        assert(false);
    }
    assert(0 <= m - c.len() < d.len());
    assert(d[m - c.len()].id == c1[m].id);
    assert(d[m - c.len()].id == f);
    assert(c1[m].real_age == 0);
    assert forall|k1: int, k2: int| 0 <= k1 < d.len() && 0 <= k2 < d.len() && (#[trigger] d[k1]).id == f && (#[trigger] d[k2]).id == f implies k1 == k2 by {
        assert(c1[c.len() + k1].id == d[k1].id);
        assert(c1[c.len() + k2].id == d[k2].id);
    }
    if 1 < horizon {
        let a = aged(c1, horizon);
        assert(c1[m].real_age + 1 < horizon);
        let k = choose|k: int| 0 <= k < a.len()
            && a[k] == (SafeEvent { real_age: (c1[m].real_age + 1) as u32, id: c1[m].id, event: c1[m].event });
        assert(a[k].id == f && a[k].real_age == 1);
        assert(drain_pass(c, pending, horizon).0[k] == a[k]);
    }
}

/// The dispatched events are exactly the entries that screening appended, in
/// the same order, each entering at age 0.
proof fn lemma_screen_dispatch_entries(c: Seq<SafeEvent>, pending: Seq<SafeEvent>)
    ensures
        screen_pending(c, pending).0.len() == c.len() + screen_pending(c, pending).1.len(),
        forall|k: int| 0 <= k < screen_pending(c, pending).1.len() ==> screen_pending(c, pending).0[c.len() + k]
            == (SafeEvent { real_age: 0, id: (#[trigger] screen_pending(c, pending).1[k]).id, event: screen_pending(c, pending).1[k].event }),
    decreases pending.len(),
{
    if pending.len() > 0 {
        lemma_screen_dispatch_entries(c, pending.drop_last());
        let (c1, d1) = screen_pending(c, pending.drop_last());
        let e = pending.last();
        if !cache_holds(c1, e.id) {
            let c2 = c1.push(SafeEvent { real_age: 0, id: e.id, event: e.event });
            let d2 = d1.push(e);
            assert forall|k: int| 0 <= k < d2.len() implies c2[c.len() + k]
                == (SafeEvent { real_age: 0, id: (#[trigger] d2[k]).id, event: d2[k].event }) by {
                if k < d1.len() {
                    assert(d2[k] == d1[k]);
                    assert(c2[c.len() + k] == c1[c.len() + k]);
                }
            }
        }
    }
}

/// The cache and the dispatched events of each pass, for passes run one after
/// another from cache `c`.
pub open spec fn drain_passes(c: Seq<SafeEvent>, passes: Seq<Seq<SafeEvent>>, horizon: u32) -> (Seq<SafeEvent>, Seq<Seq<SafeEvent>>)
    decreases passes.len(),
{
    if passes.len() == 0 {
        (c, Seq::empty())
    } else {
        let (c1, ds) = drain_passes(c, passes.drop_last(), horizon);
        let (c2, d) = drain_pass(c1, passes.last(), horizon);
        (c2, ds.push(d))
    }
}

/// The dedup horizon: once fingerprint `f` sits in the cache at age `age`, it
/// is presented by none of the next passes while its age stays below the
/// horizon, whatever those passes have pending (even `f` on every one).
pub proof fn lemma_dedup_horizon(c: Seq<SafeEvent>, passes: Seq<Seq<SafeEvent>>, horizon: u32, f: u32, age: u32)
    requires
        cache_wf(c, horizon),
        exists|i: int| 0 <= i < c.len() && (#[trigger] c[i]).id == f && c[i].real_age == age,
        age + passes.len() <= horizon,
    ensures
        cache_wf(drain_passes(c, passes, horizon).0, horizon),
        drain_passes(c, passes, horizon).1.len() == passes.len(),
        forall|p: int, k: int| 0 <= p < passes.len() && 0 <= k < drain_passes(c, passes, horizon).1[p].len()
            ==> (#[trigger] drain_passes(c, passes, horizon).1[p][k]).id != f,
        age + passes.len() < horizon ==> exists|i: int| 0 <= i < drain_passes(c, passes, horizon).0.len()
            && (#[trigger] drain_passes(c, passes, horizon).0[i]).id == f
            && drain_passes(c, passes, horizon).0[i].real_age == age + passes.len(),
        age + passes.len() == horizon ==> !cache_holds(drain_passes(c, passes, horizon).0, f),
    decreases passes.len(),
{
    if passes.len() > 0 {
        let q = passes.drop_last();
        lemma_dedup_horizon(c, q, horizon, f, age);
        let (c1, ds) = drain_passes(c, q, horizon);
        let i = choose|i: int| 0 <= i < c1.len() && (#[trigger] c1[i]).id == f && c1[i].real_age == age + q.len();
        lemma_held_fingerprint_suppressed(c1, passes.last(), horizon, i);
        let (c1s, _) = screen_pending(c1, passes.last());
        lemma_screen_wf(c1, passes.last(), horizon);
        lemma_aged_wf(c1s, horizon);
        let all = drain_passes(c, passes, horizon).1;
        assert forall|p: int, k: int| 0 <= p < passes.len() && 0 <= k < all[p].len() implies (#[trigger] all[p][k]).id != f by {
            if p < q.len() {
                assert(all[p] == ds[p]);
            }
        }
    }
}

/// A fingerprint presented by one pass is presented by none of the next
/// `horizon - 1` passes, even when it is pending in every one of them.
pub proof fn lemma_dispatched_then_suppressed(c: Seq<SafeEvent>, first: Seq<SafeEvent>, later: Seq<Seq<SafeEvent>>, horizon: u32, f: u32)
    requires
        cache_wf(c, horizon),
        !cache_holds(c, f),
        exists|j: int| 0 <= j < first.len() && (#[trigger] first[j]).id == f,
        1 < horizon,
        later.len() + 1 <= horizon,
    ensures
        exists|k: int| 0 <= k < drain_pass(c, first, horizon).1.len() && (#[trigger] drain_pass(c, first, horizon).1[k]).id == f,
        forall|p: int, k: int| 0 <= p < later.len() && 0 <= k < drain_passes(drain_pass(c, first, horizon).0, later, horizon).1[p].len()
            ==> (#[trigger] drain_passes(drain_pass(c, first, horizon).0, later, horizon).1[p][k]).id != f,
{
    lemma_fresh_fingerprint_dispatched(c, first, horizon, f);
    let c1 = drain_pass(c, first, horizon).0;
    lemma_screen_wf(c, first, horizon);
    lemma_aged_wf(screen_pending(c, first).0, horizon);
    let i = choose|i: int| 0 <= i < c1.len() && (#[trigger] c1[i]).id == f && c1[i].real_age == 1;
    lemma_dedup_horizon(c1, later, horizon, f, 1);
}

/// Drains the pending list into the cache and returns the events to present,
/// in the order they were raised: an event whose fingerprint the cache holds
/// is discarded. Afterwards every entry ages by one pass and those that reach
/// the horizon are evicted.
pub fn propagate(events_cache: &mut SafeEventsCache, rollback_safe_events: &mut RollbackSafeEvents) -> (r: Vec<SafeEvent>)
    requires
        old(events_cache).wf(),
    ensures
        final(events_cache).wf(),
        final(events_cache).horizon_spec() == old(events_cache).horizon_spec(),
        (final(events_cache)@, r@) == drain_pass(old(events_cache)@, old(rollback_safe_events).0@, old(events_cache).horizon_spec()),
        final(rollback_safe_events).0@ == Seq::<SafeEvent>::empty(),
{
    let ghost c0 = events_cache@;
    let ghost p0 = rollback_safe_events.0@;
    let ghost h = events_cache.horizon;
    let mut dispatched: Vec<SafeEvent> = Vec::new();
    let mut i: usize = 0;
    proof {
        assert(p0.take(0) =~= Seq::<SafeEvent>::empty());
    }
    while i < rollback_safe_events.0.len()
        invariant
            0 <= i <= p0.len(),
            rollback_safe_events.0@ == p0,
            events_cache.horizon == h,
            (events_cache@, dispatched@) == screen_pending(c0, p0.take(i as int)),
        decreases p0.len() - i,
    {
        let e = rollback_safe_events.0[i];
        proof {
            assert(p0.take(i + 1).drop_last() =~= p0.take(i as int));
            assert(p0.take(i + 1).last() == e);
        }
        if !events_cache.contains(e.id) {
            events_cache.entries.push(SafeEvent { real_age: 0, id: e.id, event: e.event });
            dispatched.push(e);
        }
        i = i + 1;
    }
    proof {
        assert(p0.take(p0.len() as int) =~= p0);
        lemma_screen_wf(c0, p0, h);
    }
    rollback_safe_events.0.clear();
    let ghost c1 = events_cache@;
    let mut kept: Vec<SafeEvent> = Vec::new();
    let mut j: usize = 0;
    proof {
        assert(c1.take(0) =~= Seq::<SafeEvent>::empty());
    }
    while j < events_cache.entries.len()
        invariant
            0 <= j <= c1.len(),
            events_cache.entries@ == c1,
            events_cache.horizon == h,
            cache_wf(c1, h),
            kept@ == aged(c1.take(j as int), h),
        decreases c1.len() - j,
    {
        let e = events_cache.entries[j];
        proof {
            assert(c1.take(j + 1).drop_last() =~= c1.take(j as int));
            assert(c1.take(j + 1).last() == e);
            assert(e.real_age < h);
        }
        if e.real_age + 1 < events_cache.horizon {
            kept.push(SafeEvent { real_age: e.real_age + 1, id: e.id, event: e.event });
        }
        j = j + 1;
    }
    proof {
        assert(c1.take(c1.len() as int) =~= c1);
        lemma_aged_wf(c1, h);
    }
    events_cache.entries = kept;
    dispatched
}

} // verus!
