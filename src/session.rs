//! Session set-up: the lobby roster, the start message that carries the
//! session seed, the decision to start, and the session's status.
use vstd::prelude::*;
use crate::seeding::{chacha8_draws, name_key, PlayerNames, Seed};
use vstd::string::StringSliceAdditionalSpecFns;

verus! {

/// The first byte of the message that starts a match.
pub const START: u8 = 3;

/// The seed every match of this game uses.
pub const DEFAULT_SEED: [u8; 3] = [3, 4, 5];

/// Input delay, in ticks, of a match played alone.
pub const SINGLE_INPUT_DELAY: usize = 0;

/// Input delay, in ticks, of a match between peers.
pub const MULTI_INPUT_DELAY: usize = 2;

/// Ticks of the pause between the lobby and the match.
pub const INTERLUDE_TICKS: usize = 180;

#[derive(Clone, Copy, PartialEq, Eq, Structural, Debug)]
pub enum GameMode {
    Single,
    /// A match between peers; `true` on the peer that created the room.
    Multi(bool),
}

/// The start message: its first byte and the three seed bytes.
pub fn start_packet(seed: &Seed) -> (r: Vec<u8>)
    ensures
        r@ == seq![START, seed.0@[0], seed.0@[1], seed.0@[2]],
{
    let r: Vec<u8> = vec![START, seed.0[0], seed.0[1], seed.0[2]];
    assert(r@ =~= seq![START, seed.0@[0], seed.0@[1], seed.0@[2]]);
    r
}

/// Byte `i` of a message, or 0 where the message is shorter.
pub open spec fn byte_or_zero(packet: Seq<u8>, i: int) -> u8 {
    if i < packet.len() {
        packet[i]
    } else {
        0
    }
}

/// The seed a start message carries; `None` for any other message. Seed bytes
/// missing from a short message are 0.
pub fn parse_start_packet(packet: &[u8]) -> (r: Option<Seed>)
    ensures
        packet@.len() > 0 && packet@[0] == START ==> (r matches Some(s) && s.0@ == seq![
            byte_or_zero(packet@, 1),
            byte_or_zero(packet@, 2),
            byte_or_zero(packet@, 3),
        ]),
        !(packet@.len() > 0 && packet@[0] == START) ==> r is None,
{
    if packet.len() == 0 || packet[0] != START {
        return None;
    }
    let b1 = if packet.len() > 1 { packet[1] } else { 0 };
    let b2 = if packet.len() > 2 { packet[2] } else { 0 };
    let b3 = if packet.len() > 3 { packet[3] } else { 0 };
    let s = Seed([b1, b2, b3]);
    assert(s.0@ =~= seq![byte_or_zero(packet@, 1), byte_or_zero(packet@, 2), byte_or_zero(packet@, 3)]);
    Some(s)
}

/// The seed of the last start message among `packets`, if any.
pub open spec fn last_start_seed(packets: Seq<Seq<u8>>) -> Option<Seq<u8>>
    decreases packets.len(),
{
    if packets.len() == 0 {
        None
    } else {
        let p = packets.last();
        if p.len() > 0 && p[0] == START {
            Some(seq![byte_or_zero(p, 1), byte_or_zero(p, 2), byte_or_zero(p, 3)])
        } else {
            last_start_seed(packets.drop_last())
        }
    }
}

/// Reads the messages received in the lobby: the seed of the last start
/// message among them, if any.
pub fn handle_packets(packets: &Vec<Vec<u8>>) -> (r: Option<Seed>)
    ensures
        match last_start_seed(packets@.map_values(|p: Vec<u8>| p@)) {
            None => r is None,
            Some(s) => r matches Some(x) && x.0@ == s,
        },
{
    let ghost pv = packets@.map_values(|p: Vec<u8>| p@);
    let mut found: Option<Seed> = None;
    let mut i: usize = 0;
    proof {
        assert(pv.take(0) =~= Seq::<Seq<u8>>::empty());
    }
    while i < packets.len()
        invariant
            0 <= i <= packets@.len(),
            pv == packets@.map_values(|p: Vec<u8>| p@),
            match last_start_seed(pv.take(i as int)) {
                None => found is None,
                Some(s) => found matches Some(x) && x.0@ == s,
            },
        decreases packets@.len() - i,
    {
        proof {
            assert(pv.take(i + 1).drop_last() =~= pv.take(i as int));
            assert(pv.take(i + 1).last() == packets@[i as int]@);
        }
        match parse_start_packet(packets[i].as_slice()) {
            Some(s) => {
                found = Some(s);
            },
            None => {},
        }
        i = i + 1;
    }
    proof {
        assert(pv.take(packets@.len() as int) =~= pv);
    }
    found
}

/// A peer's role in the match, as the transport lists it.
#[derive(Clone, Copy, PartialEq, Eq, Structural, Debug)]
pub enum PlayerKind {
    Local,
    Remote,
}

/// How a match starts.
#[derive(Clone, Copy, Debug)]
pub struct SessionParams {
    pub seed_bytes: [u8; 3],
    pub input_delay: usize,
    /// Whether this peer sends the start message to the others.
    pub broadcast_start: bool,
    pub num_players: usize,
    /// The handle of this peer's player.
    pub local_handle: Option<usize>,
}

#[derive(Clone, Copy, Debug)]
pub enum StartDecision {
    Wait,
    Start(SessionParams),
}

/// The handle of the last local player among `kinds`.
pub open spec fn local_handle_of(kinds: Seq<PlayerKind>) -> Option<usize>
    decreases kinds.len(),
{
    if kinds.len() == 0 {
        None
    } else if kinds.last() == PlayerKind::Local {
        Some((kinds.len() - 1) as usize)
    } else {
        local_handle_of(kinds.drop_last())
    }
}

fn find_local_handle(kinds: &Vec<PlayerKind>) -> (r: Option<usize>)
    ensures
        r == local_handle_of(kinds@),
{
    let mut found: Option<usize> = None;
    let mut i: usize = 0;
    proof {
        assert(kinds@.take(0) =~= Seq::<PlayerKind>::empty());
    }
    while i < kinds.len()
        invariant
            0 <= i <= kinds@.len(),
            found == local_handle_of(kinds@.take(i as int)),
        decreases kinds@.len() - i,
    {
        proof {
            assert(kinds@.take(i + 1).drop_last() =~= kinds@.take(i as int));
        }
        if kinds[i] == PlayerKind::Local {
            found = Some(i);
        }
        i = i + 1;
    }
    proof {
        assert(kinds@.take(kinds@.len() as int) =~= kinds@);
    }
    found
}

/// Whether the lobby starts the match now: a joining peer waits for the start
/// message and adopts its seed; the creating peer waits until its player
/// confirms (or a start message arrives) and then announces the standard seed;
/// a match played alone starts at once with the standard seed and no delay.
pub open spec fn start_decision(mode: GameMode, received: Option<Seed>, confirmed: bool, kinds: Seq<PlayerKind>) -> StartDecision {
    let params = |seed_bytes: [u8; 3], delay: usize, broadcast: bool| SessionParams {
        seed_bytes,
        input_delay: delay,
        broadcast_start: broadcast,
        num_players: kinds.len() as usize,
        local_handle: local_handle_of(kinds),
    };
    match mode {
        GameMode::Multi(false) => match received {
            None => StartDecision::Wait,
            Some(s) => StartDecision::Start(params(s.0, MULTI_INPUT_DELAY, false)),
        },
        GameMode::Multi(true) => if !confirmed && received is None {
            StartDecision::Wait
        } else {
            StartDecision::Start(params(DEFAULT_SEED, MULTI_INPUT_DELAY, true))
        },
        GameMode::Single => StartDecision::Start(params(DEFAULT_SEED, SINGLE_INPUT_DELAY, false)),
    }
}

/// Decides whether the lobby starts the match, and with which parameters.
pub fn build_ggrs_session(mode: GameMode, received: Option<Seed>, confirmed: bool, kinds: &Vec<PlayerKind>) -> (r: StartDecision)
    ensures
        r == start_decision(mode, received, confirmed, kinds@),
{
    let local_handle = find_local_handle(kinds);
    let n = kinds.len();
    match mode {
        GameMode::Multi(false) => match received {
            None => StartDecision::Wait,
            Some(s) => StartDecision::Start(SessionParams {
                seed_bytes: s.0,
                input_delay: MULTI_INPUT_DELAY,
                broadcast_start: false,
                num_players: n,
                local_handle,
            }),
        },
        GameMode::Multi(true) => if !confirmed && received.is_none() {
            StartDecision::Wait
        } else {
            StartDecision::Start(SessionParams {
                seed_bytes: DEFAULT_SEED,
                input_delay: MULTI_INPUT_DELAY,
                broadcast_start: true,
                num_players: n,
                local_handle,
            })
        },
        GameMode::Single => StartDecision::Start(SessionParams {
            seed_bytes: DEFAULT_SEED,
            input_delay: SINGLE_INPUT_DELAY,
            broadcast_start: false,
            num_players: n,
            local_handle,
        }),
    }
}

/// Where a session stands.
#[derive(Clone, Copy, PartialEq, Eq, Structural, Debug)]
pub enum SessionStatus {
    Connecting,
    Synchronizing,
    Running,
    Ended,
}

/// What happens to a session.
#[derive(Clone, Copy, Debug)]
pub enum SessionEvent {
    /// The transport assigned this peer its identity.
    Connected,
    /// One tick passed while waiting for the peers to agree.
    SyncTick,
    /// The peers agreed; the match starts with these parameters.
    Started(SessionParams),
    /// A peer left or a fatal error occurred.
    TornDown,
}

#[derive(Clone, Copy, PartialEq, Eq, Structural, Debug)]
pub enum SessionError {
    /// The peers did not agree on a seed and start within the allowed time.
    SyncFailure,
}

#[derive(Clone, Copy, Debug)]
pub struct Session {
    pub status: SessionStatus,
    pub num_players: usize,
    pub input_delay: usize,
    pub local_handle: Option<usize>,
    pub seed_bytes: [u8; 3],
    /// Ticks spent synchronizing so far.
    pub waited: u32,
    /// Ticks allowed for synchronizing.
    pub sync_limit: u32,
}

impl Session {
    pub fn new(sync_limit: u32) -> (r: Session)
        ensures
            r.status == SessionStatus::Connecting,
            r.waited == 0,
            r.sync_limit == sync_limit,
            r.num_players == 0,
    {
        Session {
            status: SessionStatus::Connecting,
            num_players: 0,
            input_delay: 0,
            local_handle: None,
            seed_bytes: DEFAULT_SEED,
            waited: 0,
            sync_limit,
        }
    }

    /// The session after an event, and whether the event was fatal. Status
    /// only moves forward: a connected peer synchronizes; synchronizing ends in
    /// a running match or, once the allowed time has passed, in a sync failure;
    /// a torn-down session has ended; everything else leaves it as it is.
    pub open spec fn next(self, ev: SessionEvent) -> (Session, Result<(), SessionError>) {
        match (self.status, ev) {
            (_, SessionEvent::TornDown) => (Session { status: SessionStatus::Ended, ..self }, Ok(())),
            (SessionStatus::Connecting, SessionEvent::Connected) => (Session { status: SessionStatus::Synchronizing, ..self }, Ok(())),
            (SessionStatus::Synchronizing, SessionEvent::SyncTick) => if self.waited as int + 1 >= self.sync_limit {
                (Session { status: SessionStatus::Ended, waited: self.sync_limit, ..self }, Err(SessionError::SyncFailure))
            } else {
                (Session { waited: (self.waited + 1) as u32, ..self }, Ok(()))
            },
            (SessionStatus::Synchronizing, SessionEvent::Started(p)) => (
                Session {
                    status: SessionStatus::Running,
                    num_players: p.num_players,
                    input_delay: p.input_delay,
                    local_handle: p.local_handle,
                    seed_bytes: p.seed_bytes,
                    ..self
                },
                Ok(()),
            ),
            _ => (self, Ok(())),
        }
    }

    pub fn on_event(&mut self, ev: SessionEvent) -> (r: Result<(), SessionError>)
        ensures
            (*final(self), r) == old(self).next(ev),
    {
        match ev {
            SessionEvent::TornDown => {
                self.status = SessionStatus::Ended;
                Ok(())
            },
            SessionEvent::Connected => {
                if self.status == SessionStatus::Connecting {
                    self.status = SessionStatus::Synchronizing;
                }
                Ok(())
            },
            SessionEvent::SyncTick => {
                if self.status == SessionStatus::Synchronizing {
                    if self.waited as u64 + 1 >= self.sync_limit as u64 {
                        self.status = SessionStatus::Ended;
                        self.waited = self.sync_limit;
                        return Err(SessionError::SyncFailure);
                    }
                    self.waited = self.waited + 1;
                }
                Ok(())
            },
            SessionEvent::Started(p) => {
                if self.status == SessionStatus::Synchronizing {
                    self.status = SessionStatus::Running;
                    self.num_players = p.num_players;
                    self.input_delay = p.input_delay;
                    self.local_handle = p.local_handle;
                    self.seed_bytes = p.seed_bytes;
                }
                Ok(())
            },
        }
    }
}

pub open spec fn status_rank(s: SessionStatus) -> int {
    match s {
        SessionStatus::Connecting => 0,
        SessionStatus::Synchronizing => 1,
        SessionStatus::Running => 2,
        SessionStatus::Ended => 3,
    }
}

/// Status never moves backward, and a running session keeps its number of
/// players and its seed until it ends.
pub proof fn lemma_session_monotone(s: Session, ev: SessionEvent)
    ensures
        status_rank(s.next(ev).0.status) >= status_rank(s.status),
        s.status == SessionStatus::Running ==> s.next(ev).0.num_players == s.num_players && s.next(ev).0.seed_bytes == s.seed_bytes,
{
}

/// The pause between lobby and match: the number of ticks left.
pub struct InterludeTimer(pub usize);

/// Starts the pause before a match.
pub fn reset_interlude_timer(timer: &mut InterludeTimer)
    ensures
        final(timer).0 == INTERLUDE_TICKS,
{
    timer.0 = INTERLUDE_TICKS;
}

/// Counts the pause down by one tick; true once it is over.
pub fn interlude_timer(timer: &mut InterludeTimer) -> (r: bool)
    ensures
        r == (old(timer).0 == 0),
        final(timer).0 == if old(timer).0 == 0 { 0 } else { (old(timer).0 - 1) as usize },
{
    if timer.0 == 0 {
        true
    } else {
        timer.0 = timer.0 - 1;
        false
    }
}

/// The letters a room code is made of.
pub open spec fn code_letters() -> Seq<u8> {
    seq![65u8, 66, 67, 68, 69, 70, 71, 72, 75, 77, 78, 79, 80, 81, 82, 83, 84, 87, 88, 89, 90]
}

/// Number of letters in a room code.
pub const CODE_LENGTH: usize = 6;

/// The code of the room to join, as ASCII letters.
pub struct GameCode(pub Vec<u8>);

fn code_letter(i: usize) -> (r: u8)
    requires
        i < 21,
    ensures
        r == code_letters()[i as int],
{
    let letters: Vec<u8> = vec![65u8, 66, 67, 68, 69, 70, 71, 72, 75, 77, 78, 79, 80, 81, 82, 83, 84, 87, 88, 89, 90];
    assert(letters@ =~= code_letters());
    letters[i]
}

/// A room code made of the letters that the draws (each below 21) pick.
pub fn build_game_code(draws: &Vec<u32>) -> (r: GameCode)
    requires
        draws@.len() == CODE_LENGTH,
        forall|i: int| 0 <= i < draws@.len() ==> draws@[i] < 21,
    ensures
        r.0@ == Seq::new(CODE_LENGTH as nat, |i: int| code_letters()[draws@[i] as int]),
{
    let mut code: Vec<u8> = Vec::new();
    let mut i: usize = 0;
    while i < draws.len()
        invariant
            0 <= i <= draws@.len(),
            draws@.len() == CODE_LENGTH,
            forall|j: int| 0 <= j < draws@.len() ==> draws@[j] < 21,
            code@ =~= Seq::new(i as nat, |j: int| code_letters()[draws@[j] as int]),
        decreases draws@.len() - i,
    {
        let l = code_letter(draws[i] as usize);
        code.push(l);
        i = i + 1;
    }
    GameCode(code)
}

/// The code after typing: `backspace` removes the last letter, then each
/// pressed key that is a code letter is appended while the code is short.
pub open spec fn typed_code(code: Seq<u8>, backspace: bool, pressed: Seq<u8>) -> Seq<u8>
    decreases pressed.len(),
{
    if pressed.len() == 0 {
        if backspace && code.len() > 0 {
            code.drop_last()
        } else {
            code
        }
    } else {
        let c = typed_code(code, backspace, pressed.drop_last());
        if code_letters().contains(pressed.last()) && c.len() < CODE_LENGTH {
            c.push(pressed.last())
        } else {
            c
        }
    }
}

fn is_code_letter(k: u8) -> (r: bool)
    ensures
        r == code_letters().contains(k),
{
    let mut i: usize = 0;
    while i < 21
        invariant
            i <= 21,
            forall|j: int| 0 <= j < i ==> code_letters()[j] != k,
        decreases 21 - i,
    {
        if code_letter(i) == k {
            return true;
        }
        i = i + 1;
    }
    false
}

/// Applies the keys pressed on the join screen to the room code.
pub fn listen_for_game_code(code: &mut GameCode, backspace: bool, pressed: &Vec<u8>)
    ensures
        final(code).0@ == typed_code(old(code).0@, backspace, pressed@),
{
    if backspace && code.0.len() > 0 {
        code.0.pop();
    }
    let mut i: usize = 0;
    proof {
        assert(pressed@.take(0) =~= Seq::<u8>::empty());
    }
    while i < pressed.len()
        invariant
            0 <= i <= pressed@.len(),
            code.0@ == typed_code(old(code).0@, backspace, pressed@.take(i as int)),
        decreases pressed@.len() - i,
    {
        proof {
            assert(pressed@.take(i + 1).drop_last() =~= pressed@.take(i as int));
        }
        let k = pressed[i];
        if is_code_letter(k) && code.0.len() < CODE_LENGTH {
            code.0.push(k);
        }
        i = i + 1;
    }
    proof {
        assert(pressed@.take(pressed@.len() as int) =~= pressed@);
    }
}

/// A peer in the lobby: its transport identifier and its display name.
pub struct SocketPlayer {
    pub id: String,
    pub name: String,
}

/// The peers in the lobby, this one included, in the order they arrived.
pub struct RemotePlayers(pub Vec<SocketPlayer>);

/// This peer's own lobby entry.
pub struct LocalPlayer(pub SocketPlayer);

/// A peer that joined (`connected`) or left the room.
pub struct PeerChange {
    pub id: String,
    pub connected: bool,
}

/// The name a peer gets: the one its identifier draws from the list, or the
/// identifier itself where the list is empty (or too long to draw from) or
/// the identifier too short to key the draw.
pub open spec fn peer_name(names: Seq<String>, id: &str) -> Seq<char> {
    if id.spec_bytes().len() >= 32 && 0 < names.len() <= u32::MAX {
        names[chacha8_draws(name_key(id.spec_bytes()), seq![names.len() as u32])[0] as int]@
    } else {
        id@
    }
}

/// The display name for the peer with identifier `id`.
pub fn name_for_peer(names: &PlayerNames, id: &str) -> (r: String)
    ensures
        r@ == peer_name(names.0@, id),
{
    let bytes = id.as_bytes();
    if bytes.len() >= 32 && names.0.len() > 0 && names.0.len() as u64 <= u32::MAX as u64 {
        names.get_name_from_id(id)
    } else {
        id.to_owned()
    }
}

/// Whether a peer stays in the lobby: it is this peer, or the transport still
/// lists it.
pub open spec fn stays(id: Seq<char>, local: Seq<char>, connected: Seq<String>) -> bool {
    id == local || exists|j: int| 0 <= j < connected.len() && (#[trigger] connected[j])@ == id
}

/// The lobby entries that stay, in order.
pub open spec fn staying(ps: Seq<SocketPlayer>, local: Seq<char>, connected: Seq<String>) -> Seq<SocketPlayer>
    decreases ps.len(),
{
    if ps.len() == 0 {
        ps
    } else {
        let rest = staying(ps.skip(1), local, connected);
        if stays(ps[0].id@, local, connected) {
            seq![ps[0]] + rest
        } else {
            rest
        }
    }
}

/// The identifiers of the peers that joined, in order.
pub open spec fn joined_ids(changes: Seq<PeerChange>) -> Seq<Seq<char>>
    decreases changes.len(),
{
    if changes.len() == 0 {
        Seq::empty()
    } else {
        let rest = joined_ids(changes.drop_last());
        if changes.last().connected {
            rest.push(changes.last().id@)
        } else {
            rest
        }
    }
}

fn is_listed(id: &String, connected: &Vec<String>) -> (r: bool)
    ensures
        r == exists|j: int| 0 <= j < connected@.len() && (#[trigger] connected@[j])@ == id@,
{
    let mut j: usize = 0;
    while j < connected.len()
        invariant
            0 <= j <= connected@.len(),
            forall|k: int| 0 <= k < j ==> (#[trigger] connected@[k])@ != id@,
        decreases connected@.len() - j,
    {
        if connected[j] == *id {
            return true;
        }
        j = j + 1;
    }
    false
}

/// Keeps the lobby entries of this peer and of the peers the transport still
/// lists, then adds an entry for each peer that joined, named after its
/// identifier.
pub fn wait_for_players(players: &mut RemotePlayers, local_id: &String, connected: &Vec<String>, changes: &Vec<PeerChange>, names: &PlayerNames)
    ensures
        ({
            let kept = staying(old(players).0@, local_id@, connected@);
            let ids = joined_ids(changes@);
            &&& final(players).0@.len() == kept.len() + ids.len()
            &&& final(players).0@.take(kept.len() as int) == kept
            &&& forall|k: int| 0 <= k < ids.len() ==> (#[trigger] final(players).0@[kept.len() + k]).id@ == ids[k]
                && exists|s: &str| s@ == ids[k] && final(players).0@[kept.len() + k].name@ == peer_name(names.0@, s)
        }),
{
    let ghost orig = players.0@;
    let mut kept: Vec<SocketPlayer> = Vec::new();
    proof {
        assert(orig.skip(0) =~= orig);
        assert(kept@ + staying(orig.skip(0), local_id@, connected@) =~= staying(orig, local_id@, connected@));
    }
    let ghost mut n: int = 0;
    while players.0.len() > 0
        invariant
            0 <= n <= orig.len(),
            players.0@ == orig.skip(n),
            kept@ + staying(orig.skip(n), local_id@, connected@) == staying(orig, local_id@, connected@),
        decreases players.0@.len(),
    {
        let ghost rest = players.0@;
        assert(n < orig.len());
        let p = players.0.remove(0);
        proof {
            assert(rest.skip(1) =~= orig.skip(n + 1));
            assert(rest[0] == p);
        }
        let keep = *local_id == p.id || is_listed(&p.id, connected);
        if keep {
            proof {
                assert(kept@.push(p) + staying(rest.skip(1), local_id@, connected@) =~= kept@ + staying(rest, local_id@, connected@));
            }
            kept.push(p);
        }
        proof {
            n = n + 1;
        }
    }
    proof {
        assert(orig.skip(n) =~= Seq::<SocketPlayer>::empty());
        assert(kept@ =~= staying(orig, local_id@, connected@));
    }
    let ghost k0 = kept@;
    let mut i: usize = 0;
    proof {
        assert(changes@.take(0) =~= Seq::<PeerChange>::empty());
    }
    while i < changes.len()
        invariant
            0 <= i <= changes@.len(),
            kept@.len() == k0.len() + joined_ids(changes@.take(i as int)).len(),
            kept@.take(k0.len() as int) == k0,
            forall|k: int| 0 <= k < joined_ids(changes@.take(i as int)).len() ==> (#[trigger] kept@[k0.len() + k]).id@
                == joined_ids(changes@.take(i as int))[k]
                && exists|s: &str| s@ == joined_ids(changes@.take(i as int))[k] && kept@[k0.len() + k].name@ == peer_name(names.0@, s),
        decreases changes@.len() - i,
    {
        proof {
            assert(changes@.take(i + 1).drop_last() =~= changes@.take(i as int));
            assert(changes@.take(i + 1).last() == changes@[i as int]);
        }
        let c = &changes[i];
        if c.connected {
            let id_str = c.id.as_str();
            let name = name_for_peer(names, id_str);
            let entry = SocketPlayer { id: c.id.clone(), name };
            let ghost before = kept@;
            kept.push(entry);
            proof {
                let ids = joined_ids(changes@.take(i + 1));
                assert(ids == joined_ids(changes@.take(i as int)).push(c.id@));
                assert(kept@.take(k0.len() as int) =~= before.take(k0.len() as int));
                assert forall|k: int| 0 <= k < ids.len() implies (#[trigger] kept@[k0.len() + k]).id@ == ids[k]
                    && exists|s: &str| s@ == ids[k] && kept@[k0.len() + k].name@ == peer_name(names.0@, s) by {
                    if k < ids.len() - 1 {
                        assert(kept@[k0.len() + k] == before[k0.len() + k]);
                    } else {
                        assert(kept@[k0.len() + k] == entry);
                        assert(id_str@ == ids[k]);
                    }
                }
            }
        } else {
            proof {
                assert(joined_ids(changes@.take(i + 1)) == joined_ids(changes@.take(i as int)));
            }
        }
        i = i + 1;
    }
    proof {
        assert(changes@.take(changes@.len() as int) =~= changes@);
    }
    players.0 = kept;
}

/// Adds this peer's own entry once the transport has given it an identifier.
pub fn connect_local_player(players: &mut RemotePlayers, local_id: &String, names: &PlayerNames) -> (r: LocalPlayer)
    ensures
        final(players).0@.len() == old(players).0@.len() + 1,
        final(players).0@.take(old(players).0@.len() as int) == old(players).0@,
        final(players).0@.last().id@ == local_id@,
        final(players).0@.last().name@ == r.0.name@,
        r.0.id@ == local_id@,
        exists|s: &str| s@ == local_id@ && r.0.name@ == peer_name(names.0@, s),
{
    let id_str = local_id.as_str();
    let name = name_for_peer(names, id_str);
    let entry = SocketPlayer { id: local_id.clone(), name: name.clone() };
    let ghost before = players.0@;
    players.0.push(entry);
    assert(players.0@.take(before.len() as int) =~= before);
    LocalPlayer(SocketPlayer { id: local_id.clone(), name })
}

} // verus!
