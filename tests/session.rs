use fvz::seeding::{PlayerNames, Seed};
use fvz::session::{
    build_game_code, build_ggrs_session, connect_local_player, handle_packets, interlude_timer,
    listen_for_game_code, parse_start_packet, reset_interlude_timer, start_packet,
    wait_for_players, GameCode, GameMode, InterludeTimer, PeerChange, PlayerKind, RemotePlayers,
    Session, SessionError, SessionEvent, SessionStatus, SocketPlayer, StartDecision,
};

#[test]
fn start_packet_round_trip() {
    let p = start_packet(&Seed([3, 4, 5]));
    assert_eq!(p, vec![3, 3, 4, 5]);
    assert_eq!(parse_start_packet(&p).map(|s| s.0), Some([3, 4, 5]));
}

#[test]
fn short_start_packet_fills_zeros_and_others_are_ignored() {
    assert_eq!(parse_start_packet(&[3, 9]).map(|s| s.0), Some([9, 0, 0]));
    assert!(parse_start_packet(&[4, 1, 2, 3]).is_none());
    assert!(parse_start_packet(&[]).is_none());
}

#[test]
fn last_start_message_wins() {
    let packets = vec![vec![3, 1, 1, 1], vec![7], vec![3, 2, 2, 2], vec![]];
    assert_eq!(handle_packets(&packets).map(|s| s.0), Some([2, 2, 2]));
    assert!(handle_packets(&vec![vec![1, 2]]).is_none());
}

#[test]
fn joining_peer_waits_for_the_start_message() {
    let kinds = vec![PlayerKind::Remote, PlayerKind::Local];
    assert!(matches!(build_ggrs_session(GameMode::Multi(false), None, true, &kinds), StartDecision::Wait));
    match build_ggrs_session(GameMode::Multi(false), Some(Seed([7, 8, 9])), false, &kinds) {
        StartDecision::Start(p) => {
            assert_eq!(p.seed_bytes, [7, 8, 9]);
            assert_eq!(p.input_delay, 2);
            assert!(!p.broadcast_start);
            assert_eq!(p.num_players, 2);
            assert_eq!(p.local_handle, Some(1));
        }
        StartDecision::Wait => panic!("should start"),
    }
}

#[test]
fn creating_peer_starts_on_confirmation_with_the_standard_seed() {
    let kinds = vec![PlayerKind::Local, PlayerKind::Remote, PlayerKind::Remote];
    assert!(matches!(build_ggrs_session(GameMode::Multi(true), None, false, &kinds), StartDecision::Wait));
    match build_ggrs_session(GameMode::Multi(true), None, true, &kinds) {
        StartDecision::Start(p) => {
            assert_eq!(p.seed_bytes, [3, 4, 5]);
            assert_eq!(p.input_delay, 2);
            assert!(p.broadcast_start);
            assert_eq!(p.num_players, 3);
            assert_eq!(p.local_handle, Some(0));
        }
        StartDecision::Wait => panic!("should start"),
    }
}

#[test]
fn single_player_starts_at_once_without_delay() {
    match build_ggrs_session(GameMode::Single, None, false, &vec![PlayerKind::Local]) {
        StartDecision::Start(p) => {
            assert_eq!(p.seed_bytes, [3, 4, 5]);
            assert_eq!(p.input_delay, 0);
            assert_eq!(p.local_handle, Some(0));
        }
        StartDecision::Wait => panic!("should start"),
    }
}

#[test]
fn session_status_moves_forward() {
    let mut s = Session::new(3);
    assert_eq!(s.status, SessionStatus::Connecting);
    assert_eq!(s.on_event(SessionEvent::SyncTick), Ok(()));
    assert_eq!(s.status, SessionStatus::Connecting);
    s.on_event(SessionEvent::Connected).unwrap();
    assert_eq!(s.status, SessionStatus::Synchronizing);
    let kinds = vec![PlayerKind::Local, PlayerKind::Remote];
    let params = match build_ggrs_session(GameMode::Multi(true), None, true, &kinds) {
        StartDecision::Start(p) => p,
        StartDecision::Wait => panic!("should start"),
    };
    s.on_event(SessionEvent::Started(params)).unwrap();
    assert_eq!(s.status, SessionStatus::Running);
    assert_eq!(s.num_players, 2);
    assert_eq!(s.input_delay, 2);
    s.on_event(SessionEvent::Connected).unwrap();
    assert_eq!(s.status, SessionStatus::Running);
    s.on_event(SessionEvent::TornDown).unwrap();
    assert_eq!(s.status, SessionStatus::Ended);
}

#[test]
fn synchronizing_too_long_is_a_sync_failure() {
    let mut s = Session::new(3);
    s.on_event(SessionEvent::Connected).unwrap();
    assert_eq!(s.on_event(SessionEvent::SyncTick), Ok(()));
    assert_eq!(s.on_event(SessionEvent::SyncTick), Ok(()));
    assert_eq!(s.on_event(SessionEvent::SyncTick), Err(SessionError::SyncFailure));
    assert_eq!(s.status, SessionStatus::Ended);
}

#[test]
fn interlude_counts_down() {
    let mut t = InterludeTimer(0);
    reset_interlude_timer(&mut t);
    assert_eq!(t.0, 180);
    let mut ticks = 0;
    while !interlude_timer(&mut t) {
        ticks += 1;
    }
    assert_eq!(ticks, 180);
    assert_eq!(t.0, 0);
}

#[test]
fn game_code_from_draws() {
    let code = build_game_code(&vec![0, 1, 8, 20, 14, 9]);
    assert_eq!(String::from_utf8(code.0).unwrap(), "ABKZRM");
}

#[test]
fn typing_a_game_code() {
    let mut code = GameCode(b"ABC".to_vec());
    listen_for_game_code(&mut code, true, &b"DIEFGH".to_vec());
    // Backspace drops C; I is not a code letter; at most six letters.
    assert_eq!(String::from_utf8(code.0.clone()).unwrap(), "ABDEFG");
    listen_for_game_code(&mut code, false, &b"K".to_vec());
    assert_eq!(code.0.len(), 6);
}

fn names() -> PlayerNames {
    PlayerNames(vec!["Ada".to_string(), "Bo".to_string(), "Cy".to_string()])
}

#[test]
fn roster_keeps_listed_peers_and_adds_joiners() {
    let local = "local-peer-identifier-0123456789abcdef".to_string();
    let mut roster = RemotePlayers(Vec::new());
    let me = connect_local_player(&mut roster, &local, &names());
    assert_eq!(me.0.id, local);
    assert!(names().0.contains(&me.0.name));
    roster.0.push(SocketPlayer { id: "gone".to_string(), name: "Old".to_string() });
    roster.0.push(SocketPlayer { id: "stays".to_string(), name: "Kept".to_string() });
    let connected = vec!["stays".to_string(), "new-peer-identifier-0123456789abcdef".to_string()];
    let changes = vec![
        PeerChange { id: "new-peer-identifier-0123456789abcdef".to_string(), connected: true },
        PeerChange { id: "gone".to_string(), connected: false },
        PeerChange { id: "short".to_string(), connected: true },
    ];
    wait_for_players(&mut roster, &local, &connected, &changes, &names());
    let ids: Vec<&str> = roster.0.iter().map(|p| p.id.as_str()).collect();
    assert_eq!(ids, vec![local.as_str(), "stays", "new-peer-identifier-0123456789abcdef", "short"]);
    assert_eq!(roster.0[1].name, "Kept");
    assert!(names().0.contains(&roster.0[2].name));
    assert_eq!(roster.0[3].name, "short");
}

#[test]
fn peers_without_a_name_list_keep_their_identifier() {
    let local = "local-peer-identifier-0123456789abcdef".to_string();
    let mut roster = RemotePlayers(Vec::new());
    let me = connect_local_player(&mut roster, &local, &PlayerNames(Vec::new()));
    assert_eq!(me.0.name, local);
    assert_eq!(roster.0.len(), 1);
}
