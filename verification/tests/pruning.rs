use session_registry::model::{Player, Session, STALE_AFTER_MILLIS};
use session_registry::registry::prune_stale_sessions;

fn player(id: u32, slot: usize, hb: u64) -> Player {
    Player {
        name: format!("p{}", id),
        id,
        index: slot,
        last_heartbeat: hb,
        pops: Vec::new(),
    }
}

fn session(id: u32, pop: &str, players: Vec<Player>) -> Session {
    Session {
        id,
        pop: pop.to_string(),
        players,
    }
}

#[test]
fn threshold_is_one_minute() {
    assert_eq!(STALE_AFTER_MILLIS, 60_000);
}

#[test]
fn keeps_59s_idle_removes_61s_idle() {
    // At now = 100_000 ms: idle 59 s is kept, idle 61 s is removed.
    let mut sessions = vec![session(
        1,
        "LAX",
        vec![player(1, 0, 41_000), player(2, 1, 39_000)],
    )];
    prune_stale_sessions(&mut sessions, 0, 0, false, 100_000);
    assert_eq!(sessions.len(), 1);
    assert_eq!(sessions[0].players.len(), 1);
    assert_eq!(sessions[0].players[0].id, 1);
}

#[test]
fn sixty_seconds_exactly_is_stale() {
    let mut sessions = vec![session(1, "LAX", vec![player(1, 0, 40_000)])];
    prune_stale_sessions(&mut sessions, 0, 0, false, 100_000);
    assert!(sessions.is_empty());
}

#[test]
fn a_session_emptied_by_pruning_disappears() {
    let mut sessions = vec![
        session(1, "LAX", vec![player(1, 0, 0)]),
        session(2, "SYD", vec![player(2, 0, 99_000)]),
    ];
    prune_stale_sessions(&mut sessions, 0, 0, false, 100_000);
    assert_eq!(sessions.len(), 1);
    assert_eq!(sessions[0].id, 2);
}

#[test]
fn refresh_saves_the_addressed_player() {
    // Both players are long idle; the refreshed one survives.
    let mut sessions = vec![session(
        3,
        "LAX",
        vec![player(1, 0, 0), player(2, 1, 0)],
    )];
    prune_stale_sessions(&mut sessions, 2, 3, true, 100_000);
    assert_eq!(sessions.len(), 1);
    assert_eq!(sessions[0].players.len(), 1);
    assert_eq!(sessions[0].players[0].id, 2);
    assert_eq!(sessions[0].players[0].last_heartbeat, 100_000);
}

#[test]
fn refresh_addresses_one_session_only() {
    // The same player id in another session is not refreshed there.
    let mut sessions = vec![
        session(1, "LAX", vec![player(7, 0, 0)]),
        session(2, "SYD", vec![player(7, 0, 0)]),
    ];
    prune_stale_sessions(&mut sessions, 7, 2, true, 100_000);
    assert_eq!(sessions.len(), 1);
    assert_eq!(sessions[0].id, 2);
}

#[test]
fn future_heartbeat_counts_as_live() {
    let mut sessions = vec![session(1, "LAX", vec![player(1, 0, 200_000)])];
    prune_stale_sessions(&mut sessions, 0, 0, false, 100_000);
    assert_eq!(sessions.len(), 1);
}

#[test]
fn pruning_an_empty_list_is_a_no_op() {
    let mut sessions: Vec<Session> = Vec::new();
    prune_stale_sessions(&mut sessions, 0, 0, false, 100_000);
    assert!(sessions.is_empty());
}
