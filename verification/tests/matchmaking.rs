use session_registry::model::{Player, Session, SessionError};
use session_registry::registry::{
    allocate_slot, create_session, get_next_id, join_best, join_session, join_session_by_index,
    prune_stale_sessions, rank_session, update_name_in_session, update_pop_in_session,
};

fn player(id: u32, slot: usize, hb: u64) -> Player {
    Player {
        name: format!("p{}", id),
        id,
        index: slot,
        last_heartbeat: hb,
        pops: Vec::new(),
    }
}

fn session(id: u32, pop: &str, players: Vec<Player>) -> Session {
    Session {
        id,
        pop: pop.to_string(),
        players,
    }
}

#[test]
fn next_id_of_empty_list_is_one() {
    let sessions: Vec<Session> = Vec::new();
    assert_eq!(get_next_id(&sessions), 1);
}

#[test]
fn next_id_is_one_past_largest() {
    let sessions = vec![
        session(3, "LAX", vec![player(1, 0, 0)]),
        session(7, "SYD", vec![player(2, 0, 0)]),
    ];
    assert_eq!(get_next_id(&sessions), 8);
}

#[test]
fn rank_counts_occupancy_and_sinks_full_sessions() {
    let two = session(1, "LAX", vec![player(1, 0, 0), player(2, 1, 0)]);
    assert_eq!(rank_session(&two), 2);
    let full = session(
        2,
        "LAX",
        vec![
            player(1, 0, 0),
            player(2, 1, 0),
            player(3, 2, 0),
            player(4, 3, 0),
        ],
    );
    assert_eq!(rank_session(&full), i32::MIN);
}

#[test]
fn allocate_slot_takes_smallest_free_index() {
    // Slots {0, 2} occupied: the next join takes slot 1.
    let s = session(1, "LAX", vec![player(1, 0, 0), player(2, 2, 0)]);
    assert_eq!(allocate_slot(&s), Ok(1));
}

#[test]
fn allocate_slot_fails_when_full() {
    let s = session(
        1,
        "LAX",
        vec![
            player(1, 0, 0),
            player(2, 1, 0),
            player(3, 2, 0),
            player(4, 3, 0),
        ],
    );
    assert_eq!(allocate_slot(&s), Err(SessionError::SlotsExhausted));
}

#[test]
fn join_best_creates_a_session_when_none_exists() {
    let mut sessions: Vec<Session> = Vec::new();
    let (sid, slot, region) = join_best(&mut sessions, 7, "alice", "LAX", 1_000);
    assert_eq!((sid, slot, region.as_str()), (1, 0, "LAX"));
    assert_eq!(sessions.len(), 1);
    assert_eq!(sessions[0].players.len(), 1);
    assert_eq!(sessions[0].players[0].name, "alice");
}

#[test]
fn join_best_is_idempotent() {
    let mut sessions: Vec<Session> = Vec::new();
    let (sid1, slot1, _) = join_best(&mut sessions, 7, "alice", "LAX", 1_000);
    let after_first = sessions.clone();
    let (sid2, slot2, _) = join_best(&mut sessions, 7, "alice", "LAX", 1_000);
    assert_eq!((sid1, slot1), (sid2, slot2));
    assert_eq!(sessions, after_first);
}

#[test]
fn join_best_picks_the_fullest_non_full_session() {
    // Sessions with 1, 2 and 4 occupants: the 2-occupant one is chosen,
    // and the full one never is.
    let mut sessions = vec![
        session(1, "LAX", vec![player(1, 0, 0)]),
        session(2, "SYD", vec![player(2, 0, 0), player(3, 1, 0)]),
        session(
            3,
            "HKG",
            vec![
                player(4, 0, 0),
                player(5, 1, 0),
                player(6, 2, 0),
                player(7, 3, 0),
            ],
        ),
    ];
    let (sid, slot, region) = join_best(&mut sessions, 99, "newcomer", "MIA", 10_000);
    assert_eq!(sid, 2);
    assert_eq!(slot, 2);
    assert_eq!(region, "SYD");
}

#[test]
fn join_best_opens_a_new_session_when_all_are_full() {
    let mut sessions = vec![session(
        5,
        "LAX",
        vec![
            player(1, 0, 0),
            player(2, 1, 0),
            player(3, 2, 0),
            player(4, 3, 0),
        ],
    )];
    let (sid, slot, region) = join_best(&mut sessions, 99, "newcomer", "MIA", 10_000);
    assert_eq!((sid, slot, region.as_str()), (6, 0, "MIA"));
    assert_eq!(sessions.len(), 2);
}

#[test]
fn join_best_keeps_slots_unique_and_capped() {
    let mut sessions: Vec<Session> = Vec::new();
    for id in 1..=6u32 {
        join_best(&mut sessions, id, "p", "LAX", 1_000);
    }
    assert_eq!(sessions.len(), 2);
    assert_eq!(sessions[0].players.len(), 4);
    assert_eq!(sessions[1].players.len(), 2);
    for s in &sessions {
        let mut slots: Vec<usize> = s.players.iter().map(|p| p.index).collect();
        slots.sort();
        slots.dedup();
        assert_eq!(slots.len(), s.players.len());
        assert!(s.players.len() <= 4);
        assert!(slots.iter().all(|&k| k < 4));
    }
}

#[test]
fn join_session_finds_by_id_and_allocates() {
    let mut sessions = vec![
        session(4, "LAX", vec![player(1, 0, 0)]),
        session(9, "SYD", vec![player(2, 0, 0), player(3, 2, 0)]),
    ];
    let r = join_session(&mut sessions, 9, 50, "bob", 1_000);
    assert_eq!(r, Ok((1, "SYD".to_string())));
    assert_eq!(sessions[1].players.len(), 3);
}

#[test]
fn join_session_rejoin_is_idempotent() {
    let mut sessions = vec![session(4, "LAX", vec![player(1, 0, 0), player(8, 3, 0)])];
    let before = sessions.clone();
    let r = join_session(&mut sessions, 4, 8, "renamed", 1_000);
    assert_eq!(r, Ok((3, "LAX".to_string())));
    assert_eq!(sessions, before);
}

#[test]
fn join_session_reports_not_found() {
    let mut sessions = vec![session(4, "LAX", vec![player(1, 0, 0)])];
    let r = join_session(&mut sessions, 5, 8, "bob", 1_000);
    assert_eq!(r, Err(SessionError::NotFound));
}

#[test]
fn join_session_reports_slots_exhausted() {
    let mut sessions = vec![session(
        4,
        "LAX",
        vec![
            player(1, 0, 0),
            player(2, 1, 0),
            player(3, 2, 0),
            player(5, 3, 0),
        ],
    )];
    let r = join_session(&mut sessions, 4, 8, "bob", 1_000);
    assert_eq!(r, Err(SessionError::SlotsExhausted));
}

#[test]
fn join_session_by_index_hands_out_slot_and_region() {
    let mut sessions = vec![session(4, "MAD", vec![player(1, 1, 0)])];
    let r = join_session_by_index(&mut sessions, 0, 8, "bob", 1_000);
    assert_eq!(r, Ok((0, "MAD".to_string())));
    assert_eq!(sessions[0].players[1].id, 8);
    assert_eq!(sessions[0].players[1].index, 0);
}

#[test]
fn create_session_seats_the_player_in_slot_zero() {
    let mut sessions = vec![session(2, "LAX", vec![player(1, 0, 0)])];
    let sid = create_session(&mut sessions, 9, "carol", "VIE", 5_000);
    assert_eq!(sid, 3);
    assert_eq!(sessions.len(), 2);
    assert_eq!(sessions[1].id, 3);
    assert_eq!(sessions[1].pop, "VIE");
    assert_eq!(sessions[1].players.len(), 1);
    assert_eq!(sessions[1].players[0].index, 0);
    assert_eq!(sessions[1].players[0].last_heartbeat, 5_000);
}

#[test]
fn rename_overwrites_the_addressed_player_only() {
    let mut sessions = vec![
        session(1, "LAX", vec![player(1, 0, 0), player(2, 1, 0)]),
        session(2, "SYD", vec![player(2, 0, 0)]),
    ];
    update_name_in_session(&mut sessions, 1, 2, "zoe");
    assert_eq!(sessions[0].players[1].name, "zoe");
    assert_eq!(sessions[0].players[0].name, "p1");
    assert_eq!(sessions[1].players[0].name, "p2");
}

#[test]
fn rename_of_an_absent_player_is_a_no_op() {
    let mut sessions = vec![session(1, "LAX", vec![player(1, 0, 0)])];
    let before = sessions.clone();
    update_name_in_session(&mut sessions, 1, 42, "ghost");
    update_name_in_session(&mut sessions, 9, 1, "ghost");
    assert_eq!(sessions, before);
}

#[test]
fn set_region_overwrites_the_addressed_session_only() {
    let mut sessions = vec![
        session(1, "LAX", vec![player(1, 0, 0)]),
        session(2, "SYD", vec![player(2, 0, 0)]),
    ];
    update_pop_in_session(&mut sessions, 2, "BOM");
    assert_eq!(sessions[0].pop, "LAX");
    assert_eq!(sessions[1].pop, "BOM");
    let before = sessions.clone();
    update_pop_in_session(&mut sessions, 7, "MIA");
    assert_eq!(sessions, before);
}

#[test]
fn prune_runs_inside_join_best() {
    // A stale tenant is pruned before matchmaking, so its seat is free again.
    let mut sessions = vec![session(1, "LAX", vec![player(1, 0, 0), player(2, 1, 5_000)])];
    let (sid, slot, _) = join_best(&mut sessions, 9, "late", "MIA", 70_000);
    assert_eq!(sid, 1);
    // Player 1 (idle 70s) is gone; its slot 0 is handed out anew.
    assert_eq!(slot, 0);
    assert!(sessions[0].players.iter().all(|p| p.id != 1));
}

#[test]
fn prune_stale_sessions_is_reachable_with_noop_arguments() {
    let mut sessions = vec![session(1, "LAX", vec![player(1, 0, 59_000)])];
    prune_stale_sessions(&mut sessions, 0, 0, false, 60_000);
    assert_eq!(sessions.len(), 1);
}
