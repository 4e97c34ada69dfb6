use session_registry::model::{Player, Pop, Session, SessionError};
use session_registry::pops::{get_best_pop_and_update, heartbeat, pop_catalog};
use session_registry::registry::report_pings;

fn sample(region: &str, latency: u32) -> Pop {
    Pop {
        name: region.to_string(),
        ping: latency,
    }
}

fn player_with(id: u32, slot: usize, hb: u64, pops: Vec<Pop>) -> Player {
    Player {
        name: format!("p{}", id),
        id,
        index: slot,
        last_heartbeat: hb,
        pops,
    }
}

fn session(id: u32, pop: &str, players: Vec<Player>) -> Session {
    Session {
        id,
        pop: pop.to_string(),
        players,
    }
}

#[test]
fn report_pings_replaces_not_appends() {
    // Reporting [("A",10)] then [("B",5)] leaves only the B sample.
    let mut sessions = vec![session(1, "LAX", vec![player_with(7, 0, 0, Vec::new())])];
    report_pings(&mut sessions, 1, 7, &vec![sample("A", 10)]);
    assert_eq!(sessions[0].players[0].pops, vec![sample("A", 10)]);
    report_pings(&mut sessions, 1, 7, &vec![sample("B", 5)]);
    assert_eq!(sessions[0].players[0].pops, vec![sample("B", 5)]);
}

#[test]
fn report_pings_on_an_absent_player_is_a_no_op() {
    let mut sessions = vec![session(1, "LAX", vec![player_with(7, 0, 0, Vec::new())])];
    let before = sessions.clone();
    report_pings(&mut sessions, 1, 42, &vec![sample("A", 10)]);
    report_pings(&mut sessions, 9, 7, &vec![sample("A", 10)]);
    assert_eq!(sessions, before);
}

#[test]
fn selection_picks_the_strictly_lowest_mean() {
    // Region A samples [10, 20] (mean 15) vs region B samples [5]
    // (mean 5): B is selected and written back.
    let mut sessions = vec![session(
        3,
        "LAX",
        vec![
            player_with(1, 0, 0, vec![sample("A", 10), sample("A", 20)]),
            player_with(2, 1, 0, vec![sample("B", 5)]),
        ],
    )];
    let r = get_best_pop_and_update(&mut sessions, 3);
    assert_eq!(r, Ok("B".to_string()));
    assert_eq!(sessions[0].pop, "B");
}

#[test]
fn selection_compares_means_not_sums() {
    // A: [1, 1, 1] sums to 3 with mean 1; B: [2] sums to 2 with mean 2.
    // The lower mean wins even though its sum is larger.
    let mut sessions = vec![session(
        3,
        "LAX",
        vec![
            player_with(1, 0, 0, vec![sample("A", 1), sample("A", 1), sample("A", 1)]),
            player_with(2, 1, 0, vec![sample("B", 2)]),
        ],
    )];
    let r = get_best_pop_and_update(&mut sessions, 3);
    assert_eq!(r, Ok("A".to_string()));
}

#[test]
fn selection_aggregates_across_players() {
    // A's samples are split over two players: mean(A) = (10+30)/2 = 20,
    // mean(B) = 25.
    let mut sessions = vec![session(
        3,
        "LAX",
        vec![
            player_with(1, 0, 0, vec![sample("A", 10), sample("B", 25)]),
            player_with(2, 1, 0, vec![sample("A", 30)]),
        ],
    )];
    let r = get_best_pop_and_update(&mut sessions, 3);
    assert_eq!(r, Ok("A".to_string()));
}

#[test]
fn selection_breaks_ties_by_first_appearance() {
    let mut sessions = vec![session(
        3,
        "LAX",
        vec![
            player_with(1, 0, 0, vec![sample("C", 7)]),
            player_with(2, 1, 0, vec![sample("B", 7)]),
        ],
    )];
    let r = get_best_pop_and_update(&mut sessions, 3);
    assert_eq!(r, Ok("C".to_string()));
}

#[test]
fn selection_without_samples_leaves_the_region_unchanged() {
    let mut sessions = vec![session(3, "LAX", vec![player_with(1, 0, 0, Vec::new())])];
    let r = get_best_pop_and_update(&mut sessions, 3);
    assert_eq!(r, Err(SessionError::NoSamples));
    assert_eq!(sessions[0].pop, "LAX");
}

#[test]
fn selection_for_an_absent_session_reports_not_found() {
    let mut sessions = vec![session(3, "LAX", vec![player_with(1, 0, 0, Vec::new())])];
    let r = get_best_pop_and_update(&mut sessions, 8);
    assert_eq!(r, Err(SessionError::NotFound));
}

#[test]
fn heartbeat_refreshes_prunes_and_reselects() {
    // Player 2 is stale and holds the only B sample; after the heartbeat
    // pass only player 1's samples count, so A wins.
    let mut sessions = vec![session(
        3,
        "LAX",
        vec![
            player_with(1, 0, 0, vec![sample("A", 10)]),
            player_with(2, 1, 0, vec![sample("B", 1)]),
        ],
    )];
    let r = heartbeat(&mut sessions, 3, 1, 100_000);
    assert_eq!(r, Ok("A".to_string()));
    assert_eq!(sessions[0].players.len(), 1);
    assert_eq!(sessions[0].players[0].id, 1);
    assert_eq!(sessions[0].players[0].last_heartbeat, 100_000);
    assert_eq!(sessions[0].pop, "A");
}

#[test]
fn heartbeat_for_a_vanished_session_reports_not_found() {
    let mut sessions = vec![session(3, "LAX", vec![player_with(1, 0, 0, Vec::new())])];
    // Nobody is refreshed, everybody is stale: the session is pruned away.
    let r = heartbeat(&mut sessions, 3, 99, 100_000);
    assert_eq!(r, Err(SessionError::NotFound));
    assert!(sessions.is_empty());
}

#[test]
fn catalog_lists_the_fixed_regions() {
    let catalog = pop_catalog();
    assert_eq!(catalog.len(), 39);
    assert_eq!(catalog[0].name, "HKG");
    assert_eq!(catalog[0].ip, "151.101.77.51");
    assert!(catalog.iter().any(|e| e.name == "SYD"));
    assert!(catalog.iter().any(|e| e.name == "VIE" && e.ip == "199.232.17.51"));
}
