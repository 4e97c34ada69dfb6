//! Identifier and slot allocation, matchmaking, liveness pruning and the
//! best-effort update operations on the session list.
//!
//! Every operation here works on the in-memory list for the duration of
//! one request; the caller fetches and persists the encoded blob around it.

use vstd::prelude::*;

use crate::model::{
    lemma_session_capacity, live_at, no_empty_sessions, wf_player, wf_session, wf_sessions,
    Player, PlayerV, Pop, PopV, Session, SessionError, SessionV, STALE_AFTER_MILLIS,
};

verus! {

/// The matchmaking rank of a session: its occupancy, except that a full
/// session ranks as the minimum possible value and can never win.
pub open spec fn spec_rank(s: SessionV) -> int {
    if s.players.len() == 4 {
        i32::MIN as int
    } else {
        s.players.len() as int
    }
}

/// The largest session id in the list, 0 when the list is empty.
pub open spec fn spec_max_id(l: Seq<SessionV>) -> int
    decreases l.len(),
{
    if l.len() == 0 {
        0
    } else {
        let rest = spec_max_id(l.drop_last());
        if l.last().id > rest {
            l.last().id as int
        } else {
            rest
        }
    }
}

/// The id the next created session receives: one past the largest in use.
/// Ids are monotonic and never reused after a deletion.
pub open spec fn spec_next_id(l: Seq<SessionV>) -> int {
    spec_max_id(l) + 1
}

/// Whether some player of `s` occupies slot `k`.
pub open spec fn slot_taken(s: SessionV, k: usize) -> bool {
    exists|i: int| 0 <= i < s.players.len() && s.players[i].index == k
}

/// The smallest unoccupied slot of `s` in [0,3], or `None` when all four
/// are occupied.
pub open spec fn spec_free_slot(s: SessionV) -> Option<usize> {
    if !slot_taken(s, 0) {
        Some(0usize)
    } else if !slot_taken(s, 1) {
        Some(1usize)
    } else if !slot_taken(s, 2) {
        Some(2usize)
    } else if !slot_taken(s, 3) {
        Some(3usize)
    } else {
        None
    }
}

/// The player a join operation adds: fresh heartbeat, no samples yet.
pub open spec fn new_player(id: u32, name: Seq<char>, slot: usize, now: u64) -> PlayerV {
    PlayerV { name: name, id: id, index: slot, last_heartbeat: now, pops: Seq::empty() }
}

/// `s` with one more player.
pub open spec fn with_player(s: SessionV, p: PlayerV) -> SessionV {
    SessionV { players: s.players.push(p), ..s }
}

/// Whether some player of `s` carries the id `pid`.
pub open spec fn session_has_player(s: SessionV, pid: u32) -> bool {
    exists|j: int| 0 <= j < s.players.len() && s.players[j].id == pid
}

/// Whether some session of the list holds a player with id `pid`.
pub open spec fn has_player(l: Seq<SessionV>, pid: u32) -> bool {
    exists|i: int| 0 <= i < l.len() && session_has_player(#[trigger] l[i], pid)
}

/// Whether some session of the list carries the id `sid`.
pub open spec fn has_session(l: Seq<SessionV>, sid: u32) -> bool {
    exists|i: int| 0 <= i < l.len() && (#[trigger] l[i]).id == sid
}

/// The first index of a session holding a player with id `pid`, or the
/// length of the list when there is none.
pub open spec fn first_idx_with_player(l: Seq<SessionV>, pid: u32) -> int
    decreases l.len(),
{
    if l.len() == 0 {
        0
    } else if session_has_player(l[0], pid) {
        0
    } else {
        1 + first_idx_with_player(l.drop_first(), pid)
    }
}

/// The first index of a player with id `pid` inside `s`, or the number of
/// players when there is none.
pub open spec fn first_player_idx(s: SessionV, pid: u32) -> int
    decreases s.players.len(),
{
    if s.players.len() == 0 {
        0
    } else if s.players[0].id == pid {
        0
    } else {
        1 + first_player_idx(SessionV { players: s.players.drop_first(), ..s }, pid)
    }
}

/// The first index of the session with id `sid`, or the length of the
/// list when there is none. Under well-formedness ids are unique, so the
/// first match is the only one.
pub open spec fn session_idx_by_id(l: Seq<SessionV>, sid: u32) -> int
    decreases l.len(),
{
    if l.len() == 0 {
        0
    } else if l[0].id == sid {
        0
    } else {
        1 + session_idx_by_id(l.drop_first(), sid)
    }
}

/// The index the matchmaking scan settles on: the first session with the
/// strictly highest rank, or -1 when every session ranks at the minimum
/// (that is, every session is full) or the list is empty.
pub open spec fn spec_best_index(l: Seq<SessionV>) -> int
    decreases l.len(),
{
    if l.len() == 0 {
        -1
    } else {
        let prev = spec_best_index(l.drop_last());
        let prev_rank = if prev == -1 {
            i32::MIN as int
        } else {
            spec_rank(l.drop_last()[prev])
        };
        if spec_rank(l.last()) > prev_rank {
            l.len() - 1
        } else {
            prev
        }
    }
}

/// What [`first_idx_with_player`] returns: the first session holding the
/// player, every earlier session free of it, and the list length exactly
/// when no session holds it.
pub proof fn lemma_first_idx_with_player_props(l: Seq<SessionV>, pid: u32)
    ensures
        0 <= first_idx_with_player(l, pid) <= l.len(),
        first_idx_with_player(l, pid) < l.len() ==> session_has_player(
            l[first_idx_with_player(l, pid)],
            pid,
        ),
        forall|i: int|
            0 <= i < first_idx_with_player(l, pid) ==> !session_has_player(
                #[trigger] l[i],
                pid,
            ),
        (first_idx_with_player(l, pid) == l.len()) <==> !has_player(l, pid),
    decreases l.len(),
{
    let r = first_idx_with_player(l, pid);
    if l.len() > 0 && !session_has_player(l[0], pid) {
        lemma_first_idx_with_player_props(l.drop_first(), pid);
        assert forall|i: int| 0 <= i < r implies !session_has_player(#[trigger] l[i], pid) by {
            if i >= 1 {
                assert(l.drop_first()[i - 1] == l[i]);
                assert(!session_has_player(l.drop_first()[i - 1], pid));
            }
        }
        if r < l.len() {
            assert(l.drop_first()[r - 1] == l[r]);
        }
    }
    if r == l.len() {
        if has_player(l, pid) {
            let i = choose|i: int| 0 <= i < l.len() && session_has_player(#[trigger] l[i], pid);
            assert(!session_has_player(l[i], pid));
        }
    } else {
        assert(session_has_player(l[r], pid));
        assert(has_player(l, pid));
    }
}

/// What [`first_player_idx`] returns, in the same shape.
pub proof fn lemma_first_player_idx_props(s: SessionV, pid: u32)
    ensures
        0 <= first_player_idx(s, pid) <= s.players.len(),
        first_player_idx(s, pid) < s.players.len() ==> s.players[first_player_idx(s, pid)].id
            == pid,
        forall|j: int|
            0 <= j < first_player_idx(s, pid) ==> (#[trigger] s.players[j]).id != pid,
        (first_player_idx(s, pid) == s.players.len()) <==> !session_has_player(s, pid),
    decreases s.players.len(),
{
    let r = first_player_idx(s, pid);
    if s.players.len() > 0 && s.players[0].id != pid {
        let rest = SessionV { players: s.players.drop_first(), ..s };
        lemma_first_player_idx_props(rest, pid);
        assert forall|j: int| 0 <= j < r implies (#[trigger] s.players[j]).id != pid by {
            if j >= 1 {
                assert(rest.players[j - 1] == s.players[j]);
            }
        }
        if r < s.players.len() {
            assert(rest.players[r - 1] == s.players[r]);
        }
    }
    if r == s.players.len() {
        if session_has_player(s, pid) {
            let j = choose|j: int| 0 <= j < s.players.len() && s.players[j].id == pid;
            assert(s.players[j].id != pid);
        }
    } else {
        assert(s.players[r].id == pid);
        assert(session_has_player(s, pid));
    }
}

/// What [`session_idx_by_id`] returns, in the same shape.
pub proof fn lemma_session_idx_by_id_props(l: Seq<SessionV>, sid: u32)
    ensures
        0 <= session_idx_by_id(l, sid) <= l.len(),
        session_idx_by_id(l, sid) < l.len() ==> l[session_idx_by_id(l, sid)].id == sid,
        forall|i: int| 0 <= i < session_idx_by_id(l, sid) ==> (#[trigger] l[i]).id != sid,
        (session_idx_by_id(l, sid) == l.len()) <==> !has_session(l, sid),
    decreases l.len(),
{
    let r = session_idx_by_id(l, sid);
    if l.len() > 0 && l[0].id != sid {
        lemma_session_idx_by_id_props(l.drop_first(), sid);
        assert forall|i: int| 0 <= i < r implies (#[trigger] l[i]).id != sid by {
            if i >= 1 {
                assert(l.drop_first()[i - 1] == l[i]);
            }
        }
        if r < l.len() {
            assert(l.drop_first()[r - 1] == l[r]);
        }
    }
    if r == l.len() {
        if has_session(l, sid) {
            let i = choose|i: int| 0 <= i < l.len() && (#[trigger] l[i]).id == sid;
            assert(l[i].id != sid);
        }
    } else {
        assert(l[r].id == sid);
        assert(has_session(l, sid));
    }
}

/// What [`spec_best_index`] returns: a session of maximal rank, the
/// earliest among those of that rank, never one that ranks at the
/// minimum; -1 exactly when every session is full or the list is empty.
pub proof fn lemma_best_index_props(l: Seq<SessionV>)
    ensures
        -1 <= spec_best_index(l) < l.len(),
        spec_best_index(l) >= 0 ==> spec_rank(l[spec_best_index(l)]) > i32::MIN as int,
        spec_best_index(l) >= 0 ==> forall|j: int|
            0 <= j < l.len() ==> spec_rank(#[trigger] l[j]) <= spec_rank(
                l[spec_best_index(l)],
            ),
        spec_best_index(l) >= 0 ==> forall|j: int|
            0 <= j < spec_best_index(l) ==> spec_rank(#[trigger] l[j]) < spec_rank(
                l[spec_best_index(l)],
            ),
        spec_best_index(l) == -1 ==> forall|j: int|
            0 <= j < l.len() ==> spec_rank(#[trigger] l[j]) == i32::MIN as int,
    decreases l.len(),
{
    if l.len() > 0 {
        lemma_best_index_props(l.drop_last());
        assert(forall|j: int|
            0 <= j < l.drop_last().len() ==> l.drop_last()[j] == l[j]);
        assert(l.last() == l[l.len() - 1]);
        assert(forall|j: int|
            0 <= j < l.len() ==> spec_rank(#[trigger] l[j]) >= i32::MIN as int);
    }
}

/// A full session is never the matchmaking choice; when no session is
/// chosen, every session in the list is full.
pub proof fn lemma_best_session_not_full(l: Seq<SessionV>)
    requires
        wf_sessions(l),
    ensures
        spec_best_index(l) >= 0 ==> l[spec_best_index(l)].players.len() < 4,
        spec_best_index(l) == -1 ==> forall|j: int|
            0 <= j < l.len() ==> (#[trigger] l[j]).players.len() == 4,
{
    lemma_best_index_props(l);
    let b = spec_best_index(l);
    if b >= 0 {
        lemma_session_capacity(l[b]);
    }
}

/// A well-formed session with a free seat has a lowest free slot.
pub proof fn lemma_not_full_has_free(s: SessionV)
    requires
        wf_session(s),
        s.players.len() < 4,
    ensures
        spec_free_slot(s) is Some,
{
    if spec_free_slot(s) is None {
        let i0 = choose|i: int| 0 <= i < s.players.len() && s.players[i].index == 0usize;
        let i1 = choose|i: int| 0 <= i < s.players.len() && s.players[i].index == 1usize;
        let i2 = choose|i: int| 0 <= i < s.players.len() && s.players[i].index == 2usize;
        let i3 = choose|i: int| 0 <= i < s.players.len() && s.players[i].index == 3usize;
        assert(i0 != i1 && i0 != i2 && i0 != i3 && i1 != i2 && i1 != i3 && i2 != i3);
        assert(s.players.len() >= 4);
    }
}

/// Seating a new player on a free slot keeps a session well formed.
pub proof fn lemma_join_slot_wf(s: SessionV, p: PlayerV)
    requires
        wf_session(s),
        wf_player(p),
        !slot_taken(s, p.index),
    ensures
        wf_session(with_player(s, p)),
{
    let t = with_player(s, p);
    assert(forall|i: int| 0 <= i < s.players.len() ==> t.players[i] == s.players[i]);
    assert(t.players[t.players.len() - 1] == p);
}

/// Under the well-formedness id bound the maximum leaves room for a
/// successor.
pub proof fn lemma_max_id_bound(l: Seq<SessionV>)
    requires
        forall|i: int| 0 <= i < l.len() ==> (#[trigger] l[i]).id < u32::MAX,
    ensures
        0 <= spec_max_id(l) < u32::MAX,
    decreases l.len(),
{
    if l.len() > 0 {
        assert(forall|i: int| 0 <= i < l.drop_last().len() ==> l.drop_last()[i] == l[i]);
        lemma_max_id_bound(l.drop_last());
        assert(l.last() == l[l.len() - 1]);
    }
}

/// Every id in the list is at most the maximum.
pub proof fn lemma_max_id_ge(l: Seq<SessionV>, i: int)
    requires
        0 <= i < l.len(),
    ensures
        l[i].id <= spec_max_id(l),
        spec_max_id(l) >= 0,
    decreases l.len(),
{
    if i < l.len() - 1 {
        lemma_max_id_ge(l.drop_last(), i);
        assert(l.drop_last()[i] == l[i]);
    } else {
        assert(l.last() == l[i]);
    }
}

/// A player with its heartbeat stamped to `now` when it is the one a
/// refresh addresses, otherwise unchanged.
pub open spec fn refresh_player(p: PlayerV, pid: u32, refresh: bool, now: u64) -> PlayerV {
    if refresh && p.id == pid {
        PlayerV { last_heartbeat: now, ..p }
    } else {
        p
    }
}

/// The players that survive a pruning pass, in order: each is refreshed
/// first when addressed, then kept exactly when still live at `now`.
pub open spec fn prune_players(ps: Seq<PlayerV>, pid: u32, refresh: bool, now: u64) -> Seq<
    PlayerV,
>
    decreases ps.len(),
{
    if ps.len() == 0 {
        Seq::empty()
    } else {
        let rest = prune_players(ps.drop_last(), pid, refresh, now);
        let p = refresh_player(ps.last(), pid, refresh, now);
        if live_at(p, now) {
            rest.push(p)
        } else {
            rest
        }
    }
}

/// One session after a pruning pass: the heartbeat refresh applies only
/// when the pass addresses this session.
pub open spec fn prune_session(s: SessionV, pid: u32, sid: u32, do_update: bool, now: u64) -> SessionV {
    SessionV {
        players: prune_players(s.players, pid, do_update && s.id == sid, now),
        ..s
    }
}

/// The whole list after a pruning pass: every session loses its stale
/// players, and a session left with none disappears.
pub open spec fn spec_prune(
    l: Seq<SessionV>,
    pid: u32,
    sid: u32,
    do_update: bool,
    now: u64,
) -> Seq<SessionV>
    decreases l.len(),
{
    if l.len() == 0 {
        Seq::empty()
    } else {
        let rest = spec_prune(l.drop_last(), pid, sid, do_update, now);
        let s = prune_session(l.last(), pid, sid, do_update, now);
        if s.players.len() > 0 {
            rest.push(s)
        } else {
            rest
        }
    }
}

/// Every survivor of a player-level pruning pass is live at `now`, is the
/// refresh of one of the original players, and distinct slots stay
/// distinct.
pub proof fn lemma_prune_players_props(ps: Seq<PlayerV>, pid: u32, refresh: bool, now: u64)
    ensures
        forall|k: int|
            0 <= k < prune_players(ps, pid, refresh, now).len() ==> {
                let q = #[trigger] prune_players(ps, pid, refresh, now)[k];
                live_at(q, now) && exists|i: int|
                    0 <= i < ps.len() && q == refresh_player(ps[i], pid, refresh, now)
            },
        prune_players(ps, pid, refresh, now).len() <= ps.len(),
        (forall|i: int, j: int| 0 <= i < j < ps.len() ==> ps[i].index != ps[j].index)
            ==> (forall|k: int, m: int|
            0 <= k < m < prune_players(ps, pid, refresh, now).len()
                ==> prune_players(ps, pid, refresh, now)[k].index != prune_players(
                ps,
                pid,
                refresh,
                now,
            )[m].index),
    decreases ps.len(),
{
    if ps.len() > 0 {
        lemma_prune_players_props(ps.drop_last(), pid, refresh, now);
        let rest = prune_players(ps.drop_last(), pid, refresh, now);
        let res = prune_players(ps, pid, refresh, now);
        let p = refresh_player(ps.last(), pid, refresh, now);
        assert forall|k: int| 0 <= k < res.len() implies {
            let q = #[trigger] res[k];
            live_at(q, now) && exists|i: int|
                0 <= i < ps.len() && q == refresh_player(ps[i], pid, refresh, now)
        } by {
            if k < rest.len() {
                let q = rest[k];
                let i = choose|i: int|
                    0 <= i < ps.drop_last().len() && q == refresh_player(
                        ps.drop_last()[i],
                        pid,
                        refresh,
                        now,
                    );
                assert(ps[i] == ps.drop_last()[i]);
                assert(res[k] == refresh_player(ps[i], pid, refresh, now));
            } else {
                assert(res[k] == p);
                assert(ps.last() == ps[ps.len() - 1]);
            }
        }
        if forall|i: int, j: int| 0 <= i < j < ps.len() ==> ps[i].index != ps[j].index {
            assert forall|k: int, m: int| 0 <= k < m < res.len() implies res[k].index
                != res[m].index by {
                if m < rest.len() {
                } else {
                    assert(res[m] == p);
                    let i = choose|i: int|
                        0 <= i < ps.drop_last().len() && res[k] == refresh_player(
                            ps.drop_last()[i],
                            pid,
                            refresh,
                            now,
                        );
                    assert(res[k].index == ps[i].index);
                    assert(ps[i].index != ps.last().index);
                }
            }
        }
    }
}

/// Pruning preserves well-formedness and leaves no empty session behind.
pub proof fn lemma_prune_wf(l: Seq<SessionV>, pid: u32, sid: u32, do_update: bool, now: u64)
    requires
        wf_sessions(l),
    ensures
        wf_sessions(spec_prune(l, pid, sid, do_update, now)),
        no_empty_sessions(spec_prune(l, pid, sid, do_update, now)),
        forall|k: int|
            0 <= k < spec_prune(l, pid, sid, do_update, now).len() ==> exists|i: int|
                0 <= i < l.len() && #[trigger] spec_prune(l, pid, sid, do_update, now)[k]
                    == prune_session(l[i], pid, sid, do_update, now),
    decreases l.len(),
{
    if l.len() > 0 {
        assert(wf_sessions(l.drop_last())) by {
            assert(forall|i: int|
                0 <= i < l.drop_last().len() ==> l.drop_last()[i] == l[i]);
        }
        lemma_prune_wf(l.drop_last(), pid, sid, do_update, now);
        let rest = spec_prune(l.drop_last(), pid, sid, do_update, now);
        let res = spec_prune(l, pid, sid, do_update, now);
        let s = prune_session(l.last(), pid, sid, do_update, now);
        assert(wf_session(l.last())) by {
            assert(l.last() == l[l.len() - 1]);
        }
        lemma_prune_players_props(
            l.last().players,
            pid,
            do_update && l.last().id == sid,
            now,
        );
        assert(wf_session(s));
        assert forall|k: int| 0 <= k < res.len() implies exists|i: int|
            0 <= i < l.len() && #[trigger] res[k] == prune_session(
                l[i],
                pid,
                sid,
                do_update,
                now,
            ) by {
            if k < rest.len() {
                let i = choose|i: int|
                    0 <= i < l.drop_last().len() && rest[k] == prune_session(
                        l.drop_last()[i],
                        pid,
                        sid,
                        do_update,
                        now,
                    );
                assert(l[i] == l.drop_last()[i]);
                assert(res[k] == prune_session(l[i], pid, sid, do_update, now));
            } else {
                assert(res[k] == s && l.last() == l[l.len() - 1]);
            }
        }
        assert forall|k: int, m: int| 0 <= k < m < res.len() implies res[k].id
            != res[m].id by {
            if m < rest.len() {
            } else {
                assert(res[m] == s);
                let i = choose|i: int|
                    0 <= i < l.drop_last().len() && res[k] == prune_session(
                        l.drop_last()[i],
                        pid,
                        sid,
                        do_update,
                        now,
                    );
                assert(res[k].id == l[i].id);
                assert(l[i].id != l.last().id);
            }
        }
    }
}

spec fn max_id_prefix(l: Seq<SessionV>, n: int) -> int {
    spec_max_id(l.subrange(0, n))
}

proof fn lemma_max_id_step(l: Seq<SessionV>, n: int)
    requires
        0 <= n < l.len(),
    ensures
        max_id_prefix(l, n + 1) == if l[n].id > max_id_prefix(l, n) {
            l[n].id as int
        } else {
            max_id_prefix(l, n)
        },
{
    let longer = l.subrange(0, n + 1);
    assert(longer.drop_last() =~= l.subrange(0, n));
    assert(longer.last() == l[n]);
}

/// One more than the largest session id in the list, 1 when the list is
/// empty. The result is exactly [`spec_next_id`] of the list.
pub fn get_next_id(sessions: &Vec<Session>) -> (id: u32)
    requires
        wf_sessions(sessions.deep_view()),
    ensures
        id as int == spec_next_id(sessions.deep_view()),
{
    let ghost l = sessions.deep_view();
    let mut highest: u32 = 0;
    let mut i: usize = 0;
    assert(l.subrange(0, 0) =~= Seq::empty());
    while i < sessions.len()
        invariant
            wf_sessions(l),
            l == sessions.deep_view(),
            i <= l.len(),
            highest as int == max_id_prefix(l, i as int),
            highest < u32::MAX,
        decreases l.len() - i,
    {
        proof {
            lemma_max_id_step(l, i as int);
            assert(l[i as int].id < u32::MAX);
        }
        if sessions[i].id > highest {
            highest = sessions[i].id;
        }
        i += 1;
    }
    assert(l.subrange(0, l.len() as int) =~= l);
    highest + 1
}

/// The matchmaking rank of a session, exactly [`spec_rank`]: occupancy,
/// with a full session pinned to the minimum so it can never be chosen.
pub fn rank_session(s: &Session) -> (rank: i32)
    requires
        wf_session(s.deep_view()),
    ensures
        rank as int == spec_rank(s.deep_view()),
{
    proof {
        lemma_session_capacity(s.deep_view());
    }
    if s.players.len() == 4 {
        i32::MIN
    } else {
        s.players.len() as i32
    }
}

/// The smallest free slot of a session, exactly [`spec_free_slot`];
/// reports `SlotsExhausted` when all four slots are occupied.
pub fn allocate_slot(session: &Session) -> (r: Result<usize, SessionError>)
    requires
        wf_session(session.deep_view()),
    ensures
        match r {
            Ok(slot) => spec_free_slot(session.deep_view()) == Some(slot),
            Err(e) => e == SessionError::SlotsExhausted && spec_free_slot(
                session.deep_view(),
            ) is None,
        },
{
    let ghost s = session.deep_view();
    let mut taken0 = false;
    let mut taken1 = false;
    let mut taken2 = false;
    let mut taken3 = false;
    let mut i: usize = 0;
    while i < session.players.len()
        invariant
            s == session.deep_view(),
            wf_session(s),
            i <= s.players.len(),
            taken0 == exists|j: int| 0 <= j < i && s.players[j].index == 0usize,
            taken1 == exists|j: int| 0 <= j < i && s.players[j].index == 1usize,
            taken2 == exists|j: int| 0 <= j < i && s.players[j].index == 2usize,
            taken3 == exists|j: int| 0 <= j < i && s.players[j].index == 3usize,
        decreases s.players.len() - i,
    {
        let slot = session.players[i].index;
        proof {
            assert(wf_player(s.players[i as int]));
        }
        if slot == 0 {
            taken0 = true;
        } else if slot == 1 {
            taken1 = true;
        } else if slot == 2 {
            taken2 = true;
        } else {
            assert(s.players[i as int].index == 3usize);
            taken3 = true;
        }
        i += 1;
    }
    if !taken0 {
        Ok(0)
    } else if !taken1 {
        Ok(1)
    } else if !taken2 {
        Ok(2)
    } else if !taken3 {
        Ok(3)
    } else {
        Err(SessionError::SlotsExhausted)
    }
}

/// The liveness pruning pass: optionally stamp the addressed
/// player's heartbeat to `now`, remove every player whose idle time has
/// reached the staleness threshold, and drop every session left empty.
/// The result is exactly [`spec_prune`] of the input.
pub fn prune_stale_sessions(
    sessions: &mut Vec<Session>,
    playerid: u32,
    sessionid: u32,
    do_update: bool,
    now: u64,
)
    ensures
        final(sessions).deep_view() == spec_prune(
            old(sessions).deep_view(),
            playerid,
            sessionid,
            do_update,
            now,
        ),
        wf_sessions(old(sessions).deep_view()) ==> wf_sessions(final(sessions).deep_view()),
{
    let ghost l = sessions.deep_view();
    let mut out: Vec<Session> = Vec::new();
    assert(l.subrange(0, 0) =~= Seq::<SessionV>::empty());
    assert(sessions.deep_view() =~= l.subrange(0, l.len() as int));
    while sessions.len() > 0
        invariant
            sessions@.len() <= l.len(),
            sessions.deep_view() =~= l.subrange(
                l.len() - sessions@.len(),
                l.len() as int,
            ),
            out.deep_view() =~= spec_prune(
                l.subrange(0, l.len() - sessions@.len()),
                playerid,
                sessionid,
                do_update,
                now,
            ),
        decreases sessions@.len(),
    {
        let ghost done = l.len() - sessions@.len();
        let ghost rem = sessions.deep_view();
        let ghost remv = sessions@;
        let mut s = sessions.remove(0);
        proof {
            assert(s.deep_view() == rem[0]);
            assert(rem[0] == l[done]);
            assert(sessions.deep_view() =~= l.subrange(done + 1, l.len() as int)) by {
                assert forall|j: int| 0 <= j < sessions.deep_view().len() implies
                    sessions.deep_view()[j] == l.subrange(done + 1, l.len() as int)[j] by {
                    assert(sessions@ =~= remv.subrange(1, remv.len() as int));
                    assert(sessions@[j] == remv[j + 1]);
                    assert(sessions.deep_view()[j] == remv[j + 1].deep_view());
                    assert(remv[j + 1].deep_view() == rem[j + 1]);
                }
            }
        }
        let refresh = do_update && s.id == sessionid;
        let ghost pv = l[done].players;
        let mut kept: Vec<Player> = Vec::new();
        assert(pv.subrange(0, 0) =~= Seq::<PlayerV>::empty());
        assert(s.players.deep_view() =~= pv.subrange(0, pv.len() as int));
        while s.players.len() > 0
            invariant
                s.players@.len() <= pv.len(),
                refresh == (do_update && s.id == sessionid),
                s.id == l[done].id,
                s.pop@ == l[done].pop,
                0 <= done < l.len(),
                pv == l[done].players,
                s.players.deep_view() =~= pv.subrange(
                    pv.len() - s.players@.len(),
                    pv.len() as int,
                ),
                kept.deep_view() =~= prune_players(
                    pv.subrange(0, pv.len() - s.players@.len()),
                    playerid,
                    refresh,
                    now,
                ),
            decreases s.players@.len(),
        {
            let ghost pdone = pv.len() - s.players@.len();
            let ghost prem = s.players.deep_view();
            let ghost premv = s.players@;
            let mut p = s.players.remove(0);
            proof {
                assert(p.deep_view() == prem[0]);
                assert(prem[0] == pv[pdone]);
                assert(s.players.deep_view() =~= pv.subrange(pdone + 1, pv.len() as int)) by {
                    assert forall|j: int| 0 <= j < s.players.deep_view().len() implies
                        s.players.deep_view()[j] == pv.subrange(pdone + 1, pv.len() as int)[j] by {
                        assert(s.players@ =~= premv.subrange(1, premv.len() as int));
                        assert(s.players@[j] == premv[j + 1]);
                        assert(s.players.deep_view()[j] == premv[j + 1].deep_view());
                        assert(premv[j + 1].deep_view() == prem[j + 1]);
                    }
                }
            }
            if refresh && p.id == playerid {
                p.last_heartbeat = now;
            }
            let ghost rp = refresh_player(pv[pdone], playerid, refresh, now);
            assert(p.deep_view() == rp);
            let ghost kept_before = kept.deep_view();
            if now <= p.last_heartbeat || now - p.last_heartbeat < STALE_AFTER_MILLIS {
                assert(live_at(rp, now));
                kept.push(p);
                assert(kept.deep_view() =~= kept_before.push(rp));
            } else {
                assert(!live_at(rp, now));
            }
            proof {
                let pre = pv.subrange(0, pdone);
                let cur = pv.subrange(0, pdone + 1);
                assert(cur.drop_last() =~= pre);
                assert(cur.last() == pv[pdone]);
            }
        }
        assert(pv.subrange(0, pv.len() as int) =~= pv);
        let ghost out_before = out.deep_view();
        let ghost ps = prune_session(l[done], playerid, sessionid, do_update, now);
        assert(kept.deep_view() == ps.players);
        if kept.len() > 0 {
            let pruned = Session { id: s.id, pop: s.pop, players: kept };
            assert(pruned.deep_view() == ps);
            out.push(pruned);
            assert(out.deep_view() =~= out_before.push(ps));
        }
        proof {
            let pre = l.subrange(0, done);
            let cur = l.subrange(0, done + 1);
            assert(cur.drop_last() =~= pre);
            assert(cur.last() == l[done]);
        }
    }
    assert(l.subrange(0, l.len() as int) =~= l);
    *sessions = out;
    proof {
        if wf_sessions(l) {
            lemma_prune_wf(l, playerid, sessionid, do_update, now);
        }
    }
}

proof fn lemma_prune_players_keeps(ps: Seq<PlayerV>, pid: u32, refresh: bool, now: u64)
    ensures
        forall|j: int|
            0 <= j < ps.len() && live_at(refresh_player(#[trigger] ps[j], pid, refresh, now), now)
                ==> prune_players(ps, pid, refresh, now).contains(
                refresh_player(ps[j], pid, refresh, now),
            ),
    decreases ps.len(),
{
    if ps.len() > 0 {
        lemma_prune_players_keeps(ps.drop_last(), pid, refresh, now);
        let rest = prune_players(ps.drop_last(), pid, refresh, now);
        let res = prune_players(ps, pid, refresh, now);
        assert forall|j: int|
            0 <= j < ps.len() && live_at(
                refresh_player(#[trigger] ps[j], pid, refresh, now),
                now,
            ) implies res.contains(refresh_player(ps[j], pid, refresh, now)) by {
            let q = refresh_player(ps[j], pid, refresh, now);
            if j < ps.len() - 1 {
                assert(ps.drop_last()[j] == ps[j]);
                assert(rest.contains(q));
                let m = choose|m: int| 0 <= m < rest.len() && rest[m] == q;
                assert(res[m] == q);
            } else {
                assert(ps.last() == ps[j]);
                assert(res[res.len() - 1] == q);
            }
        }
    }
}

/// The liveness pass is exact: every surviving player is
/// live, every live player survives inside a session that keeps its id,
/// and a session emptied of players disappears from the list.
pub proof fn lemma_prune_exact(l: Seq<SessionV>, pid: u32, sid: u32, do_update: bool, now: u64)
    ensures
        forall|k: int, m: int|
            0 <= k < spec_prune(l, pid, sid, do_update, now).len() && 0 <= m < (
            #[trigger] spec_prune(l, pid, sid, do_update, now)[k]).players.len() ==> live_at(
                #[trigger] spec_prune(l, pid, sid, do_update, now)[k].players[m],
                now,
            ),
        forall|i: int, j: int|
            0 <= i < l.len() && 0 <= j < (#[trigger] l[i]).players.len() && live_at(
                refresh_player(
                    #[trigger] l[i].players[j],
                    pid,
                    do_update && l[i].id == sid,
                    now,
                ),
                now,
            ) ==> exists|k: int|
                0 <= k < spec_prune(l, pid, sid, do_update, now).len() && (
                #[trigger] spec_prune(l, pid, sid, do_update, now)[k]).id == l[i].id
                    && spec_prune(l, pid, sid, do_update, now)[k].players.contains(
                    refresh_player(l[i].players[j], pid, do_update && l[i].id == sid, now),
                ),
        no_empty_sessions(spec_prune(l, pid, sid, do_update, now)),
    decreases l.len(),
{
    let res = spec_prune(l, pid, sid, do_update, now);
    assert forall|k: int, m: int|
        0 <= k < res.len() && 0 <= m < (#[trigger] res[k]).players.len() implies live_at(
        #[trigger] res[k].players[m],
        now,
    ) by {
        lemma_prune_live(l, pid, sid, do_update, now);
    }
    if l.len() > 0 {
        lemma_prune_exact(l.drop_last(), pid, sid, do_update, now);
        let rest = spec_prune(l.drop_last(), pid, sid, do_update, now);
        let s = prune_session(l.last(), pid, sid, do_update, now);
        assert forall|i: int, j: int|
            0 <= i < l.len() && 0 <= j < (#[trigger] l[i]).players.len() && live_at(
                refresh_player(
                    #[trigger] l[i].players[j],
                    pid,
                    do_update && l[i].id == sid,
                    now,
                ),
                now,
            ) implies exists|k: int|
            0 <= k < spec_prune(l, pid, sid, do_update, now).len() && (
            #[trigger] spec_prune(l, pid, sid, do_update, now)[k]).id == l[i].id && spec_prune(
                l,
                pid,
                sid,
                do_update,
                now,
            )[k].players.contains(
                refresh_player(l[i].players[j], pid, do_update && l[i].id == sid, now),
            ) by {
            let q = refresh_player(l[i].players[j], pid, do_update && l[i].id == sid, now);
            if i < l.len() - 1 {
                assert(l.drop_last()[i] == l[i]);
                let k = choose|k: int|
                    0 <= k < rest.len() && (#[trigger] rest[k]).id == l[i].id
                        && rest[k].players.contains(q);
                assert(res[k].id == l[i].id && res[k].players.contains(q));
            } else {
                assert(l.last() == l[i]);
                lemma_prune_players_keeps(
                    l.last().players,
                    pid,
                    do_update && l.last().id == sid,
                    now,
                );
                assert(s.players.contains(q));
                assert(s.players.len() > 0);
                let k = res.len() - 1;
                assert(res[k] == s);
            }
        }
    }
}

proof fn lemma_prune_live(l: Seq<SessionV>, pid: u32, sid: u32, do_update: bool, now: u64)
    ensures
        forall|k: int, m: int|
            0 <= k < spec_prune(l, pid, sid, do_update, now).len() && 0 <= m < (
            #[trigger] spec_prune(l, pid, sid, do_update, now)[k]).players.len() ==> live_at(
                #[trigger] spec_prune(l, pid, sid, do_update, now)[k].players[m],
                now,
            ),
        no_empty_sessions(spec_prune(l, pid, sid, do_update, now)),
    decreases l.len(),
{
    let res = spec_prune(l, pid, sid, do_update, now);
    if l.len() > 0 {
        lemma_prune_live(l.drop_last(), pid, sid, do_update, now);
        let rest = spec_prune(l.drop_last(), pid, sid, do_update, now);
        let s = prune_session(l.last(), pid, sid, do_update, now);
        lemma_prune_players_props(l.last().players, pid, do_update && l.last().id == sid, now);
        assert forall|k: int, m: int|
            0 <= k < res.len() && 0 <= m < (#[trigger] res[k]).players.len() implies live_at(
            #[trigger] res[k].players[m],
            now,
        ) by {
            if k < rest.len() {
                assert(res[k] == rest[k]);
            } else {
                assert(res[k] == s);
            }
        }
    }
}

proof fn lemma_prune_players_identity(ps: Seq<PlayerV>, pid: u32, now: u64)
    requires
        forall|j: int| 0 <= j < ps.len() ==> live_at(#[trigger] ps[j], now),
    ensures
        prune_players(ps, pid, false, now) == ps,
    decreases ps.len(),
{
    if ps.len() > 0 {
        assert(forall|j: int|
            0 <= j < ps.drop_last().len() ==> #[trigger] ps.drop_last()[j] == ps[j]);
        lemma_prune_players_identity(ps.drop_last(), pid, now);
        assert(ps.last() == ps[ps.len() - 1]);
        assert(refresh_player(ps.last(), pid, false, now) == ps.last());
        assert(prune_players(ps, pid, false, now) =~= ps);
    }
}

/// A list whose players are all live and whose sessions are all occupied
/// passes a refresh-free pruning pass unchanged.
proof fn lemma_prune_identity(l: Seq<SessionV>, pid: u32, sid: u32, now: u64)
    requires
        forall|i: int, j: int|
            0 <= i < l.len() && 0 <= j < (#[trigger] l[i]).players.len() ==> live_at(
                #[trigger] l[i].players[j],
                now,
            ),
        no_empty_sessions(l),
    ensures
        spec_prune(l, pid, sid, false, now) == l,
    decreases l.len(),
{
    if l.len() > 0 {
        assert(forall|i: int|
            0 <= i < l.drop_last().len() ==> #[trigger] l.drop_last()[i] == l[i]);
        lemma_prune_identity(l.drop_last(), pid, sid, now);
        assert(l.last() == l[l.len() - 1]);
        lemma_prune_players_identity(l.last().players, pid, now);
        let s = prune_session(l.last(), pid, sid, false, now);
        assert(s =~= l.last());
        assert(s.players.len() > 0);
        assert(spec_prune(l, pid, sid, false, now) =~= l);
    }
}

/// Matchmaking is idempotent: a second best-session join for the same
/// player at the same time hands back the identical session id, slot and
/// region, and leaves the list exactly as the first call persisted it,
/// whatever name or pop hint the repeat carries.
pub proof fn lemma_join_best_idempotent(
    l: Seq<SessionV>,
    id: u32,
    name1: Seq<char>,
    hint1: Seq<char>,
    name2: Seq<char>,
    hint2: Seq<char>,
    now: u64,
)
    requires
        wf_sessions(l),
    ensures
        ({
            let first = spec_join_best(l, id, name1, hint1, now);
            spec_join_best(first.list, id, name2, hint2, now) == first
        }),
{
    let pruned = spec_prune(l, 0, 0, false, now);
    let first = spec_join_best(l, id, name1, hint1, now);
    lemma_prune_wf(l, 0, 0, false, now);
    lemma_prune_exact(l, 0, 0, false, now);
    if has_player(pruned, id) {
        lemma_prune_identity(pruned, 0, 0, now);
        assert(spec_join_best(first.list, id, name2, hint2, now) =~= first);
    } else if spec_best_index(pruned) >= 0 {
        lemma_best_index_props(pruned);
        let i = spec_best_index(pruned);
        let s = pruned[i];
        let slot = spec_free_slot(s)->0;
        let np = new_player(id, name1, slot, now);
        let s2 = with_player(s, np);
        let list1 = pruned.update(i, s2);
        assert(!session_has_player(s, id)) by {
            if session_has_player(s, id) {
                assert(has_player(pruned, id));
            }
        }
        assert forall|k: int, m: int|
            0 <= k < list1.len() && 0 <= m < (#[trigger] list1[k]).players.len() implies live_at(
            #[trigger] list1[k].players[m],
            now,
        ) by {
            if k != i {
                assert(list1[k] == pruned[k]);
            } else {
                if m < s.players.len() {
                    assert(list1[k].players[m] == s.players[m]);
                    assert(live_at(pruned[i].players[m], now));
                } else {
                    assert(list1[k].players[m] == np);
                }
            }
        }
        assert(no_empty_sessions(list1)) by {
            assert forall|k: int| 0 <= k < list1.len() implies (
            #[trigger] list1[k]).players.len() > 0 by {
                if k != i {
                    assert(list1[k] == pruned[k]);
                }
            }
        }
        lemma_prune_identity(list1, 0, 0, now);
        assert(session_has_player(list1[i], id)) by {
            assert(s2.players[s.players.len() as int] == np);
        }
        assert(has_player(list1, id));
        lemma_first_idx_with_player_props(list1, id);
        let idx = first_idx_with_player(list1, id);
        assert(idx == i) by {
            if idx < i {
                assert(list1[idx] == pruned[idx]);
                assert(!session_has_player(pruned[idx], id)) by {
                    if session_has_player(pruned[idx], id) {
                        assert(has_player(pruned, id));
                    }
                }
            }
            if idx > i {
                assert(!session_has_player(list1[i], id));
            }
        }
        lemma_first_player_idx_props(s2, id);
        let j2 = first_player_idx(s2, id);
        assert(j2 == s.players.len()) by {
            assert(s2.players[s.players.len() as int].id == id);
            if j2 < s.players.len() {
                assert(s2.players[j2] == s.players[j2]);
                assert(session_has_player(s, id));
            }
        }
        assert(s2.players[j2].index == slot);
        assert(spec_join_best(first.list, id, name2, hint2, now) =~= first);
    } else {
        lemma_max_id_bound(pruned);
        let sid = spec_next_id(pruned) as u32;
        let ns = SessionV { id: sid, pop: hint1, players: seq![new_player(id, name1, 0, now)] };
        let list1 = pruned.push(ns);
        assert forall|k: int, m: int|
            0 <= k < list1.len() && 0 <= m < (#[trigger] list1[k]).players.len() implies live_at(
            #[trigger] list1[k].players[m],
            now,
        ) by {
            if k < pruned.len() {
                assert(list1[k] == pruned[k]);
            } else {
                assert(list1[k] == ns);
                assert(ns.players[m] == new_player(id, name1, 0, now));
            }
        }
        assert(no_empty_sessions(list1)) by {
            assert forall|k: int| 0 <= k < list1.len() implies (
            #[trigger] list1[k]).players.len() > 0 by {
                if k < pruned.len() {
                    assert(list1[k] == pruned[k]);
                }
            }
        }
        lemma_prune_identity(list1, 0, 0, now);
        assert(session_has_player(ns, id)) by {
            assert(ns.players[0].id == id);
        }
        assert(list1[pruned.len() as int] == ns);
        assert(has_player(list1, id));
        lemma_first_idx_with_player_props(list1, id);
        let idx = first_idx_with_player(list1, id);
        assert(idx == pruned.len()) by {
            if idx < pruned.len() {
                assert(list1[idx] == pruned[idx]);
                assert(!session_has_player(pruned[idx], id)) by {
                    if session_has_player(pruned[idx], id) {
                        assert(has_player(pruned, id));
                    }
                }
            }
        }
        lemma_first_player_idx_props(ns, id);
        assert(first_player_idx(ns, id) == 0);
        assert(ns.players[0].index == 0);
        assert(spec_join_best(first.list, id, name2, hint2, now) =~= first);
    }
}

/// Create a fresh session under the next id, seating the player in slot 0
/// with the caller's pop hint as the session's region.
pub fn create_session(
    sessions: &mut Vec<Session>,
    playerid: u32,
    name: &str,
    pop: &str,
    now: u64,
) -> (id: u32)
    requires
        wf_sessions(old(sessions).deep_view()),
    ensures
        id as int == spec_next_id(old(sessions).deep_view()),
        final(sessions).deep_view() == old(sessions).deep_view().push(
            SessionV {
                id: id,
                pop: pop@,
                players: seq![new_player(playerid, name@, 0, now)],
            },
        ),
        id < u32::MAX ==> wf_sessions(final(sessions).deep_view()),
{
    let ghost l = sessions.deep_view();
    let sessionid = get_next_id(sessions);
    let new_pl = Player {
        id: playerid,
        name: name.to_owned(),
        index: 0,
        last_heartbeat: now,
        pops: Vec::new(),
    };
    assert(new_pl.deep_view() =~= new_player(playerid, name@, 0, now));
    let mut players: Vec<Player> = Vec::new();
    players.push(new_pl);
    let new_session = Session { id: sessionid, pop: pop.to_owned(), players: players };
    let ghost sv = SessionV { id: sessionid, pop: pop@, players: seq![new_player(playerid, name@, 0, now)] };
    assert(new_session.deep_view() =~= sv);
    let ghost before = sessions.deep_view();
    sessions.push(new_session);
    assert(sessions.deep_view() =~= before.push(sv));
    proof {
        if sessionid < u32::MAX {
            assert forall|i: int, j: int|
                0 <= i < j < sessions.deep_view().len() implies sessions.deep_view()[i].id
                != sessions.deep_view()[j].id by {
                if j == l.len() as int {
                    lemma_max_id_ge(l, i);
                }
            }
            assert(wf_session(sv));
        }
    }
    sessionid
}

/// Seat the player on the lowest free slot of the session standing at
/// `session_index`, handing back the slot and the session's region;
/// `SlotsExhausted` when the session is full, leaving the list unchanged.
pub fn join_session_by_index(
    sessions: &mut Vec<Session>,
    session_index: usize,
    id: u32,
    name: &str,
    now: u64,
) -> (r: Result<(usize, String), SessionError>)
    requires
        wf_sessions(old(sessions).deep_view()),
        session_index < old(sessions)@.len(),
    ensures
        wf_sessions(final(sessions).deep_view()),
        match r {
            Ok((slot, pop)) => {
                let s = old(sessions).deep_view()[session_index as int];
                &&& spec_free_slot(s) == Some(slot)
                &&& pop@ == s.pop
                &&& final(sessions).deep_view() == old(sessions).deep_view().update(
                    session_index as int,
                    with_player(s, new_player(id, name@, slot, now)),
                )
            },
            Err(e) => {
                &&& e == SessionError::SlotsExhausted
                &&& spec_free_slot(old(sessions).deep_view()[session_index as int]) is None
                &&& final(sessions).deep_view() == old(sessions).deep_view()
            },
        },
{
    let ghost l = sessions.deep_view();
    match allocate_slot(&sessions[session_index]) {
        Ok(slot) => {
            let ghost s = l[session_index as int];
            let pop = sessions[session_index].pop.clone();
            let new_pl = Player {
                id: id,
                name: name.to_owned(),
                index: slot,
                last_heartbeat: now,
                pops: Vec::new(),
            };
            assert(new_pl.deep_view() =~= new_player(id, name@, slot, now));
            let ghost pls = sessions[session_index as int].players.deep_view();
            sessions[session_index].players.push(new_pl);
            proof {
                let t = with_player(s, new_player(id, name@, slot, now));
                assert(sessions.deep_view()[session_index as int].players =~= t.players);
                assert(sessions.deep_view()[session_index as int] =~= t);
                assert(sessions.deep_view() =~= l.update(session_index as int, t));
                assert(!slot_taken(s, slot));
                lemma_join_slot_wf(s, new_player(id, name@, slot, now));
                assert forall|i: int|
                    0 <= i < sessions.deep_view().len() implies wf_session(
                    #[trigger] sessions.deep_view()[i],
                ) by {
                    if i != session_index as int {
                        assert(sessions.deep_view()[i] == l[i]);
                    }
                }
            }
            Ok((slot, pop))
        },
        Err(e) => Err(e),
    }
}

/// The direct join: find the session carrying `session_id`; if the player
/// already holds a slot there, hand it back unchanged (an idempotent
/// rejoin), else seat it on the lowest free slot. `NotFound` when no
/// session carries the id, `SlotsExhausted` when the session is full; the
/// list is unchanged in both failing cases.
pub fn join_session(
    sessions: &mut Vec<Session>,
    session_id: u32,
    id: u32,
    name: &str,
    now: u64,
) -> (r: Result<(usize, String), SessionError>)
    requires
        wf_sessions(old(sessions).deep_view()),
    ensures
        wf_sessions(final(sessions).deep_view()),
        ({
            let l = old(sessions).deep_view();
            let i = session_idx_by_id(l, session_id);
            match r {
                Ok((slot, pop)) => has_session(l, session_id) && {
                    let s = l[i];
                    if session_has_player(s, id) {
                        &&& slot == s.players[first_player_idx(s, id)].index
                        &&& pop@ == s.pop
                        &&& final(sessions).deep_view() == l
                    } else {
                        &&& spec_free_slot(s) == Some(slot)
                        &&& pop@ == s.pop
                        &&& final(sessions).deep_view() == l.update(
                            i,
                            with_player(s, new_player(id, name@, slot, now)),
                        )
                    }
                },
                Err(SessionError::NotFound) => {
                    &&& !has_session(l, session_id)
                    &&& final(sessions).deep_view() == l
                },
                Err(SessionError::SlotsExhausted) => {
                    &&& has_session(l, session_id)
                    &&& !session_has_player(l[i], id)
                    &&& spec_free_slot(l[i]) is None
                    &&& final(sessions).deep_view() == l
                },
                Err(SessionError::NoSamples) => false,
            }
        }),
{
    let ghost l = sessions.deep_view();
    proof {
        lemma_session_idx_by_id_props(l, session_id);
    }
    let mut session_index: usize = 0;
    let mut found = false;
    while session_index < sessions.len() && !found
        invariant
            wf_sessions(l),
            l == sessions.deep_view(),
            session_index <= l.len(),
            !found ==> forall|i: int|
                0 <= i < session_index ==> (#[trigger] l[i]).id != session_id,
            found ==> session_index < l.len() && l[session_index as int].id == session_id
                && forall|i: int| 0 <= i < session_index ==> (#[trigger] l[i]).id != session_id,
        decreases l.len() - session_index + if found { 0int } else { 1int },
    {
        if sessions[session_index].id == session_id {
            found = true;
        } else {
            session_index += 1;
        }
    }
    if !found {
        assert(!has_session(l, session_id)) by {
            if has_session(l, session_id) {
                let i = choose|i: int| 0 <= i < l.len() && (#[trigger] l[i]).id == session_id;
                assert(l[i].id != session_id);
            }
        }
        return Err(SessionError::NotFound);
    }
    assert(session_index as int == session_idx_by_id(l, session_id));
    let ghost s = l[session_index as int];
    proof {
        lemma_first_player_idx_props(s, id);
    }
    let mut j: usize = 0;
    while j < sessions[session_index].players.len()
        invariant
            wf_sessions(l),
            l == sessions.deep_view(),
            session_index < l.len(),
            session_index as int == session_idx_by_id(l, session_id),
            has_session(l, session_id),
            s == l[session_index as int],
            j <= s.players.len(),
            forall|k: int| 0 <= k < j ==> (#[trigger] s.players[k]).id != id,
        decreases s.players.len() - j,
    {
        if sessions[session_index].players[j].id == id {
            proof {
                lemma_first_player_idx_props(s, id);
                assert(s.players[j as int].id == id);
                assert(session_has_player(s, id));
                assert(j as int == first_player_idx(s, id));
            }
            let slot = sessions[session_index].players[j].index;
            let pop = sessions[session_index].pop.clone();
            return Ok((slot, pop));
        }
        j += 1;
    }
    assert(!session_has_player(s, id)) by {
        if session_has_player(s, id) {
            let k = choose|k: int| 0 <= k < s.players.len() && s.players[k].id == id;
            assert(s.players[k].id != id);
        }
    }
    join_session_by_index(sessions, session_index, id, name, now)
}

/// The outcome of a best-session join: the list as it is persisted, and
/// the (session id, slot, region) triple handed back to the caller.
#[verifier::ext_equal]
pub struct JoinOutcome {
    pub list: Seq<SessionV>,
    pub session_id: u32,
    pub slot: usize,
    pub region: Seq<char>,
}

/// The whole effect of a best-session join. The list is pruned first; a
/// player already seated somewhere gets its seat back unchanged; else the
/// first session of strictly highest rank takes the player on its lowest
/// free slot; when every session is full (or none exists), a fresh
/// session under the next id seats the player in slot 0 with the caller's
/// pop hint as its region.
pub open spec fn spec_join_best(
    l: Seq<SessionV>,
    id: u32,
    name: Seq<char>,
    pop_hint: Seq<char>,
    now: u64,
) -> JoinOutcome {
    let pruned = spec_prune(l, 0, 0, false, now);
    if has_player(pruned, id) {
        let s = pruned[first_idx_with_player(pruned, id)];
        JoinOutcome {
            list: pruned,
            session_id: s.id,
            slot: s.players[first_player_idx(s, id)].index,
            region: s.pop,
        }
    } else if spec_best_index(pruned) >= 0 {
        let i = spec_best_index(pruned);
        let s = pruned[i];
        let slot = spec_free_slot(s)->0;
        JoinOutcome {
            list: pruned.update(i, with_player(s, new_player(id, name, slot, now))),
            session_id: s.id,
            slot: slot,
            region: s.pop,
        }
    } else {
        let sid = spec_next_id(pruned) as u32;
        JoinOutcome {
            list: pruned.push(
                SessionV { id: sid, pop: pop_hint, players: seq![new_player(id, name, 0, now)] },
            ),
            session_id: sid,
            slot: 0,
            region: pop_hint,
        }
    }
}

/// The matchmaking join: prune, rejoin idempotently if the
/// player is already seated, else fill the fullest non-full session, else
/// open a fresh one. The result and the new list are exactly
/// [`spec_join_best`] of the input.
pub fn join_best(
    sessions: &mut Vec<Session>,
    id: u32,
    name: &str,
    pop_hint: &str,
    now: u64,
) -> (r: (u32, usize, String))
    requires
        wf_sessions(old(sessions).deep_view()),
    ensures
        ({
            let out = spec_join_best(old(sessions).deep_view(), id, name@, pop_hint@, now);
            &&& final(sessions).deep_view() == out.list
            &&& r.0 == out.session_id
            &&& r.1 == out.slot
            &&& r.2@ == out.region
        }),
        r.0 < u32::MAX ==> wf_sessions(final(sessions).deep_view()),
{
    let ghost l0 = sessions.deep_view();
    prune_stale_sessions(sessions, 0, 0, false, now);
    proof {
        lemma_prune_wf(l0, 0, 0, false, now);
    }
    let ghost pruned = sessions.deep_view();
    let ghost out = spec_join_best(l0, id, name@, pop_hint@, now);

    // Idempotent rejoin: a player already seated gets its seat back.
    let mut i: usize = 0;
    while i < sessions.len()
        invariant
            l0 == old(sessions).deep_view(),
            wf_sessions(pruned),
            pruned == sessions.deep_view(),
            pruned == spec_prune(l0, 0, 0, false, now),
            out == spec_join_best(l0, id, name@, pop_hint@, now),
            i <= pruned.len(),
            forall|k: int| 0 <= k < i ==> !session_has_player(#[trigger] pruned[k], id),
        decreases pruned.len() - i,
    {
        let mut j: usize = 0;
        while j < sessions[i].players.len()
            invariant
                l0 == old(sessions).deep_view(),
                wf_sessions(pruned),
                pruned == sessions.deep_view(),
                pruned == spec_prune(l0, 0, 0, false, now),
                out == spec_join_best(l0, id, name@, pop_hint@, now),
                i < pruned.len(),
                j <= pruned[i as int].players.len(),
                forall|k: int| 0 <= k < i ==> !session_has_player(#[trigger] pruned[k], id),
                forall|m: int| 0 <= m < j ==> (#[trigger] pruned[i as int].players[m]).id != id,
            decreases pruned[i as int].players.len() - j,
        {
            if sessions[i].players[j].id == id {
                let slot = sessions[i].players[j].index;
                let sid = sessions[i].id;
                let pop = sessions[i].pop.clone();
                proof {
                    let s = pruned[i as int];
                    assert(s.players[j as int].id == id);
                    assert(session_has_player(s, id));
                    assert(has_player(pruned, id));
                    lemma_first_idx_with_player_props(pruned, id);
                    assert(i as int == first_idx_with_player(pruned, id));
                    lemma_first_player_idx_props(s, id);
                    assert(j as int == first_player_idx(s, id));
                    assert(s.id < u32::MAX);
                }
                return (sid, slot, pop);
            }
            j += 1;
        }
        proof {
            let s = pruned[i as int];
            if session_has_player(s, id) {
                let m = choose|m: int| 0 <= m < s.players.len() && s.players[m].id == id;
                assert(s.players[m].id != id);
            }
        }
        i += 1;
    }
    proof {
        if has_player(pruned, id) {
            let k = choose|k: int|
                0 <= k < pruned.len() && session_has_player(#[trigger] pruned[k], id);
            assert(!session_has_player(pruned[k], id));
        }
    }

    // Rank every session; the first of strictly highest rank wins, and a
    // full session never does.
    let mut best: i32 = i32::MIN;
    let mut best_index: usize = 0;
    let mut have_best = false;
    let mut k: usize = 0;
    assert(pruned.subrange(0, 0) =~= Seq::<SessionV>::empty());
    while k < sessions.len()
        invariant
            wf_sessions(pruned),
            pruned == sessions.deep_view(),
            k <= pruned.len(),
            !have_best ==> spec_best_index(pruned.subrange(0, k as int)) == -1 && best
                == i32::MIN,
            have_best ==> best_index < k && spec_best_index(pruned.subrange(0, k as int))
                == best_index as int && best as int == spec_rank(pruned[best_index as int]),
        decreases pruned.len() - k,
    {
        proof {
            let pre = pruned.subrange(0, k as int);
            let cur = pruned.subrange(0, k as int + 1);
            assert(cur.drop_last() =~= pre);
            assert(cur.last() == pruned[k as int]);
            if have_best {
                assert(pre[best_index as int] == pruned[best_index as int]);
            }
        }
        let rank = rank_session(&sessions[k]);
        if rank > best {
            best = rank;
            best_index = k;
            have_best = true;
        }
        k += 1;
    }
    assert(pruned.subrange(0, pruned.len() as int) =~= pruned);

    if have_best {
        let sid = sessions[best_index].id;
        proof {
            lemma_best_session_not_full(pruned);
            lemma_not_full_has_free(pruned[best_index as int]);
        }
        match join_session_by_index(sessions, best_index, id, name, now) {
            Ok((slot, pop)) => (sid, slot, pop),
            Err(_) => unreached(),
        }
    } else {
        let sid = create_session(sessions, id, name, pop_hint, now);
        proof {
            lemma_max_id_bound(pruned);
            assert(spec_next_id(pruned) as u32 == sid);
        }
        (sid, 0, pop_hint.to_owned())
    }
}

/// `p` with its display name overwritten when it is the addressed player.
pub open spec fn rename_player(p: PlayerV, pid: u32, name: Seq<char>) -> PlayerV {
    if p.id == pid {
        PlayerV { name: name, ..p }
    } else {
        p
    }
}

/// `s` with the addressed player renamed when `s` is the addressed session.
pub open spec fn rename_session(s: SessionV, sid: u32, pid: u32, name: Seq<char>) -> SessionV {
    if s.id == sid {
        SessionV { players: s.players.map_values(|p: PlayerV| rename_player(p, pid, name)), ..s }
    } else {
        s
    }
}

/// The list after a rename: a no-op wherever the ids do not match.
pub open spec fn spec_rename(l: Seq<SessionV>, sid: u32, pid: u32, name: Seq<char>) -> Seq<
    SessionV,
> {
    l.map_values(|s: SessionV| rename_session(s, sid, pid, name))
}

/// `s` with its region overwritten when it is the addressed session.
pub open spec fn set_region_session(s: SessionV, sid: u32, region: Seq<char>) -> SessionV {
    if s.id == sid {
        SessionV { pop: region, ..s }
    } else {
        s
    }
}

/// The list after a region update: a no-op wherever the id does not match.
pub open spec fn spec_set_region(l: Seq<SessionV>, sid: u32, region: Seq<char>) -> Seq<
    SessionV,
> {
    l.map_values(|s: SessionV| set_region_session(s, sid, region))
}

/// `p` with its whole sample batch replaced when it is the addressed player.
pub open spec fn report_player(p: PlayerV, pid: u32, samples: Seq<PopV>) -> PlayerV {
    if p.id == pid {
        PlayerV { pops: samples, ..p }
    } else {
        p
    }
}

/// `s` with the addressed player's samples replaced when `s` is the
/// addressed session.
pub open spec fn report_session(s: SessionV, sid: u32, pid: u32, samples: Seq<PopV>) -> SessionV {
    if s.id == sid {
        SessionV {
            players: s.players.map_values(|p: PlayerV| report_player(p, pid, samples)),
            ..s
        }
    } else {
        s
    }
}

/// The list after a ping report: the addressed player's batch is replaced
/// wholesale — never merged — and nothing else moves.
pub open spec fn spec_report_pings(
    l: Seq<SessionV>,
    sid: u32,
    pid: u32,
    samples: Seq<PopV>,
) -> Seq<SessionV> {
    l.map_values(|s: SessionV| report_session(s, sid, pid, samples))
}

/// Overwrite the display name of the addressed player: a
/// deliberate no-op, not an error, when session or player is absent.
pub fn update_name_in_session(
    sessions: &mut Vec<Session>,
    session_id: u32,
    player_id: u32,
    name: &str,
)
    ensures
        final(sessions).deep_view() == spec_rename(
            old(sessions).deep_view(),
            session_id,
            player_id,
            name@,
        ),
        wf_sessions(old(sessions).deep_view()) ==> wf_sessions(final(sessions).deep_view()),
{
    let ghost l = sessions.deep_view();
    let mut i: usize = 0;
    while i < sessions.len()
        invariant
            sessions@.len() == l.len(),
            i <= l.len(),
            forall|k: int|
                0 <= k < l.len() ==> sessions.deep_view()[k] == (if k < i {
                    rename_session(#[trigger] l[k], session_id, player_id, name@)
                } else {
                    l[k]
                }),
        decreases l.len() - i,
    {
        if sessions[i].id == session_id {
            let ghost sv = l[i as int];
            let ghost pv = sv.players;
            let mut j: usize = 0;
            while j < sessions[i].players.len()
                invariant
                    i < sessions@.len(),
                    sessions@.len() == l.len(),
                    pv.len() == sessions[i as int].players@.len(),
                    forall|k: int|
                        0 <= k < l.len() && k != i ==> sessions.deep_view()[k] == (if k < i {
                            rename_session(#[trigger] l[k], session_id, player_id, name@)
                        } else {
                            l[k]
                        }),
                    sessions.deep_view()[i as int].id == sv.id,
                    sessions.deep_view()[i as int].pop == sv.pop,
                    j <= pv.len(),
                    forall|m: int|
                        0 <= m < pv.len() ==> sessions.deep_view()[i as int].players[m] == (
                        if m < j {
                            rename_player(#[trigger] pv[m], player_id, name@)
                        } else {
                            pv[m]
                        }),
                decreases pv.len() - j,
            {
                if sessions[i].players[j].id == player_id {
                    sessions[i].players[j].name = name.to_owned();
                }
                j += 1;
            }
        }
        proof {
            let done = sessions.deep_view()[i as int];
            let want = rename_session(l[i as int], session_id, player_id, name@);
            if l[i as int].id == session_id {
                assert(done.players =~= want.players);
                assert(done =~= want);
            } else {
                assert(done =~= want);
            }
        }
        i += 1;
    }
    proof {
        assert(final(sessions).deep_view() =~= spec_rename(l, session_id, player_id, name@));
        if wf_sessions(l) {
            let res = sessions.deep_view();
            assert forall|k: int| 0 <= k < res.len() implies wf_session(#[trigger] res[k]) by {
                assert(wf_session(l[k]));
                assert(forall|m: int|
                    0 <= m < res[k].players.len() ==> (#[trigger] res[k].players[m]).index
                        == l[k].players[m].index && res[k].players[m].pops.len()
                        == l[k].players[m].pops.len());
            }
            assert(forall|k: int| 0 <= k < res.len() ==> (#[trigger] res[k]).id == l[k].id);
        }
    }
}

/// Overwrite the region of the addressed session: a
/// deliberate no-op, not an error, when the session is absent.
pub fn update_pop_in_session(sessions: &mut Vec<Session>, session_id: u32, pop: &str)
    ensures
        final(sessions).deep_view() == spec_set_region(
            old(sessions).deep_view(),
            session_id,
            pop@,
        ),
        wf_sessions(old(sessions).deep_view()) ==> wf_sessions(final(sessions).deep_view()),
{
    let ghost l = sessions.deep_view();
    let mut i: usize = 0;
    while i < sessions.len()
        invariant
            sessions@.len() == l.len(),
            i <= l.len(),
            forall|k: int|
                0 <= k < l.len() ==> sessions.deep_view()[k] == (if k < i {
                    set_region_session(#[trigger] l[k], session_id, pop@)
                } else {
                    l[k]
                }),
        decreases l.len() - i,
    {
        if sessions[i].id == session_id {
            sessions[i].pop = pop.to_owned();
            assert(sessions.deep_view()[i as int] =~= set_region_session(
                l[i as int],
                session_id,
                pop@,
            ));
        }
        i += 1;
    }
    proof {
        assert(final(sessions).deep_view() =~= spec_set_region(l, session_id, pop@));
        if wf_sessions(l) {
            let res = sessions.deep_view();
            assert forall|k: int| 0 <= k < res.len() implies wf_session(#[trigger] res[k])
                && res[k].id == l[k].id by {
                assert(wf_session(l[k]));
                assert(res[k].players =~= l[k].players);
            }
        }
    }
}

/// A structural copy of a sample batch, sample by sample.
fn clone_pops(samples: &Vec<Pop>) -> (r: Vec<Pop>)
    ensures
        r.deep_view() == samples.deep_view(),
{
    let mut r: Vec<Pop> = Vec::new();
    let mut i: usize = 0;
    while i < samples.len()
        invariant
            i <= samples@.len(),
            r.deep_view() =~= samples.deep_view().subrange(0, i as int),
        decreases samples@.len() - i,
    {
        let ghost before = r.deep_view();
        r.push(Pop { name: samples[i].name.clone(), ping: samples[i].ping });
        assert(r.deep_view() =~= before.push(samples.deep_view()[i as int]));
        assert(r.deep_view() =~= samples.deep_view().subrange(0, i + 1));
        i += 1;
    }
    assert(samples.deep_view().subrange(0, samples@.len() as int) =~= samples.deep_view());
    r
}

/// Replace — never merge — the addressed player's entire sample batch;
/// a deliberate no-op when session or player is absent. Aggregation
/// across players happens only at selection time.
pub fn report_pings(
    sessions: &mut Vec<Session>,
    session_id: u32,
    player_id: u32,
    samples: &Vec<Pop>,
)
    requires
        samples@.len() <= u32::MAX,
    ensures
        final(sessions).deep_view() == spec_report_pings(
            old(sessions).deep_view(),
            session_id,
            player_id,
            samples.deep_view(),
        ),
        wf_sessions(old(sessions).deep_view()) ==> wf_sessions(final(sessions).deep_view()),
{
    let ghost l = sessions.deep_view();
    let ghost sv_samples = samples.deep_view();
    let mut i: usize = 0;
    while i < sessions.len()
        invariant
            samples@.len() <= u32::MAX,
            sv_samples == samples.deep_view(),
            sessions@.len() == l.len(),
            i <= l.len(),
            forall|k: int|
                0 <= k < l.len() ==> sessions.deep_view()[k] == (if k < i {
                    report_session(#[trigger] l[k], session_id, player_id, sv_samples)
                } else {
                    l[k]
                }),
        decreases l.len() - i,
    {
        if sessions[i].id == session_id {
            let ghost sv = l[i as int];
            let ghost pv = sv.players;
            let mut j: usize = 0;
            while j < sessions[i].players.len()
                invariant
                    samples@.len() <= u32::MAX,
                    sv_samples == samples.deep_view(),
                    i < sessions@.len(),
                    sessions@.len() == l.len(),
                    pv.len() == sessions[i as int].players@.len(),
                    forall|k: int|
                        0 <= k < l.len() && k != i ==> sessions.deep_view()[k] == (if k < i {
                            report_session(#[trigger] l[k], session_id, player_id, sv_samples)
                        } else {
                            l[k]
                        }),
                    sessions.deep_view()[i as int].id == sv.id,
                    sessions.deep_view()[i as int].pop == sv.pop,
                    j <= pv.len(),
                    forall|m: int|
                        0 <= m < pv.len() ==> sessions.deep_view()[i as int].players[m] == (
                        if m < j {
                            report_player(#[trigger] pv[m], player_id, sv_samples)
                        } else {
                            pv[m]
                        }),
                decreases pv.len() - j,
            {
                if sessions[i].players[j].id == player_id {
                    sessions[i].players[j].pops = clone_pops(samples);
                }
                j += 1;
            }
        }
        proof {
            let done = sessions.deep_view()[i as int];
            let want = report_session(l[i as int], session_id, player_id, sv_samples);
            if l[i as int].id == session_id {
                assert(done.players =~= want.players);
                assert(done =~= want);
            } else {
                assert(done =~= want);
            }
        }
        i += 1;
    }
    proof {
        assert(final(sessions).deep_view() =~= spec_report_pings(
            l,
            session_id,
            player_id,
            sv_samples,
        ));
        if wf_sessions(l) {
            let res = sessions.deep_view();
            assert forall|k: int| 0 <= k < res.len() implies wf_session(#[trigger] res[k]) by {
                assert(wf_session(l[k]));
                assert(forall|m: int|
                    0 <= m < res[k].players.len() ==> (#[trigger] res[k].players[m]).index
                        == l[k].players[m].index && res[k].players[m].pops.len()
                        <= u32::MAX);
            }
            assert(forall|k: int| 0 <= k < res.len() ==> (#[trigger] res[k]).id == l[k].id);
        }
    }
}

} // verus!
