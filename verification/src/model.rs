//! Data model of the registry: ping samples, players, sessions, the
//! session list, their mathematical views and the well-formedness
//! invariant that every operation preserves.

use vstd::prelude::*;

verus! {

/// A player is considered stale once its idle time reaches this many
/// milliseconds; pruning removes it.
pub const STALE_AFTER_MILLIS: u64 = 60_000;

/// One client-measured latency observation: a region code and the
/// round-trip time to it in milliseconds.
#[derive(Clone, Debug, PartialEq, Eq)]
pub struct Pop {
    pub name: String,
    pub ping: u32,
}

/// A player inside a session: external identity, display name, the slot
/// it occupies, the time of its last liveness signal (a millisecond
/// timestamp) and its current batch of ping samples.
#[derive(Clone, Debug, PartialEq, Eq)]
pub struct Player {
    pub name: String,
    pub id: u32,
    pub index: usize,
    pub last_heartbeat: u64,
    pub pops: Vec<Pop>,
}

/// A matchable group of up to four players sharing one region assignment.
#[derive(Clone, Debug, PartialEq, Eq)]
pub struct Session {
    pub id: u32,
    pub pop: String,
    pub players: Vec<Player>,
}

/// The mathematical value of a [`Pop`].
#[verifier::ext_equal]
pub struct PopV {
    pub name: Seq<char>,
    pub ping: u32,
}

/// The mathematical value of a [`Player`].
#[verifier::ext_equal]
pub struct PlayerV {
    pub name: Seq<char>,
    pub id: u32,
    pub index: usize,
    pub last_heartbeat: u64,
    pub pops: Seq<PopV>,
}

/// The mathematical value of a [`Session`].
#[verifier::ext_equal]
pub struct SessionV {
    pub id: u32,
    pub pop: Seq<char>,
    pub players: Seq<PlayerV>,
}

impl DeepView for Pop {
    type V = PopV;

    open spec fn deep_view(&self) -> PopV {
        PopV { name: self.name@, ping: self.ping }
    }
}

impl DeepView for Player {
    type V = PlayerV;

    open spec fn deep_view(&self) -> PlayerV {
        PlayerV {
            name: self.name@,
            id: self.id,
            index: self.index,
            last_heartbeat: self.last_heartbeat,
            pops: self.pops.deep_view(),
        }
    }
}

impl DeepView for Session {
    type V = SessionV;

    open spec fn deep_view(&self) -> SessionV {
        SessionV { id: self.id, pop: self.pop@, players: self.players.deep_view() }
    }
}

/// The errors an operation can report. The transport layer above the
/// registry maps them to its sentinel replies.
#[derive(Clone, Copy, Debug, PartialEq, Eq, Structural)]
pub enum SessionError {
    /// The addressed session is absent from the list.
    NotFound,
    /// All four slots of the addressed session are occupied.
    SlotsExhausted,
    /// Region selection was asked for a session in which no player has
    /// ever reported a ping sample.
    NoSamples,
}

/// A player is live at `now` while its idle time is under the staleness
/// threshold. A heartbeat stamped in the future counts as live.
pub open spec fn live_at(p: PlayerV, now: u64) -> bool {
    now < p.last_heartbeat + STALE_AFTER_MILLIS
}

/// Well-formedness of one player: the slot lies in [0,3] and the sample
/// batch is small enough that session-wide latency sums stay computable.
pub open spec fn wf_player(p: PlayerV) -> bool {
    &&& p.index < 4
    &&& p.pops.len() <= u32::MAX
}

/// Well-formedness of one session: every player is well formed and the
/// occupied slots are pairwise distinct.
pub open spec fn wf_session(s: SessionV) -> bool {
    &&& forall|i: int| 0 <= i < s.players.len() ==> wf_player(#[trigger] s.players[i])
    &&& forall|i: int, j: int|
        0 <= i < j < s.players.len() ==> s.players[i].index != s.players[j].index
}

/// Well-formedness of the whole list: every session is well formed,
/// session ids are pairwise distinct, and each id leaves room for a
/// successor (ids are handed out monotonically starting at 1, so the
/// largest representable id is never reached).
pub open spec fn wf_sessions(l: Seq<SessionV>) -> bool {
    &&& forall|i: int| 0 <= i < l.len() ==> wf_session(#[trigger] l[i])
    &&& forall|i: int, j: int| 0 <= i < j < l.len() ==> l[i].id != l[j].id
    &&& forall|i: int| 0 <= i < l.len() ==> (#[trigger] l[i]).id < u32::MAX
}

/// No session in the list is empty of players. Pruning establishes this,
/// and it holds of every list the registry hands back for persisting.
pub open spec fn no_empty_sessions(l: Seq<SessionV>) -> bool {
    forall|i: int| 0 <= i < l.len() ==> (#[trigger] l[i]).players.len() > 0
}

/// Decide well-formedness of a list, exactly [`wf_sessions`]: decoding
/// and the transport layer use it to reject a malformed snapshot before
/// the registry works on it.
pub fn check_wf(sessions: &Vec<Session>) -> (r: bool)
    ensures
        r == wf_sessions(sessions.deep_view()),
{
    let ghost l = sessions.deep_view();
    let mut i: usize = 0;
    while i < sessions.len()
        invariant
            l == sessions.deep_view(),
            i <= l.len(),
            forall|a: int| 0 <= a < i ==> wf_session(#[trigger] l[a]) && l[a].id < u32::MAX,
            forall|a: int, b: int| 0 <= a < b < l.len() && a < i ==> l[a].id != l[b].id,
        decreases l.len() - i,
    {
        if sessions[i].id == u32::MAX {
            assert(l[i as int].id == u32::MAX);
            return false;
        }
        let mut j: usize = i + 1;
        while j < sessions.len()
            invariant
                l == sessions.deep_view(),
                i < j,
                i < l.len(),
                j <= l.len(),
                forall|b: int| i < b < j ==> l[i as int].id != (#[trigger] l[b]).id,
            decreases l.len() - j,
        {
            if sessions[i].id == sessions[j].id {
                assert(l[i as int].id == l[j as int].id);
                assert(!wf_sessions(l));
                return false;
            }
            j += 1;
        }
        let ghost ps = l[i as int].players;
        let mut a: usize = 0;
        while a < sessions[i].players.len()
            invariant
                l == sessions.deep_view(),
                i < l.len(),
                ps == l[i as int].players,
                a <= ps.len(),
                forall|m: int| 0 <= m < a ==> wf_player(#[trigger] ps[m]),
                forall|m: int, n: int| 0 <= m < n < ps.len() && m < a ==> ps[m].index
                    != ps[n].index,
            decreases ps.len() - a,
        {
            if sessions[i].players[a].index >= 4 {
                assert(!wf_player(ps[a as int]));
                assert(!wf_session(l[i as int]));
                return false;
            }
            if sessions[i].players[a].pops.len() as u64 > u32::MAX as u64 {
                assert(!wf_player(ps[a as int]));
                assert(!wf_session(l[i as int]));
                return false;
            }
            let mut b: usize = a + 1;
            while b < sessions[i].players.len()
                invariant
                    l == sessions.deep_view(),
                    i < l.len(),
                    ps == l[i as int].players,
                    a < b,
                    a < ps.len(),
                    b <= ps.len(),
                    forall|n: int| a < n < b ==> ps[a as int].index != (#[trigger] ps[n]).index,
                decreases ps.len() - b,
            {
                if sessions[i].players[a].index == sessions[i].players[b].index {
                    assert(ps[a as int].index == ps[b as int].index);
                    assert(!wf_session(l[i as int]));
                    return false;
                }
                b += 1;
            }
            a += 1;
        }
        assert(wf_session(l[i as int]));
        i += 1;
    }
    true
}

/// Slots are four, so a well-formed session holds at most four players:
/// the slot values form a duplicate-free sequence drawn from {0,1,2,3}.
pub proof fn lemma_session_capacity(s: SessionV)
    requires
        wf_session(s),
    ensures
        s.players.len() <= 4,
{
    let slots = Seq::new(s.players.len(), |i: int| s.players[i].index);
    assert(slots.no_duplicates());
    slots.unique_seq_to_set();
    let all: Set<usize> = set![0usize, 1usize, 2usize, 3usize];
    assert(slots.to_set().subset_of(all)) by {
        assert forall|x: usize| slots.to_set().contains(x) implies all.contains(x) by {
            let i = choose|i: int| 0 <= i < slots.len() && slots[i] == x;
            assert(wf_player(s.players[i]));
        }
    }
    assert(all.finite() && all.len() <= 4) by {
        assert(all =~= Set::empty().insert(0usize).insert(1usize).insert(2usize).insert(3usize));
    }
    vstd::set_lib::lemma_len_subset(slots.to_set(), all);
}

} // verus!
