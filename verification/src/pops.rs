//! Latency-driven selection of a session's network point of presence.
//!
//! On a heartbeat the registry groups every current player's ping samples
//! by region, compares regions by arithmetic mean latency, and routes the
//! session through the region of strictly lowest mean. Means are compared
//! exactly, by cross-multiplying sums and counts, so no rounding enters
//! the choice. A tie goes to the region whose first sample stands
//! earliest in the session's player order: a deterministic tie-break
//! where the source of the heuristic left the order to chance.

use vstd::prelude::*;

use crate::model::{
    lemma_session_capacity, wf_session, wf_sessions, PlayerV, Pop, PopV, Session,
    SessionError, SessionV,
};
use crate::registry::{
    has_session, lemma_prune_wf, lemma_session_idx_by_id_props, prune_stale_sessions,
    session_idx_by_id, spec_prune,
};

verus! {

/// All ping samples of a session, flattened in player order: the samples
/// of the first player, then of the second, and so on.
pub open spec fn flatten_pops(ps: Seq<PlayerV>) -> Seq<PopV>
    decreases ps.len(),
{
    if ps.len() == 0 {
        Seq::empty()
    } else {
        flatten_pops(ps.drop_last()) + ps.last().pops
    }
}

/// The samples that region selection aggregates for a session.
pub open spec fn session_samples(s: SessionV) -> Seq<PopV> {
    flatten_pops(s.players)
}

/// The summed latency of every sample naming region `r`.
pub open spec fn region_sum(samples: Seq<PopV>, r: Seq<char>) -> int
    decreases samples.len(),
{
    if samples.len() == 0 {
        0
    } else {
        region_sum(samples.drop_last(), r) + if samples.last().name == r {
            samples.last().ping as int
        } else {
            0
        }
    }
}

/// How many samples name region `r`.
pub open spec fn region_count(samples: Seq<PopV>, r: Seq<char>) -> int
    decreases samples.len(),
{
    if samples.len() == 0 {
        0
    } else {
        region_count(samples.drop_last(), r) + if samples.last().name == r {
            1int
        } else {
            0int
        }
    }
}

/// The position of the first sample naming region `r`, or the number of
/// samples when none does.
pub open spec fn first_sample_idx(samples: Seq<PopV>, r: Seq<char>) -> int
    decreases samples.len(),
{
    if samples.len() == 0 {
        0
    } else {
        let p = first_sample_idx(samples.drop_last(), r);
        if p < samples.len() - 1 {
            p
        } else if samples.last().name == r {
            samples.len() - 1
        } else {
            samples.len() as int
        }
    }
}

/// Region `r` is the selection winner: it has samples, and against every
/// other sampled region its mean latency is strictly lower, or equal with
/// its first sample standing earlier. Means are compared exactly:
/// sum_a / count_a < sum_b / count_b exactly when
/// sum_a * count_b < sum_b * count_a.
pub open spec fn is_best_region(samples: Seq<PopV>, r: Seq<char>) -> bool {
    &&& region_count(samples, r) > 0
    &&& forall|r2: Seq<char>|
        #[trigger] region_count(samples, r2) > 0 ==> {
            let lt = region_sum(samples, r) * region_count(samples, r2) < region_sum(
                samples,
                r2,
            ) * region_count(samples, r);
            let eq = region_sum(samples, r) * region_count(samples, r2) == region_sum(
                samples,
                r2,
            ) * region_count(samples, r);
            lt || (eq && first_sample_idx(samples, r) <= first_sample_idx(samples, r2))
        }
}

/// Counts and sums are nonnegative, counts never exceed the sample count,
/// and a region's sum never exceeds its count of samples times the
/// largest representable ping.
pub proof fn lemma_region_stats_bounds(samples: Seq<PopV>, r: Seq<char>)
    ensures
        0 <= region_count(samples, r) <= samples.len(),
        0 <= region_sum(samples, r) <= region_count(samples, r) * (u32::MAX as int),
    decreases samples.len(),
{
    if samples.len() > 0 {
        lemma_region_stats_bounds(samples.drop_last(), r);
    }
}

/// What [`first_sample_idx`] returns: the first matching position, every
/// earlier sample naming another region, and the sample count exactly
/// when the region was never sampled.
pub proof fn lemma_first_sample_idx_props(samples: Seq<PopV>, r: Seq<char>)
    ensures
        0 <= first_sample_idx(samples, r) <= samples.len(),
        first_sample_idx(samples, r) < samples.len() ==> samples[first_sample_idx(
            samples,
            r,
        )].name == r,
        forall|i: int|
            0 <= i < first_sample_idx(samples, r) ==> (#[trigger] samples[i]).name != r,
        (first_sample_idx(samples, r) == samples.len()) <==> region_count(samples, r) == 0,
    decreases samples.len(),
{
    lemma_region_stats_bounds(samples, r);
    if samples.len() > 0 {
        lemma_first_sample_idx_props(samples.drop_last(), r);
        lemma_region_stats_bounds(samples.drop_last(), r);
        let p = first_sample_idx(samples.drop_last(), r);
        assert(forall|i: int|
            0 <= i < samples.drop_last().len() ==> samples.drop_last()[i] == samples[i]);
        assert(samples.last() == samples[samples.len() - 1]);
    }
}

/// The samples of a well-formed session number at most four players'
/// worth of batches.
pub proof fn lemma_session_samples_len(s: SessionV)
    requires
        wf_session(s),
    ensures
        session_samples(s).len() <= 4 * (u32::MAX as int),
{
    lemma_session_capacity(s);
    lemma_flatten_len(s.players);
}

proof fn lemma_flatten_len(ps: Seq<PlayerV>)
    requires
        forall|i: int| 0 <= i < ps.len() ==> (#[trigger] ps[i]).pops.len() <= u32::MAX,
    ensures
        flatten_pops(ps).len() <= ps.len() * (u32::MAX as int),
    decreases ps.len(),
{
    if ps.len() > 0 {
        assert(forall|i: int|
            0 <= i < ps.drop_last().len() ==> ps.drop_last()[i] == ps[i]);
        lemma_flatten_len(ps.drop_last());
        assert(ps.last() == ps[ps.len() - 1]);
        assert(ps.last().pops.len() <= u32::MAX as int);
    }
}

/// Exact-mean comparison is transitive: a strictly lower mean stays
/// strictly lower through an intermediate region.

proof fn lemma_mean_lt_le_trans(s1: int, c1: int, s2: int, c2: int, s3: int, c3: int)
    requires
        c1 > 0,
        c2 > 0,
        c3 > 0,
        s1 * c2 < s2 * c1,
        s2 * c3 <= s3 * c2,
    ensures
        s1 * c3 < s3 * c1,
{
    assert(s1 * c3 < s3 * c1) by (nonlinear_arith)
        requires
            c1 > 0,
            c2 > 0,
            c3 > 0,
            s1 * c2 < s2 * c1,
            s2 * c3 <= s3 * c2,
    ;
}


/// A structural copy of every sample of the session, in player order.
fn collect_samples(session: &Session) -> (r: Vec<Pop>)
    ensures
        r.deep_view() == session_samples(session.deep_view()),
{
    let ghost ps = session.deep_view().players;
    let mut r: Vec<Pop> = Vec::new();
    let mut i: usize = 0;
    assert(ps.subrange(0, 0) =~= Seq::<PlayerV>::empty());
    while i < session.players.len()
        invariant
            ps == session.deep_view().players,
            i <= ps.len(),
            r.deep_view() =~= flatten_pops(ps.subrange(0, i as int)),
        decreases ps.len() - i,
    {
        let ghost pops = ps[i as int].pops;
        let mut j: usize = 0;
        while j < session.players[i].pops.len()
            invariant
                ps == session.deep_view().players,
                i < ps.len(),
                pops == ps[i as int].pops,
                j <= pops.len(),
                r.deep_view() =~= flatten_pops(ps.subrange(0, i as int)) + pops.subrange(
                    0,
                    j as int,
                ),
            decreases pops.len() - j,
        {
            let ghost before = r.deep_view();
            let p = Pop {
                name: session.players[i].pops[j].name.clone(),
                ping: session.players[i].pops[j].ping,
            };
            assert(p.deep_view() == pops[j as int]);
            r.push(p);
            assert(r.deep_view() =~= before.push(pops[j as int]));
            assert(r.deep_view() =~= flatten_pops(ps.subrange(0, i as int)) + pops.subrange(
                0,
                j + 1,
            ));
            j += 1;
        }
        proof {
            let pre = ps.subrange(0, i as int);
            let cur = ps.subrange(0, i as int + 1);
            assert(cur.drop_last() =~= pre);
            assert(cur.last() == ps[i as int]);
            assert(pops.subrange(0, pops.len() as int) =~= pops);
        }
        i += 1;
    }
    assert(ps.subrange(0, ps.len() as int) =~= ps);
    r
}

/// A region's running aggregate while samples are grouped: its code, the
/// sum of its latencies and how many samples it has.
struct RegionAgg {
    name: String,
    sum: u128,
    cnt: u64,
}

/// Select the region of strictly lowest mean latency over all current
/// players' samples of the addressed session, write it back as the
/// session's pop and hand it to the caller. `NotFound`
/// when the session is absent, `NoSamples` when no player of it has ever
/// reported a ping; in both failing cases the list is unchanged, so a
/// failing selection leaves the session's region as it was.
#[verifier::rlimit(50)]
pub fn get_best_pop_and_update(sessions: &mut Vec<Session>, sessionid: u32) -> (r: Result<
    String,
    SessionError,
>)
    requires
        wf_sessions(old(sessions).deep_view()),
    ensures
        wf_sessions(final(sessions).deep_view()),
        ({
            let l = old(sessions).deep_view();
            let i = session_idx_by_id(l, sessionid);
            match r {
                Ok(region) => {
                    &&& has_session(l, sessionid)
                    &&& is_best_region(session_samples(l[i]), region@)
                    &&& final(sessions).deep_view() == l.update(
                        i,
                        SessionV { pop: region@, ..l[i] },
                    )
                },
                Err(SessionError::NotFound) => {
                    &&& !has_session(l, sessionid)
                    &&& final(sessions).deep_view() == l
                },
                Err(SessionError::NoSamples) => {
                    &&& has_session(l, sessionid)
                    &&& session_samples(l[i]).len() == 0
                    &&& final(sessions).deep_view() == l
                },
                Err(SessionError::SlotsExhausted) => false,
            }
        }),
{
    let ghost l = sessions.deep_view();
    proof {
        lemma_session_idx_by_id_props(l, sessionid);
    }
    let mut si: usize = 0;
    let mut found = false;
    while si < sessions.len() && !found
        invariant
            l == sessions.deep_view(),
            si <= l.len(),
            !found ==> forall|i: int| 0 <= i < si ==> (#[trigger] l[i]).id != sessionid,
            found ==> si < l.len() && l[si as int].id == sessionid && forall|i: int|
                0 <= i < si ==> (#[trigger] l[i]).id != sessionid,
        decreases l.len() - si + if found { 0int } else { 1int },
    {
        if sessions[si].id == sessionid {
            found = true;
        } else {
            si += 1;
        }
    }
    if !found {
        proof {
            if has_session(l, sessionid) {
                let i = choose|i: int| 0 <= i < l.len() && (#[trigger] l[i]).id == sessionid;
                assert(l[i].id != sessionid);
            }
        }
        return Err(SessionError::NotFound);
    }
    assert(si as int == session_idx_by_id(l, sessionid));
    assert(has_session(l, sessionid));
    let ghost sv = l[si as int];
    let flat = collect_samples(&sessions[si]);
    let ghost flatv = flat.deep_view();
    proof {
        assert(wf_session(sv));
        lemma_session_samples_len(sv);
    }
    if flat.len() == 0 {
        assert(session_samples(sv).len() == 0);
        return Err(SessionError::NoSamples);
    }

    // Group the samples by region, in order of first appearance, carrying
    // each region's exact latency sum and sample count.
    let mut acc: Vec<RegionAgg> = Vec::new();
    let mut t: usize = 0;
    assert(flatv.subrange(0, 0) =~= Seq::<PopV>::empty());
    while t < flat.len()
        invariant
            flatv == flat.deep_view(),
            flatv.len() <= 17179869180,
            t <= flatv.len(),
            forall|k: int|
                0 <= k < acc@.len() ==> {
                    let e = #[trigger] acc@[k];
                    &&& 1 <= e.cnt
                    &&& e.cnt as int == region_count(flatv.subrange(0, t as int), e.name@)
                    &&& e.sum as int == region_sum(flatv.subrange(0, t as int), e.name@)
                },
            forall|k: int, m: int|
                0 <= k < m < acc@.len() ==> (#[trigger] acc@[k]).name@ != (
                #[trigger] acc@[m]).name@,
            forall|k: int, m: int|
                0 <= k < m < acc@.len() ==> first_sample_idx(flatv, (#[trigger] acc@[k]).name@)
                    < first_sample_idx(flatv, (#[trigger] acc@[m]).name@),
            forall|k: int|
                0 <= k < acc@.len() ==> first_sample_idx(flatv, (#[trigger] acc@[k]).name@)
                    < t,
            forall|r2: Seq<char>|
                #[trigger] region_count(flatv.subrange(0, t as int), r2) > 0 ==> exists|k: int|
                    0 <= k < acc@.len() && (#[trigger] acc@[k]).name@ == r2,
        decreases flatv.len() - t,
    {
        let ghost pre = flatv.subrange(0, t as int);
        let ghost cur = flatv.subrange(0, t as int + 1);
        proof {
            assert(cur.drop_last() =~= pre);
            assert(cur.last() == flatv[t as int]);
        }
        let ghost x = flatv[t as int];
        let mut k: usize = 0;
        let mut hit = false;
        while k < acc.len() && !hit
            invariant
                flatv == flat.deep_view(),
                t < flatv.len(),
                x == flatv[t as int],
                k <= acc@.len(),
                !hit ==> forall|m: int| 0 <= m < k ==> (#[trigger] acc@[m]).name@ != x.name,
                hit ==> k < acc@.len() && acc@[k as int].name@ == x.name && forall|m: int|
                    0 <= m < k ==> (#[trigger] acc@[m]).name@ != x.name,
            decreases acc@.len() - k + if hit { 0int } else { 1int },
        {
            if acc[k].name == flat[t].name {
                hit = true;
            } else {
                k += 1;
            }
        }
        let ping = flat[t].ping;
        assert(ping == x.ping);
        if hit {
            proof {
                lemma_region_stats_bounds(pre, x.name);
                assert(pre.len() <= flatv.len());
                assert(acc@[k as int].cnt as int <= 17179869180);
                assert(acc@[k as int].sum as int <= 17179869180 * (u32::MAX as int));
            }
            let newsum = acc[k].sum + (ping as u128);
            let newcnt = acc[k].cnt + 1;
            let ghost accb = acc@;
            acc[k].sum = newsum;
            acc[k].cnt = newcnt;
            proof {
                assert forall|m: int| 0 <= m < acc@.len() implies {
                    let e = #[trigger] acc@[m];
                    &&& 1 <= e.cnt
                    &&& e.cnt as int == region_count(cur, e.name@)
                    &&& e.sum as int == region_sum(cur, e.name@)
                } by {
                    if m == k as int {
                        assert(acc@[m].name@ == x.name);
                    } else {
                        assert(acc@[m] == accb[m]);
                        assert(accb[m].name@ != x.name);
                    }
                }
                assert forall|r2: Seq<char>| #[trigger] region_count(cur, r2) > 0 implies exists|
                    kk: int,
                | 0 <= kk < acc@.len() && (#[trigger] acc@[kk]).name@ == r2 by {
                    if region_count(pre, r2) > 0 {
                        let kk = choose|kk: int|
                            0 <= kk < accb.len() && (#[trigger] accb[kk]).name@ == r2;
                        assert(acc@[kk].name@ == r2);
                    } else {
                        assert(r2 == x.name);
                        assert(acc@[k as int].name@ == r2);
                    }
                }
            }
        } else {
            proof {
                lemma_region_stats_bounds(pre, x.name);
                if region_count(pre, x.name) > 0 {
                    let m = choose|m: int|
                        0 <= m < acc@.len() && (#[trigger] acc@[m]).name@ == x.name;
                    assert(acc@[m].name@ != x.name);
                }
                assert(region_count(pre, x.name) == 0);
                lemma_first_sample_idx_props(pre, x.name);
                lemma_first_sample_idx_props(flatv, x.name);
                assert forall|i: int| 0 <= i < t implies (#[trigger] flatv[i]).name != x.name by {
                    assert(pre[i] == flatv[i]);
                }
                assert(first_sample_idx(flatv, x.name) == t) by {
                    let f = first_sample_idx(flatv, x.name);
                    if f < t {
                        assert(flatv[f].name != x.name);
                    }
                    if f > t {
                        assert(flatv[t as int].name != x.name);
                    }
                }
            }
            let ghost accb = acc@;
            let entry = RegionAgg { name: flat[t].name.clone(), sum: ping as u128, cnt: 1 };
            acc.push(entry);
            proof {
                assert forall|m: int| 0 <= m < acc@.len() implies {
                    let e = #[trigger] acc@[m];
                    &&& 1 <= e.cnt
                    &&& e.cnt as int == region_count(cur, e.name@)
                    &&& e.sum as int == region_sum(cur, e.name@)
                } by {
                    if m < accb.len() {
                        assert(acc@[m] == accb[m]);
                        assert(accb[m].name@ != x.name);
                    } else {
                        assert(acc@[m].name@ == x.name);
                        assert(region_count(cur, x.name) == 1);
                        assert(region_sum(cur, x.name) == x.ping as int);
                    }
                }
                assert forall|a: int, b: int| 0 <= a < b < acc@.len() implies (
                #[trigger] acc@[a]).name@ != (#[trigger] acc@[b]).name@ by {
                    if b < accb.len() {
                        assert(acc@[a] == accb[a] && acc@[b] == accb[b]);
                    } else {
                        assert(acc@[a] == accb[a]);
                        assert(accb[a].name@ != x.name);
                    }
                }
                assert forall|a: int, b: int| 0 <= a < b < acc@.len() implies first_sample_idx(
                    flatv,
                    (#[trigger] acc@[a]).name@,
                ) < first_sample_idx(flatv, (#[trigger] acc@[b]).name@) by {
                    if b < accb.len() {
                        assert(acc@[a] == accb[a] && acc@[b] == accb[b]);
                    } else {
                        assert(acc@[a] == accb[a]);
                        assert(first_sample_idx(flatv, accb[a].name@) < t);
                    }
                }
                assert forall|r2: Seq<char>| #[trigger] region_count(cur, r2) > 0 implies exists|
                    kk: int,
                | 0 <= kk < acc@.len() && (#[trigger] acc@[kk]).name@ == r2 by {
                    if region_count(pre, r2) > 0 {
                        let kk = choose|kk: int|
                            0 <= kk < accb.len() && (#[trigger] accb[kk]).name@ == r2;
                        assert(acc@[kk] == accb[kk]);
                        assert(acc@[kk].name@ == r2);
                    } else {
                        assert(r2 == x.name);
                        assert(acc@[acc@.len() - 1].name@ == r2);
                    }
                }
            }
        }
        t += 1;
    }
    assert(flatv.subrange(0, flatv.len() as int) =~= flatv);

    proof {
        assert(flatv.subrange(0, t as int) == flatv);
        lemma_region_stats_bounds(flatv, flatv[0].name);
        lemma_first_sample_idx_props(flatv, flatv[0].name);
        if region_count(flatv, flatv[0].name) == 0 {
            assert(flatv[0].name != flatv[0].name);
        }
        assert(region_count(flatv.subrange(0, t as int), flatv[0].name) > 0);
        assert(acc@.len() >= 1);
        assert forall|k: int| 0 <= k < acc@.len() implies {
            let e = #[trigger] acc@[k];
            &&& e.cnt as int == region_count(flatv, e.name@)
            &&& e.sum as int == region_sum(flatv, e.name@)
            &&& e.cnt as int <= 17179869180
            &&& e.sum as int <= 17179869180 * (u32::MAX as int)
        } by {
            lemma_region_stats_bounds(flatv, acc@[k].name@);
            assert(acc@[k].cnt as int == region_count(flatv, acc@[k].name@));
            assert(region_count(flatv, acc@[k].name@) <= flatv.len());
        }
    }

    // The first region of strictly lowest exact mean wins; a strict
    // comparison keeps the earliest on ties.
    let mut best: usize = 0;
    let mut q: usize = 1;
    while q < acc.len()
        invariant
            flatv.len() <= 17179869180,
            acc@.len() >= 1,
            best < q,
            q <= acc@.len(),
            forall|k: int|
                0 <= k < acc@.len() ==> {
                    let e = #[trigger] acc@[k];
                    &&& 1 <= e.cnt
                    &&& e.cnt as int == region_count(flatv, e.name@)
                    &&& e.sum as int == region_sum(flatv, e.name@)
                    &&& e.cnt as int <= 17179869180
                    &&& e.sum as int <= 17179869180 * (u32::MAX as int)
                },
            forall|k: int, m: int|
                0 <= k < m < acc@.len() ==> first_sample_idx(flatv, (#[trigger] acc@[k]).name@)
                    < first_sample_idx(flatv, (#[trigger] acc@[m]).name@),
            forall|m: int|
                0 <= m < q ==> {
                    let eb = acc@[best as int];
                    let em = #[trigger] acc@[m];
                    ||| (eb.sum as int) * (em.cnt as int) < (em.sum as int) * (eb.cnt as int)
                    ||| ((eb.sum as int) * (em.cnt as int) == (em.sum as int) * (eb.cnt as int)
                        && best <= m)
                },
        decreases acc@.len() - q,
    {
        proof {
            let eb = acc@[best as int];
            let eq = acc@[q as int];
            assert((eq.sum as int) * (eb.cnt as int) <= u128::MAX as int) by (nonlinear_arith)
                requires
                    0 <= eq.sum as int <= 17179869180 * (u32::MAX as int),
                    0 <= eb.cnt as int <= 17179869180,
            ;
            assert((eb.sum as int) * (eq.cnt as int) <= u128::MAX as int) by (nonlinear_arith)
                requires
                    0 <= eb.sum as int <= 17179869180 * (u32::MAX as int),
                    0 <= eq.cnt as int <= 17179869180,
            ;
        }
        if acc[q].sum * (acc[best].cnt as u128) < acc[best].sum * (acc[q].cnt as u128) {
            proof {
                let eb = acc@[best as int];
                let eq = acc@[q as int];
                assert forall|m: int| 0 <= m < q + 1 implies {
                    let em = #[trigger] acc@[m];
                    ||| (eq.sum as int) * (em.cnt as int) < (em.sum as int) * (eq.cnt as int)
                    ||| ((eq.sum as int) * (em.cnt as int) == (em.sum as int) * (eq.cnt as int)
                        && q as int <= m)
                } by {
                    let em = acc@[m];
                    if m < q {
                        lemma_mean_lt_le_trans(
                            eq.sum as int,
                            eq.cnt as int,
                            eb.sum as int,
                            eb.cnt as int,
                            em.sum as int,
                            em.cnt as int,
                        );
                    }
                }
            }
            best = q;
        } else {
            proof {
                let eb = acc@[best as int];
                let eq = acc@[q as int];
                assert((eb.sum as int) * (eq.cnt as int) <= (eq.sum as int) * (eb.cnt as int));
            }
        }
        q += 1;
    }

    let chosen = acc[best].name.clone();
    proof {
        let eb = acc@[best as int];
        assert(region_count(flatv, chosen@) > 0);
        assert forall|r2: Seq<char>| #[trigger] region_count(flatv, r2) > 0 implies {
            let lt = region_sum(flatv, chosen@) * region_count(flatv, r2) < region_sum(
                flatv,
                r2,
            ) * region_count(flatv, chosen@);
            let eqq = region_sum(flatv, chosen@) * region_count(flatv, r2) == region_sum(
                flatv,
                r2,
            ) * region_count(flatv, chosen@);
            lt || (eqq && first_sample_idx(flatv, chosen@) <= first_sample_idx(flatv, r2))
        } by {
            let k = choose|k: int| 0 <= k < acc@.len() && (#[trigger] acc@[k]).name@ == r2;
            let em = acc@[k];
            assert((eb.sum as int) * (em.cnt as int) < (em.sum as int) * (eb.cnt as int) || ((
            eb.sum as int) * (em.cnt as int) == (em.sum as int) * (eb.cnt as int) && (best as int)
                <= k));
            if (best as int) < k {
                assert(first_sample_idx(flatv, eb.name@) < first_sample_idx(flatv, em.name@));
            }
        }
        assert(is_best_region(session_samples(sv), chosen@));
    }

    let ghost before = sessions.deep_view();
    sessions[si].pop = chosen.clone();
    proof {
        assert(sessions.deep_view()[si as int] =~= SessionV { pop: chosen@, ..sv });
        assert(sessions.deep_view() =~= l.update(si as int, SessionV { pop: chosen@, ..sv }));
        let res = sessions.deep_view();
        assert forall|k: int| 0 <= k < res.len() implies wf_session(#[trigger] res[k])
            && res[k].id == l[k].id by {
            assert(wf_session(l[k]));
            if k != si as int {
                assert(res[k] == l[k]);
            } else {
                assert(res[k].players =~= l[k].players);
            }
        }
    }
    Ok(chosen)
}

/// The heartbeat entry point: refresh the addressed player's liveness,
/// prune, then re-select the session's region from what the surviving
/// players have reported. On failure the session's region is unchanged
/// and only the pruning survives.
pub fn heartbeat(sessions: &mut Vec<Session>, session_id: u32, player_id: u32, now: u64) -> (r:
    Result<String, SessionError>)
    requires
        wf_sessions(old(sessions).deep_view()),
    ensures
        wf_sessions(final(sessions).deep_view()),
        ({
            let pruned = spec_prune(old(sessions).deep_view(), player_id, session_id, true, now);
            let i = session_idx_by_id(pruned, session_id);
            match r {
                Ok(region) => {
                    &&& has_session(pruned, session_id)
                    &&& is_best_region(session_samples(pruned[i]), region@)
                    &&& final(sessions).deep_view() == pruned.update(
                        i,
                        SessionV { pop: region@, ..pruned[i] },
                    )
                },
                Err(SessionError::NotFound) => {
                    &&& !has_session(pruned, session_id)
                    &&& final(sessions).deep_view() == pruned
                },
                Err(SessionError::NoSamples) => {
                    &&& has_session(pruned, session_id)
                    &&& session_samples(pruned[i]).len() == 0
                    &&& final(sessions).deep_view() == pruned
                },
                Err(SessionError::SlotsExhausted) => false,
            }
        }),
{
    let ghost l0 = sessions.deep_view();
    prune_stale_sessions(sessions, player_id, session_id, true, now);
    proof {
        lemma_prune_wf(l0, player_id, session_id, true, now);
    }
    get_best_pop_and_update(sessions, session_id)
}

/// The mathematical value of a [`PopEntry`].
#[verifier::ext_equal]
pub struct PopEntryV {
    pub name: Seq<char>,
    pub ip: Seq<char>,
}

/// One row of the static catalog of points of presence: a region code
/// and the endpoint it is reached at.
#[derive(Clone, Debug, PartialEq, Eq)]
pub struct PopEntry {
    pub name: String,
    pub ip: String,
}

impl DeepView for PopEntry {
    type V = PopEntryV;

    open spec fn deep_view(&self) -> PopEntryV {
        PopEntryV { name: self.name@, ip: self.ip@ }
    }
}

/// The fixed catalog, row for row.
pub open spec fn spec_pop_catalog() -> Seq<PopEntryV> {
    seq![
        PopEntryV { name: "HKG"@, ip: "151.101.77.51"@ },
        PopEntryV { name: "IAH"@, ip: "151.101.181.51"@ },
        PopEntryV { name: "JAX"@, ip: "199.232.1.51"@ },
        PopEntryV { name: "JNB"@, ip: "151.101.173.51"@ },
        PopEntryV { name: "MCI"@, ip: "199.232.73.51"@ },
        PopEntryV { name: "LCY"@, ip: "151.101.17.51"@ },
        PopEntryV { name: "LON"@, ip: "199.232.57.51"@ },
        PopEntryV { name: "LHR"@, ip: "151.101.61.51"@ },
        PopEntryV { name: "BUR"@, ip: "151.101.197.51"@ },
        PopEntryV { name: "LAX"@, ip: "151.101.25.51"@ },
        PopEntryV { name: "MAD"@, ip: "151.101.133.51"@ },
        PopEntryV { name: "MAN"@, ip: "199.232.53.51"@ },
        PopEntryV { name: "MRS"@, ip: "199.232.81.51"@ },
        PopEntryV { name: "MEL"@, ip: "151.101.81.51"@ },
        PopEntryV { name: "MIA"@, ip: "151.101.5.51"@ },
        PopEntryV { name: "MSP"@, ip: "151.101.149.51"@ },
        PopEntryV { name: "STP"@, ip: "199.232.29.51"@ },
        PopEntryV { name: "YUL"@, ip: "151.101.137.51"@ },
        PopEntryV { name: "BOM"@, ip: "151.101.153.51"@ },
        PopEntryV { name: "LGA"@, ip: "199.232.37.51"@ },
        PopEntryV { name: "EWR"@, ip: "151.101.209.51"@ },
        PopEntryV { name: "ITM"@, ip: "151.101.89.51"@ },
        PopEntryV { name: "OSL"@, ip: "151.101.237.51"@ },
        PopEntryV { name: "PAO"@, ip: "151.101.189.51"@ },
        PopEntryV { name: "CDG"@, ip: "151.101.121.51"@ },
        PopEntryV { name: "GIG"@, ip: "151.101.177.51"@ },
        PopEntryV { name: "SJC"@, ip: "151.101.41.51"@ },
        PopEntryV { name: "SCL"@, ip: "151.101.221.51"@ },
        PopEntryV { name: "GRU"@, ip: "151.101.93.51"@ },
        PopEntryV { name: "SEA"@, ip: "151.101.53.51"@ },
        PopEntryV { name: "SIN"@, ip: "151.101.9.51"@ },
        PopEntryV { name: "STL"@, ip: "199.232.69.51"@ },
        PopEntryV { name: "BMA"@, ip: "151.101.85.51"@ },
        PopEntryV { name: "SYD"@, ip: "151.101.29.51"@ },
        PopEntryV { name: "TYO"@, ip: "151.101.109.51"@ },
        PopEntryV { name: "HND"@, ip: "151.101.229.51"@ },
        PopEntryV { name: "YYZ"@, ip: "151.101.125.51"@ },
        PopEntryV { name: "YVR"@, ip: "151.101.213.51"@ },
        PopEntryV { name: "VIE"@, ip: "199.232.17.51"@ },
    ]
}

/// The static, read-only table of candidate points of presence that
/// clients measure their pings against: exactly [`spec_pop_catalog`].
pub fn pop_catalog() -> (r: Vec<PopEntry>)
    ensures
        r.deep_view() == spec_pop_catalog(),
{
    let mut r: Vec<PopEntry> = Vec::new();
    r.push(PopEntry { name: "HKG".to_owned(), ip: "151.101.77.51".to_owned() });
    r.push(PopEntry { name: "IAH".to_owned(), ip: "151.101.181.51".to_owned() });
    r.push(PopEntry { name: "JAX".to_owned(), ip: "199.232.1.51".to_owned() });
    r.push(PopEntry { name: "JNB".to_owned(), ip: "151.101.173.51".to_owned() });
    r.push(PopEntry { name: "MCI".to_owned(), ip: "199.232.73.51".to_owned() });
    r.push(PopEntry { name: "LCY".to_owned(), ip: "151.101.17.51".to_owned() });
    r.push(PopEntry { name: "LON".to_owned(), ip: "199.232.57.51".to_owned() });
    r.push(PopEntry { name: "LHR".to_owned(), ip: "151.101.61.51".to_owned() });
    r.push(PopEntry { name: "BUR".to_owned(), ip: "151.101.197.51".to_owned() });
    r.push(PopEntry { name: "LAX".to_owned(), ip: "151.101.25.51".to_owned() });
    r.push(PopEntry { name: "MAD".to_owned(), ip: "151.101.133.51".to_owned() });
    r.push(PopEntry { name: "MAN".to_owned(), ip: "199.232.53.51".to_owned() });
    r.push(PopEntry { name: "MRS".to_owned(), ip: "199.232.81.51".to_owned() });
    r.push(PopEntry { name: "MEL".to_owned(), ip: "151.101.81.51".to_owned() });
    r.push(PopEntry { name: "MIA".to_owned(), ip: "151.101.5.51".to_owned() });
    r.push(PopEntry { name: "MSP".to_owned(), ip: "151.101.149.51".to_owned() });
    r.push(PopEntry { name: "STP".to_owned(), ip: "199.232.29.51".to_owned() });
    r.push(PopEntry { name: "YUL".to_owned(), ip: "151.101.137.51".to_owned() });
    r.push(PopEntry { name: "BOM".to_owned(), ip: "151.101.153.51".to_owned() });
    r.push(PopEntry { name: "LGA".to_owned(), ip: "199.232.37.51".to_owned() });
    r.push(PopEntry { name: "EWR".to_owned(), ip: "151.101.209.51".to_owned() });
    r.push(PopEntry { name: "ITM".to_owned(), ip: "151.101.89.51".to_owned() });
    r.push(PopEntry { name: "OSL".to_owned(), ip: "151.101.237.51".to_owned() });
    r.push(PopEntry { name: "PAO".to_owned(), ip: "151.101.189.51".to_owned() });
    r.push(PopEntry { name: "CDG".to_owned(), ip: "151.101.121.51".to_owned() });
    r.push(PopEntry { name: "GIG".to_owned(), ip: "151.101.177.51".to_owned() });
    r.push(PopEntry { name: "SJC".to_owned(), ip: "151.101.41.51".to_owned() });
    r.push(PopEntry { name: "SCL".to_owned(), ip: "151.101.221.51".to_owned() });
    r.push(PopEntry { name: "GRU".to_owned(), ip: "151.101.93.51".to_owned() });
    r.push(PopEntry { name: "SEA".to_owned(), ip: "151.101.53.51".to_owned() });
    r.push(PopEntry { name: "SIN".to_owned(), ip: "151.101.9.51".to_owned() });
    r.push(PopEntry { name: "STL".to_owned(), ip: "199.232.69.51".to_owned() });
    r.push(PopEntry { name: "BMA".to_owned(), ip: "151.101.85.51".to_owned() });
    r.push(PopEntry { name: "SYD".to_owned(), ip: "151.101.29.51".to_owned() });
    r.push(PopEntry { name: "TYO".to_owned(), ip: "151.101.109.51".to_owned() });
    r.push(PopEntry { name: "HND".to_owned(), ip: "151.101.229.51".to_owned() });
    r.push(PopEntry { name: "YYZ".to_owned(), ip: "151.101.125.51".to_owned() });
    r.push(PopEntry { name: "YVR".to_owned(), ip: "151.101.213.51".to_owned() });
    r.push(PopEntry { name: "VIE".to_owned(), ip: "199.232.17.51".to_owned() });
    assert(r.deep_view() =~= spec_pop_catalog());
    r
}

} // verus!
