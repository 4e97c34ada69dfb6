//! The byte encoding of the session list: the unit the external store
//! holds as one opaque blob.
//!
//! The format is length-prefixed and little-endian throughout: the list is
//! a u64 session count followed by the sessions; a session is its u32 id,
//! its region string and its u64-counted players; a player is its u32 id,
//! its name, its slot and heartbeat as u64, and its u64-counted samples; a
//! sample is its region string and a u32 latency; a string is a u64 byte
//! length followed by its UTF-8 bytes. Decoding rejects anything but a
//! whole, well-formed list, and decoding an encoded list gives the list
//! back exactly.

use vstd::bytes::{
    spec_u32_from_le_bytes, spec_u32_to_le_bytes, spec_u64_from_le_bytes, spec_u64_to_le_bytes,
    u32_from_le_bytes, u32_to_le_bytes, u64_from_le_bytes, u64_to_le_bytes,
    lemma_auto_spec_u32_to_from_le_bytes, lemma_auto_spec_u64_to_from_le_bytes,
};
use vstd::prelude::*;
use vstd::slice::slice_subrange;
use vstd::utf8::{decode_utf8, encode_utf8, encode_utf8_decode_utf8, encode_utf8_valid_utf8, valid_utf8};

use crate::model::{wf_sessions, Player, PlayerV, Pop, PopV, Session, SessionV};

verus! {

/// A string's encoding fits its u64 length prefix.
pub open spec fn bounded_str(s: Seq<char>) -> bool {
    encode_utf8(s).len() <= u64::MAX
}

/// A sample's encoding fits its length prefixes.
pub open spec fn bounded_pop(p: PopV) -> bool {
    bounded_str(p.name)
}

/// A player's encoding fits its length prefixes.
pub open spec fn bounded_player(p: PlayerV) -> bool {
    &&& bounded_str(p.name)
    &&& p.pops.len() <= u64::MAX
    &&& forall|i: int| 0 <= i < p.pops.len() ==> bounded_pop(#[trigger] p.pops[i])
}

/// A session's encoding fits its length prefixes.
pub open spec fn bounded_session(s: SessionV) -> bool {
    &&& bounded_str(s.pop)
    &&& s.players.len() <= u64::MAX
    &&& forall|i: int| 0 <= i < s.players.len() ==> bounded_player(#[trigger] s.players[i])
}

/// A list's encoding fits its length prefixes. Every list a program can
/// hold in memory is bounded; the bound matters only to the ghost
/// statement of the round trip.
pub open spec fn bounded_sessions(l: Seq<SessionV>) -> bool {
    &&& l.len() <= u64::MAX
    &&& forall|i: int| 0 <= i < l.len() ==> bounded_session(#[trigger] l[i])
}

pub open spec fn enc_u32(x: u32) -> Seq<u8> {
    spec_u32_to_le_bytes(x)
}

pub open spec fn enc_u64(x: u64) -> Seq<u8> {
    spec_u64_to_le_bytes(x)
}

/// A string: u64 byte length, then the UTF-8 bytes.
pub open spec fn enc_str(s: Seq<char>) -> Seq<u8> {
    enc_u64(encode_utf8(s).len() as u64) + encode_utf8(s)
}

/// A sample: region string, then the u32 latency.
pub open spec fn enc_pop(p: PopV) -> Seq<u8> {
    enc_str(p.name) + enc_u32(p.ping)
}

pub open spec fn enc_pops(ps: Seq<PopV>) -> Seq<u8>
    decreases ps.len(),
{
    if ps.len() == 0 {
        Seq::empty()
    } else {
        enc_pop(ps.first()) + enc_pops(ps.drop_first())
    }
}

/// A player: u32 id, name, slot and heartbeat as u64, u64 sample count,
/// then the samples.
pub open spec fn enc_player(p: PlayerV) -> Seq<u8> {
    enc_u32(p.id) + enc_str(p.name) + enc_u64(p.index as u64) + enc_u64(p.last_heartbeat)
        + enc_u64(p.pops.len() as u64) + enc_pops(p.pops)
}

pub open spec fn enc_players(ps: Seq<PlayerV>) -> Seq<u8>
    decreases ps.len(),
{
    if ps.len() == 0 {
        Seq::empty()
    } else {
        enc_player(ps.first()) + enc_players(ps.drop_first())
    }
}

/// A session: u32 id, region string, u64 player count, then the players.
pub open spec fn enc_session(s: SessionV) -> Seq<u8> {
    enc_u32(s.id) + enc_str(s.pop) + enc_u64(s.players.len() as u64) + enc_players(s.players)
}

pub open spec fn enc_sessions(l: Seq<SessionV>) -> Seq<u8>
    decreases l.len(),
{
    if l.len() == 0 {
        Seq::empty()
    } else {
        enc_session(l.first()) + enc_sessions(l.drop_first())
    }
}

/// The whole blob: u64 session count, then the sessions.
pub open spec fn spec_encode(l: Seq<SessionV>) -> Seq<u8> {
    enc_u64(l.len() as u64) + enc_sessions(l)
}

pub open spec fn parse_u32(b: Seq<u8>, pos: int) -> Option<(u32, int)> {
    if 0 <= pos && pos + 4 <= b.len() {
        Some((spec_u32_from_le_bytes(b.subrange(pos, pos + 4)), pos + 4))
    } else {
        None
    }
}

pub open spec fn parse_u64(b: Seq<u8>, pos: int) -> Option<(u64, int)> {
    if 0 <= pos && pos + 8 <= b.len() {
        Some((spec_u64_from_le_bytes(b.subrange(pos, pos + 8)), pos + 8))
    } else {
        None
    }
}

pub open spec fn parse_str(b: Seq<u8>, pos: int) -> Option<(Seq<char>, int)> {
    match parse_u64(b, pos) {
        Some((n, p2)) => {
            if p2 + n <= b.len() && valid_utf8(b.subrange(p2, p2 + n)) {
                Some((decode_utf8(b.subrange(p2, p2 + n)), p2 + n))
            } else {
                None
            }
        },
        None => None,
    }
}

pub open spec fn parse_pop(b: Seq<u8>, pos: int) -> Option<(PopV, int)> {
    match parse_str(b, pos) {
        Some((name, p2)) => match parse_u32(b, p2) {
            Some((ping, p3)) => Some((PopV { name: name, ping: ping }, p3)),
            None => None,
        },
        None => None,
    }
}

pub open spec fn parse_pops(b: Seq<u8>, pos: int, n: int) -> Option<(Seq<PopV>, int)>
    decreases n,
{
    if n <= 0 {
        if n == 0 {
            Some((Seq::empty(), pos))
        } else {
            None
        }
    } else {
        match parse_pop(b, pos) {
            Some((p, p2)) => match parse_pops(b, p2, n - 1) {
                Some((ps, p3)) => Some((seq![p] + ps, p3)),
                None => None,
            },
            None => None,
        }
    }
}

pub open spec fn parse_player(b: Seq<u8>, pos: int) -> Option<(PlayerV, int)> {
    match parse_u32(b, pos) {
        Some((id, p2)) => match parse_str(b, p2) {
            Some((name, p3)) => match parse_u64(b, p3) {
                Some((index, p4)) => if index <= usize::MAX {
                    match parse_u64(b, p4) {
                        Some((hb, p5)) => match parse_u64(b, p5) {
                            Some((cnt, p6)) => match parse_pops(b, p6, cnt as int) {
                                Some((ps, p7)) => Some(
                                    (
                                        PlayerV {
                                            name: name,
                                            id: id,
                                            index: index as usize,
                                            last_heartbeat: hb,
                                            pops: ps,
                                        },
                                        p7,
                                    ),
                                ),
                                None => None,
                            },
                            None => None,
                        },
                        None => None,
                    }
                } else {
                    None
                },
                None => None,
            },
            None => None,
        },
        None => None,
    }
}

pub open spec fn parse_players(b: Seq<u8>, pos: int, n: int) -> Option<(Seq<PlayerV>, int)>
    decreases n,
{
    if n <= 0 {
        if n == 0 {
            Some((Seq::empty(), pos))
        } else {
            None
        }
    } else {
        match parse_player(b, pos) {
            Some((p, p2)) => match parse_players(b, p2, n - 1) {
                Some((ps, p3)) => Some((seq![p] + ps, p3)),
                None => None,
            },
            None => None,
        }
    }
}

pub open spec fn parse_session(b: Seq<u8>, pos: int) -> Option<(SessionV, int)> {
    match parse_u32(b, pos) {
        Some((id, p2)) => match parse_str(b, p2) {
            Some((pop, p3)) => match parse_u64(b, p3) {
                Some((cnt, p4)) => match parse_players(b, p4, cnt as int) {
                    Some((ps, p5)) => Some((SessionV { id: id, pop: pop, players: ps }, p5)),
                    None => None,
                },
                None => None,
            },
            None => None,
        },
        None => None,
    }
}

pub open spec fn parse_sessions(b: Seq<u8>, pos: int, n: int) -> Option<(Seq<SessionV>, int)>
    decreases n,
{
    if n <= 0 {
        if n == 0 {
            Some((Seq::empty(), pos))
        } else {
            None
        }
    } else {
        match parse_session(b, pos) {
            Some((s, p2)) => match parse_sessions(b, p2, n - 1) {
                Some((l, p3)) => Some((seq![s] + l, p3)),
                None => None,
            },
            None => None,
        }
    }
}

/// What a blob means: a whole list, consuming every byte, or nothing.
pub open spec fn spec_decode(b: Seq<u8>) -> Option<Seq<SessionV>> {
    match parse_u64(b, 0) {
        Some((n, p)) => match parse_sessions(b, p, n as int) {
            Some((l, e)) => if e == b.len() {
                Some(l)
            } else {
                None
            },
            None => None,
        },
        None => None,
    }
}

proof fn lemma_enc_pops_push(ps: Seq<PopV>, x: PopV)
    ensures
        enc_pops(ps.push(x)) == enc_pops(ps) + enc_pop(x),
    decreases ps.len(),
{
    let all = ps.push(x);
    if ps.len() == 0 {
        assert(all.first() == x);
        assert(all.drop_first() =~= Seq::<PopV>::empty());
        assert(enc_pops(Seq::<PopV>::empty()) == Seq::<u8>::empty());
        assert(enc_pops(all) =~= enc_pop(x) + Seq::<u8>::empty());
        assert(enc_pops(all) =~= enc_pop(x));
        assert(enc_pops(ps) + enc_pop(x) =~= enc_pop(x));
    } else {
        assert(all.first() == ps.first());
        assert(all.drop_first() =~= ps.drop_first().push(x));
        lemma_enc_pops_push(ps.drop_first(), x);
        assert(enc_pop(ps.first()) + (enc_pops(ps.drop_first()) + enc_pop(x)) =~= (enc_pop(
            ps.first(),
        ) + enc_pops(ps.drop_first())) + enc_pop(x));
    }
}

proof fn lemma_enc_players_push(ps: Seq<PlayerV>, x: PlayerV)
    ensures
        enc_players(ps.push(x)) == enc_players(ps) + enc_player(x),
    decreases ps.len(),
{
    let all = ps.push(x);
    if ps.len() == 0 {
        assert(all.first() == x);
        assert(all.drop_first() =~= Seq::<PlayerV>::empty());
        assert(enc_players(Seq::<PlayerV>::empty()) == Seq::<u8>::empty());
        assert(enc_players(all) =~= enc_player(x) + Seq::<u8>::empty());
        assert(enc_players(all) =~= enc_player(x));
        assert(enc_players(ps) + enc_player(x) =~= enc_player(x));
    } else {
        assert(all.first() == ps.first());
        assert(all.drop_first() =~= ps.drop_first().push(x));
        lemma_enc_players_push(ps.drop_first(), x);
        assert(enc_player(ps.first()) + (enc_players(ps.drop_first()) + enc_player(x)) =~= (
        enc_player(ps.first()) + enc_players(ps.drop_first())) + enc_player(x));
    }
}

proof fn lemma_enc_sessions_push(l: Seq<SessionV>, x: SessionV)
    ensures
        enc_sessions(l.push(x)) == enc_sessions(l) + enc_session(x),
    decreases l.len(),
{
    let all = l.push(x);
    if l.len() == 0 {
        assert(all.first() == x);
        assert(all.drop_first() =~= Seq::<SessionV>::empty());
        assert(enc_sessions(Seq::<SessionV>::empty()) == Seq::<u8>::empty());
        assert(enc_sessions(all) =~= enc_session(x) + Seq::<u8>::empty());
        assert(enc_sessions(all) =~= enc_session(x));
        assert(enc_sessions(l) + enc_session(x) =~= enc_session(x));
    } else {
        assert(all.first() == l.first());
        assert(all.drop_first() =~= l.drop_first().push(x));
        lemma_enc_sessions_push(l.drop_first(), x);
        assert(enc_session(l.first()) + (enc_sessions(l.drop_first()) + enc_session(x)) =~= (
        enc_session(l.first()) + enc_sessions(l.drop_first())) + enc_session(x));
    }
}

/// Splitting a window that holds a concatenation splits it at the seam.
proof fn lemma_split_at(b: Seq<u8>, pos: int, x: Seq<u8>, y: Seq<u8>)
    requires
        0 <= pos,
        pos + x.len() + y.len() <= b.len(),
        b.subrange(pos, pos + x.len() + y.len()) == x + y,
    ensures
        b.subrange(pos, pos + x.len()) == x,
        b.subrange(pos + x.len(), pos + x.len() + y.len()) == y,
{
    let whole = b.subrange(pos, pos + x.len() + y.len());
    assert(b.subrange(pos, pos + x.len()) =~= x) by {
        assert forall|i: int| 0 <= i < x.len() implies b.subrange(pos, pos + x.len())[i]
            == x[i] by {
            assert(whole[i] == (x + y)[i]);
        }
    }
    assert(b.subrange(pos + x.len(), pos + x.len() + y.len()) =~= y) by {
        assert forall|i: int| 0 <= i < y.len() implies b.subrange(
            pos + x.len(),
            pos + x.len() + y.len(),
        )[i] == y[i] by {
            assert(whole[x.len() + i] == (x + y)[x.len() + i]);
        }
    }
}

proof fn lemma_parse_enc_u32(b: Seq<u8>, pos: int, x: u32)
    requires
        0 <= pos,
        pos + 4 <= b.len(),
        b.subrange(pos, pos + 4) == enc_u32(x),
    ensures
        parse_u32(b, pos) == Some((x, pos + 4)),
{
    lemma_auto_spec_u32_to_from_le_bytes();
    assert(spec_u32_to_le_bytes(x).len() == 4);
}

proof fn lemma_parse_enc_u64(b: Seq<u8>, pos: int, x: u64)
    requires
        0 <= pos,
        pos + 8 <= b.len(),
        b.subrange(pos, pos + 8) == enc_u64(x),
    ensures
        parse_u64(b, pos) == Some((x, pos + 8)),
{
    lemma_auto_spec_u64_to_from_le_bytes();
    assert(spec_u64_to_le_bytes(x).len() == 8);
}

proof fn lemma_parse_enc_str(b: Seq<u8>, pos: int, s: Seq<char>)
    requires
        bounded_str(s),
        0 <= pos,
        pos + enc_str(s).len() <= b.len(),
        b.subrange(pos, pos + enc_str(s).len()) == enc_str(s),
    ensures
        parse_str(b, pos) == Some((s, pos + enc_str(s).len())),
{
    lemma_auto_spec_u64_to_from_le_bytes();
    let n = encode_utf8(s).len() as int;
    let lenb = enc_u64(encode_utf8(s).len() as u64);
    assert(lenb.len() == 8);
    lemma_split_at(b, pos, lenb, encode_utf8(s));
    lemma_parse_enc_u64(b, pos, encode_utf8(s).len() as u64);
    assert((encode_utf8(s).len() as u64) as int == n);
    assert(b.subrange(pos + 8, pos + 8 + n) == encode_utf8(s));
    encode_utf8_valid_utf8(s);
    encode_utf8_decode_utf8(s);
}

proof fn lemma_parse_enc_pop(b: Seq<u8>, pos: int, p: PopV)
    requires
        bounded_pop(p),
        0 <= pos,
        pos + enc_pop(p).len() <= b.len(),
        b.subrange(pos, pos + enc_pop(p).len()) == enc_pop(p),
    ensures
        parse_pop(b, pos) == Some((p, pos + enc_pop(p).len())),
{
    lemma_auto_spec_u32_to_from_le_bytes();
    lemma_auto_spec_u64_to_from_le_bytes();
    lemma_split_at(b, pos, enc_str(p.name), enc_u32(p.ping));
    lemma_parse_enc_str(b, pos, p.name);
    lemma_parse_enc_u32(b, pos + enc_str(p.name).len(), p.ping);
}

proof fn lemma_parse_enc_pops(b: Seq<u8>, pos: int, ps: Seq<PopV>)
    requires
        forall|i: int| 0 <= i < ps.len() ==> bounded_pop(#[trigger] ps[i]),
        0 <= pos,
        pos + enc_pops(ps).len() <= b.len(),
        b.subrange(pos, pos + enc_pops(ps).len()) == enc_pops(ps),
    ensures
        parse_pops(b, pos, ps.len() as int) == Some((ps, pos + enc_pops(ps).len())),
    decreases ps.len(),
{
    if ps.len() == 0 {
        assert(ps =~= Seq::<PopV>::empty());
    } else {
        let head = enc_pop(ps.first());
        let tail = enc_pops(ps.drop_first());
        lemma_split_at(b, pos, head, tail);
        assert(bounded_pop(ps[0]));
        lemma_parse_enc_pop(b, pos, ps.first());
        assert(forall|i: int|
            0 <= i < ps.drop_first().len() ==> bounded_pop(#[trigger] ps.drop_first()[i]));
        lemma_parse_enc_pops(b, pos + head.len(), ps.drop_first());
        assert(seq![ps.first()] + ps.drop_first() =~= ps);
    }
}

proof fn lemma_parse_enc_player(b: Seq<u8>, pos: int, p: PlayerV)
    requires
        bounded_player(p),
        0 <= pos,
        pos + enc_player(p).len() <= b.len(),
        b.subrange(pos, pos + enc_player(p).len()) == enc_player(p),
    ensures
        parse_player(b, pos) == Some((p, pos + enc_player(p).len())),
{
    lemma_auto_spec_u32_to_from_le_bytes();
    lemma_auto_spec_u64_to_from_le_bytes();
    let pa = enc_u32(p.id);
    let pb = enc_str(p.name);
    let pc = enc_u64(p.index as u64);
    let pd = enc_u64(p.last_heartbeat);
    let pe = enc_u64(p.pops.len() as u64);
    let pf = enc_pops(p.pops);
    assert(enc_player(p) =~= pa + (pb + (pc + (pd + (pe + pf)))));
    lemma_split_at(b, pos, pa, pb + (pc + (pd + (pe + pf))));
    lemma_parse_enc_u32(b, pos, p.id);
    let q1 = pos + pa.len();
    lemma_split_at(b, q1, pb, pc + (pd + (pe + pf)));
    lemma_parse_enc_str(b, q1, p.name);
    let q2 = q1 + pb.len();
    lemma_split_at(b, q2, pc, pd + (pe + pf));
    lemma_parse_enc_u64(b, q2, p.index as u64);
    let q3 = q2 + pc.len();
    lemma_split_at(b, q3, pd, pe + pf);
    lemma_parse_enc_u64(b, q3, p.last_heartbeat);
    let q4 = q3 + pd.len();
    lemma_split_at(b, q4, pe, pf);
    lemma_parse_enc_u64(b, q4, p.pops.len() as u64);
    let q5 = q4 + pe.len();
    assert((p.pops.len() as u64) as int == p.pops.len() as int);
    lemma_parse_enc_pops(b, q5, p.pops);
    assert((p.index as u64) <= usize::MAX);
    assert((p.index as u64) as usize == p.index);
}

proof fn lemma_parse_enc_players(b: Seq<u8>, pos: int, ps: Seq<PlayerV>)
    requires
        forall|i: int| 0 <= i < ps.len() ==> bounded_player(#[trigger] ps[i]),
        0 <= pos,
        pos + enc_players(ps).len() <= b.len(),
        b.subrange(pos, pos + enc_players(ps).len()) == enc_players(ps),
    ensures
        parse_players(b, pos, ps.len() as int) == Some((ps, pos + enc_players(ps).len())),
    decreases ps.len(),
{
    if ps.len() == 0 {
        assert(ps =~= Seq::<PlayerV>::empty());
    } else {
        let head = enc_player(ps.first());
        let tail = enc_players(ps.drop_first());
        lemma_split_at(b, pos, head, tail);
        assert(bounded_player(ps[0]));
        lemma_parse_enc_player(b, pos, ps.first());
        assert(forall|i: int|
            0 <= i < ps.drop_first().len() ==> bounded_player(#[trigger] ps.drop_first()[i]));
        lemma_parse_enc_players(b, pos + head.len(), ps.drop_first());
        assert(seq![ps.first()] + ps.drop_first() =~= ps);
    }
}

proof fn lemma_parse_enc_session(b: Seq<u8>, pos: int, s: SessionV)
    requires
        bounded_session(s),
        0 <= pos,
        pos + enc_session(s).len() <= b.len(),
        b.subrange(pos, pos + enc_session(s).len()) == enc_session(s),
    ensures
        parse_session(b, pos) == Some((s, pos + enc_session(s).len())),
{
    lemma_auto_spec_u32_to_from_le_bytes();
    lemma_auto_spec_u64_to_from_le_bytes();
    let pa = enc_u32(s.id);
    let pb = enc_str(s.pop);
    let pc = enc_u64(s.players.len() as u64);
    let pd = enc_players(s.players);
    assert(enc_session(s) =~= pa + (pb + (pc + pd)));
    lemma_split_at(b, pos, pa, pb + (pc + pd));
    lemma_parse_enc_u32(b, pos, s.id);
    let q1 = pos + pa.len();
    lemma_split_at(b, q1, pb, pc + pd);
    lemma_parse_enc_str(b, q1, s.pop);
    let q2 = q1 + pb.len();
    lemma_split_at(b, q2, pc, pd);
    lemma_parse_enc_u64(b, q2, s.players.len() as u64);
    let q3 = q2 + pc.len();
    assert((s.players.len() as u64) as int == s.players.len() as int);
    lemma_parse_enc_players(b, q3, s.players);
}

proof fn lemma_parse_enc_sessions(b: Seq<u8>, pos: int, l: Seq<SessionV>)
    requires
        forall|i: int| 0 <= i < l.len() ==> bounded_session(#[trigger] l[i]),
        0 <= pos,
        pos + enc_sessions(l).len() <= b.len(),
        b.subrange(pos, pos + enc_sessions(l).len()) == enc_sessions(l),
    ensures
        parse_sessions(b, pos, l.len() as int) == Some((l, pos + enc_sessions(l).len())),
    decreases l.len(),
{
    if l.len() == 0 {
        assert(l =~= Seq::<SessionV>::empty());
    } else {
        let head = enc_session(l.first());
        let tail = enc_sessions(l.drop_first());
        lemma_split_at(b, pos, head, tail);
        assert(bounded_session(l[0]));
        lemma_parse_enc_session(b, pos, l.first());
        assert(forall|i: int|
            0 <= i < l.drop_first().len() ==> bounded_session(#[trigger] l.drop_first()[i]));
        lemma_parse_enc_sessions(b, pos + head.len(), l.drop_first());
        assert(seq![l.first()] + l.drop_first() =~= l);
    }
}

/// The round trip: decoding an encoded list gives the list back exactly,
/// every field of every session, player and sample included. Boundedness
/// asks only that each length prefix fits its 64 bits, which holds of any
/// list a program can build.
pub proof fn lemma_codec_round_trip(l: Seq<SessionV>)
    requires
        bounded_sessions(l),
    ensures
        spec_decode(spec_encode(l)) == Some(l),
{
    let b = spec_encode(l);
    let cnt = enc_u64(l.len() as u64);
    lemma_auto_spec_u64_to_from_le_bytes();
    assert(b.subrange(0, b.len() as int) =~= b);
    lemma_split_at(b, 0, cnt, enc_sessions(l));
    lemma_parse_enc_u64(b, 0, l.len() as u64);
    assert((l.len() as u64) as int == l.len() as int);
    lemma_parse_enc_sessions(b, 8, l);
}

fn encode_u32_into(out: &mut Vec<u8>, x: u32)
    ensures
        final(out)@ == old(out)@ + enc_u32(x),
{
    let mut b = u32_to_le_bytes(x);
    out.append(&mut b);
}

fn encode_u64_into(out: &mut Vec<u8>, x: u64)
    ensures
        final(out)@ == old(out)@ + enc_u64(x),
{
    let mut b = u64_to_le_bytes(x);
    out.append(&mut b);
}

fn encode_str_into(out: &mut Vec<u8>, s: &str)
    ensures
        final(out)@ == old(out)@ + enc_str(s@),
{
    let ghost start = out@;
    let bytes = vstd::string::StrSliceExecFns::as_bytes_vec(s);
    assert(bytes@ == encode_utf8(s@));
    encode_u64_into(out, bytes.len() as u64);
    let mut bytes = bytes;
    out.append(&mut bytes);
    assert(out@ =~= start + enc_str(s@));
}

fn encode_pop_into(out: &mut Vec<u8>, p: &Pop)
    ensures
        final(out)@ == old(out)@ + enc_pop(p.deep_view()),
{
    let ghost start = out@;
    encode_str_into(out, p.name.as_str());
    encode_u32_into(out, p.ping);
    assert(out@ =~= start + enc_pop(p.deep_view()));
}

fn encode_player_into(out: &mut Vec<u8>, p: &Player)
    ensures
        final(out)@ == old(out)@ + enc_player(p.deep_view()),
{
    let ghost start = out@;
    let ghost pv = p.deep_view();
    encode_u32_into(out, p.id);
    encode_str_into(out, p.name.as_str());
    encode_u64_into(out, p.index as u64);
    encode_u64_into(out, p.last_heartbeat);
    encode_u64_into(out, p.pops.len() as u64);
    let ghost head = out@;
    let mut j: usize = 0;
    assert(pv.pops.subrange(0, 0) =~= Seq::<PopV>::empty());
    assert(out@ =~= head + enc_pops(pv.pops.subrange(0, 0)));
    while j < p.pops.len()
        invariant
            pv == p.deep_view(),
            j <= pv.pops.len(),
            out@ == head + enc_pops(pv.pops.subrange(0, j as int)),
        decreases pv.pops.len() - j,
    {
        encode_pop_into(out, &p.pops[j]);
        proof {
            let pre = pv.pops.subrange(0, j as int);
            let cur = pv.pops.subrange(0, j as int + 1);
            assert(cur =~= pre.push(pv.pops[j as int]));
            lemma_enc_pops_push(pre, pv.pops[j as int]);
            assert(out@ =~= head + enc_pops(cur));
        }
        j += 1;
    }
    assert(pv.pops.subrange(0, pv.pops.len() as int) =~= pv.pops);
    assert(out@ =~= start + enc_player(pv));
}

fn encode_session_into(out: &mut Vec<u8>, s: &Session)
    ensures
        final(out)@ == old(out)@ + enc_session(s.deep_view()),
{
    let ghost start = out@;
    let ghost sv = s.deep_view();
    encode_u32_into(out, s.id);
    encode_str_into(out, s.pop.as_str());
    encode_u64_into(out, s.players.len() as u64);
    let ghost head = out@;
    let mut j: usize = 0;
    assert(sv.players.subrange(0, 0) =~= Seq::<PlayerV>::empty());
    assert(out@ =~= head + enc_players(sv.players.subrange(0, 0)));
    while j < s.players.len()
        invariant
            sv == s.deep_view(),
            j <= sv.players.len(),
            out@ == head + enc_players(sv.players.subrange(0, j as int)),
        decreases sv.players.len() - j,
    {
        encode_player_into(out, &s.players[j]);
        proof {
            let pre = sv.players.subrange(0, j as int);
            let cur = sv.players.subrange(0, j as int + 1);
            assert(cur =~= pre.push(sv.players[j as int]));
            lemma_enc_players_push(pre, sv.players[j as int]);
            assert(out@ =~= head + enc_players(cur));
        }
        j += 1;
    }
    assert(sv.players.subrange(0, sv.players.len() as int) =~= sv.players);
    assert(out@ =~= start + enc_session(sv));
}

/// Encode the whole session list as the blob the store persists: exactly
/// [`spec_encode`] of the list's value.
pub fn encode_sessions(sessions: &Vec<Session>) -> (r: Vec<u8>)
    ensures
        r@ == spec_encode(sessions.deep_view()),
{
    let ghost l = sessions.deep_view();
    let mut out: Vec<u8> = Vec::new();
    encode_u64_into(&mut out, sessions.len() as u64);
    let ghost head = out@;
    let mut i: usize = 0;
    assert(l.subrange(0, 0) =~= Seq::<SessionV>::empty());
    assert(out@ =~= head + enc_sessions(l.subrange(0, 0)));
    while i < sessions.len()
        invariant
            l == sessions.deep_view(),
            i <= l.len(),
            out@ == head + enc_sessions(l.subrange(0, i as int)),
        decreases l.len() - i,
    {
        encode_session_into(&mut out, &sessions[i]);
        proof {
            let pre = l.subrange(0, i as int);
            let cur = l.subrange(0, i as int + 1);
            assert(cur =~= pre.push(l[i as int]));
            lemma_enc_sessions_push(pre, l[i as int]);
            assert(out@ =~= head + enc_sessions(cur));
        }
        i += 1;
    }
    assert(l.subrange(0, l.len() as int) =~= l);
    assert(out@ =~= spec_encode(l));
    out
}

/// Relies on String::from_utf8: it accepts exactly the valid UTF-8 byte
/// sequences, and the accepted string's characters are the decoded
/// scalar values of those bytes.
#[verifier::external_body]
fn string_from_utf8(v: Vec<u8>) -> (r: Option<String>)
    ensures
        match r {
            Some(s) => valid_utf8(v@) && s@ == decode_utf8(v@),
            None => !valid_utf8(v@),
        },
{
    String::from_utf8(v).ok()
}

fn read_u32(bytes: &Vec<u8>, pos: usize) -> (r: Option<(u32, usize)>)
    ensures
        match r {
            Some((v, p2)) => parse_u32(bytes@, pos as int) == Some((v, p2 as int)) && p2
                <= bytes@.len(),
            None => parse_u32(bytes@, pos as int) is None,
        },
{
    if bytes.len() >= 4 && pos <= bytes.len() - 4 {
        let s = slice_subrange(bytes.as_slice(), pos, pos + 4);
        Some((u32_from_le_bytes(s), pos + 4))
    } else {
        None
    }
}

fn read_u64(bytes: &Vec<u8>, pos: usize) -> (r: Option<(u64, usize)>)
    ensures
        match r {
            Some((v, p2)) => parse_u64(bytes@, pos as int) == Some((v, p2 as int)) && p2
                <= bytes@.len(),
            None => parse_u64(bytes@, pos as int) is None,
        },
{
    if bytes.len() >= 8 && pos <= bytes.len() - 8 {
        let s = slice_subrange(bytes.as_slice(), pos, pos + 8);
        Some((u64_from_le_bytes(s), pos + 8))
    } else {
        None
    }
}

fn read_str(bytes: &Vec<u8>, pos: usize) -> (r: Option<(String, usize)>)
    ensures
        match r {
            Some((s, p2)) => parse_str(bytes@, pos as int) == Some((s@, p2 as int)) && p2
                <= bytes@.len(),
            None => parse_str(bytes@, pos as int) is None,
        },
{
    match read_u64(bytes, pos) {
        Some((n, p2)) => {
            if n <= (bytes.len() - p2) as u64 {
                let nn = n as usize;
                let sl = slice_subrange(bytes.as_slice(), p2, p2 + nn);
                let v = vstd::slice::slice_to_vec(sl);
                match string_from_utf8(v) {
                    Some(s) => Some((s, p2 + nn)),
                    None => None,
                }
            } else {
                None
            }
        },
        None => None,
    }
}

fn read_pop(bytes: &Vec<u8>, pos: usize) -> (r: Option<(Pop, usize)>)
    ensures
        match r {
            Some((p, p2)) => parse_pop(bytes@, pos as int) == Some((p.deep_view(), p2 as int))
                && p2 <= bytes@.len(),
            None => parse_pop(bytes@, pos as int) is None,
        },
{
    match read_str(bytes, pos) {
        Some((name, p2)) => match read_u32(bytes, p2) {
            Some((ping, p3)) => Some((Pop { name: name, ping: ping }, p3)),
            None => None,
        },
        None => None,
    }
}

fn read_pops(bytes: &Vec<u8>, pos: usize, n: u64) -> (r: Option<(Vec<Pop>, usize)>)
    requires
        pos <= bytes@.len(),
    ensures
        match r {
            Some((v, p2)) => parse_pops(bytes@, pos as int, n as int) == Some(
                (v.deep_view(), p2 as int),
            ) && p2 <= bytes@.len(),
            None => parse_pops(bytes@, pos as int, n as int) is None,
        },
{
    let mut out: Vec<Pop> = Vec::new();
    let mut i: u64 = 0;
    let mut cur: usize = pos;
    assert(out.deep_view() =~= Seq::<PopV>::empty());
    while i < n
        invariant
            i <= n,
            cur <= bytes@.len(),
            parse_pops(bytes@, pos as int, n as int) == (match parse_pops(
                bytes@,
                cur as int,
                n - i,
            ) {
                Some((rest, e)) => Some((out.deep_view() + rest, e)),
                None => None::<(Seq<PopV>, int)>,
            }),
        decreases n - i,
    {
        match read_pop(bytes, cur) {
            Some((p, p2)) => {
                let ghost before = out.deep_view();
                out.push(p);
                proof {
                    assert(out.deep_view() =~= before.push(p.deep_view()));
                    assert forall|rest: Seq<PopV>|
                        true implies before + (seq![p.deep_view()] + rest) =~= (before.push(
                        p.deep_view(),
                    )) + rest by {}
                }
                cur = p2;
                i = i + 1;
            },
            None => {
                return None;
            },
        }
    }
    assert(parse_pops(bytes@, cur as int, 0) == Some((Seq::<PopV>::empty(), cur as int)));
    assert(out.deep_view() + Seq::<PopV>::empty() =~= out.deep_view());
    Some((out, cur))
}

fn read_player(bytes: &Vec<u8>, pos: usize) -> (r: Option<(Player, usize)>)
    ensures
        match r {
            Some((p, p2)) => parse_player(bytes@, pos as int) == Some(
                (p.deep_view(), p2 as int),
            ) && p2 <= bytes@.len(),
            None => parse_player(bytes@, pos as int) is None,
        },
{
    match read_u32(bytes, pos) {
        Some((id, p2)) => match read_str(bytes, p2) {
            Some((name, p3)) => match read_u64(bytes, p3) {
                Some((index, p4)) => {
                    if index <= usize::MAX as u64 {
                        match read_u64(bytes, p4) {
                            Some((hb, p5)) => match read_u64(bytes, p5) {
                                Some((cnt, p6)) => match read_pops(bytes, p6, cnt) {
                                    Some((pops, p7)) => Some(
                                        (
                                            Player {
                                                name: name,
                                                id: id,
                                                index: index as usize,
                                                last_heartbeat: hb,
                                                pops: pops,
                                            },
                                            p7,
                                        ),
                                    ),
                                    None => None,
                                },
                                None => None,
                            },
                            None => None,
                        }
                    } else {
                        None
                    }
                },
                None => None,
            },
            None => None,
        },
        None => None,
    }
}

fn read_players(bytes: &Vec<u8>, pos: usize, n: u64) -> (r: Option<(Vec<Player>, usize)>)
    requires
        pos <= bytes@.len(),
    ensures
        match r {
            Some((v, p2)) => parse_players(bytes@, pos as int, n as int) == Some(
                (v.deep_view(), p2 as int),
            ) && p2 <= bytes@.len(),
            None => parse_players(bytes@, pos as int, n as int) is None,
        },
{
    let mut out: Vec<Player> = Vec::new();
    let mut i: u64 = 0;
    let mut cur: usize = pos;
    assert(out.deep_view() =~= Seq::<PlayerV>::empty());
    while i < n
        invariant
            i <= n,
            cur <= bytes@.len(),
            parse_players(bytes@, pos as int, n as int) == (match parse_players(
                bytes@,
                cur as int,
                n - i,
            ) {
                Some((rest, e)) => Some((out.deep_view() + rest, e)),
                None => None::<(Seq<PlayerV>, int)>,
            }),
        decreases n - i,
    {
        match read_player(bytes, cur) {
            Some((p, p2)) => {
                let ghost before = out.deep_view();
                out.push(p);
                proof {
                    assert(out.deep_view() =~= before.push(p.deep_view()));
                }
                cur = p2;
                i = i + 1;
            },
            None => {
                return None;
            },
        }
    }
    assert(parse_players(bytes@, cur as int, 0) == Some((Seq::<PlayerV>::empty(), cur as int)));
    assert(out.deep_view() + Seq::<PlayerV>::empty() =~= out.deep_view());
    Some((out, cur))
}

fn read_session(bytes: &Vec<u8>, pos: usize) -> (r: Option<(Session, usize)>)
    ensures
        match r {
            Some((s, p2)) => parse_session(bytes@, pos as int) == Some(
                (s.deep_view(), p2 as int),
            ) && p2 <= bytes@.len(),
            None => parse_session(bytes@, pos as int) is None,
        },
{
    match read_u32(bytes, pos) {
        Some((id, p2)) => match read_str(bytes, p2) {
            Some((pop, p3)) => match read_u64(bytes, p3) {
                Some((cnt, p4)) => match read_players(bytes, p4, cnt) {
                    Some((players, p5)) => Some(
                        (Session { id: id, pop: pop, players: players }, p5),
                    ),
                    None => None,
                },
                None => None,
            },
            None => None,
        },
        None => None,
    }
}

/// Decode a blob back into a session list. Anything but a complete,
/// well-formed list is rejected: the caller treats a rejected snapshot as
/// an empty one, which is also how a store read failure degrades.
pub fn decode_sessions(bytes: &Vec<u8>) -> (r: Option<Vec<Session>>)
    ensures
        match r {
            Some(l) => spec_decode(bytes@) == Some(l.deep_view()) && wf_sessions(l.deep_view()),
            None => spec_decode(bytes@) is None || !wf_sessions(spec_decode(bytes@)->0),
        },
{
    match read_u64(bytes, 0) {
        Some((n, p)) => {
            let mut out: Vec<Session> = Vec::new();
            let mut i: u64 = 0;
            let mut cur: usize = p;
            assert(out.deep_view() =~= Seq::<SessionV>::empty());
            while i < n
                invariant
                    i <= n,
                    cur <= bytes@.len(),
                    parse_u64(bytes@, 0) == Some((n, p as int)),
                    parse_sessions(bytes@, p as int, n as int) == (match parse_sessions(
                        bytes@,
                        cur as int,
                        n - i,
                    ) {
                        Some((rest, e)) => Some((out.deep_view() + rest, e)),
                        None => None::<(Seq<SessionV>, int)>,
                    }),
                decreases n - i,
            {
                match read_session(bytes, cur) {
                    Some((s, p2)) => {
                        let ghost before = out.deep_view();
                        out.push(s);
                        proof {
                            assert(out.deep_view() =~= before.push(s.deep_view()));
                        }
                        cur = p2;
                        i = i + 1;
                    },
                    None => {
                        return None;
                    },
                }
            }
            assert(parse_sessions(bytes@, cur as int, 0) == Some(
                (Seq::<SessionV>::empty(), cur as int),
            ));
            assert(out.deep_view() + Seq::<SessionV>::empty() =~= out.deep_view());
            if cur == bytes.len() {
                if crate::model::check_wf(&out) {
                    Some(out)
                } else {
                    None
                }
            } else {
                None
            }
        },
        None => None,
    }
}

} // verus!
