//! The matchmaking controller: the single decision point that applies one
//! event at a time to the registry and enqueues every outbound message.

use vstd::prelude::*;
use vstd::utf8::{decode_utf8, encode_utf8, valid_utf8};
use crate::model::{
    Duel, Header, Id, Message, MessageType, MessageV, OutboxV, Player, PlayerStatus, PlayerV,
    Request, ServerError,
};
use crate::numtext::{dec_chars, parse_u32_bytes, spec_parse_uint, u64_to_string};
use crate::state::{
    find_player_on_hold, has_id, idx_of_id, ids_unique, listing, player_of, player_list_string,
    players_wf, purge_requests, State, StateV,
};

verus! {

/// The three event kinds the controller accepts.
pub enum HandlerMessage {
    ClientMessage(Message),
    AddPlayer,
    ReleasePlayer,
}

// ------------------------------------------------------------------
// Spec: elementary registry transforms
// ------------------------------------------------------------------
/// `msg` appended to the open outbound queue of the player carrying `id`;
/// a closed queue, or an absent player, is left as it is.
pub open spec fn deliver_one(players: Seq<PlayerV>, id: Id, m: MessageV) -> Seq<PlayerV> {
    players.map_values(
        |p: PlayerV|
            if p.id == id && p.outbox.open {
                PlayerV {
                    outbox: OutboxV { messages: p.outbox.messages.push(m), open: p.outbox.open },
                    ..p
                }
            } else {
                p
            },
    )
}

/// `msg` delivered to each identity of `targets` in turn.
pub open spec fn deliver_all(players: Seq<PlayerV>, targets: Seq<Id>, m: MessageV) -> Seq<PlayerV>
    decreases targets.len(),
{
    if targets.len() == 0 {
        players
    } else {
        deliver_all(deliver_one(players, targets[0], m), targets.drop_first(), m)
    }
}

/// Delivery to `id` fails: no live player carries it with an open queue.
pub open spec fn delivery_fails(players: Seq<PlayerV>, id: Id) -> bool {
    forall|i: int| 0 <= i < players.len() ==> !(players[i].id == id && players[i].outbox.open)
}

/// The identities of `targets` whose delivery fails, in order.
pub open spec fn failed_of(players: Seq<PlayerV>, targets: Seq<Id>) -> Seq<Id>
    decreases targets.len(),
{
    if targets.len() == 0 {
        Seq::empty()
    } else {
        let rest = failed_of(players, targets.drop_first());
        if delivery_fails(players, targets[0]) {
            seq![targets[0]] + rest
        } else {
            rest
        }
    }
}

/// The player's status replaced, the rest kept.
pub open spec fn set_status_of(players: Seq<PlayerV>, id: Id, st: PlayerStatus) -> Seq<PlayerV> {
    players.map_values(
        |p: PlayerV|
            if p.id == id {
                PlayerV { status: st, ..p }
            } else {
                p
            },
    )
}

/// The identities of the on-hold players, in registry order.
pub open spec fn onhold_ids(players: Seq<PlayerV>) -> Seq<Id>
    decreases players.len(),
{
    if players.len() == 0 {
        Seq::empty()
    } else {
        let rest = onhold_ids(players.drop_last());
        if players.last().on_hold() {
            rest.push(players.last().id)
        } else {
            rest
        }
    }
}

/// The identities of all players, in registry order.
pub open spec fn all_ids(players: Seq<PlayerV>) -> Seq<Id> {
    players.map_values(|p: PlayerV| p.id)
}

// ------------------------------------------------------------------
// Spec: shape lemmas
// ------------------------------------------------------------------
/// Delivering messages changes no identity, name, status or queue state.
pub proof fn lemma_deliver_all_shape(players: Seq<PlayerV>, targets: Seq<Id>, m: MessageV)
    ensures
        deliver_all(players, targets, m).len() == players.len(),
        forall|i: int|
            0 <= i < players.len() ==> {
                let q = #[trigger] deliver_all(players, targets, m)[i];
                q.id == players[i].id && q.name == players[i].name && q.status == players[i].status
                    && q.outbox.open == players[i].outbox.open
            },
    decreases targets.len(),
{
    if targets.len() > 0 {
        lemma_deliver_all_shape(deliver_one(players, targets[0], m), targets.drop_first(), m);
    }
}

/// A failed delivery leaves every player untouched.
pub proof fn lemma_deliver_fails_id(players: Seq<PlayerV>, id: Id, m: MessageV)
    requires
        delivery_fails(players, id),
    ensures
        deliver_one(players, id, m) == players,
{
    assert forall|j: int|
        0 <= j < players.len() implies deliver_one(players, id, m)[j] == players[j] by {
        assert(!(players[j].id == id && players[j].outbox.open));
    }
    assert(deliver_one(players, id, m) =~= players);
}

/// A player collection whose identities and statuses are kept pointwise
/// stays well formed.
pub proof fn lemma_wf_shape(p1: Seq<PlayerV>, p2: Seq<PlayerV>)
    requires
        players_wf(p1),
        p2.len() == p1.len(),
        forall|i: int|
            0 <= i < p1.len() ==> (#[trigger] p2[i]).id == p1[i].id && p2[i].status == p1[i].status,
    ensures
        players_wf(p2),
{
    assert forall|i: int| 0 <= i < p2.len() implies match #[trigger] p2[i].status {
        PlayerStatus::Duelling(d) => {
            let me = p2[i].id;
            let other = d.spec_other_player(me);
            &&& d.pairs(me, other)
            &&& me != other
            &&& has_id(p2, other)
            &&& (player_of(p2, other).status matches PlayerStatus::Duelling(d2) && d2.pairs(
                me,
                other,
            ))
        },
        PlayerStatus::OnHold => true,
    } by {
        match p2[i].status {
            PlayerStatus::Duelling(d) => {
                let me = p1[i].id;
                let other = d.spec_other_player(me);
                assert(p1[i].status == p2[i].status);
                let j1 = idx_of_id(p1, other);
                assert(0 <= j1 < p1.len() && p1[j1].id == other);
                assert(p2[j1].id == other);
                assert(has_id(p2, other));
                let j2 = idx_of_id(p2, other);
                assert(0 <= j2 < p2.len() && p2[j2].id == other);
                if j1 != j2 {
                    assert(p1[j1].id == p1[j2].id);
                }
                assert(player_of(p2, other).status == player_of(p1, other).status);
            },
            PlayerStatus::OnHold => {},
        }
    }
}

/// Putting the two parties of a duel back on hold keeps the collection
/// well formed.
proof fn lemma_wf_unhold_pair(p: Seq<PlayerV>, a: Id, b: Id)
    requires
        players_wf(p),
        has_id(p, a),
        player_of(p, a).status matches PlayerStatus::Duelling(d) && d.spec_other_player(a) == b,
    ensures
        players_wf(
            set_status_of(set_status_of(p, a, PlayerStatus::OnHold), b, PlayerStatus::OnHold),
        ),
{
    let p2 = set_status_of(set_status_of(p, a, PlayerStatus::OnHold), b, PlayerStatus::OnHold);
    let ia = idx_of_id(p, a);
    let d = player_of(p, a).status->Duelling_0;
    assert(d.pairs(a, b) && a != b);
    assert forall|i: int| 0 <= i < p2.len() implies match #[trigger] p2[i].status {
        PlayerStatus::Duelling(d2) => {
            let me = p2[i].id;
            let other = d2.spec_other_player(me);
            &&& d2.pairs(me, other)
            &&& me != other
            &&& has_id(p2, other)
            &&& (player_of(p2, other).status matches PlayerStatus::Duelling(d3) && d3.pairs(
                me,
                other,
            ))
        },
        PlayerStatus::OnHold => true,
    } by {
        match p2[i].status {
            PlayerStatus::Duelling(d2) => {
                // This player is neither `a` nor `b`, so its entry is untouched.
                assert(p2[i].id != a && p2[i].id != b);
                assert(p2[i].status == p[i].status);
                let me = p[i].id;
                let other = d2.spec_other_player(me);
                let j = idx_of_id(p, other);
                assert(0 <= j < p.len() && p[j].id == other);
                // The partner is neither `a` nor `b` either.
                if other == a {
                    assert(player_of(p, a).status matches PlayerStatus::Duelling(da) && da.pairs(
                        me,
                        a,
                    ));
                    assert(d.pairs(me, a));
                    assert(me == b);
                    assert(p2[i].id == b);
                }
                if other == b {
                    let ib = idx_of_id(p, b);
                    assert(player_of(p, b).status matches PlayerStatus::Duelling(db) && db.pairs(
                        me,
                        b,
                    ));
                    assert(player_of(p, b).status matches PlayerStatus::Duelling(db2)
                        && db2.pairs(a, b));
                    assert(me == a);
                }
                assert(p2[j].id == other);
                assert(has_id(p2, other));
                let j2 = idx_of_id(p2, other);
                if j2 != j {
                    assert(p[j2].id == p[j].id);
                }
                assert(p2[j].status == p[j].status);
            },
            PlayerStatus::OnHold => {},
        }
    }
}

/// Removing a player whose duel, if any, has `other` as its partner, and
/// putting that partner back on hold, keeps the collection well formed.
proof fn lemma_wf_release_core(p: Seq<PlayerV>, id: Id)
    requires
        players_wf(p),
        has_id(p, id),
    ensures
        ({
            let rem = p.remove(idx_of_id(p, id));
            match player_of(p, id).status {
                PlayerStatus::OnHold => players_wf(rem),
                PlayerStatus::Duelling(d) => players_wf(
                    set_status_of(rem, d.spec_other_player(id), PlayerStatus::OnHold),
                ),
            }
        }),
{
    let i0 = idx_of_id(p, id);
    let rem = p.remove(i0);
    assert(forall|k: int| 0 <= k < i0 ==> rem[k] == p[k]);
    assert(forall|k: int| i0 <= k < rem.len() ==> rem[k] == p[k + 1]);
    let p2 = match player_of(p, id).status {
        PlayerStatus::OnHold => rem,
        PlayerStatus::Duelling(d) => set_status_of(
            rem,
            d.spec_other_player(id),
            PlayerStatus::OnHold,
        ),
    };
    let ghost other_id = match player_of(p, id).status {
        PlayerStatus::OnHold => id,
        PlayerStatus::Duelling(d) => d.spec_other_player(id),
    };
    assert(p2.len() == rem.len());
    assert(forall|k: int|
        0 <= k < rem.len() ==> (#[trigger] p2[k]).id == rem[k].id && p2[k].name == rem[k].name
            && p2[k].outbox == rem[k].outbox);
    assert(forall|k: int|
        0 <= k < rem.len() && rem[k].id != other_id ==> #[trigger] p2[k].status == rem[k].status);
    assert(ids_unique(p2));
    assert forall|i: int| 0 <= i < p2.len() implies match #[trigger] p2[i].status {
        PlayerStatus::Duelling(d2) => {
            let me = p2[i].id;
            let other = d2.spec_other_player(me);
            &&& d2.pairs(me, other)
            &&& me != other
            &&& has_id(p2, other)
            &&& (player_of(p2, other).status matches PlayerStatus::Duelling(d3) && d3.pairs(
                me,
                other,
            ))
        },
        PlayerStatus::OnHold => true,
    } by {
        match p2[i].status {
            PlayerStatus::Duelling(d2) => {
                // A still-duelling entry was untouched: it is neither the
                // removed player nor the released partner.
                let me = p2[i].id;
                assert(me != id);
                assert(me != other_id);
                let iold: int = if i < i0 {
                    i
                } else {
                    i + 1
                };
                assert(p[iold] == rem[i]);
                assert(p[iold].status == PlayerStatus::Duelling(d2) || rem[i].id == other_id);
                assert(p[iold].status == PlayerStatus::Duelling(d2));
                let other = d2.spec_other_player(me);
                let j = idx_of_id(p, other);
                assert(0 <= j < p.len() && p[j].id == other);
                // The partner is not the removed player.
                if other == id {
                    assert(player_of(p, id).status matches PlayerStatus::Duelling(dd) && dd.pairs(
                        me,
                        id,
                    ));
                    let dd = player_of(p, id).status->Duelling_0;
                    assert(dd.pairs(id, other_id));
                    assert(me == other_id);
                }
                assert(other != id);
                // The partner is not the released partner either.
                if other == other_id && other_id != id {
                    let dd = player_of(p, id).status->Duelling_0;
                    assert(player_of(p, other_id).status matches PlayerStatus::Duelling(d4)
                        && d4.pairs(id, other_id)) by {
                        let k0 = idx_of_id(p, other_id);
                        assert(dd.pairs(id, other_id));
                    }
                    assert(player_of(p, other_id).status matches PlayerStatus::Duelling(d5)
                        && d5.pairs(me, other_id));
                    assert(me == id);
                }
                assert(other != other_id);
                // Its entry survives removal at a shifted index.
                let jn: int = if j < i0 {
                    j
                } else {
                    j - 1
                };
                assert(j != i0);
                assert(p2[jn].id == other);
                assert(has_id(p2, other));
                let j2 = idx_of_id(p2, other);
                if j2 != jn {
                    assert(p2[j2].id == p2[jn].id);
                }
                assert(p2[jn].status == p[j].status);
            },
            PlayerStatus::OnHold => {},
        }
    }
}

/// Pairing two distinct on-hold players in one duel keeps the collection
/// well formed.
proof fn lemma_wf_match(p: Seq<PlayerV>, a: Id, b: Id)
    requires
        players_wf(p),
        has_id(p, a),
        has_id(p, b),
        a != b,
        player_of(p, a).status is OnHold,
        player_of(p, b).status is OnHold,
    ensures
        ({
            let duel = Duel { player1: a, player2: b };
            players_wf(
                set_status_of(
                    set_status_of(p, a, PlayerStatus::Duelling(duel)),
                    b,
                    PlayerStatus::Duelling(duel),
                ),
            )
        }),
{
    let duel = Duel { player1: a, player2: b };
    let p2 = set_status_of(
        set_status_of(p, a, PlayerStatus::Duelling(duel)),
        b,
        PlayerStatus::Duelling(duel),
    );
    let ia = idx_of_id(p, a);
    let ib = idx_of_id(p, b);
    assert forall|i: int| 0 <= i < p2.len() implies match #[trigger] p2[i].status {
        PlayerStatus::Duelling(d2) => {
            let me = p2[i].id;
            let other = d2.spec_other_player(me);
            &&& d2.pairs(me, other)
            &&& me != other
            &&& has_id(p2, other)
            &&& (player_of(p2, other).status matches PlayerStatus::Duelling(d3) && d3.pairs(
                me,
                other,
            ))
        },
        PlayerStatus::OnHold => true,
    } by {
        match p2[i].status {
            PlayerStatus::Duelling(d2) => {
                let me = p2[i].id;
                if me == a || me == b {
                    assert(d2 == duel);
                    let other = d2.spec_other_player(me);
                    assert(other == if me == a {
                        b
                    } else {
                        a
                    });
                    let j = if me == a {
                        ib
                    } else {
                        ia
                    };
                    assert(p2[j].id == other);
                    assert(has_id(p2, other));
                    let j2 = idx_of_id(p2, other);
                    if j2 != j {
                        assert(p2[j2].id == p2[j].id);
                    }
                    assert(p2[j].status == PlayerStatus::Duelling(duel));
                } else {
                    assert(p2[i].status == p[i].status);
                    let other = d2.spec_other_player(me);
                    let j = idx_of_id(p, other);
                    assert(0 <= j < p.len() && p[j].id == other);
                    if other == a {
                        assert(player_of(p, a).status matches PlayerStatus::Duelling(da));
                    }
                    if other == b {
                        assert(player_of(p, b).status matches PlayerStatus::Duelling(db));
                    }
                    assert(other != a && other != b);
                    assert(p2[j].id == other);
                    assert(has_id(p2, other));
                    let j2 = idx_of_id(p2, other);
                    if j2 != j {
                        assert(p2[j2].id == p2[j].id);
                    }
                    assert(p2[j].status == p[j].status);
                }
            },
            PlayerStatus::OnHold => {},
        }
    }
}

/// Adding a fresh on-hold player keeps the collection well formed.
proof fn lemma_wf_add(p: Seq<PlayerV>, q: PlayerV)
    requires
        players_wf(p),
        !has_id(p, q.id),
        q.status is OnHold,
    ensures
        players_wf(p.push(q)),
{
    let p2 = p.push(q);
    assert forall|i: int| 0 <= i < p2.len() implies match #[trigger] p2[i].status {
        PlayerStatus::Duelling(d2) => {
            let me = p2[i].id;
            let other = d2.spec_other_player(me);
            &&& d2.pairs(me, other)
            &&& me != other
            &&& has_id(p2, other)
            &&& (player_of(p2, other).status matches PlayerStatus::Duelling(d3) && d3.pairs(
                me,
                other,
            ))
        },
        PlayerStatus::OnHold => true,
    } by {
        if i < p.len() {
            match p2[i].status {
                PlayerStatus::Duelling(d2) => {
                    let me = p[i].id;
                    let other = d2.spec_other_player(me);
                    let j = idx_of_id(p, other);
                    assert(0 <= j < p.len() && p[j].id == other);
                    assert(p2[j].id == other);
                    assert(has_id(p2, other));
                    let j2 = idx_of_id(p2, other);
                    if j2 != j {
                        if j2 == p.len() {
                            assert(has_id(p, q.id)) by {
                                assert(p[j].id == q.id);
                            }
                        } else {
                            assert(p2[j2].id == p2[j].id);
                        }
                    }
                    assert(p2[j2].status == p[j].status);
                },
                PlayerStatus::OnHold => {},
            }
        }
    }
}

// ------------------------------------------------------------------
// Exec: delivery
// ------------------------------------------------------------------
/// Enqueues `msg` on the player's outbound queue; fails on a closed queue.
pub fn send(msg: &Message, player: &mut Player) -> (r: Result<(), ServerError>)
    ensures
        final(player).id == old(player).id,
        final(player)@.name == old(player)@.name,
        final(player)@.status == old(player)@.status,
        final(player)@.outbox.open == old(player)@.outbox.open,
        old(player)@.outbox.open ==> r is Ok && final(player)@.outbox.messages == old(
            player,
        )@.outbox.messages.push(msg@),
        !old(player)@.outbox.open ==> r == Err::<(), ServerError>(ServerError::SendFailed)
            && final(player)@ == old(player)@,
{
    if player.outbox.open {
        player.outbox.messages.push(msg.duplicate());
        proof {
            assert(player@.outbox.messages =~= old(player)@.outbox.messages.push(msg@));
        }
        Ok(())
    } else {
        proof {
            assert(final(player)@ =~~= old(player)@);
        }
        Err(ServerError::SendFailed)
    }
}

/// First index of the player carrying `id`.
fn find_player(players: &Vec<Player>, id: Id) -> (r: Option<usize>)
    ensures
        match r {
            Some(i) => i < players@.len() && players.deep_view()[i as int].id == id,
            None => forall|j: int|
                0 <= j < players@.len() ==> (#[trigger] players.deep_view()[j]).id != id,
        },
{
    let mut i: usize = 0;
    while i < players.len()
        invariant
            0 <= i <= players@.len(),
            forall|j: int| 0 <= j < i ==> (#[trigger] players.deep_view()[j]).id != id,
        decreases players@.len() - i,
    {
        if players[i].id == id {
            proof {
                assert(players.deep_view()[i as int].id == id);
            }
            return Some(i);
        }
        proof {
            assert(players.deep_view()[i as int].id != id);
        }
        i = i + 1;
    }
    None
}

/// Delivers `msg` to the player carrying `id`, reporting a closed queue or
/// an absent player as failure, without touching anything else.
fn deliver_to(players: &mut Vec<Player>, id: Id, msg: &Message) -> (ok: bool)
    requires
        ids_unique(old(players).deep_view()),
    ensures
        final(players).deep_view() == deliver_one(old(players).deep_view(), id, msg@),
        ok == !delivery_fails(old(players).deep_view(), id),
{
    let ghost pre = players.deep_view();
    match find_player(players, id) {
        None => {
            proof {
                assert(players.deep_view() =~~= deliver_one(pre, id, msg@));
            }
            false
        },
        Some(i) => {
            if players[i].outbox.open {
                let r = send(msg, &mut players[i]);
                proof {
                    assert(r is Ok);
                    assert forall|j: int|
                        0 <= j < pre.len() implies players.deep_view()[j] == deliver_one(
                        pre,
                        id,
                        msg@,
                    )[j] by {
                        if j != i && pre[j].id == id {
                            assert(pre[i as int].id == id);
                        }
                    }
                    assert(players.deep_view() =~~= deliver_one(pre, id, msg@));
                    assert(pre[i as int].id == id && pre[i as int].outbox.open);
                }
                true
            } else {
                proof {
                    assert forall|j: int|
                        0 <= j < pre.len() implies !(pre[j].id == id && pre[j].outbox.open) by {
                        if j != i && pre[j].id == id {
                            assert(pre[i as int].id == id);
                        }
                    }
                    assert(players.deep_view() =~~= deliver_one(pre, id, msg@));
                }
                false
            }
        },
    }
}

/// Attempts delivery of `msg` to every identity of `targets`, never
/// stopping on a failure, and reports the identities whose delivery failed.
pub fn broadcast(msg: &Message, targets: &Vec<Id>, players: &mut Vec<Player>) -> (failed: Vec<Id>)
    requires
        ids_unique(old(players).deep_view()),
    ensures
        final(players).deep_view() == deliver_all(old(players).deep_view(), targets@, msg@),
        failed@ == failed_of(old(players).deep_view(), targets@),
{
    let ghost pre = players.deep_view();
    let mut failed: Vec<Id> = Vec::new();
    let mut k: usize = 0;
    proof {
        assert(targets@.skip(0) =~= targets@);
    }
    while k < targets.len()
        invariant
            0 <= k <= targets@.len(),
            ids_unique(players.deep_view()),
            deliver_all(players.deep_view(), targets@.skip(k as int), msg@) == deliver_all(
                pre,
                targets@,
                msg@,
            ),
            failed_of(pre, targets@) == failed@ + failed_of(pre, targets@.skip(k as int)),
            players.deep_view().len() == pre.len(),
            forall|i: int|
                0 <= i < pre.len() ==> (#[trigger] players.deep_view()[i]).id == pre[i].id && (
                players.deep_view()[i]).outbox.open == pre[i].outbox.open,
        decreases targets@.len() - k,
    {
        let t = targets[k];
        let ghost cur = players.deep_view();
        proof {
            assert(targets@.skip(k as int)[0] == t);
            assert(targets@.skip(k as int).drop_first() =~= targets@.skip(k + 1));
        }
        let ok = deliver_to(players, t, msg);
        proof {
            assert(players.deep_view() == deliver_one(cur, t, msg@));
            assert(deliver_all(players.deep_view(), targets@.skip(k + 1), msg@) == deliver_all(
                cur,
                targets@.skip(k as int),
                msg@,
            ));
            assert forall|ii: int|
                0 <= ii < cur.len() implies (cur[ii].id == pre[ii].id && cur[ii].outbox.open
                == pre[ii].outbox.open) by {}
            if delivery_fails(pre, t) {
                assert forall|ii: int|
                    0 <= ii < cur.len() implies !(cur[ii].id == t && cur[ii].outbox.open) by {
                    assert(!(pre[ii].id == t && pre[ii].outbox.open));
                }
                assert(delivery_fails(cur, t));
            } else {
                let w = choose|ii: int|
                    0 <= ii < pre.len() && pre[ii].id == t && pre[ii].outbox.open;
                assert(cur[w].id == t && cur[w].outbox.open);
                assert(!delivery_fails(cur, t));
            }
            assert(delivery_fails(cur, t) == delivery_fails(pre, t));
        }
        if !ok {
            let ghost old_failed = failed@;
            failed.push(t);
            proof {
                assert(failed_of(pre, targets@.skip(k as int)) == seq![t] + failed_of(
                    pre,
                    targets@.skip(k + 1),
                ));
                assert(old_failed + (seq![t] + failed_of(pre, targets@.skip(k + 1))) =~= (old_failed
                    + seq![t]) + failed_of(pre, targets@.skip(k + 1)));
                assert(failed@ =~= old_failed + seq![t]);
            }
        } else {
            proof {
                assert(failed_of(pre, targets@.skip(k as int)) == failed_of(
                    pre,
                    targets@.skip(k + 1),
                ));
            }
        }
        k = k + 1;
    }
    proof {
        assert(targets@.skip(targets@.len() as int) =~= Seq::<Id>::empty());
        assert(failed@ + Seq::<Id>::empty() =~= failed@);
    }
    failed
}

/// The identities of the on-hold players, front to back.
fn collect_onhold_ids(players: &Vec<Player>) -> (r: Vec<Id>)
    ensures
        r@ == onhold_ids(players.deep_view()),
{
    let mut r: Vec<Id> = Vec::new();
    let mut i: usize = 0;
    while i < players.len()
        invariant
            0 <= i <= players@.len(),
            r@ == onhold_ids(players.deep_view().take(i as int)),
        decreases players@.len() - i,
    {
        proof {
            assert(players.deep_view().take(i + 1).drop_last() =~~= players.deep_view().take(
                i as int,
            ));
            assert(players.deep_view().take(i + 1).last() == players.deep_view()[i as int]);
        }
        if players[i].is_on_hold() {
            r.push(players[i].id);
        }
        i = i + 1;
    }
    proof {
        assert(players.deep_view().take(players@.len() as int) =~~= players.deep_view());
    }
    r
}

// ------------------------------------------------------------------
// Spec: the messages the controller emits
// ------------------------------------------------------------------
/// A message of the given wire type whose body is the UTF-8 text `text`,
/// with zero correlation tokens.
pub open spec fn text_msg(code: usize, text: Seq<char>) -> MessageV {
    MessageV {
        header: Header {
            message_type: code,
            message_length: encode_utf8(text).len() as usize,
            message_id: 0,
            answer_id: 0,
        },
        body: encode_utf8(text),
    }
}

/// A bodyless message of the given wire type.
pub open spec fn empty_msg(code: usize) -> MessageV {
    MessageV {
        header: Header { message_type: code, message_length: 0, message_id: 0, answer_id: 0 },
        body: Seq::empty(),
    }
}

/// The refreshed listing message for the given players.
pub open spec fn list_msg(players: Seq<PlayerV>) -> MessageV {
    text_msg(MessageType::ListPlayers.spec_code(), listing(players))
}

/// The player's name replaced, the rest kept.
pub open spec fn set_name_of(players: Seq<PlayerV>, id: Id, name: Seq<char>) -> Seq<PlayerV> {
    players.map_values(
        |p: PlayerV|
            if p.id == id {
                PlayerV { name: name, ..p }
            } else {
                p
            },
    )
}

// ------------------------------------------------------------------
// Spec: the composite transforms of the controller
// ------------------------------------------------------------------
/// Broadcast `m` to every on-hold player: the new registry and the
/// identities whose delivery failed.
pub open spec fn spec_broadcast_onhold(v: StateV, m: MessageV) -> (StateV, Seq<Id>) {
    let targets = onhold_ids(v.players);
    (
        StateV { players: deliver_all(v.players, targets, m), requests: v.requests },
        failed_of(v.players, targets),
    )
}

/// Broadcast the refreshed listing to every on-hold player.
pub open spec fn spec_listing_broadcast(v: StateV) -> (StateV, Seq<Id>) {
    spec_broadcast_onhold(v, list_msg(v.players))
}

/// Tear a duel down from `id`'s side: both parties back on hold, the other
/// party notified with an `ExitDuel` message; a closed queue there stops
/// the teardown with an error after the statuses are already reset.
pub open spec fn spec_exit_duel(v: StateV, id: Id) -> (StateV, Option<ServerError>) {
    match if v.has_player(id) {
        v.player(id).status
    } else {
        PlayerStatus::OnHold
    } {
        PlayerStatus::Duelling(d) => {
            let other = d.spec_other_player(id);
            let players1 = set_status_of(
                set_status_of(v.players, id, PlayerStatus::OnHold),
                other,
                PlayerStatus::OnHold,
            );
            let v1 = StateV { players: players1, requests: v.requests };
            if !delivery_fails(players1, other) {
                (
                    StateV {
                        players: deliver_one(
                            players1,
                            other,
                            empty_msg(MessageType::ExitDuel.spec_code()),
                        ),
                        requests: v.requests,
                    },
                    None,
                )
            } else {
                (v1, Some(ServerError::SendFailed))
            }
        },
        PlayerStatus::OnHold => (v, None),
    }
}

/// Release `id`: remove it from the registry, tear its duel down, purge its
/// pending requests, and broadcast the refreshed listing; a failed teardown
/// notification stops the cleanup early with an error.
pub open spec fn spec_release(v: StateV, id: Id) -> (StateV, Option<ServerError>) {
    let st = if v.has_player(id) {
        v.player(id).status
    } else {
        PlayerStatus::OnHold
    };
    let v1 = if v.has_player(id) {
        StateV { players: v.players.remove(idx_of_id(v.players, id)), requests: v.requests }
    } else {
        v
    };
    match st {
        PlayerStatus::Duelling(d) => {
            let other = d.spec_other_player(id);
            let players2 = set_status_of(v1.players, other, PlayerStatus::OnHold);
            let v2 = StateV { players: players2, requests: v1.requests };
            if !delivery_fails(players2, other) {
                let v3 = StateV {
                    players: deliver_one(
                        players2,
                        other,
                        empty_msg(MessageType::ExitDuel.spec_code()),
                    ),
                    requests: purge_requests(v1.requests, id),
                };
                (spec_listing_broadcast(v3).0, None)
            } else {
                (v2, Some(ServerError::SendFailed))
            }
        },
        PlayerStatus::OnHold => {
            let v3 = StateV { players: v1.players, requests: purge_requests(v1.requests, id) };
            (spec_listing_broadcast(v3).0, None)
        },
    }
}

/// Release every listed identity that is still live, one after the other,
/// swallowing any error of an individual release.
pub open spec fn spec_check_purge(v: StateV, ids: Seq<Id>) -> StateV
    decreases ids.len(),
{
    if ids.len() == 0 {
        v
    } else {
        let v1 = if v.has_player(ids[0]) {
            spec_release(v, ids[0]).0
        } else {
            v
        };
        spec_check_purge(v1, ids.drop_first())
    }
}

/// Broadcast the refreshed listing to the on-hold players, then run every
/// failed recipient through the release path.
pub open spec fn spec_listing_round(v: StateV) -> StateV {
    let r = spec_listing_broadcast(v);
    spec_check_purge(r.0, r.1)
}

/// The identities of every player, front to back.
fn collect_all_ids(players: &Vec<Player>) -> (r: Vec<Id>)
    ensures
        r@ == all_ids(players.deep_view()),
{
    let mut r: Vec<Id> = Vec::new();
    let mut i: usize = 0;
    while i < players.len()
        invariant
            0 <= i <= players@.len(),
            r@ == all_ids(players.deep_view().take(i as int)),
        decreases players@.len() - i,
    {
        r.push(players[i].id);
        proof {
            assert(all_ids(players.deep_view().take(i + 1)) =~= all_ids(
                players.deep_view().take(i as int),
            ).push(players.deep_view()[i as int].id));
        }
        i = i + 1;
    }
    proof {
        assert(players.deep_view().take(players@.len() as int) =~~= players.deep_view());
    }
    r
}

/// Replaces the status of the player carrying `id`, if present.
fn set_status_by_id(players: &mut Vec<Player>, id: Id, st: PlayerStatus)
    requires
        ids_unique(old(players).deep_view()),
    ensures
        final(players).deep_view() == set_status_of(old(players).deep_view(), id, st),
{
    let ghost pre = players.deep_view();
    match find_player(players, id) {
        None => {
            proof {
                assert(players.deep_view() =~~= set_status_of(pre, id, st));
            }
        },
        Some(i) => {
            players[i].set_status(st);
            proof {
                assert forall|j: int|
                    0 <= j < pre.len() implies players.deep_view()[j] == set_status_of(
                    pre,
                    id,
                    st,
                )[j] by {
                    if j != i && pre[j].id == id {
                        assert(pre[i as int].id == id);
                    }
                }
                assert(players.deep_view() =~~= set_status_of(pre, id, st));
            }
        },
    }
}

/// A bodyless message of the given kind with zero correlation tokens.
fn empty_message(t: MessageType) -> (m: Message)
    ensures
        m@ == empty_msg(t.spec_code()),
{
    let m = Message::new(t, "");
    proof {
        reveal_strlit("");
        assert(""@ =~= Seq::<char>::empty());
        assert(encode_utf8(Seq::<char>::empty()) =~= Seq::<u8>::empty());
        assert(m@ =~~= empty_msg(t.spec_code()));
    }
    m
}

/// Attempts delivery of `msg` to every on-hold player, and reports the
/// identities whose delivery failed.
fn broadcast_to_onhold(msg: &Message, server_state: &mut State) -> (failed: Vec<Id>)
    requires
        old(server_state)@.wf(),
    ensures
        final(server_state)@ == spec_broadcast_onhold(old(server_state)@, msg@).0,
        failed@ == spec_broadcast_onhold(old(server_state)@, msg@).1,
        final(server_state)@.wf(),
{
    let ghost pre = server_state@;
    let targets = collect_onhold_ids(&server_state.players);
    let failed = broadcast(msg, &targets, &mut server_state.players);
    proof {
        lemma_deliver_all_shape(pre.players, targets@, msg@);
        lemma_wf_shape(pre.players, server_state@.players);
        assert(server_state@ =~~= spec_broadcast_onhold(pre, msg@).0);
    }
    failed
}

/// Broadcasts the refreshed listing to every on-hold player.
fn broadcast_list_to_onhold(server_state: &mut State) -> (failed: Vec<Id>)
    requires
        old(server_state)@.wf(),
    ensures
        final(server_state)@ == spec_listing_broadcast(old(server_state)@).0,
        failed@ == spec_listing_broadcast(old(server_state)@).1,
        final(server_state)@.wf(),
{
    let text = player_list_string(server_state);
    let msg = Message::new(MessageType::ListPlayers, text.as_str());
    proof {
        assert(msg@ =~~= list_msg(server_state@.players));
    }
    broadcast_to_onhold(&msg, server_state)
}

/// Tears a duel down from `player_id`'s side, as [`spec_exit_duel`] says:
/// both parties go back on hold and the other party is notified.
fn exit_duel(player_id: Id, server_state: &mut State) -> (r: Result<(), ServerError>)
    requires
        old(server_state)@.wf(),
    ensures
        final(server_state)@ == spec_exit_duel(old(server_state)@, player_id).0,
        (match spec_exit_duel(old(server_state)@, player_id).1 {
            None => r is Ok,
            Some(e) => r == Err::<(), ServerError>(e),
        }),
        final(server_state)@.wf(),
{
    let ghost pre = server_state@;
    match find_duel_other_player(player_id, server_state) {
        None => Ok(()),
        Some(other) => {
            set_status_by_id(&mut server_state.players, player_id, PlayerStatus::OnHold);
            set_status_by_id(&mut server_state.players, other, PlayerStatus::OnHold);
            proof {
                lemma_wf_unhold_pair(pre.players, player_id, other);
            }
            let msg = empty_message(MessageType::ExitDuel);
            let ghost mid = server_state@.players;
            let ok = deliver_to(&mut server_state.players, other, &msg);
            proof {
                lemma_wf_shape(mid, server_state@.players);
            }
            if ok {
                proof {
                    assert(server_state@ =~~= spec_exit_duel(pre, player_id).0);
                }
                Ok(())
            } else {
                proof {
                    assert(server_state@.players =~~= mid);
                    assert(server_state@ =~~= spec_exit_duel(pre, player_id).0);
                }
                Err(ServerError::SendFailed)
            }
        },
    }
}

/// The duel partner of `player_id`, when that player is live and duelling.
fn find_duel_other_player(player_id: Id, server_state: &State) -> (r: Option<Id>)
    requires
        server_state@.wf(),
    ensures
        match r {
            Some(other) => server_state@.has_player(player_id) && (player_of(
                server_state@.players,
                player_id,
            ).status matches PlayerStatus::Duelling(d) && other == d.spec_other_player(player_id)),
            None => !server_state@.has_player(player_id) || player_of(
                server_state@.players,
                player_id,
            ).status is OnHold,
        },
{
    let ghost pre = server_state@;
    match find_player(&server_state.players, player_id) {
        None => None,
        Some(i) => {
            proof {
                let j = idx_of_id(pre.players, player_id);
                if j != i {
                    assert(pre.players[j].id == pre.players[i as int].id);
                }
                assert(player_of(pre.players, player_id) == pre.players[i as int]);
            }
            match server_state.players[i].state.status {
                PlayerStatus::OnHold => None,
                PlayerStatus::Duelling(d) => Some(d.other_player(player_id)),
            }
        },
    }
}

/// Releases `player_id`, as [`spec_release`] says: out of the registry,
/// its duel torn down, its requests purged, the refreshed listing
/// broadcast; a failed teardown notification stops the cleanup early.
pub fn release_player(player_id: Id, server_state: &mut State) -> (r: Result<(), ServerError>)
    requires
        old(server_state)@.wf(),
    ensures
        final(server_state)@ == spec_release(old(server_state)@, player_id).0,
        (match spec_release(old(server_state)@, player_id).1 {
            None => r is Ok,
            Some(e) => r == Err::<(), ServerError>(e),
        }),
        final(server_state)@.wf(),
{
    let ghost pre = server_state@;
    match find_player(&server_state.players, player_id) {
        None => {
            server_state.purge_request(player_id);
            let _ = broadcast_list_to_onhold(server_state);
            proof {
                assert(!pre.has_player(player_id));
                assert(server_state@ =~~= spec_release(pre, player_id).0);
            }
            Ok(())
        },
        Some(i) => {
            proof {
                let j = idx_of_id(pre.players, player_id);
                if j != i {
                    assert(pre.players[j].id == pre.players[i as int].id);
                }
                assert(player_of(pre.players, player_id) == pre.players[i as int]);
                lemma_wf_release_core(pre.players, player_id);
            }
            let removed = server_state.players.remove(i);
            proof {
                assert(server_state@.players =~~= pre.players.remove(i as int));
            }
            match removed.state.status {
                PlayerStatus::OnHold => {
                    server_state.purge_request(player_id);
                    let _ = broadcast_list_to_onhold(server_state);
                    proof {
                        assert(server_state@ =~~= spec_release(pre, player_id).0);
                    }
                    Ok(())
                },
                PlayerStatus::Duelling(d) => {
                    let other = d.other_player(player_id);
                    set_status_by_id(&mut server_state.players, other, PlayerStatus::OnHold);
                    let msg = empty_message(MessageType::ExitDuel);
                    let ghost mid = server_state@.players;
                    let ok = deliver_to(&mut server_state.players, other, &msg);
                    proof {
                        lemma_wf_shape(mid, server_state@.players);
                    }
                    if ok {
                        server_state.purge_request(player_id);
                        let _ = broadcast_list_to_onhold(server_state);
                        proof {
                            assert(server_state@ =~~= spec_release(pre, player_id).0);
                        }
                        Ok(())
                    } else {
                        proof {
                            assert(server_state@.players =~~= mid);
                            assert(server_state@ =~~= spec_release(pre, player_id).0);
                        }
                        Err(ServerError::SendFailed)
                    }
                },
            }
        },
    }
}

/// Runs every listed identity that is still live through the release path,
/// swallowing individual errors, as [`spec_check_purge`] says.
#[verifier::loop_isolation(false)]
pub fn check_purge(server_state: &mut State, player_ids: Vec<Id>)
    requires
        old(server_state)@.wf(),
    ensures
        final(server_state)@ == spec_check_purge(old(server_state)@, player_ids@),
        final(server_state)@.wf(),
{
    let ghost pre = server_state@;
    let mut k: usize = 0;
    proof {
        assert(player_ids@.skip(0) =~= player_ids@);
    }
    while k < player_ids.len()
        invariant
            0 <= k <= player_ids@.len(),
            server_state@.wf(),
            spec_check_purge(server_state@, player_ids@.skip(k as int)) == spec_check_purge(
                pre,
                player_ids@,
            ),
        decreases player_ids@.len() - k,
    {
        let id = player_ids[k];
        let ghost cur = server_state@;
        proof {
            assert(player_ids@.skip(k as int)[0] == id);
            assert(player_ids@.skip(k as int).drop_first() =~= player_ids@.skip(k + 1));
        }
        match find_player(&server_state.players, id) {
            None => {
                proof {
                    assert(!cur.has_player(id));
                }
            },
            Some(i) => {
                proof {
                    assert(cur.players[i as int].id == id);
                    assert(cur.has_player(id));
                }
                let _ = release_player(id, server_state);
            },
        }
        k = k + 1;
    }
    proof {
        assert(player_ids@.skip(player_ids@.len() as int) =~= Seq::<Id>::empty());
    }
}

// ------------------------------------------------------------------
// Spec: what handling one client message does
// ------------------------------------------------------------------
/// Outcome of a `Name` message: the sender's name replaced by the decoded
/// body, then a listing round; a non-UTF-8 body is rejected untouched.
pub open spec fn post_name(
    pre: StateV,
    m: MessageV,
    pid: Id,
    post: StateV,
    r: Result<(), ServerError>,
) -> bool {
    if !pre.has_player(pid) {
        post == pre && r == Err::<(), ServerError>(ServerError::UnknownPlayer)
    } else if !valid_utf8(m.body) {
        post == pre && r == Err::<(), ServerError>(ServerError::BadUtf8)
    } else {
        let named = StateV {
            players: set_name_of(pre.players, pid, decode_utf8(m.body)),
            requests: pre.requests,
        };
        post == spec_listing_round(named) && r is Ok
    }
}

/// Outcome of a `ListPlayers` message: the listing unicast to the sender,
/// correlated to the incoming message.
pub open spec fn post_list_players(
    pre: StateV,
    m: MessageV,
    pid: Id,
    post: StateV,
    r: Result<(), ServerError>,
) -> bool {
    if !pre.has_player(pid) {
        post == pre && r == Err::<(), ServerError>(ServerError::UnknownPlayer)
    } else {
        let reply = MessageV {
            header: Header {
                message_type: MessageType::ListPlayers.spec_code(),
                message_length: encode_utf8(listing(pre.players)).len() as usize,
                message_id: 0,
                answer_id: m.header.message_id,
            },
            body: encode_utf8(listing(pre.players)),
        };
        if delivery_fails(pre.players, pid) {
            post == pre && r == Err::<(), ServerError>(ServerError::SendFailed)
        } else {
            post == (StateV { players: deliver_one(pre.players, pid, reply), requests: pre.requests })
                && r is Ok
        }
    }
}

/// Outcome of a `Proxy` message: forwarded verbatim to the duel partner,
/// or, from an on-hold sender, broadcast to every player with the failed
/// recipients run through the release path.
pub open spec fn post_proxy(
    pre: StateV,
    m: MessageV,
    pid: Id,
    post: StateV,
    r: Result<(), ServerError>,
) -> bool {
    if !pre.has_player(pid) {
        post == pre && r == Err::<(), ServerError>(ServerError::UnknownPlayer)
    } else {
        match pre.player(pid).status {
            PlayerStatus::Duelling(d) => {
                let other = d.spec_other_player(pid);
                if delivery_fails(pre.players, other) {
                    post == pre && r == Err::<(), ServerError>(ServerError::SendFailed)
                } else {
                    post == (StateV {
                        players: deliver_one(pre.players, other, m),
                        requests: pre.requests,
                    }) && r is Ok
                }
            },
            PlayerStatus::OnHold => {
                let targets = all_ids(pre.players);
                let v1 = StateV {
                    players: deliver_all(pre.players, targets, m),
                    requests: pre.requests,
                };
                post == spec_check_purge(v1, failed_of(pre.players, targets)) && r is Ok
            },
        }
    }
}

/// Outcome of an `ExitDuel` message: the duel torn down, then a listing
/// round; a failed teardown notification stops before the listing.
pub open spec fn post_exit_duel(
    pre: StateV,
    pid: Id,
    post: StateV,
    r: Result<(), ServerError>,
) -> bool {
    if !pre.has_player(pid) {
        post == pre && r == Err::<(), ServerError>(ServerError::UnknownPlayer)
    } else {
        let v1 = spec_exit_duel(pre, pid).0;
        match spec_exit_duel(pre, pid).1 {
            None => post == spec_listing_round(v1) && r is Ok,
            Some(e) => post == v1 && r == Err::<(), ServerError>(e),
        }
    }
}

/// The target of a duel request: a live on-hold player other than the
/// requester that carries `target`.
pub open spec fn target_available(players: Seq<PlayerV>, pid: Id, target: Id) -> bool {
    target != pid && exists|j: int|
        0 <= j < players.len() && players[j].id == target && players[j].on_hold()
}

/// Outcome of a `RequestDuel` message, as the dispatch rules say: no-op
/// for a duelling requester; errors for a bad body; `RequestFailed` when
/// the target is unavailable; a match when mutual intent is on record, with
/// `NewGame` to a random master and a listing broadcast; otherwise a
/// recorded request and a `RequestDuel` relayed to the target.
pub open spec fn post_request_duel(
    pre: StateV,
    m: MessageV,
    pid: Id,
    post: StateV,
    r: Result<(), ServerError>,
) -> bool {
    if !pre.has_player(pid) {
        post == pre && r == Err::<(), ServerError>(ServerError::UnknownPlayer)
    } else if !(pre.player(pid).status is OnHold) {
        post == pre && r is Ok
    } else if !valid_utf8(m.body) {
        post == pre && r == Err::<(), ServerError>(ServerError::BadUtf8)
    } else {
        match spec_parse_uint(m.body, u32::MAX as nat) {
            None => post == pre && r == Err::<(), ServerError>(ServerError::BadNumber),
            Some(n) => {
                let target = n as Id;
                if !target_available(pre.players, pid, target) {
                    if delivery_fails(pre.players, pid) {
                        post == pre && r == Err::<(), ServerError>(ServerError::SendFailed)
                    } else {
                        post == (StateV {
                            players: deliver_one(
                                pre.players,
                                pid,
                                empty_msg(MessageType::RequestFailed.spec_code()),
                            ),
                            requests: pre.requests,
                        }) && r is Ok
                    }
                } else if pre.has_request_from(target) {
                    let duel = Duel { player1: pid, player2: target };
                    let v2 = StateV {
                        players: set_status_of(
                            set_status_of(pre.players, pid, PlayerStatus::Duelling(duel)),
                            target,
                            PlayerStatus::Duelling(duel),
                        ),
                        requests: purge_requests(purge_requests(pre.requests, pid), target),
                    };
                    exists|master: Id|
                        #![auto]
                        (master == pid || master == target) && (if delivery_fails(
                            v2.players,
                            master,
                        ) {
                            post == v2 && r == Err::<(), ServerError>(ServerError::SendFailed)
                        } else {
                            post == spec_listing_broadcast(
                                StateV {
                                    players: deliver_one(
                                        v2.players,
                                        master,
                                        empty_msg(MessageType::NewGame.spec_code()),
                                    ),
                                    requests: v2.requests,
                                },
                            ).0 && r is Ok
                        })
                } else {
                    let v1 = StateV {
                        players: pre.players,
                        requests: pre.requests.push(Request { src_id: pid, dest_id: target }),
                    };
                    if delivery_fails(pre.players, target) {
                        post == v1 && r == Err::<(), ServerError>(ServerError::SendFailed)
                    } else {
                        post == (StateV {
                            players: deliver_one(
                                v1.players,
                                target,
                                text_msg(
                                    MessageType::RequestDuel.spec_code(),
                                    dec_chars(pid as nat),
                                ),
                            ),
                            requests: v1.requests,
                        }) && r is Ok
                    }
                }
            },
        }
    }
}

/// What handling one client message from the player carrying `pid` does,
/// by message type; an unknown or unhandled type is reported and changes
/// nothing.
pub open spec fn handle_client_post(
    pre: StateV,
    m: MessageV,
    pid: Id,
    post: StateV,
    r: Result<(), ServerError>,
) -> bool {
    match MessageType::spec_from_code(m.header.message_type) {
        Some(MessageType::RequestDuel) => post_request_duel(pre, m, pid, post, r),
        Some(MessageType::Proxy) => post_proxy(pre, m, pid, post, r),
        Some(MessageType::Name) => post_name(pre, m, pid, post, r),
        Some(MessageType::ListPlayers) => post_list_players(pre, m, pid, post, r),
        Some(MessageType::ExitDuel) => post_exit_duel(pre, pid, post, r),
        Some(MessageType::Dump) => post == pre && r is Ok,
        _ => post == pre && r == Err::<(), ServerError>(
            ServerError::UnhandledType(m.header.message_type),
        ),
    }
}

// ------------------------------------------------------------------
// The self-heal law
// ------------------------------------------------------------------
/// Two collections that carry the same identities at the same places agree
/// on uniqueness and membership.
proof fn lemma_same_ids(p1: Seq<PlayerV>, p2: Seq<PlayerV>)
    requires
        p2.len() == p1.len(),
        forall|i: int| 0 <= i < p1.len() ==> (#[trigger] p2[i]).id == p1[i].id,
    ensures
        ids_unique(p1) == ids_unique(p2),
        forall|y: Id| has_id(p1, y) == has_id(p2, y),
{
    assert forall|y: Id| has_id(p1, y) == has_id(p2, y) by {
        if has_id(p1, y) {
            let w = choose|i: int| 0 <= i < p1.len() && p1[i].id == y;
            assert(p2[w].id == y);
        }
        if has_id(p2, y) {
            let w = choose|i: int| 0 <= i < p2.len() && p2[i].id == y;
            assert(p1[w].id == y);
        }
    }
    if ids_unique(p1) {
        assert forall|i: int, j: int| 0 <= i < j < p2.len() implies p2[i].id != p2[j].id by {
            assert(p1[i].id != p1[j].id);
        }
    }
    if ids_unique(p2) {
        assert forall|i: int, j: int| 0 <= i < j < p1.len() implies p1[i].id != p1[j].id by {
            assert(p2[i].id != p2[j].id);
        }
    }
}

/// Releasing a player keeps identities unique, removes that identity, and
/// introduces no identity that was not live before.
proof fn lemma_release_ids(v: StateV, x: Id)
    requires
        ids_unique(v.players),
    ensures
        ids_unique(spec_release(v, x).0.players),
        !has_id(spec_release(v, x).0.players, x),
        forall|y: Id| !has_id(v.players, y) ==> !has_id(spec_release(v, x).0.players, y),
{
    let res = spec_release(v, x).0.players;
    if v.has_player(x) {
        let i0 = idx_of_id(v.players, x);
        let rem = v.players.remove(i0);
        assert(forall|k: int| 0 <= k < i0 ==> rem[k] == v.players[k]);
        assert(forall|k: int| i0 <= k < rem.len() ==> rem[k] == v.players[k + 1]);
        assert(ids_unique(rem));
        assert(!has_id(rem, x)) by {
            if has_id(rem, x) {
                let w = choose|k: int| 0 <= k < rem.len() && rem[k].id == x;
                if w < i0 {
                    assert(v.players[w].id == x && v.players[i0].id == x);
                } else {
                    assert(v.players[w + 1].id == x && v.players[i0].id == x);
                }
            }
        }
        assert forall|y: Id| !has_id(v.players, y) implies !has_id(rem, y) by {
            if has_id(rem, y) {
                let w = choose|k: int| 0 <= k < rem.len() && rem[k].id == y;
                if w < i0 {
                    assert(v.players[w].id == y);
                } else {
                    assert(v.players[w + 1].id == y);
                }
            }
        }
        match player_of(v.players, x).status {
            PlayerStatus::OnHold => {
                let v3p = rem;
                let targets = onhold_ids(v3p);
                lemma_deliver_all_shape(v3p, targets, list_msg(v3p));
                lemma_same_ids(v3p, res);
            },
            PlayerStatus::Duelling(d) => {
                let other = d.spec_other_player(x);
                let p2 = set_status_of(rem, other, PlayerStatus::OnHold);
                assert(p2.len() == rem.len() && forall|i: int|
                    0 <= i < rem.len() ==> (#[trigger] p2[i]).id == rem[i].id);
                lemma_same_ids(rem, p2);
                if !delivery_fails(p2, other) {
                    let p3 = deliver_one(p2, other, empty_msg(MessageType::ExitDuel.spec_code()));
                    assert(p3.len() == p2.len() && forall|i: int|
                        0 <= i < p2.len() ==> (#[trigger] p3[i]).id == p2[i].id);
                    lemma_same_ids(p2, p3);
                    let targets = onhold_ids(p3);
                    lemma_deliver_all_shape(p3, targets, list_msg(p3));
                    lemma_same_ids(p3, res);
                } else {
                    assert(res == p2);
                }
            },
        }
    } else {
        let targets = onhold_ids(v.players);
        lemma_deliver_all_shape(v.players, targets, list_msg(v.players));
        lemma_same_ids(v.players, res);
        assert(!has_id(v.players, x));
    }
}

/// Running a list of identities through the release path removes each of
/// them from the registry exactly once and for all: afterwards none of
/// them is live, no new identity has appeared, and identities stay unique.
/// No failure of an individual release escalates.
pub proof fn lemma_dead_peer_self_heal(v: StateV, ids: Seq<Id>)
    requires
        ids_unique(v.players),
    ensures
        ids_unique(spec_check_purge(v, ids).players),
        forall|k: int| 0 <= k < ids.len() ==> !has_id(spec_check_purge(v, ids).players, ids[k]),
        forall|y: Id| !has_id(v.players, y) ==> !has_id(spec_check_purge(v, ids).players, y),
    decreases ids.len(),
{
    if ids.len() > 0 {
        let x = ids[0];
        let v1 = if v.has_player(x) {
            spec_release(v, x).0
        } else {
            v
        };
        if v.has_player(x) {
            lemma_release_ids(v, x);
        }
        assert(!has_id(v1.players, x));
        assert(ids_unique(v1.players));
        lemma_dead_peer_self_heal(v1, ids.drop_first());
        let res = spec_check_purge(v, ids);
        assert(res == spec_check_purge(v1, ids.drop_first()));
        assert forall|k: int| 0 <= k < ids.len() implies !has_id(res.players, ids[k]) by {
            if k == 0 {
                assert(!has_id(v1.players, x));
            } else {
                assert(ids.drop_first()[k - 1] == ids[k]);
            }
        }
        assert forall|y: Id| !has_id(v.players, y) implies !has_id(res.players, y) by {
            if v.has_player(x) {
                assert(!has_id(v1.players, y));
            }
        }
    }
}

// ------------------------------------------------------------------
// Exec: the per-type handlers
// ------------------------------------------------------------------
/// Relies on `rand::random`: a fresh boolean from the thread-local
/// generator; nothing can be promised of the value, so nothing is stated.
#[verifier::external_body]
fn random_bool() -> bool {
    rand::random()
}

/// Replaces the name of the player carrying `id`, if present.
fn set_name_by_id(players: &mut Vec<Player>, id: Id, name: String)
    requires
        ids_unique(old(players).deep_view()),
    ensures
        final(players).deep_view() == set_name_of(old(players).deep_view(), id, name@),
{
    let ghost pre = players.deep_view();
    let ghost n = name@;
    match find_player(players, id) {
        None => {
            proof {
                assert(players.deep_view() =~~= set_name_of(pre, id, n));
            }
        },
        Some(i) => {
            players[i].set_name(name);
            proof {
                assert forall|j: int|
                    0 <= j < pre.len() implies players.deep_view()[j] == set_name_of(
                    pre,
                    id,
                    n,
                )[j] by {
                    if j != i && pre[j].id == id {
                        assert(pre[i as int].id == id);
                    }
                }
                assert(players.deep_view() =~~= set_name_of(pre, id, n));
            }
        },
    }
}

/// Replies to `request`'s sender: `msg` with its `answer_id` set to the
/// request's `message_id`, delivered to the player carrying `id`.
fn answer(msg: Message, players: &mut Vec<Player>, id: Id, request: &Message) -> (r: Result<
    (),
    ServerError,
>)
    requires
        ids_unique(old(players).deep_view()),
    ensures
        ({
            let reply = MessageV {
                header: Header { answer_id: request@.header.message_id, ..msg@.header },
                body: msg@.body,
            };
            &&& final(players).deep_view() == deliver_one(old(players).deep_view(), id, reply)
            &&& if delivery_fails(old(players).deep_view(), id) {
                r == Err::<(), ServerError>(ServerError::SendFailed) && final(players).deep_view()
                    == old(players).deep_view()
            } else {
                r is Ok
            }
        }),
{
    let ghost pre = players.deep_view();
    let mut reply = msg;
    reply.header.answer_id = request.header.message_id;
    let ok = deliver_to(players, id, &reply);
    proof {
        if delivery_fails(pre, id) {
            assert(players.deep_view() =~~= pre);
        }
    }
    if ok {
        Ok(())
    } else {
        Err(ServerError::SendFailed)
    }
}

/// Handles a `Name` message.
fn handle_name(msg: &Message, pid: Id, server_state: &mut State) -> (r: Result<(), ServerError>)
    requires
        old(server_state)@.wf(),
    ensures
        post_name(old(server_state)@, msg@, pid, final(server_state)@, r),
        final(server_state)@.wf(),
{
    let ghost pre = server_state@;
    match find_player(&server_state.players, pid) {
        None => Err(ServerError::UnknownPlayer),
        Some(i) => {
            proof {
                assert(pre.players[i as int].id == pid);
            }
            match msg.body_as_str() {
                Err(e) => Err(e),
                Ok(body) => {
                    let name = body.to_owned();
                    set_name_by_id(&mut server_state.players, pid, name);
                    proof {
                        lemma_wf_shape(pre.players, server_state@.players);
                        assert(server_state@ =~~= (StateV {
                            players: set_name_of(pre.players, pid, decode_utf8(msg@.body)),
                            requests: pre.requests,
                        }));
                    }
                    let to_purge = broadcast_list_to_onhold(server_state);
                    check_purge(server_state, to_purge);
                    Ok(())
                },
            }
        },
    }
}

/// Handles a `ListPlayers` message.
fn handle_list_players(msg: &Message, pid: Id, server_state: &mut State) -> (r: Result<
    (),
    ServerError,
>)
    requires
        old(server_state)@.wf(),
    ensures
        post_list_players(old(server_state)@, msg@, pid, final(server_state)@, r),
        final(server_state)@.wf(),
{
    let ghost pre = server_state@;
    match find_player(&server_state.players, pid) {
        None => Err(ServerError::UnknownPlayer),
        Some(i) => {
            proof {
                assert(pre.players[i as int].id == pid);
            }
            let text = player_list_string(server_state);
            let reply = Message::new(MessageType::ListPlayers, text.as_str());
            let r = answer(reply, &mut server_state.players, pid, msg);
            proof {
                lemma_wf_shape(pre.players, server_state@.players);
                if !delivery_fails(pre.players, pid) {
                    assert(server_state@ =~~= (StateV {
                        players: deliver_one(
                            pre.players,
                            pid,
                            MessageV {
                                header: Header {
                                    message_type: MessageType::ListPlayers.spec_code(),
                                    message_length: encode_utf8(listing(pre.players)).len() as usize,
                                    message_id: 0,
                                    answer_id: msg@.header.message_id,
                                },
                                body: encode_utf8(listing(pre.players)),
                            },
                        ),
                        requests: pre.requests,
                    }));
                } else {
                    assert(server_state@ =~~= pre);
                }
            }
            r
        },
    }
}

/// Handles a `Proxy` message.
fn handle_proxy(msg: &Message, pid: Id, server_state: &mut State) -> (r: Result<(), ServerError>)
    requires
        old(server_state)@.wf(),
    ensures
        post_proxy(old(server_state)@, msg@, pid, final(server_state)@, r),
        final(server_state)@.wf(),
{
    let ghost pre = server_state@;
    match find_player(&server_state.players, pid) {
        None => Err(ServerError::UnknownPlayer),
        Some(i) => {
            proof {
                let j = idx_of_id(pre.players, pid);
                if j != i {
                    assert(pre.players[j].id == pre.players[i as int].id);
                }
                assert(player_of(pre.players, pid) == pre.players[i as int]);
            }
            let st = server_state.players[i].state.status;
            match st {
                PlayerStatus::Duelling(d) => {
                    let other = d.other_player(pid);
                    let ok = deliver_to(&mut server_state.players, other, msg);
                    proof {
                        lemma_wf_shape(pre.players, server_state@.players);
                        if delivery_fails(pre.players, other) {
                            lemma_deliver_fails_id(pre.players, other, msg@);
                            assert(server_state@ =~~= pre);
                        } else {
                            assert(server_state@ =~~= (StateV {
                                players: deliver_one(pre.players, other, msg@),
                                requests: pre.requests,
                            }));
                        }
                    }
                    if ok {
                        Ok(())
                    } else {
                        Err(ServerError::SendFailed)
                    }
                },
                PlayerStatus::OnHold => {
                    let targets = collect_all_ids(&server_state.players);
                    let failed = broadcast(msg, &targets, &mut server_state.players);
                    proof {
                        lemma_deliver_all_shape(pre.players, targets@, msg@);
                        lemma_wf_shape(pre.players, server_state@.players);
                    }
                    check_purge(server_state, failed);
                    Ok(())
                },
            }
        },
    }
}

/// Handles an `ExitDuel` message.
fn handle_exit_duel(pid: Id, server_state: &mut State) -> (r: Result<(), ServerError>)
    requires
        old(server_state)@.wf(),
    ensures
        post_exit_duel(old(server_state)@, pid, final(server_state)@, r),
        final(server_state)@.wf(),
{
    let ghost pre = server_state@;
    match find_player(&server_state.players, pid) {
        None => Err(ServerError::UnknownPlayer),
        Some(i) => {
            proof {
                assert(pre.players[i as int].id == pid);
            }
            match exit_duel(pid, server_state) {
                Err(e) => Err(e),
                Ok(_) => {
                    let to_purge = broadcast_list_to_onhold(server_state);
                    check_purge(server_state, to_purge);
                    Ok(())
                },
            }
        },
    }
}

/// Handles a `RequestDuel` message.
#[verifier::rlimit(100)]
fn handle_request_duel(msg: &Message, pid: Id, server_state: &mut State) -> (r: Result<
    (),
    ServerError,
>)
    requires
        old(server_state)@.wf(),
    ensures
        post_request_duel(old(server_state)@, msg@, pid, final(server_state)@, r),
        final(server_state)@.wf(),
{
    let ghost pre = server_state@;
    match find_player(&server_state.players, pid) {
        None => Err(ServerError::UnknownPlayer),
        Some(i) => {
            proof {
                let j = idx_of_id(pre.players, pid);
                if j != i {
                    assert(pre.players[j].id == pre.players[i as int].id);
                }
                assert(player_of(pre.players, pid) == pre.players[i as int]);
            }
            if !server_state.players[i].is_on_hold() {
                return Ok(());
            }
            match msg.body_as_str() {
                Err(e) => Err(e),
                Ok(_body) => {
                    match parse_u32_bytes(msg.body.as_slice()) {
                        None => Err(ServerError::BadNumber),
                        Some(req_id) => {
                            let found = if req_id == pid {
                                None
                            } else {
                                find_player_on_hold(req_id, server_state)
                            };
                            match found {
                                None => {
                                    proof {
                                        assert(!target_available(pre.players, pid, req_id));
                                    }
                                    let fail_msg = empty_message(MessageType::RequestFailed);
                                    let ok = deliver_to(
                                        &mut server_state.players,
                                        pid,
                                        &fail_msg,
                                    );
                                    proof {
                                        lemma_wf_shape(pre.players, server_state@.players);
                                        if delivery_fails(pre.players, pid) {
                                            lemma_deliver_fails_id(
                                                pre.players,
                                                pid,
                                                empty_msg(MessageType::RequestFailed.spec_code()),
                                            );
                                            assert(server_state@ =~~= pre);
                                        } else {
                                            assert(server_state@ =~~= (StateV {
                                                players: deliver_one(
                                                    pre.players,
                                                    pid,
                                                    empty_msg(
                                                        MessageType::RequestFailed.spec_code(),
                                                    ),
                                                ),
                                                requests: pre.requests,
                                            }));
                                        }
                                    }
                                    if ok {
                                        Ok(())
                                    } else {
                                        Err(ServerError::SendFailed)
                                    }
                                },
                                Some(j) => {
                                    proof {
                                        assert(pre.players[j as int].id == req_id
                                            && pre.players[j as int].on_hold());
                                        assert(target_available(pre.players, pid, req_id));
                                        let j2 = idx_of_id(pre.players, req_id);
                                        if j2 != j {
                                            assert(pre.players[j2].id == pre.players[j as int].id);
                                        }
                                        assert(player_of(pre.players, req_id)
                                            == pre.players[j as int]);
                                    }
                                    if server_state.has_request(req_id) {
                                        let duel = Duel { player1: pid, player2: req_id };
                                        set_status_by_id(
                                            &mut server_state.players,
                                            pid,
                                            PlayerStatus::Duelling(duel),
                                        );
                                        set_status_by_id(
                                            &mut server_state.players,
                                            req_id,
                                            PlayerStatus::Duelling(duel),
                                        );
                                        server_state.purge_request(pid);
                                        server_state.purge_request(req_id);
                                        proof {
                                            lemma_wf_match(pre.players, pid, req_id);
                                        }
                                        let ghost v2 = server_state@;
                                        let master = if random_bool() {
                                            pid
                                        } else {
                                            req_id
                                        };
                                        let ng = empty_message(MessageType::NewGame);
                                        let ok = deliver_to(
                                            &mut server_state.players,
                                            master,
                                            &ng,
                                        );
                                        proof {
                                            lemma_wf_shape(v2.players, server_state@.players);
                                        }
                                        if ok {
                                            let _ = broadcast_list_to_onhold(server_state);
                                            proof {
                                                assert(post_request_duel(
                                                    pre,
                                                    msg@,
                                                    pid,
                                                    server_state@,
                                                    Ok(()),
                                                )) by {
                                                    assert((master == pid || master == req_id)
                                                        && !delivery_fails(v2.players, master)
                                                        && server_state@ == spec_listing_broadcast(
                                                        StateV {
                                                            players: deliver_one(
                                                                v2.players,
                                                                master,
                                                                empty_msg(
                                                                    MessageType::NewGame.spec_code(),
                                                                ),
                                                            ),
                                                            requests: v2.requests,
                                                        },
                                                    ).0);
                                                }
                                            }
                                            Ok(())
                                        } else {
                                            proof {
                                                assert(server_state@.players =~~= v2.players);
                                                assert(server_state@ =~~= v2);
                                                assert((master == pid || master == req_id)
                                                    && delivery_fails(v2.players, master));
                                            }
                                            Err(ServerError::SendFailed)
                                        }
                                    } else {
                                        server_state.add_request(
                                            Request { src_id: pid, dest_id: req_id },
                                        );
                                        let text = u64_to_string(pid as u64);
                                        let req_msg = Message::new(
                                            MessageType::RequestDuel,
                                            text.as_str(),
                                        );
                                        proof {
                                            assert(req_msg@ =~~= text_msg(
                                                MessageType::RequestDuel.spec_code(),
                                                dec_chars(pid as nat),
                                            ));
                                        }
                                        let ghost v1 = server_state@;
                                        let ok = deliver_to(
                                            &mut server_state.players,
                                            req_id,
                                            &req_msg,
                                        );
                                        proof {
                                            lemma_wf_shape(pre.players, server_state@.players);
                                            if delivery_fails(pre.players, req_id) {
                                                lemma_deliver_fails_id(
                                                    pre.players,
                                                    req_id,
                                                    req_msg@,
                                                );
                                                assert(server_state@ =~~= v1);
                                            }
                                        }
                                        if ok {
                                            Ok(())
                                        } else {
                                            Err(ServerError::SendFailed)
                                        }
                                    }
                                },
                            }
                        },
                    }
                },
            }
        },
    }
}

// ------------------------------------------------------------------
// Exec: the controller entry point
// ------------------------------------------------------------------
/// Applies one event to the registry: a client message dispatched by type,
/// a player joining, or a player released.  Keeps the registry invariant:
/// in every state this leaves behind, a duelling player's duel names it
/// and exactly one other live player, whose status pairs straight back.
pub fn handle_msg(handler_msg: HandlerMessage, player: Player, server_state: &mut State) -> (r:
    Result<(), ServerError>)
    requires
        old(server_state)@.wf(),
        handler_msg is AddPlayer ==> player@.status is OnHold,
    ensures
        final(server_state)@.wf(),
        (match handler_msg {
            HandlerMessage::AddPlayer => r is Ok && (if old(server_state)@.has_player(player.id) {
                final(server_state)@ == old(server_state)@
            } else {
                final(server_state)@.players == old(server_state)@.players.push(player@)
                    && final(server_state)@.requests == old(server_state)@.requests
            }),
            HandlerMessage::ReleasePlayer => final(server_state)@ == spec_release(
                old(server_state)@,
                player.id,
            ).0 && (match spec_release(old(server_state)@, player.id).1 {
                None => r is Ok,
                Some(e) => r == Err::<(), ServerError>(e),
            }),
            HandlerMessage::ClientMessage(msg) => handle_client_post(
                old(server_state)@,
                msg@,
                player.id,
                final(server_state)@,
                r,
            ),
        }),
{
    let ghost pre = server_state@;
    match handler_msg {
        HandlerMessage::AddPlayer => {
            match find_player(&server_state.players, player.id) {
                Some(i) => {
                    proof {
                        assert(pre.players[i as int].id == player.id);
                    }
                    Ok(())
                },
                None => {
                    proof {
                        lemma_wf_add(pre.players, player@);
                    }
                    server_state.players.push(player);
                    proof {
                        assert(server_state@.players =~~= pre.players.push(player@));
                    }
                    Ok(())
                },
            }
        },
        HandlerMessage::ReleasePlayer => release_player(player.id, server_state),
        HandlerMessage::ClientMessage(msg) => {
            match MessageType::from_code(msg.header.message_type) {
                None => Err(ServerError::UnhandledType(msg.header.message_type)),
                Some(t) => match t {
                    MessageType::RequestDuel => handle_request_duel(&msg, player.id, server_state),
                    MessageType::Proxy => handle_proxy(&msg, player.id, server_state),
                    MessageType::Name => handle_name(&msg, player.id, server_state),
                    MessageType::ListPlayers => handle_list_players(&msg, player.id, server_state),
                    MessageType::ExitDuel => handle_exit_duel(player.id, server_state),
                    MessageType::Dump => Ok(()),
                    MessageType::Welcome => Err(
                        ServerError::UnhandledType(msg.header.message_type),
                    ),
                    MessageType::RequestFailed => Err(
                        ServerError::UnhandledType(msg.header.message_type),
                    ),
                    MessageType::NewGame => Err(
                        ServerError::UnhandledType(msg.header.message_type),
                    ),
                },
            }
        },
    }
}

} // verus!
