//! The registry: the authoritative collection of connected players and
//! pending duel requests, with the invariants the controller preserves.

use vstd::prelude::*;
use vstd::utf8::encode_utf8;
use crate::model::{Id, Player, PlayerStatus, PlayerV, Request};
use crate::numtext::{dec_chars, u64_to_string};

verus! {

/// The shared server state: live players and pending duel requests.
#[derive(Debug)]
pub struct State {
    pub players: Vec<Player>,
    pub requests: Vec<Request>,
}

/// Mathematical model of the registry.
pub struct StateV {
    pub players: Seq<PlayerV>,
    pub requests: Seq<Request>,
}

impl View for State {
    type V = StateV;

    open spec fn view(&self) -> StateV {
        StateV { players: self.players.deep_view(), requests: self.requests@ }
    }
}

/// Some player of the sequence carries `id`.
pub open spec fn has_id(players: Seq<PlayerV>, id: Id) -> bool {
    exists|i: int| 0 <= i < players.len() && players[i].id == id
}

/// Index of the player carrying `id`; meaningful under [`ids_unique`].
pub open spec fn idx_of_id(players: Seq<PlayerV>, id: Id) -> int {
    choose|i: int| 0 <= i < players.len() && players[i].id == id
}

/// The player carrying `id`.
pub open spec fn player_of(players: Seq<PlayerV>, id: Id) -> PlayerV {
    players[idx_of_id(players, id)]
}

/// No two players of the sequence share an identity.
pub open spec fn ids_unique(players: Seq<PlayerV>) -> bool {
    forall|i: int, j: int| 0 <= i < j < players.len() ==> players[i].id != players[j].id
}

/// Every duelling player is paired with exactly one other live player,
/// whose own status points straight back at the same pair.
pub open spec fn duel_symmetric(players: Seq<PlayerV>) -> bool {
    forall|i: int|
        0 <= i < players.len() ==> match #[trigger] players[i].status {
            PlayerStatus::Duelling(d) => {
                let me = players[i].id;
                let other = d.spec_other_player(me);
                &&& d.pairs(me, other)
                &&& me != other
                &&& has_id(players, other)
                &&& (player_of(players, other).status matches PlayerStatus::Duelling(d2)
                    && d2.pairs(me, other))
            },
            PlayerStatus::OnHold => true,
        }
}

/// The invariant of the player collection.
pub open spec fn players_wf(players: Seq<PlayerV>) -> bool {
    ids_unique(players) && duel_symmetric(players)
}

/// The duel symmetry law: in a well-formed registry, a player whose status
/// is `Duelling(d)` finds in `d` itself and exactly one other live player,
/// whose own status holds a duel pairing the same two identities.  Every
/// state the controller leaves behind is well formed, so this holds at
/// every observation point.
pub proof fn lemma_duel_symmetry(players: Seq<PlayerV>, i: int)
    requires
        players_wf(players),
        0 <= i < players.len(),
        players[i].status matches PlayerStatus::Duelling(d),
    ensures
        ({
            let d = players[i].status->Duelling_0;
            let me = players[i].id;
            let other = d.spec_other_player(me);
            &&& d.pairs(me, other)
            &&& me != other
            &&& has_id(players, other)
            &&& (player_of(players, other).status matches PlayerStatus::Duelling(d2) && d2.pairs(
                me,
                other,
            ))
        }),
{
}

impl StateV {
    /// Some live player carries `id`.
    pub open spec fn has_player(self, id: Id) -> bool {
        has_id(self.players, id)
    }

    /// The live player carrying `id`.
    pub open spec fn player(self, id: Id) -> PlayerV {
        player_of(self.players, id)
    }

    /// The registry's invariant.
    pub open spec fn wf(self) -> bool {
        players_wf(self.players)
    }

    /// A request from `id` is pending.
    pub open spec fn has_request_from(self, id: Id) -> bool {
        exists|k: int| 0 <= k < self.requests.len() && self.requests[k].src_id == id
    }
}

/// `rs` with every request referencing `id` removed.
pub open spec fn purge_requests(rs: Seq<Request>, id: Id) -> Seq<Request>
    decreases rs.len(),
{
    if rs.len() == 0 {
        rs
    } else {
        let rest = purge_requests(rs.drop_last(), id);
        if rs.last().src_id != id && rs.last().dest_id != id {
            rest.push(rs.last())
        } else {
            rest
        }
    }
}

/// What purging keeps: exactly the requests not referencing `id`, in order;
/// in particular none referencing `id` stays.
pub proof fn lemma_purge_requests(rs: Seq<Request>, id: Id)
    ensures
        forall|k: int|
            0 <= k < purge_requests(rs, id).len() ==> (#[trigger] purge_requests(rs, id)[k].src_id
                != id && purge_requests(rs, id)[k].dest_id != id && rs.contains(
                purge_requests(rs, id)[k],
            )),
    decreases rs.len(),
{
    if rs.len() > 0 {
        lemma_purge_requests(rs.drop_last(), id);
        let res = purge_requests(rs, id);
        let rest = purge_requests(rs.drop_last(), id);
        assert forall|k: int|
            0 <= k < res.len() implies (res[k].src_id != id && res[k].dest_id != id && rs.contains(
            res[k],
        )) by {
            if k < rest.len() {
                assert(rest[k].src_id != id);
                assert(rs.drop_last().contains(rest[k]));
                let j = choose|j: int|
                    0 <= j < rs.drop_last().len() && rs.drop_last()[j] == rest[k];
                assert(rs[j] == rest[k]);
            } else {
                assert(res[k] == rs.last());
                assert(rs[rs.len() - 1] == rs.last());
            }
        }
    }
}

/// After a match purges both parties, no pending request references
/// either of them any more.
pub proof fn lemma_match_purges_requests(rs: Seq<Request>, a: Id, b: Id)
    ensures
        forall|k: int|
            0 <= k < purge_requests(purge_requests(rs, a), b).len() ==> {
                let q = #[trigger] purge_requests(purge_requests(rs, a), b)[k];
                q.src_id != a && q.dest_id != a && q.src_id != b && q.dest_id != b
            },
{
    let ra = purge_requests(rs, a);
    lemma_purge_requests(rs, a);
    lemma_purge_requests(ra, b);
    assert forall|k: int| 0 <= k < purge_requests(ra, b).len() implies {
        let q = #[trigger] purge_requests(ra, b)[k];
        q.src_id != a && q.dest_id != a && q.src_id != b && q.dest_id != b
    } by {
        assert(purge_requests(ra, b)[k].src_id != b);
        let q = purge_requests(ra, b)[k];
        assert(ra.contains(q));
        let j = choose|j: int| 0 <= j < ra.len() && ra[j] == q;
        assert(ra[j].src_id != a && ra[j].dest_id != a);
    }
}

impl State {
    /// An empty registry.
    pub fn new() -> (r: State)
        ensures
            r@.players == Seq::<PlayerV>::empty(),
            r@.requests == Seq::<Request>::empty(),
            r@.wf(),
    {
        let r = State { players: Vec::new(), requests: Vec::new() };
        proof {
            assert(r@.players =~= Seq::<PlayerV>::empty());
        }
        r
    }

    /// Records a pending request.
    pub fn add_request(&mut self, request: Request)
        ensures
            final(self)@.requests == old(self)@.requests.push(request),
            final(self)@.players == old(self)@.players,
    {
        self.requests.push(request);
    }

    /// Whether some pending request was sent by `id`.
    pub fn has_request(&self, id: Id) -> (r: bool)
        ensures
            r == self@.has_request_from(id),
    {
        let mut k: usize = 0;
        while k < self.requests.len()
            invariant
                0 <= k <= self.requests@.len(),
                forall|j: int| 0 <= j < k ==> self.requests@[j].src_id != id,
            decreases self.requests@.len() - k,
        {
            if self.requests[k].src_id == id {
                proof {
                    assert(self@.requests[k as int].src_id == id);
                }
                return true;
            }
            k = k + 1;
        }
        false
    }

    /// Drops every pending request that references `id`.
    pub fn purge_request(&mut self, id: Id)
        ensures
            final(self)@.requests == purge_requests(old(self)@.requests, id),
            final(self)@.players == old(self)@.players,
    {
        let mut kept: Vec<Request> = Vec::new();
        let mut k: usize = 0;
        while k < self.requests.len()
            invariant
                0 <= k <= self.requests@.len(),
                kept@ == purge_requests(self.requests@.take(k as int), id),
            decreases self.requests@.len() - k,
        {
            let rq = self.requests[k];
            proof {
                assert(self.requests@.take(k + 1).drop_last() =~= self.requests@.take(k as int));
                assert(self.requests@.take(k + 1).last() == self.requests@[k as int]);
            }
            if rq.src_id != id && rq.dest_id != id {
                kept.push(rq);
            }
            k = k + 1;
        }
        proof {
            assert(self.requests@.take(self.requests@.len() as int) =~= self.requests@);
        }
        self.requests = kept;
    }
}

/// Index of the live, on-hold player carrying `id`, if there is one.
pub fn find_player_on_hold(id: Id, state: &State) -> (r: Option<usize>)
    ensures
        match r {
            Some(i) => i < state@.players.len() && state@.players[i as int].id == id
                && state@.players[i as int].on_hold(),
            None => forall|i: int|
                0 <= i < state@.players.len() ==> !(#[trigger] state@.players[i].id == id
                    && state@.players[i].on_hold()),
        },
{
    let mut i: usize = 0;
    while i < state.players.len()
        invariant
            0 <= i <= state@.players.len(),
            forall|j: int|
                0 <= j < i ==> !(#[trigger] state@.players[j].id == id
                    && state@.players[j].on_hold()),
        decreases state@.players.len() - i,
    {
        let p = &state.players[i];
        if p.id == id && p.is_on_hold() {
            return Some(i);
        }
        i = i + 1;
    }
    None
}

// ------------------------------------------------------------------
// The player listing
// ------------------------------------------------------------------
/// Name for what `base64::Engine::encode` with the standard alphabet
/// returns of the given bytes.
pub uninterp spec fn base64_of(s: Seq<u8>) -> Seq<char>;

/// Relies on `base64::Engine::encode` with the standard engine: the text
/// returned depends on the input bytes alone.
#[verifier::external_body]
fn base64_str(s: &str) -> (r: String)
    ensures
        r@ == base64_of(encode_utf8(s@)),
{
    base64::Engine::encode(&base64::engine::general_purpose::STANDARD, s.as_bytes())
}

/// The status flag a player shows in the listing.
pub open spec fn status_flag(st: PlayerStatus) -> char {
    if st is OnHold {
        '0'
    } else {
        '1'
    }
}

/// One player's listing entry: base64 of the name, the status flag and the
/// identity, separated by colons.
pub open spec fn player_entry(p: PlayerV) -> Seq<char> {
    base64_of(encode_utf8(p.name)) + seq![':', status_flag(p.status), ':'] + dec_chars(p.id as nat)
}

/// The entries of every named player, in registry order.
pub open spec fn listing_entries(players: Seq<PlayerV>) -> Seq<Seq<char>>
    decreases players.len(),
{
    if players.len() == 0 {
        Seq::empty()
    } else {
        let rest = listing_entries(players.drop_last());
        if players.last().name.len() > 0 {
            rest.push(player_entry(players.last()))
        } else {
            rest
        }
    }
}

/// Entries joined by semicolons.
pub open spec fn join_semi(es: Seq<Seq<char>>) -> Seq<char>
    decreases es.len(),
{
    if es.len() == 0 {
        Seq::empty()
    } else if es.len() == 1 {
        es[0]
    } else {
        join_semi(es.drop_last()) + seq![';'] + es.last()
    }
}

/// The whole player listing of a registry.
pub open spec fn listing(players: Seq<PlayerV>) -> Seq<char> {
    join_semi(listing_entries(players))
}

/// One player's listing entry, or nothing for an unnamed player.
fn player_string(player: &Player) -> (r: Option<String>)
    ensures
        match r {
            Some(s) => player@.name.len() > 0 && s@ == player_entry(player@),
            None => player@.name.len() == 0,
        },
{
    if player.state.name.as_str().is_empty() {
        None
    } else {
        let s = base64_str(player.state.name.as_str());
        let on_hold = player.is_on_hold();
        let sep: &str = if on_hold {
            ":0:"
        } else {
            ":1:"
        };
        proof {
            reveal_strlit(":0:");
            reveal_strlit(":1:");
            assert(sep@ =~= seq![':', status_flag(player@.status), ':']);
        }
        let s2 = s.concat(sep);
        let id_text = u64_to_string(player.id as u64);
        let s3 = s2.concat(id_text.as_str());
        proof {
            assert(s3@ =~= player_entry(player@));
        }
        Some(s3)
    }
}

/// Renders the listing: the entries of every named player, in registry
/// order, joined by semicolons; unnamed players contribute nothing.
pub fn player_list_string(state: &State) -> (r: String)
    ensures
        r@ == listing(state@.players),
{
    let mut s = String::new();
    let mut any = false;
    let mut i: usize = 0;
    while i < state.players.len()
        invariant
            0 <= i <= state@.players.len(),
            any <==> listing_entries(state@.players.take(i as int)).len() > 0,
            s@ == listing(state@.players.take(i as int)),
        decreases state@.players.len() - i,
    {
        proof {
            assert(state@.players.take(i + 1).drop_last() =~= state@.players.take(i as int));
            assert(state@.players.take(i + 1).last() == state@.players[i as int]);
        }
        match player_string(&state.players[i]) {
            None => {},
            Some(entry) => {
                let ghost old_entries = listing_entries(state@.players.take(i as int));
                if any {
                    proof {
                        reveal_strlit(";");
                        assert(";"@ =~= seq![';']);
                        assert(old_entries.push(player_entry(state@.players[i as int])).drop_last()
                            =~~= old_entries);
                    }
                    let s1 = s.concat(";");
                    s = s1.concat(entry.as_str());
                } else {
                    proof {
                        assert(old_entries.len() == 0);
                    }
                    s = entry;
                }
                any = true;
            },
        }
        i = i + 1;
    }
    proof {
        assert(state@.players.take(state@.players.len() as int) =~= state@.players);
    }
    s
}

} // verus!
