use fserve::controller::{broadcast, check_purge, handle_msg, release_player, HandlerMessage};
use fserve::model::{
    Header, Message, MessageType, Outbox, Player, PlayerState, PlayerStatus, Request, ServerError,
};
use fserve::state::{find_player_on_hold, player_list_string, State};

fn mk_player(id: u32, name: &str, open: bool) -> Player {
    Player {
        id,
        outbox: Outbox { messages: Vec::new(), open },
        state: PlayerState { status: PlayerStatus::OnHold, name: name.to_string() },
    }
}

fn client_msg(t: MessageType, body: &str) -> HandlerMessage {
    HandlerMessage::ClientMessage(Message::new(t, body))
}

fn queue_of<'a>(state: &'a State, id: u32) -> &'a Vec<Message> {
    &state.players.iter().find(|p| p.id == id).unwrap().outbox.messages
}

fn status_of(state: &State, id: u32) -> PlayerStatus {
    state.players.iter().find(|p| p.id == id).unwrap().state.status
}

fn three_player_lobby() -> State {
    let mut state = State::new();
    state.players.push(mk_player(1, "Al", true));
    state.players.push(mk_player(2, "Bo", true));
    state.players.push(mk_player(3, "Cy", true));
    state
}

#[test]
fn listing_encodes_named_players() {
    let mut state = State::new();
    state.players.push(mk_player(7, "Bob", true));
    assert_eq!(player_list_string(&state), "Qm9i:0:7");
    // An unnamed connection contributes no entry.
    state.players.push(mk_player(8, "", true));
    assert_eq!(player_list_string(&state), "Qm9i:0:7");
    state.players.push(mk_player(9, "Al", true));
    assert_eq!(player_list_string(&state), "Qm9i:0:7;QWw=:0:9");
}

#[test]
fn listing_flags_duelling_players() {
    let mut state = three_player_lobby();
    handle_msg(client_msg(MessageType::RequestDuel, "2"), mk_player(1, "", true), &mut state)
        .unwrap();
    handle_msg(client_msg(MessageType::RequestDuel, "1"), mk_player(2, "", true), &mut state)
        .unwrap();
    assert_eq!(player_list_string(&state), "QWw=:1:1;Qm8=:1:2;Q3k=:0:3");
}

#[test]
fn mutual_request_makes_a_match() {
    let mut state = three_player_lobby();
    // A (id 1) asks for B (id 2): a pending request is recorded and B is
    // relayed a RequestDuel carrying A's id.
    handle_msg(client_msg(MessageType::RequestDuel, "2"), mk_player(1, "", true), &mut state)
        .unwrap();
    assert_eq!(state.requests, vec![Request { src_id: 1, dest_id: 2 }]);
    let relayed = queue_of(&state, 2).last().unwrap();
    assert_eq!(relayed.header.message_type, 2);
    assert_eq!(relayed.body, b"1".to_vec());
    assert!(matches!(status_of(&state, 1), PlayerStatus::OnHold));

    // B asks for A back: both transition to Duelling.
    handle_msg(client_msg(MessageType::RequestDuel, "1"), mk_player(2, "", true), &mut state)
        .unwrap();
    match (status_of(&state, 1), status_of(&state, 2)) {
        (PlayerStatus::Duelling(d1), PlayerStatus::Duelling(d2)) => {
            assert_eq!(d1, d2);
            assert_eq!(d1.other_player(1), 2);
            assert_eq!(d1.other_player(2), 1);
        },
        _ => panic!("both players must be duelling"),
    }
    // Exactly one of the two received NewGame.
    let new_games = |id: u32| {
        queue_of(&state, id).iter().filter(|m| m.header.message_type == 4).count()
    };
    assert_eq!(new_games(1) + new_games(2), 1);
    // The remaining on-hold player got the refreshed listing, with the
    // matched pair no longer flagged on hold.
    let last_to_cy = queue_of(&state, 3).last().unwrap();
    assert_eq!(last_to_cy.header.message_type, 7);
    assert_eq!(last_to_cy.body, b"QWw=:1:1;Qm8=:1:2;Q3k=:0:3".to_vec());
}

#[test]
fn stale_requests_are_purged_after_match() {
    let mut state = three_player_lobby();
    // C asks for A first, so a request referencing A is on record.
    handle_msg(client_msg(MessageType::RequestDuel, "1"), mk_player(3, "", true), &mut state)
        .unwrap();
    handle_msg(client_msg(MessageType::RequestDuel, "2"), mk_player(1, "", true), &mut state)
        .unwrap();
    handle_msg(client_msg(MessageType::RequestDuel, "1"), mk_player(2, "", true), &mut state)
        .unwrap();
    // No pending request references A or B any more.
    assert!(state.requests.iter().all(|r| {
        r.src_id != 1 && r.dest_id != 1 && r.src_id != 2 && r.dest_id != 2
    }));
    // A later request from C towards the now-duelling A fails.
    assert!(find_player_on_hold(1, &state).is_none());
    handle_msg(client_msg(MessageType::RequestDuel, "1"), mk_player(3, "", true), &mut state)
        .unwrap();
    let last_to_cy = queue_of(&state, 3).last().unwrap();
    assert_eq!(last_to_cy.header.message_type, 3);
    assert_eq!(last_to_cy.body.len(), 0);
}

#[test]
fn request_to_unknown_player_fails() {
    let mut state = three_player_lobby();
    handle_msg(client_msg(MessageType::RequestDuel, "99"), mk_player(1, "", true), &mut state)
        .unwrap();
    let last = queue_of(&state, 1).last().unwrap();
    assert_eq!(last.header.message_type, 3);
    assert!(state.requests.is_empty());
}

#[test]
fn request_to_self_fails() {
    let mut state = three_player_lobby();
    handle_msg(client_msg(MessageType::RequestDuel, "1"), mk_player(1, "", true), &mut state)
        .unwrap();
    let last = queue_of(&state, 1).last().unwrap();
    assert_eq!(last.header.message_type, 3);
    assert!(state.requests.is_empty());
    assert!(matches!(status_of(&state, 1), PlayerStatus::OnHold));
}

#[test]
fn request_with_bad_body_is_an_error() {
    let mut state = three_player_lobby();
    let r = handle_msg(client_msg(MessageType::RequestDuel, "xx"), mk_player(1, "", true), &mut state);
    assert_eq!(r.unwrap_err(), ServerError::BadNumber);
    let bad = HandlerMessage::ClientMessage(Message {
        header: Header { message_type: 2, message_length: 1, message_id: 0, answer_id: 0 },
        body: vec![0xff],
    });
    let r2 = handle_msg(bad, mk_player(1, "", true), &mut state);
    assert_eq!(r2.unwrap_err(), ServerError::BadUtf8);
}

#[test]
fn duelling_requester_is_a_no_op() {
    let mut state = three_player_lobby();
    handle_msg(client_msg(MessageType::RequestDuel, "2"), mk_player(1, "", true), &mut state)
        .unwrap();
    handle_msg(client_msg(MessageType::RequestDuel, "1"), mk_player(2, "", true), &mut state)
        .unwrap();
    let before = queue_of(&state, 3).len();
    handle_msg(client_msg(MessageType::RequestDuel, "3"), mk_player(1, "", true), &mut state)
        .unwrap();
    assert_eq!(queue_of(&state, 3).len(), before);
    assert!(state.requests.is_empty());
}

#[test]
fn proxy_forwards_to_duel_partner_only() {
    let mut state = three_player_lobby();
    handle_msg(client_msg(MessageType::RequestDuel, "2"), mk_player(1, "", true), &mut state)
        .unwrap();
    handle_msg(client_msg(MessageType::RequestDuel, "1"), mk_player(2, "", true), &mut state)
        .unwrap();
    let cy_before = queue_of(&state, 3).len();
    let mut move_msg = Message::new(MessageType::Proxy, "e2e4");
    move_msg.header.message_id = 42;
    handle_msg(
        HandlerMessage::ClientMessage(move_msg),
        mk_player(1, "", true),
        &mut state,
    )
    .unwrap();
    let got = queue_of(&state, 2).last().unwrap();
    assert_eq!(got.header.message_type, 5);
    assert_eq!(got.header.message_id, 42);
    assert_eq!(got.body, b"e2e4".to_vec());
    // The bystander saw nothing.
    assert_eq!(queue_of(&state, 3).len(), cy_before);
}

#[test]
fn proxy_from_on_hold_is_broadcast_to_all() {
    let mut state = three_player_lobby();
    handle_msg(client_msg(MessageType::Proxy, "hi"), mk_player(1, "", true), &mut state).unwrap();
    for id in [1u32, 2, 3] {
        let got = queue_of(&state, id).last().unwrap();
        assert_eq!(got.header.message_type, 5);
        assert_eq!(got.body, b"hi".to_vec());
    }
}

#[test]
fn name_message_renames_and_broadcasts() {
    let mut state = three_player_lobby();
    handle_msg(client_msg(MessageType::Name, "Zed"), mk_player(1, "", true), &mut state).unwrap();
    let p = state.players.iter().find(|p| p.id == 1).unwrap();
    assert_eq!(p.state.name, "Zed");
    // Every on-hold player, the sender included, got the refreshed listing.
    for id in [1u32, 2, 3] {
        let got = queue_of(&state, id).last().unwrap();
        assert_eq!(got.header.message_type, 7);
        assert_eq!(got.body, b"WmVk:0:1;Qm8=:0:2;Q3k=:0:3".to_vec());
    }
}

#[test]
fn list_players_is_answered_to_requester_only() {
    let mut state = three_player_lobby();
    let mut ask = Message::new(MessageType::ListPlayers, "");
    ask.header.message_id = 77;
    let bo_before = queue_of(&state, 2).len();
    handle_msg(HandlerMessage::ClientMessage(ask), mk_player(1, "", true), &mut state).unwrap();
    let got = queue_of(&state, 1).last().unwrap();
    assert_eq!(got.header.message_type, 7);
    assert_eq!(got.header.answer_id, 77);
    assert_eq!(got.body, b"QWw=:0:1;Qm8=:0:2;Q3k=:0:3".to_vec());
    assert_eq!(queue_of(&state, 2).len(), bo_before);
}

#[test]
fn exit_duel_releases_both_sides() {
    let mut state = three_player_lobby();
    handle_msg(client_msg(MessageType::RequestDuel, "2"), mk_player(1, "", true), &mut state)
        .unwrap();
    handle_msg(client_msg(MessageType::RequestDuel, "1"), mk_player(2, "", true), &mut state)
        .unwrap();
    handle_msg(client_msg(MessageType::ExitDuel, ""), mk_player(1, "", true), &mut state).unwrap();
    assert!(matches!(status_of(&state, 1), PlayerStatus::OnHold));
    assert!(matches!(status_of(&state, 2), PlayerStatus::OnHold));
    assert!(queue_of(&state, 2).iter().any(|m| m.header.message_type == 6));
}

#[test]
fn exit_duel_when_on_hold_is_a_no_op() {
    let mut state = three_player_lobby();
    handle_msg(client_msg(MessageType::ExitDuel, ""), mk_player(1, "", true), &mut state).unwrap();
    assert!(matches!(status_of(&state, 1), PlayerStatus::OnHold));
    assert_eq!(state.players.len(), 3);
}

#[test]
fn dump_changes_nothing() {
    let mut state = three_player_lobby();
    handle_msg(client_msg(MessageType::Dump, ""), mk_player(1, "", true), &mut state).unwrap();
    assert_eq!(state.players.len(), 3);
    assert!(state.requests.is_empty());
    assert!(queue_of(&state, 1).is_empty());
}

#[test]
fn unhandled_types_are_reported() {
    let mut state = three_player_lobby();
    let r = handle_msg(client_msg(MessageType::Welcome, ""), mk_player(1, "", true), &mut state);
    assert_eq!(r.unwrap_err(), ServerError::UnhandledType(0));
    let odd = HandlerMessage::ClientMessage(Message {
        header: Header { message_type: 99, message_length: 0, message_id: 0, answer_id: 0 },
        body: Vec::new(),
    });
    let r2 = handle_msg(odd, mk_player(1, "", true), &mut state);
    assert_eq!(r2.unwrap_err(), ServerError::UnhandledType(99));
}

#[test]
fn message_from_unknown_player_is_reported() {
    let mut state = three_player_lobby();
    let r = handle_msg(client_msg(MessageType::Name, "x"), mk_player(42, "", true), &mut state);
    assert_eq!(r.unwrap_err(), ServerError::UnknownPlayer);
}

#[test]
fn add_player_ignores_duplicate_ids() {
    let mut state = State::new();
    handle_msg(HandlerMessage::AddPlayer, mk_player(1, "", true), &mut state).unwrap();
    handle_msg(HandlerMessage::AddPlayer, mk_player(1, "again", true), &mut state).unwrap();
    assert_eq!(state.players.len(), 1);
    assert_eq!(state.players[0].state.name, "");
}

#[test]
fn release_removes_player_and_requests() {
    let mut state = three_player_lobby();
    handle_msg(client_msg(MessageType::RequestDuel, "2"), mk_player(1, "", true), &mut state)
        .unwrap();
    handle_msg(HandlerMessage::ReleasePlayer, mk_player(1, "", true), &mut state).unwrap();
    assert_eq!(state.players.len(), 2);
    assert!(state.players.iter().all(|p| p.id != 1));
    assert!(state.requests.is_empty());
}

#[test]
fn release_of_duelling_player_frees_partner() {
    let mut state = three_player_lobby();
    handle_msg(client_msg(MessageType::RequestDuel, "2"), mk_player(1, "", true), &mut state)
        .unwrap();
    handle_msg(client_msg(MessageType::RequestDuel, "1"), mk_player(2, "", true), &mut state)
        .unwrap();
    release_player(1, &mut state).unwrap();
    assert!(state.players.iter().all(|p| p.id != 1));
    assert!(matches!(status_of(&state, 2), PlayerStatus::OnHold));
    assert!(queue_of(&state, 2).iter().any(|m| m.header.message_type == 6));
}

#[test]
fn dead_peer_is_removed_exactly_once() {
    let mut state = State::new();
    state.players.push(mk_player(1, "Al", true));
    let mut dead = mk_player(4, "De", true);
    dead.outbox.open = false;
    state.players.push(dead);
    state.players.push(mk_player(5, "Ed", true));
    // A broadcast-carrying event: renaming Al refreshes the listing for
    // every on-hold player; delivery to the dead peer fails and heals the
    // registry without surfacing an error.
    handle_msg(client_msg(MessageType::Name, "Ax"), mk_player(1, "", true), &mut state).unwrap();
    assert_eq!(state.players.len(), 2);
    assert!(state.players.iter().all(|p| p.id != 4));
    for id in [1u32, 5] {
        assert!(state.players.iter().any(|p| p.id == id));
    }
}

#[test]
fn broadcast_reports_failed_deliveries() {
    let mut players = vec![mk_player(1, "", true), mk_player(2, "", false)];
    let msg = Message::new(MessageType::Proxy, "x");
    let failed = broadcast(&msg, &vec![1, 2], &mut players);
    assert_eq!(failed, vec![2]);
    assert_eq!(players[0].outbox.messages.len(), 1);
    assert_eq!(players[1].outbox.messages.len(), 0);
    let mut state = State { players, requests: Vec::new() };
    check_purge(&mut state, failed);
    assert_eq!(state.players.len(), 1);
    assert_eq!(state.players[0].id, 1);
}
