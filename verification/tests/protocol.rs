//! Tests of the control protocol: the server's log, edits and
//! deletes, reactions, sync, the call roster, the handshake and
//! the client mirror.

use matthias_core::client::{sync_due, ClientState, ServerEvent};
use matthias_core::message::{Payload, RequestError, SeenEntry};
use matthias_core::server::{evaluate_connect, relay_targets, ConnectDecision, ServerState};

fn send(server: &mut ServerState, author: &str, text: &str) -> usize {
    server.accept_send(
        author.to_string(),
        author.to_string(),
        "2024-01-01".to_string(),
        None,
        text.to_string(),
    )
}

fn text_of(server: &ServerState, index: usize) -> Option<String> {
    match &server.log[index].payload {
        Payload::Normal { text, .. } => Some(text.clone()),
        _ => None,
    }
}

#[test]
fn basic_send() {
    // Client A sends Normal("hi"); client B receives the broadcast
    // with author "A", text "hi", index 0.
    let mut server = ServerState::new();
    let idx = send(&mut server, "A", "hi");
    assert_eq!(idx, 0);
    assert_eq!(server.log.len(), 1);
    assert_eq!(server.log[0].author, "A");
    assert_eq!(text_of(&server, 0), Some("hi".to_string()));

    let mut b = ClientState::new();
    b.apply_event(ServerEvent::Append { entry: server.log[0].clone() });
    assert_eq!(b.log.len(), 1);
    assert_eq!(b.log[0].author, "A");
    match &b.log[0].payload {
        Payload::Normal { text, edited } => {
            assert_eq!(text, "hi");
            assert!(!edited);
        }
        _ => panic!("expected a normal message"),
    }
}

#[test]
fn edit_then_delete() {
    // A sends Normal("x") at index 5, then Edit(5, "y"), then
    // Edit(5, null): index 5 ends Deleted, and the edited flag was
    // observable in between.
    let mut server = ServerState::new();
    for _ in 0..5 {
        send(&mut server, "other", "filler");
    }
    let idx = send(&mut server, "A", "x");
    assert_eq!(idx, 5);

    let a = "A".to_string();
    assert!(server.accept_edit(&a, 5, Some("y".to_string())).is_ok());
    match &server.log[5].payload {
        Payload::Normal { text, edited } => {
            assert_eq!(text, "y");
            assert!(*edited);
        }
        _ => panic!("expected an edited normal message"),
    }

    assert!(server.accept_edit(&a, 5, None).is_ok());
    assert!(matches!(server.log[5].payload, Payload::Deleted));
    assert_eq!(server.log.len(), 6);
}

#[test]
fn delete_is_terminal() {
    // A delete followed by an edit on the same index does not
    // revive the message.
    let mut server = ServerState::new();
    send(&mut server, "A", "x");
    let a = "A".to_string();
    assert!(server.accept_edit(&a, 0, None).is_ok());
    assert_eq!(
        server.accept_edit(&a, 0, Some("back from the dead".to_string())),
        Err(RequestError::InvalidTarget)
    );
    assert!(matches!(server.log[0].payload, Payload::Deleted));
    // Deleting twice does not work either.
    assert_eq!(server.accept_edit(&a, 0, None), Err(RequestError::InvalidTarget));
}

#[test]
fn unauthorized_edit() {
    // B tries to edit A's message: Unauthorized, log unchanged.
    let mut server = ServerState::new();
    for i in 0..6 {
        send(&mut server, "A", &format!("m{}", i));
    }
    let b = "B".to_string();
    assert_eq!(
        server.accept_edit(&b, 5, Some("hacked".to_string())),
        Err(RequestError::Unauthorized)
    );
    assert_eq!(text_of(&server, 5), Some("m5".to_string()));
}

#[test]
fn edit_out_of_bounds() {
    let mut server = ServerState::new();
    send(&mut server, "A", "only");
    let a = "A".to_string();
    assert_eq!(server.accept_edit(&a, 7, None), Err(RequestError::IndexOutOfBounds));
    assert_eq!(server.log.len(), 1);
}

#[test]
fn reaction_idempotence() {
    // A adds the same reaction on index 3 twice: the author list
    // holds A exactly once; a remove by A then empties the entry.
    let mut server = ServerState::new();
    for i in 0..4 {
        send(&mut server, "A", &format!("m{}", i));
    }
    let a = "A".to_string();
    let emoji = "👍".to_string();
    assert!(server.accept_reaction_add(&a, 3, &emoji).is_ok());
    assert!(server.accept_reaction_add(&a, 3, &emoji).is_ok());
    assert_eq!(server.reactions[3].len(), 1);
    assert_eq!(server.reactions[3][0].emoji, "👍");
    assert_eq!(server.reactions[3][0].authors, vec!["A".to_string()]);

    assert!(server.accept_reaction_remove(&a, 3, &emoji).is_ok());
    assert!(server.reactions[3].is_empty());
}

#[test]
fn reaction_two_authors() {
    let mut server = ServerState::new();
    send(&mut server, "A", "m");
    let a = "A".to_string();
    let b = "B".to_string();
    let emoji = "heart".to_string();
    assert!(server.accept_reaction_add(&a, 0, &emoji).is_ok());
    assert!(server.accept_reaction_add(&b, 0, &emoji).is_ok());
    assert_eq!(server.reactions[0][0].authors, vec!["A".to_string(), "B".to_string()]);
    // Removing one author keeps the other.
    assert!(server.accept_reaction_remove(&a, 0, &emoji).is_ok());
    assert_eq!(server.reactions[0][0].authors, vec!["B".to_string()]);
}

#[test]
fn reaction_remove_missing_is_tolerated() {
    let mut server = ServerState::new();
    send(&mut server, "A", "m");
    let b = "B".to_string();
    let emoji = "fire".to_string();
    // No such emoji entry: tolerated, nothing changes.
    assert!(server.accept_reaction_remove(&b, 0, &emoji).is_ok());
    assert!(server.reactions[0].is_empty());
    // Emoji present, author absent: tolerated too.
    let a = "A".to_string();
    assert!(server.accept_reaction_add(&a, 0, &emoji).is_ok());
    assert!(server.accept_reaction_remove(&b, 0, &emoji).is_ok());
    assert_eq!(server.reactions[0][0].authors, vec!["A".to_string()]);
}

#[test]
fn reaction_out_of_bounds() {
    let mut server = ServerState::new();
    let a = "A".to_string();
    let emoji = "wave".to_string();
    assert_eq!(server.accept_reaction_add(&a, 0, &emoji), Err(RequestError::IndexOutOfBounds));
    assert_eq!(
        server.accept_reaction_remove(&a, 0, &emoji),
        Err(RequestError::IndexOutOfBounds)
    );
}

#[test]
fn sync_after_reconnect() {
    // C holds 10 entries, the server 14; one sync brings C to 14,
    // with entries 10..14 matching the server exactly.
    let mut server = ServerState::new();
    for i in 0..14 {
        send(&mut server, "A", &format!("m{}", i));
    }
    let mut c = ClientState::new();
    for i in 0..10 {
        c.apply_event(ServerEvent::Append { entry: server.log[i].clone() });
    }
    assert_eq!(c.log.len(), 10);

    let cu = "C".to_string();
    let tail = server.accept_sync(&cu, 10, Some(9));
    assert_eq!(tail.len(), 4);
    for entry in tail {
        c.apply_event(ServerEvent::Append { entry });
    }
    assert_eq!(c.log.len(), 14);
    for i in 10..14 {
        assert_eq!(c.log[i].author, server.log[i].author);
        match (&c.log[i].payload, &server.log[i].payload) {
            (Payload::Normal { text: ct, .. }, Payload::Normal { text: st, .. }) => {
                assert_eq!(ct, st);
            }
            _ => panic!("expected normal messages"),
        }
    }
}

#[test]
fn sync_idempotence() {
    // Two syncs with the same have_count return the same tail and
    // leave the same state.
    let mut server = ServerState::new();
    for i in 0..5 {
        send(&mut server, "A", &format!("m{}", i));
    }
    let cu = "C".to_string();
    let tail1 = server.accept_sync(&cu, 2, Some(4));
    let seen_after_first: Vec<(String, usize)> =
        server.seen.iter().map(|s| (s.uuid.clone(), s.index)).collect();
    let tail2 = server.accept_sync(&cu, 2, Some(4));
    assert_eq!(tail1.len(), 3);
    assert_eq!(tail2.len(), 3);
    for (a, b) in tail1.iter().zip(tail2.iter()) {
        assert_eq!(a.author, b.author);
    }
    let seen_after_second: Vec<(String, usize)> =
        server.seen.iter().map(|s| (s.uuid.clone(), s.index)).collect();
    assert_eq!(seen_after_first, seen_after_second);
}

#[test]
fn sync_seen_is_monotonic() {
    let mut server = ServerState::new();
    for i in 0..8 {
        send(&mut server, "A", &format!("m{}", i));
    }
    let cu = "C".to_string();
    server.accept_sync(&cu, 8, Some(5));
    assert_eq!(server.seen[0].index, 5);
    // An older report is ignored.
    server.accept_sync(&cu, 8, Some(3));
    assert_eq!(server.seen[0].index, 5);
    server.accept_sync(&cu, 8, Some(7));
    assert_eq!(server.seen[0].index, 7);
    // Syncing past the end returns nothing.
    assert!(server.accept_sync(&cu, 20, None).is_empty());
}

#[test]
fn upload_appends_metadata() {
    let mut server = ServerState::new();
    server.store_blob("sig-1".to_string(), vec![1, 2, 3]);
    let idx = server.accept_upload(
        "A".to_string(),
        "A".to_string(),
        "2024-01-01".to_string(),
        None,
        Payload::Image { signature: "sig-1".to_string() },
    );
    assert_eq!(idx, 0);
    match &server.log[0].payload {
        Payload::Image { signature } => assert_eq!(signature, "sig-1"),
        _ => panic!("expected image metadata"),
    }
    assert_eq!(server.fetch_blob(&"sig-1".to_string()), Some(&vec![1u8, 2, 3]));
    assert_eq!(server.fetch_blob(&"sig-2".to_string()), None);
    // Bytes are content-addressed: the same signature keeps what it
    // has.
    server.store_blob("sig-1".to_string(), vec![9, 9]);
    assert_eq!(server.fetch_blob(&"sig-1".to_string()), Some(&vec![1u8, 2, 3]));
}

#[test]
fn profiles_register_and_refresh() {
    let mut server = ServerState::new();
    server.set_profile("A".to_string(), "alice".to_string(), vec![1]);
    server.set_profile("B".to_string(), "bob".to_string(), vec![2]);
    server.set_profile("A".to_string(), "alice2".to_string(), vec![3]);
    assert_eq!(server.profiles.len(), 2);
    let p = server.fetch_profile(&"A".to_string()).expect("registered");
    assert_eq!(p.username, "alice2");
    assert_eq!(p.picture, vec![3]);
    assert!(server.fetch_profile(&"C".to_string()).is_none());
}

#[test]
fn handshake_decisions() {
    let connected = vec!["A".to_string(), "B".to_string()];
    let pw = Some("p".to_string());
    // Wrong password.
    assert_eq!(
        evaluate_connect(&connected, &"C".to_string(), &Some("q".to_string()), &pw, 10),
        ConnectDecision::BadPassword
    );
    assert_eq!(
        evaluate_connect(&connected, &"C".to_string(), &None, &pw, 10),
        ConnectDecision::BadPassword
    );
    // Duplicate UUID.
    assert_eq!(
        evaluate_connect(&connected, &"A".to_string(), &pw, &pw, 10),
        ConnectDecision::DuplicateUuid
    );
    // Server full.
    assert_eq!(
        evaluate_connect(&connected, &"C".to_string(), &pw, &pw, 2),
        ConnectDecision::ServerFull
    );
    // Accepted; no password required accepts any supplied one.
    assert_eq!(
        evaluate_connect(&connected, &"C".to_string(), &pw, &pw, 10),
        ConnectDecision::Accepted
    );
    assert_eq!(
        evaluate_connect(&connected, &"C".to_string(), &None, &None, 10),
        ConnectDecision::Accepted
    );
}

#[test]
fn call_roster_set_semantics() {
    let mut server = ServerState::new();
    let a = "A".to_string();
    let b = "B".to_string();
    assert!(server.call.is_none());
    server.voip_connect(&a);
    assert_eq!(server.call, Some(vec!["A".to_string()]));
    server.voip_connect(&b);
    server.voip_connect(&a); // joining twice is a no-op
    assert_eq!(server.call, Some(vec!["A".to_string(), "B".to_string()]));
    server.voip_disconnect(&a);
    assert_eq!(server.call, Some(vec!["B".to_string()]));
    server.voip_disconnect(&a); // not on the roster: tolerated
    assert_eq!(server.call, Some(vec!["B".to_string()]));
    server.voip_disconnect(&b);
    assert!(server.call.is_none());
}

#[test]
fn voice_fan_out() {
    // A and B are in the call; a datagram from A reaches exactly B.
    let roster = vec!["A".to_string(), "B".to_string()];
    let targets = relay_targets(&roster, &"A".to_string());
    assert_eq!(targets, vec!["B".to_string()]);
    // C is not on the roster, so it is never a target.
    assert!(!targets.contains(&"C".to_string()));
}

#[test]
fn client_applies_edit_and_reaction() {
    let mut server = ServerState::new();
    send(&mut server, "A", "x");
    let mut c = ClientState::new();
    c.apply_event(ServerEvent::Append { entry: server.log[0].clone() });

    c.apply_event(ServerEvent::Edit { index: 0, new_text: Some("y".to_string()) });
    match &c.log[0].payload {
        Payload::Normal { text, edited } => {
            assert_eq!(text, "y");
            assert!(*edited);
        }
        _ => panic!("expected a normal message"),
    }

    c.apply_event(ServerEvent::ReactionAdd {
        index: 0,
        emoji: "👍".to_string(),
        author: "B".to_string(),
    });
    c.apply_event(ServerEvent::ReactionAdd {
        index: 0,
        emoji: "👍".to_string(),
        author: "B".to_string(),
    });
    assert_eq!(c.reactions[0][0].authors, vec!["B".to_string()]);
    c.apply_event(ServerEvent::ReactionRemove {
        index: 0,
        emoji: "👍".to_string(),
        author: "B".to_string(),
    });
    assert!(c.reactions[0].is_empty());

    c.apply_event(ServerEvent::Edit { index: 0, new_text: None });
    assert!(matches!(c.log[0].payload, Payload::Deleted));
    // An edit of a deleted entry, or of an index not held yet, is
    // discarded.
    c.apply_event(ServerEvent::Edit { index: 0, new_text: Some("z".to_string()) });
    assert!(matches!(c.log[0].payload, Payload::Deleted));
    c.apply_event(ServerEvent::Edit { index: 9, new_text: None });
    assert_eq!(c.log.len(), 1);
}

#[test]
fn client_follows_roster_and_seen() {
    let mut c = ClientState::new();
    c.apply_event(ServerEvent::Voip { connected: Some(vec!["A".to_string()]) });
    assert_eq!(c.call, Some(vec!["A".to_string()]));
    c.apply_event(ServerEvent::Voip { connected: None });
    assert!(c.call.is_none());

    c.set_seen_list(vec![SeenEntry { uuid: "A".to_string(), index: 3 }]);
    assert_eq!(c.seen.len(), 1);
    assert_eq!(c.seen[0].uuid, "A");
    assert_eq!(c.seen[0].index, 3);
}

#[test]
fn sync_tick_decision() {
    // A first tick always reports.
    assert!(sync_due(None, 0));
    // Later ticks report only when the seen index advanced.
    assert!(sync_due(Some(3), 4));
    assert!(!sync_due(Some(4), 4));
    assert!(!sync_due(Some(5), 4));
}
