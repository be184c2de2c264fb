//! The whole broker driven through one board's life: create, two clients,
//! a move, both departures, exactly one teardown, and a fresh session on
//! re-creation.

use board_broker::board::Board;
use board_broker::connection::{ConnectionActor, SocketInput};
use board_broker::protocol::{Directive, SessionEvent, ToClient, ToServer};
use board_broker::registry::Registry;

fn deliveries_for(out: &[Directive], to: u64) -> Vec<ToClient> {
    out.iter()
        .filter_map(|d| match d {
            Directive::Send { to: t, message } if *t == to => Some(message.clone()),
            _ => None,
        })
        .collect()
}

#[test]
fn board_lifecycle_from_create_to_eviction() {
    let mut registry = Registry::new();
    let name = String::from("general");

    let (token, created) = registry.resolve_or_create(&name);
    assert!(created);
    assert_eq!(registry.route_connection(&name), Some(token));

    let mut board = Board::new();

    // A connects and receives the empty snapshot.
    let (mut conn_a, connect_a) = ConnectionActor::start();
    let a = conn_a.get_id();
    let out = board.handle_event(&connect_a);
    assert_eq!(
        deliveries_for(&out, a),
        vec![
            ToClient::ClientList { clients: vec![] },
            ToClient::NewClient { id: a },
        ]
    );

    // B connects: an empty snapshot for B, the announcement for everyone.
    let (mut conn_b, connect_b) = ConnectionActor::start();
    let b = conn_b.get_id();
    let out = board.handle_event(&connect_b);
    assert_eq!(
        deliveries_for(&out, b),
        vec![
            ToClient::ClientList { clients: vec![] },
            ToClient::NewClient { id: b },
        ]
    );
    assert_eq!(deliveries_for(&out, a), vec![ToClient::NewClient { id: b }]);

    // A moves: both receive the move.
    let frame = SocketInput::Frame { message: Some(ToServer::Move { x: 1, y: 2 }) };
    let (event, go_on) = conn_a.on_input(&frame);
    assert!(go_on);
    let out = board.handle_event(&event.unwrap());
    assert_eq!(deliveries_for(&out, a), vec![ToClient::ClientMoved { id: a, x: 1, y: 2 }]);
    assert_eq!(deliveries_for(&out, b), vec![ToClient::ClientMoved { id: a, x: 1, y: 2 }]);

    // B closes its connection: A is told.
    let (event, go_on) = conn_b.on_input(&SocketInput::Close);
    assert_eq!(event, None);
    assert!(!go_on);
    let out = board.handle_event(&conn_b.finish());
    assert_eq!(deliveries_for(&out, a), vec![ToClient::ClientDisconnected { id: b }]);
    assert_eq!(deliveries_for(&out, b), vec![]);

    // A leaves too; the next tick fires exactly one teardown.
    let out = board.handle_event(&conn_a.finish());
    assert_eq!(out, vec![]);
    assert_eq!(board.handle_event(&SessionEvent::Tick), vec![Directive::Teardown]);
    assert_eq!(board.handle_event(&SessionEvent::Tick), vec![]);

    // Teardown: the registry entry leaves, and a re-created board is a
    // brand-new session.
    assert_eq!(registry.remove(&name), Some(token));
    assert_eq!(registry.route_connection(&name), None);
    let (token2, created2) = registry.resolve_or_create(&name);
    assert!(created2);
    assert_ne!(token2, token);
}
