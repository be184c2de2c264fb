use board_broker::board::Board;
use board_broker::protocol::{Directive, Position, SessionEvent, ToClient, ToServer};

fn send(to: u64, message: ToClient) -> Directive {
    Directive::Send { to, message }
}

#[test]
fn connect_gets_empty_snapshot_and_announcement() {
    let mut board = Board::new();
    let out = board.on_connect(7);
    assert_eq!(
        out,
        vec![
            send(7, ToClient::ClientList { clients: vec![] }),
            send(7, ToClient::NewClient { id: 7 }),
        ]
    );
    assert_eq!(board.client_count(), 1);
}

#[test]
fn second_connect_announced_to_both() {
    let mut board = Board::new();
    board.on_connect(1);
    let out = board.on_connect(2);
    assert_eq!(
        out,
        vec![
            send(2, ToClient::ClientList { clients: vec![] }),
            send(1, ToClient::NewClient { id: 2 }),
            send(2, ToClient::NewClient { id: 2 }),
        ]
    );
}

#[test]
fn reconnect_of_same_id_not_duplicated() {
    let mut board = Board::new();
    board.on_connect(1);
    let out = board.on_connect(1);
    assert_eq!(
        out,
        vec![
            send(1, ToClient::ClientList { clients: vec![] }),
            send(1, ToClient::NewClient { id: 1 }),
        ]
    );
    assert_eq!(board.client_count(), 1);
}

#[test]
fn move_broadcast_to_all() {
    let mut board = Board::new();
    board.on_connect(1);
    board.on_connect(2);
    let out = board.on_message(1, &ToServer::Move { x: 10, y: 20 });
    assert_eq!(
        out,
        vec![
            send(1, ToClient::ClientMoved { id: 1, x: 10, y: 20 }),
            send(2, ToClient::ClientMoved { id: 1, x: 10, y: 20 }),
        ]
    );
}

#[test]
fn snapshot_contains_only_moved_clients() {
    let mut board = Board::new();
    board.on_connect(1);
    board.on_connect(2);
    board.on_message(1, &ToServer::Move { x: 3, y: 4 });
    let out = board.on_connect(9);
    assert_eq!(
        out[0],
        send(9, ToClient::ClientList { clients: vec![(1, Position { x: 3, y: 4 })] })
    );
}

#[test]
fn snapshot_shows_latest_move() {
    let mut board = Board::new();
    board.on_connect(1);
    board.on_message(1, &ToServer::Move { x: 3, y: 4 });
    board.on_message(1, &ToServer::Move { x: 30, y: 40 });
    let out = board.on_connect(9);
    assert_eq!(
        out[0],
        send(9, ToClient::ClientList { clients: vec![(1, Position { x: 30, y: 40 })] })
    );
}

#[test]
fn snapshot_omits_disconnected_client() {
    let mut board = Board::new();
    board.on_connect(1);
    board.on_connect(2);
    board.on_message(1, &ToServer::Move { x: 3, y: 4 });
    board.on_disconnect(1);
    let out = board.on_connect(9);
    assert_eq!(out[0], send(9, ToClient::ClientList { clients: vec![] }));
}

#[test]
fn disconnect_announced_to_remaining() {
    let mut board = Board::new();
    board.on_connect(1);
    board.on_connect(2);
    let out = board.on_disconnect(2);
    assert_eq!(out, vec![send(1, ToClient::ClientDisconnected { id: 2 })]);
    assert_eq!(board.client_count(), 1);
}

#[test]
fn repeat_disconnect_is_silent() {
    let mut board = Board::new();
    board.on_connect(1);
    board.on_connect(2);
    let first = board.on_disconnect(2);
    assert_eq!(first.len(), 1);
    let second = board.on_disconnect(2);
    assert_eq!(second, vec![]);
    assert_eq!(board.client_count(), 1);
}

#[test]
fn tick_on_empty_board_fires_teardown_once() {
    let mut board = Board::new();
    let first = board.tick();
    assert_eq!(first, vec![Directive::Teardown]);
    let second = board.tick();
    assert_eq!(second, vec![]);
}

#[test]
fn tick_with_clients_is_noop() {
    let mut board = Board::new();
    board.on_connect(1);
    assert_eq!(board.tick(), vec![]);
}

#[test]
fn replayed_sequence_matches_stepwise_handling() {
    let events = vec![
        SessionEvent::Connect { id: 1 },
        SessionEvent::Connect { id: 2 },
        SessionEvent::Move { id: 1, x: 5, y: 6 },
        SessionEvent::Disconnect { id: 2 },
        SessionEvent::Disconnect { id: 1 },
        SessionEvent::Tick,
    ];

    let mut replayed = Board::new();
    let replayed_out = replayed.apply_events(&events);

    let mut stepped = Board::new();
    let mut stepped_out = Vec::new();
    for event in &events {
        stepped_out.extend(stepped.handle_event(event));
    }

    assert_eq!(replayed_out, stepped_out);
    assert_eq!(replayed.client_count(), stepped.client_count());
    assert_eq!(*replayed_out.last().unwrap(), Directive::Teardown);
}
