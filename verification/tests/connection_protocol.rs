use board_broker::connection::{ConnectionActor, SocketInput};
use board_broker::protocol::{SessionEvent, ToServer};

#[test]
fn start_emits_connect_first() {
    let (actor, event) = ConnectionActor::start();
    assert!(actor.is_running());
    assert_eq!(event, SessionEvent::Connect { id: actor.get_id() });
}

#[test]
fn decoded_move_is_forwarded() {
    let (mut actor, _) = ConnectionActor::start();
    let id = actor.get_id();
    let input = SocketInput::Frame { message: Some(ToServer::Move { x: 1, y: 2 }) };
    let (event, go_on) = actor.on_input(&input);
    assert_eq!(event, Some(SessionEvent::Move { id, x: 1, y: 2 }));
    assert!(go_on);
}

#[test]
fn malformed_frame_terminates_without_event() {
    let (mut actor, _) = ConnectionActor::start();
    let (event, go_on) = actor.on_input(&SocketInput::Frame { message: None });
    assert_eq!(event, None);
    assert!(!go_on);
}

#[test]
fn close_frame_terminates() {
    let (mut actor, _) = ConnectionActor::start();
    let (event, go_on) = actor.on_input(&SocketInput::Close);
    assert_eq!(event, None);
    assert!(!go_on);
}

#[test]
fn other_frames_are_skipped() {
    let (mut actor, _) = ConnectionActor::start();
    let (event, go_on) = actor.on_input(&SocketInput::Other);
    assert_eq!(event, None);
    assert!(go_on);
}

#[test]
fn cancellation_terminates_unconditionally() {
    let (mut actor, _) = ConnectionActor::start();
    let (event, go_on) = actor.on_input(&SocketInput::Kill);
    assert_eq!(event, None);
    assert!(!go_on);
}

#[test]
fn finish_emits_the_one_disconnect() {
    let (mut actor, _) = ConnectionActor::start();
    let id = actor.get_id();
    let event = actor.finish();
    assert_eq!(event, SessionEvent::Disconnect { id });
    assert!(!actor.is_running());
}

#[test]
fn drain_stops_at_kill_and_disconnects() {
    let (mut actor, _) = ConnectionActor::start();
    let id = actor.get_id();
    let inputs = vec![
        SocketInput::Frame { message: Some(ToServer::Move { x: 1, y: 1 }) },
        SocketInput::Other,
        SocketInput::Kill,
        SocketInput::Frame { message: Some(ToServer::Move { x: 9, y: 9 }) },
    ];
    let events = actor.drain(&inputs);
    assert_eq!(
        events,
        vec![
            SessionEvent::Move { id, x: 1, y: 1 },
            SessionEvent::Disconnect { id },
        ]
    );
    assert!(!actor.is_running());
}

#[test]
fn drain_on_silent_peer_still_disconnects() {
    let (mut actor, _) = ConnectionActor::start();
    let id = actor.get_id();
    let events = actor.drain(&vec![SocketInput::Ended]);
    assert_eq!(events, vec![SessionEvent::Disconnect { id }]);
}
