use board_broker::registry::Registry;

#[test]
fn create_then_route() {
    let mut registry = Registry::new();
    let name = String::from("general");
    assert!(registry.can_mint());
    let (token, created) = registry.resolve_or_create(&name);
    assert!(created);
    assert_eq!(registry.route_connection(&name), Some(token));
}

#[test]
fn resolve_existing_returns_same_session() {
    let mut registry = Registry::new();
    let name = String::from("general");
    let (token, created) = registry.resolve_or_create(&name);
    assert!(created);
    let (token2, created2) = registry.resolve_or_create(&name);
    assert!(!created2);
    assert_eq!(token, token2);
}

#[test]
fn unknown_board_is_not_routed() {
    let mut registry = Registry::new();
    registry.resolve_or_create(&String::from("general"));
    assert_eq!(registry.route_connection(&String::from("other")), None);
}

#[test]
fn distinct_boards_get_distinct_sessions() {
    let mut registry = Registry::new();
    let (a, _) = registry.resolve_or_create(&String::from("a"));
    let (b, _) = registry.resolve_or_create(&String::from("b"));
    assert_ne!(a, b);
}

#[test]
fn removed_board_routes_nowhere() {
    let mut registry = Registry::new();
    let name = String::from("general");
    let (token, _) = registry.resolve_or_create(&name);
    assert_eq!(registry.remove(&name), Some(token));
    assert_eq!(registry.route_connection(&name), None);
}

#[test]
fn remove_of_unknown_board_is_silent() {
    let mut registry = Registry::new();
    assert_eq!(registry.remove(&String::from("general")), None);
}

#[test]
fn recreated_board_is_a_fresh_session() {
    let mut registry = Registry::new();
    let name = String::from("general");
    let (old_token, _) = registry.resolve_or_create(&name);
    registry.remove(&name);
    let (new_token, created) = registry.resolve_or_create(&name);
    assert!(created);
    assert_ne!(new_token, old_token);
}
