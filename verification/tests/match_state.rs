use wiremocket::match_state::MatchState;
use wiremocket::message::Message;
use wiremocket::match_state::default_doctest_state;

#[test]
fn state_eviction() {
    let mut state = MatchState::new();

    state.push_message(Message::text("hello"));
    assert_eq!(state.stored_len(), 1);
    assert_eq!(state.len(), 1);

    state.evict();
    assert_eq!(state.stored_len(), 0);
    assert_eq!(state.len(), 1);

    state.push_message(Message::text("hello"));
    state.keep_message(1);
    state.evict();
    assert_eq!(state.stored_len(), 1);
    assert_eq!(state.len(), 2);

    state.forget_message(0);
    state.evict();
    assert_eq!(state.stored_len(), 1);

    state.forget_message(1);
    assert_eq!(state.stored_len(), 1);
    state.evict();
    assert_eq!(state.stored_len(), 0);
}

#[test]
fn doctest_state_holds_one_close_message() {
    let mut state = default_doctest_state();
    assert_eq!(state.len(), 1);
    assert_eq!(state.last(), state.get_message(0).unwrap());
    assert_eq!(state.last(), &Message::Close(None));
    state.keep_message(0);
    state.evict();
    assert_eq!(state.stored_len(), 1);
}

#[test]
fn pushed_message_is_found_under_its_index() {
    let mut state = MatchState::new();
    state.push_message(Message::text("first"));
    state.push_message(Message::binary(vec![1, 2, 3]));
    assert_eq!(state.get_message(1), Some(&Message::Binary(vec![1, 2, 3])));
    assert_eq!(state.get_message(0), Some(&Message::Text("first".to_string())));
    assert_eq!(state.get_message(2), None);
    assert_eq!(state.last(), &Message::Binary(vec![1, 2, 3]));
}

#[test]
fn forget_undoes_keep() {
    let mut state = MatchState::new();
    state.push_message(Message::text("a"));
    state.keep_message(0);
    state.forget_message(0);
    state.evict();
    assert_eq!(state.stored_len(), 0);
    assert_eq!(state.get_message(0), None);
}

#[test]
fn keeping_twice_needs_two_forgets() {
    let mut state = MatchState::new();
    state.push_message(Message::text("a"));
    state.keep_message(0);
    state.keep_message(0);
    state.forget_message(0);
    state.evict();
    assert!(state.get_message(0).is_some());
    state.forget_message(0);
    state.forget_message(0);
    state.evict();
    assert!(state.get_message(0).is_none());
}

#[test]
fn forgetting_an_unknown_index_changes_nothing() {
    let mut state = MatchState::new();
    state.push_message(Message::text("a"));
    state.keep_message(0);
    state.forget_message(7);
    state.evict();
    assert_eq!(state.stored_len(), 1);
    assert_eq!(state.len(), 1);
}

#[test]
fn eviction_keeps_only_kept_messages_in_order() {
    let mut state = MatchState::new();
    for text in ["a", "b", "c", "d"] {
        state.push_message(Message::text(text));
    }
    state.keep_message(1);
    state.keep_message(3);
    state.evict();
    assert_eq!(state.stored_len(), 2);
    assert_eq!(state.get_message(1), Some(&Message::Text("b".to_string())));
    assert_eq!(state.get_message(3), Some(&Message::Text("d".to_string())));
    assert_eq!(state.get_message(0), None);
    assert_eq!(state.last(), &Message::Text("d".to_string()));
    assert_eq!(state.len(), 4);
}
