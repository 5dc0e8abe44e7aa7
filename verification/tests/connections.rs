use wiremocket::match_state::MatchState;
use wiremocket::matchers::{path, CloseFrameReceivedMatcher, ValidJsonMatcher};
use wiremocket::message::Message;
use wiremocket::mock::{all_mocks_pass, Mock, SilentResponder};
use axum::http::HeaderMap;
use wiremocket::request::QueryParams;
use wiremocket::session::{select_request, Session};
use wiremocket::Match;

/// Runs one connection against the mocks the way the server does, and returns the mock that the
/// connection counted as a call of, if any.
fn connect(mocks: &mut Vec<Mock<SilentResponder>>, route: &str, messages: Vec<Message>) -> Option<usize> {
    let selection = select_request(mocks, route, &HeaderMap::new(), &QueryParams::new());
    let mut session = Session::new(selection, mocks.len());
    for message in messages {
        session.on_message(mocks, message);
    }
    if session.candidate_count() == 0 {
        return None;
    }
    let hit = session.finish(mocks);
    if let Some(index) = hit {
        mocks[index].register_hit();
    }
    hit
}

fn json_text(text: &str) -> Message {
    Message::text(text)
}

struct BinaryStreamMatcher;

impl Match for BinaryStreamMatcher {
    fn temporal_match(&self, match_state: &mut MatchState) -> Option<bool> {
        let json = ValidJsonMatcher;
        let len = match_state.len();
        let last = match_state.last();
        if len == 1 && json.unary_match(last).unwrap() {
            match_state.keep_message(0);
            Some(true)
        } else if last.is_binary() {
            // We won't keep any binary messages!
            if len > 1 && match_state.get_message(len - 2).is_none() {
                Some(true)
            } else {
                Some(false)
            }
        } else if last.is_close() {
            if len == 1 {
                None
            } else {
                let message = match_state.get_message(len - 2);
                if let Some(message) = message {
                    json.unary_match(message)
                } else {
                    Some(false)
                }
            }
        } else if last.is_text() {
            let res = json.unary_match(last);
            match_state.keep_message(len - 1);
            res
        } else {
            None
        }
    }
}

fn binary_stream_mock() -> Mock<SilentResponder> {
    Mock::given(path("api/binary_stream"))
        .add_matcher(BinaryStreamMatcher)
        .add_matcher(CloseFrameReceivedMatcher)
        .expect(1..)
}

#[test]
fn only_json_matcher() {
    let mut mocks = vec![Mock::given(ValidJsonMatcher).expect(1..)];
    let hit = connect(
        &mut mocks,
        "",
        vec![json_text(r#"{"hello":"world"}"#), Message::binary(br#"{"hello":"world"}"#.to_vec())],
    );
    assert_eq!(hit, Some(0));
    assert!(all_mocks_pass(&mocks));
}

#[test]
#[should_panic]
fn deny_invalid_json() {
    let mut mocks = vec![Mock::given(ValidJsonMatcher).expect(1)];
    connect(&mut mocks, "", vec![Message::text("I'm not json")]);
    assert!(all_mocks_pass(&mocks));
}

#[test]
fn match_path() {
    let mut mocks = vec![Mock::given(path("api/stream")).expect(1..)];
    assert_eq!(connect(&mut mocks, "api/stream", vec![]), Some(0));
    assert!(all_mocks_pass(&mocks));
}

#[test]
fn wrong_path_is_not_a_call() {
    let mut mocks = vec![Mock::given(path("api/stream")).expect(1..)];
    assert_eq!(connect(&mut mocks, "api/other", vec![]), None);
    assert!(!all_mocks_pass(&mocks));
}

#[test]
fn binary_stream_matcher_passes() {
    let mut mocks = vec![binary_stream_mock()];
    let hit = connect(
        &mut mocks,
        "api/binary_stream",
        vec![json_text(r#"{"command":"start"}"#), json_text(r#"{"command":"stop"}"#), Message::Close(None)],
    );
    assert_eq!(hit, Some(0));
    assert!(all_mocks_pass(&mocks));

    let data: Vec<u8> = vec![0, 1, 2, 3, 4, 5, 6, 7, 8, 1, 2, 3, 4, 5, 6, 7];
    connect(
        &mut mocks,
        "api/binary_stream",
        vec![
            json_text(r#"{"command":"start"}"#),
            Message::Binary(data),
            json_text(r#"{"command":"stop"}"#),
            Message::Close(None),
        ],
    );
    assert!(all_mocks_pass(&mocks));
}

#[test]
fn binary_stream_matcher_fails() {
    let mut mocks = vec![binary_stream_mock()];
    let data: Vec<u8> = vec![0, 1, 2, 3, 4, 5, 6, 7, 8, 1, 2, 3, 4, 5, 6, 7];

    // no start message
    connect(
        &mut mocks,
        "api/binary_stream",
        vec![Message::Binary(data.clone()), json_text(r#"{"command":"stop"}"#), Message::Close(None)],
    );
    assert!(!all_mocks_pass(&mocks));

    // no end message
    connect(
        &mut mocks,
        "api/binary_stream",
        vec![json_text(r#"{"command":"start"}"#), Message::Binary(data.clone()), Message::Close(None)],
    );
    assert!(!all_mocks_pass(&mocks));

    // no close
    connect(
        &mut mocks,
        "api/binary_stream",
        vec![json_text(r#"{"command":"start"}"#), Message::Binary(data), json_text(r#"{"command":"stop"}"#)],
    );
    assert!(!all_mocks_pass(&mocks));
}

struct DefaultMatcher;

impl Match for DefaultMatcher {}

#[test]
fn default_matcher_wont_pass() {
    let mut mocks = vec![Mock::given(DefaultMatcher).expect(1..)];
    let hit = connect(
        &mut mocks,
        "",
        vec![Message::text("hello"), Message::text(r#"{"json": true}"#), Message::Close(None)],
    );
    assert_eq!(hit, None);
    assert!(!all_mocks_pass(&mocks));
}

#[test]
fn mock_overloading_match() {
    let mut mocks = vec![
        Mock::given(|msg: &Message| match msg {
            Message::Binary(_) => Some(true),
            Message::Ping(_) | Message::Pong(_) | Message::Close(_) => None,
            _ => Some(false),
        })
        .add_matcher(CloseFrameReceivedMatcher)
        .expect(0),
        Mock::given(|msg: &Message| match msg {
            Message::Text(_) => Some(true),
            Message::Ping(_) | Message::Pong(_) | Message::Close(_) => None,
            _ => Some(false),
        })
        .add_matcher(CloseFrameReceivedMatcher)
        .expect(1),
    ];
    let hit = connect(
        &mut mocks,
        "",
        vec![json_text(r#"{"command":"stop"}"#), Message::text("hello world"), Message::Close(None)],
    );
    assert_eq!(hit, Some(1));
    assert!(all_mocks_pass(&mocks));
}

#[test]
fn can_connect_without_mocks() {
    let mut mocks: Vec<Mock<SilentResponder>> = vec![];
    assert_eq!(connect(&mut mocks, "", vec![Message::text("hi")]), None);
    assert!(all_mocks_pass(&mocks));
}

#[test]
fn responder_starts_once_for_the_chosen_mock() {
    let mocks = vec![
        Mock::given(|msg: &Message| if msg.is_binary() { Some(true) } else { None }).expect(..),
        Mock::given(|msg: &Message| if msg.is_text() { Some(true) } else { None }).expect(..),
    ];
    let selection = select_request(&mocks, "", &HeaderMap::new(), &QueryParams::new());
    assert_eq!(selection.active, vec![0, 1]);
    let mut session = Session::new(selection, mocks.len());
    assert_eq!(session.initial_responder(), None);
    assert_eq!(session.on_message(&mocks, Message::text("x")), Some(1));
    assert_eq!(session.candidate_count(), 1);
    assert_eq!(session.on_message(&mocks, Message::binary(vec![1])), None);
    assert_eq!(session.on_message(&mocks, Message::text("y")), None);
    assert_eq!(session.finish(&mocks), Some(1));
}

#[test]
fn rejection_after_selection_prevents_the_call() {
    let mocks = vec![Mock::given(path("p"))
        .add_matcher(|msg: &Message| if msg.is_text() { Some(true) } else { Some(false) })
        .expect(1)];
    let selection = select_request(&mocks, "p", &HeaderMap::new(), &QueryParams::new());
    assert_eq!(selection.active, vec![0]);
    assert_eq!(selection.mask, 1);
    let mut session = Session::new(selection, mocks.len());
    assert_eq!(session.initial_responder(), Some(0));
    session.on_message(&mocks, Message::text("ok"));
    session.on_message(&mocks, Message::binary(vec![]));
    assert_eq!(session.finish(&mocks), None);
}

#[test]
fn fallback_picks_the_highest_priority_potential_mock() {
    let mocks = vec![
        Mock::given(|_: &Message| None).with_priority(7).expect(..),
        Mock::given(|_: &Message| None).with_priority(3).expect(..),
        Mock::given(|_: &Message| None).with_priority(3).expect(..),
    ];
    let selection = select_request(&mocks, "", &HeaderMap::new(), &QueryParams::new());
    let mut session = Session::new(selection, mocks.len());
    assert_eq!(session.on_message(&mocks, Message::text("x")), Some(1));
}

#[test]
fn candidates_beyond_the_known_mocks_are_dropped() {
    let mocks = vec![Mock::given(|_: &Message| None).expect(..)];
    let selection = wiremocket::session::RequestSelection { active: vec![0, 4], mask: 0 };
    let session = Session::new(selection, mocks.len());
    assert_eq!(session.candidate_count(), 1);
    assert_eq!(session.initial_responder(), Some(0));
}

#[test]
fn named_mock_keeps_its_settings() {
    let mut mock = Mock::given(path("x")).named("my mock").with_priority(2).expect(3);
    assert_eq!(mock.get_name(), Some(&"my mock".to_string()));
    assert_eq!(mock.get_priority(), 2);
    assert_eq!(mock.count_matchers(), 1);
    assert_eq!(mock.get_calls(), 0);
    assert!(!mock.verify());
    mock.register_hit();
    mock.register_hit();
    mock.register_hit();
    assert_eq!(mock.get_calls(), 3);
    assert!(mock.verify());
    assert_eq!(mock.expected_calls().describe(), "== 3");
    let (swapped, old) = mock.replace_responder(5u8);
    assert!(matches!(old, SilentResponder));
    assert_eq!(*swapped.get_responder(), 5u8);
    assert_eq!(swapped.get_calls(), 3);
}
