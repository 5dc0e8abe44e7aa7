use wiremocket::errors::external::WebmocketErr;
use wiremocket::matchers::{
    path, CloseFrameReceivedMatcher, HeaderExactMatcher, HeaderExistsMatcher, PathExactMatcher,
    QueryParamContainsMatcher, QueryParamExactMatcher, QueryParamIsMissingMatcher, ValidJsonMatcher,
};
use wiremocket::match_state::MatchState;
use wiremocket::message::{CloseFrame, Message};
use axum::http::{HeaderMap, HeaderName, HeaderValue};
use wiremocket::request::{bytes_contain, text_equal, QueryParams};
use wiremocket::{can_consider, Match};

fn headers(pairs: &[(&str, &str)]) -> HeaderMap {
    let mut h = HeaderMap::new();
    for (name, value) in pairs {
        h.append(
            HeaderName::from_bytes(name.as_bytes()).unwrap(),
            HeaderValue::from_str(value).unwrap(),
        );
    }
    h
}

fn query(pairs: &[(&str, &str)]) -> QueryParams {
    let mut q = QueryParams::new();
    for (name, value) in pairs {
        q.insert(name.to_string(), value.to_string());
    }
    q
}

#[test]
fn consider_only_non_rejections() {
    assert!(can_consider(Some(true)));
    assert!(can_consider(None));
    assert!(!can_consider(Some(false)));
}

#[test]
fn path_matcher_compares_exactly() {
    let m = path("api/stream");
    let h = HeaderMap::new();
    let q = QueryParams::new();
    assert_eq!(m.request_match("api/stream", &h, &q), Some(true));
    assert_eq!(m.request_match("api/streams", &h, &q), Some(false));
    assert_eq!(m.request_match("", &h, &q), Some(false));
    let n = PathExactMatcher::new("");
    assert_eq!(n.request_match("", &h, &q), Some(true));
    assert_eq!(m.unary_match(&Message::text("api/stream")), None);
}

#[test]
fn header_exact_matcher_needs_every_value() {
    let m = HeaderExactMatcher::new("X-Test", vec!["a", "b"]);
    let q = QueryParams::new();
    assert_eq!(m.request_match("", &headers(&[("x-test", "a"), ("x-test", "b")]), &q), Some(true));
    assert_eq!(m.request_match("", &headers(&[("x-test", "b"), ("other", "x"), ("x-test", "a")]), &q), Some(true));
    assert_eq!(m.request_match("", &headers(&[("x-test", "a")]), &q), Some(false));
    assert_eq!(m.request_match("", &headers(&[("other", "a"), ("other", "b")]), &q), Some(false));
    assert_eq!(m.request_match("", &HeaderMap::new(), &q), Some(false));
}

#[test]
fn header_exact_matcher_refuses_invalid_input() {
    assert!(HeaderExactMatcher::try_new("bad name", vec!["a"]).is_none());
    assert!(HeaderExactMatcher::try_new("", vec!["a"]).is_none());
    assert!(HeaderExactMatcher::try_new("x-ok", vec!["line\nbreak"]).is_none());
    assert!(HeaderExactMatcher::try_new("x-ok", vec!["fine value\tok"]).is_some());
}

#[test]
fn header_exists_matcher() {
    let m = HeaderExistsMatcher::new("Authorization");
    let q = QueryParams::new();
    assert_eq!(m.request_match("", &headers(&[("authorization", "x")]), &q), Some(true));
    assert_eq!(m.request_match("", &headers(&[("accept", "x")]), &q), Some(false));
    assert!(HeaderExistsMatcher::try_new("no spaces allowed").is_none());
    assert!(HeaderExistsMatcher::try_new("x-custom").is_some());
}

#[test]
fn query_param_exact_matcher() {
    let m = QueryParamExactMatcher::new("lang", "en");
    let h = HeaderMap::new();
    assert_eq!(m.request_match("", &h, &query(&[("lang", "en")])), Some(true));
    assert_eq!(m.request_match("", &h, &query(&[("lang", "english")])), Some(false));
    assert_eq!(m.request_match("", &h, &query(&[])), Some(false));
}

#[test]
fn query_param_contains_matcher() {
    let m = QueryParamContainsMatcher::new("model", "large");
    let h = HeaderMap::new();
    assert_eq!(m.request_match("", &h, &query(&[("model", "whisper-large-v3")])), Some(true));
    assert_eq!(m.request_match("", &h, &query(&[("model", "small")])), Some(false));
    assert_eq!(m.request_match("", &h, &query(&[("other", "large")])), Some(false));
    let empty = QueryParamContainsMatcher::new("model", "");
    assert_eq!(empty.request_match("", &h, &query(&[("model", "")])), Some(true));
}

#[test]
fn query_param_missing_matcher() {
    let m = QueryParamIsMissingMatcher::new("debug");
    let h = HeaderMap::new();
    assert_eq!(m.request_match("", &h, &query(&[("other", "1")])), Some(true));
    assert_eq!(m.request_match("", &h, &query(&[("debug", "1")])), Some(false));
}

#[test]
fn query_insert_replaces_value() {
    let mut q = QueryParams::new();
    q.insert("a".to_string(), "1".to_string());
    q.insert("b".to_string(), "2".to_string());
    q.insert("a".to_string(), "3".to_string());
    assert_eq!(q.get("a"), Some(&"3".to_string()));
    assert_eq!(q.get("b"), Some(&"2".to_string()));
    assert_eq!(q.get("c"), None);
    assert!(q.contains_key("b"));
    assert!(!q.contains_key("c"));
}

#[test]
fn header_exact_matcher_sees_every_value_of_the_header() {
    let h = headers(&[("a", "1"), ("b", "2"), ("A", "3")]);
    let both = HeaderExactMatcher::new("a", vec!["3", "1"]);
    assert_eq!(both.request_match("", &h, &QueryParams::new()), Some(true));
    let missing = HeaderExactMatcher::new("a", vec!["1", "2"]);
    assert_eq!(missing.request_match("", &h, &QueryParams::new()), Some(false));
    let absent = HeaderExistsMatcher::new("c");
    assert_eq!(absent.request_match("", &h, &QueryParams::new()), Some(false));
}

#[test]
fn header_matchers_take_any_case() {
    let h = headers(&[("Sec-WebSocket-Protocol", "chat")]);
    let exists = HeaderExistsMatcher::new("SEC-WEBSOCKET-PROTOCOL");
    assert_eq!(exists.request_match("", &h, &QueryParams::new()), Some(true));
    let exact = HeaderExactMatcher::new("sec-websocket-protocol", vec!["chat"]);
    assert_eq!(exact.request_match("", &h, &QueryParams::new()), Some(true));
    let other = HeaderExactMatcher::new("sec-websocket-protocol", vec!["Chat"]);
    assert_eq!(other.request_match("", &h, &QueryParams::new()), Some(false));
}

#[test]
fn close_frame_matcher() {
    let m = CloseFrameReceivedMatcher;
    assert_eq!(m.unary_match(&Message::Close(None)), Some(true));
    let frame = CloseFrame { code: 1000, reason: "bye".to_string() };
    assert_eq!(m.unary_match(&Message::Close(Some(frame))), Some(true));
    assert_eq!(m.unary_match(&Message::text("close")), None);
    assert_eq!(m.unary_match(&Message::Ping(vec![])), None);
}

#[test]
fn valid_json_matcher() {
    let m = ValidJsonMatcher;
    assert_eq!(m.unary_match(&Message::text(r#"{"hello": "world"}"#)), Some(true));
    assert_eq!(m.unary_match(&Message::text("I'm not json")), Some(false));
    assert_eq!(m.unary_match(&Message::binary(br#"[1, 2, 3]"#.to_vec())), Some(true));
    assert_eq!(m.unary_match(&Message::binary(vec![0, 1, 2])), Some(false));
    assert_eq!(m.unary_match(&Message::Pong(vec![])), None);
}

#[test]
fn default_temporal_match_asks_about_last_message() {
    let mut state = MatchState::new();
    state.push_message(Message::text("{}"));
    state.push_message(Message::Close(None));
    assert_eq!(CloseFrameReceivedMatcher.temporal_match(&mut state), Some(true));
    assert_eq!(ValidJsonMatcher.temporal_match(&mut state), None);
    assert_eq!(state.len(), 2);
}

#[test]
fn closures_are_matchers() {
    let m = |msg: &Message| match msg {
        Message::Binary(_) => Some(true),
        _ => None,
    };
    assert_eq!(m.unary_match(&Message::binary(vec![1])), Some(true));
    assert_eq!(m.unary_match(&Message::text("x")), None);
}

#[test]
fn message_kinds() {
    assert!(Message::text("a").is_text());
    assert!(Message::binary(vec![]).is_binary());
    assert!(Message::Ping(vec![]).is_ping());
    assert!(Message::Pong(vec![]).is_pong());
    assert!(Message::Close(None).is_close());
    assert!(!Message::Close(None).is_text());
}

#[test]
fn byte_and_text_helpers() {
    assert!(bytes_contain(b"hello world", b"o w"));
    assert!(bytes_contain(b"abc", b""));
    assert!(!bytes_contain(b"ab", b"abc"));
    assert!(bytes_contain(b"abc", b"abc"));
    assert!(!bytes_contain(b"abc", b"abd"));
    assert!(text_equal("héllo", "héllo"));
    assert!(!text_equal("héllo", "hello"));
}

#[test]
fn error_boxes_its_cause() {
    let e = WebmocketErr(Box::new(()));
    assert_eq!(format!("{:?}", e), "WebmocketErr(())");
}
