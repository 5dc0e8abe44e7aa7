use wiremocket::matchers::path;
use wiremocket::mock::{MatchStatus, Mock};
use wiremocket::session::{best_candidate, choose_for_request, first_min};

#[test]
fn outcome_classification() {
    let mock = Mock::given(path("x")).expect(..);
    assert_eq!(mock.check_matcher_responses(&[Some(true), Some(true)]), (MatchStatus::Full, 0b11));
    assert_eq!(mock.check_matcher_responses(&[None, Some(true), None]), (MatchStatus::Partial, 0b010));
    assert_eq!(mock.check_matcher_responses(&[None, None]), (MatchStatus::Potential, 0));
    assert_eq!(mock.check_matcher_responses(&[Some(true), Some(false)]), (MatchStatus::Mismatch, 0));
    assert_eq!(mock.check_matcher_responses(&[]), (MatchStatus::Potential, 0));
    let mut many = vec![None; 64];
    many[63] = Some(true);
    assert_eq!(mock.check_matcher_responses(&many), (MatchStatus::Partial, 1u64 << 63));
}

#[test]
fn expected_mask_has_one_bit_per_matcher() {
    let one = Mock::given(path("x")).expect(..);
    assert_eq!(one.expected_mask(), 1);
    let mut builder = Mock::given(path("x"));
    for _ in 0..63 {
        builder = builder.add_matcher(path("y"));
    }
    let full = builder.expect(..);
    assert_eq!(full.count_matchers(), 64);
    assert_eq!(full.expected_mask(), u64::MAX);
}

#[test]
fn status_levels() {
    assert_eq!(MatchStatus::Mismatch.level(), 0);
    assert_eq!(MatchStatus::Potential.level(), 1);
    assert_eq!(MatchStatus::Partial.level(), 2);
    assert_eq!(MatchStatus::Full.level(), 3);
}

#[test]
fn precedence_prefers_status_then_priority_then_registration() {
    let outcomes = vec![
        (MatchStatus::Partial, 1),
        (MatchStatus::Full, 2),
        (MatchStatus::Full, 3),
        (MatchStatus::Full, 4),
    ];
    assert_eq!(best_candidate(&outcomes, &vec![1, 5, 4, 4]), Some(2));
    assert_eq!(best_candidate(&outcomes, &vec![1, 4, 4, 4]), Some(1));
    let none = vec![(MatchStatus::Potential, 0), (MatchStatus::Mismatch, 0)];
    assert_eq!(best_candidate(&none, &vec![1, 1]), None);
}

#[test]
fn first_minimum() {
    assert_eq!(first_min(&vec![5, 3, 3, 9]), Some(1));
    assert_eq!(first_min(&vec![255]), Some(0));
    assert_eq!(first_min(&vec![]), None);
}

#[test]
fn request_choice() {
    let outcomes = vec![(MatchStatus::Potential, 0), (MatchStatus::Mismatch, 0), (MatchStatus::Potential, 0)];
    let r = choose_for_request(&outcomes, &vec![5, 5, 5]);
    assert_eq!(r.active, vec![0, 2]);
    assert_eq!(r.mask, 0);
    let outcomes = vec![(MatchStatus::Potential, 0), (MatchStatus::Partial, 0b10), (MatchStatus::Partial, 0b01)];
    let r = choose_for_request(&outcomes, &vec![5, 5, 1]);
    assert_eq!(r.active, vec![2]);
    assert_eq!(r.mask, 0b01);
}

#[test]
fn given_uses_the_matcher_passed_in() {
    let q = wiremocket::request::QueryParams::new();
    let h = axum::http::HeaderMap::new();
    let mock = Mock::given(path("a")).expect(1u64);
    assert_eq!(mock.check_request("a", &h, &q), (MatchStatus::Full, 0b1));
    assert_eq!(mock.check_request("b", &h, &q), (MatchStatus::Mismatch, 0));
    assert!(!mock.verify());
}

#[test]
fn added_matchers_come_after_the_first() {
    let q = wiremocket::request::QueryParams::new();
    let h = axum::http::HeaderMap::new();
    let mock = Mock::given(path("a"))
        .add_matcher(wiremocket::matchers::CloseFrameReceivedMatcher)
        .add_matcher(path("a"))
        .expect(0u64);
    assert_eq!(mock.count_matchers(), 3);
    assert_eq!(mock.check_request("a", &h, &q), (MatchStatus::Partial, 0b101));
    assert_eq!(mock.expected_mask(), 0b111);
    assert!(mock.verify());
}

#[test]
fn expectations_decide_which_mocks_pass() {
    let mocks = vec![
        Mock::given(path("a")).expect(0u64),
        Mock::given(path("b")).expect(1u64),
        Mock::given(path("c")).expect(0u64..),
    ];
    assert!(mocks[0].verify());
    assert!(!mocks[1].verify());
    assert!(mocks[2].verify());
    assert!(!wiremocket::mock::all_mocks_pass(&mocks));
}

#[test]
fn builders_hold_at_most_sixty_four_matchers() {
    let mut b = Mock::given(path("a"));
    assert_eq!(b.count_matchers(), 1);
    for _ in 1..64 {
        b = match b.try_add_matcher(path("a")) {
            Ok(b) => b,
            Err(_) => panic!("a builder below the limit refused a matcher"),
        };
    }
    assert_eq!(b.count_matchers(), 64);
    let b = match b.try_add_matcher(path("b")) {
        Ok(_) => panic!("a full builder took a matcher"),
        Err(b) => b,
    };
    assert_eq!(b.count_matchers(), 64);
    assert_eq!(b.expect(..).expected_mask(), u64::MAX);
}
