//! Mocking of websocket servers for black-box testing: the matching rules, the decisions taken
//! on each connection, and the call expectations that a test verifies at its end.
use crate::match_state::same_messages;
use axum::http::HeaderMap;
use vstd::prelude::*;

pub mod errors;
pub mod match_state;
pub mod matchers;
pub mod message;
pub mod mock;
pub mod prelude;
pub mod request;
pub mod session;
pub mod utils;

pub use crate::match_state::{default_doctest_state, MatchState};
pub use crate::matchers::{
    path, CloseFrameReceivedMatcher, HeaderExactMatcher, HeaderExistsMatcher, PathExactMatcher,
    QueryParamContainsMatcher, QueryParamExactMatcher, QueryParamIsMissingMatcher, ValidJsonMatcher,
};
pub use crate::message::{CloseFrame, Message};
pub use crate::mock::{all_mocks_pass, MatchStatus, Mock, MockBuilder, SilentResponder};
pub use crate::request::QueryParams;
pub use crate::session::{select_request, RequestSelection, Session};
pub use crate::utils::Times;

verus! {

/// A matcher's answer counts towards a match unless it is an outright rejection.
pub open spec fn considered(v: Option<bool>) -> bool {
    v != Some(false)
}

/// Whether a matcher's answer leaves the request in consideration.
pub fn can_consider(match_res: Option<bool>) -> (r: bool)
    ensures
        r == considered(match_res),
{
    matches!(match_res, Some(true) | None)
}

/// Anything that implements `Match` can be used to constrain when a [`Mock`] is activated.
///
/// There are 3 domains where a request can be matched:
///
/// 1. At the initial request - headers, URL, query parameters
/// 2. A single websocket message in isolation
/// 3. Behaviour over the stream of messages
///
/// A `Match` that does not apply to a domain answers `None` there. `Some(true)` is recorded as
/// part of the request state; every matcher of a [`Mock`] has to answer it at least once during
/// a connection for the connection to count as a call of the mock.
///
/// [`Match::temporal_match`] is called after each received message; [`MatchState::last`] is
/// that message. By default it asks [`Match::unary_match`] about it. A matcher that needs an
/// older message on a later call keeps it with [`MatchState::keep_message`] and releases it with
/// [`MatchState::forget_message`].
///
/// An implementation states which answers its methods give through
/// [`Match::admits_request_answer`], [`Match::admits_message_answer`] and
/// [`Match::admits_stream_answer`]; what the library decides about a mock is stated over those
/// answers. The default methods answer `None` and are checked once for every implementation, so
/// their contract cannot speak of what an implementation overrides: to a caller, `None` is always
/// a possible answer.
pub trait Match: Send + Sync {
    /// The answers other than `None` that [`Match::request_match`] may give to a request. An
    /// implementation that answers requests states them here; the default admits any answer.
    #[allow(unused_variables)]
    open spec fn admits_request_answer(
        &self,
        path: Seq<char>,
        headers: HeaderMap,
        query: QueryParams,
        answer: Option<bool>,
    ) -> bool {
        true
    }

    /// The answers other than `None` that [`Match::unary_match`] may give to a message. An
    /// implementation that judges messages states them here; the default admits any answer.
    #[allow(unused_variables)]
    open spec fn admits_message_answer(&self, message: Message, answer: Option<bool>) -> bool {
        true
    }

    /// The answers other than `None` that [`Match::temporal_match`] may give, together with the
    /// state it leaves behind, when it overrides the default. The default admits any.
    #[allow(unused_variables)]
    open spec fn admits_stream_answer(&self, before: MatchState, after: MatchState, answer: Option<bool>) -> bool {
        true
    }

    /// Check parameters available at connection initiation.
    #[allow(unused_variables)]
    fn request_match(&self, path: &str, headers: &HeaderMap, query: &QueryParams) -> (r: Option<bool>)
        ensures
            r is None || self.admits_request_answer(path@, *headers, *query, r),
        default_ensures
            r is None,
    {
        None
    }

    /// Check single websocket messages in isolation.
    #[allow(unused_variables)]
    fn unary_match(&self, message: &Message) -> (r: Option<bool>)
        ensures
            r is None || self.admits_message_answer(*message, r),
        default_ensures
            r is None,
    {
        None
    }

    /// Check properties over multiple messages.
    fn temporal_match(&self, match_state: &mut MatchState) -> (r: Option<bool>)
        requires
            old(match_state).entries().len() > 0,
        ensures
            same_messages(&*final(match_state), &*old(match_state)),
            r is None || self.admits_stream_answer(*old(match_state), *final(match_state), r) || (
            *final(match_state) == *old(match_state) && self.admits_message_answer(
                old(match_state).entries().last().1,
                r,
            )),
        default_ensures
            call_ensures(Self::unary_match, (self, &old(match_state).entries().last().1), r),
            *final(match_state) == *old(match_state),
    {
        let r = self.unary_match(match_state.last());
        r
    }
}

/// Calls a matching closure supplied by the library's user on one message. Where the closure's
/// own precondition holds of the message, its answer is one that the closure's postcondition
/// admits; a closure called outside its precondition is promised nothing.
#[verifier::external_body]
fn call_message_closure<F: Fn(&Message) -> Option<bool>>(f: &F, message: &Message) -> (r: Option<bool>)
    ensures
        call_requires(*f, (message,)) ==> call_ensures(*f, (message,), r),
{
    f(message)
}

impl<F> Match for F where F: Fn(&Message) -> Option<bool>, F: Send + Sync {
    open spec fn admits_message_answer(&self, message: Message, answer: Option<bool>) -> bool {
        call_requires(*self, (&message,)) ==> call_ensures(*self, (&message,), answer)
    }

    fn unary_match(&self, msg: &Message) -> (r: Option<bool>)
        ensures
            call_requires(*self, (msg,)) ==> call_ensures(*self, (msg,), r),
    {
        call_message_closure(self, msg)
    }
}

} // verus!
