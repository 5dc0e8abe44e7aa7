//! Re-exports every part of the public API for ease of use.
pub use crate::errors::external::WebmocketErr;
pub use crate::match_state::{default_doctest_state, MatchState};
pub use crate::matchers::{
    path, CloseFrameReceivedMatcher, HeaderExactMatcher, HeaderExistsMatcher, PathExactMatcher,
    QueryParamContainsMatcher, QueryParamExactMatcher, QueryParamIsMissingMatcher, ValidJsonMatcher,
};
pub use crate::message::{CloseFrame, Message};
pub use crate::mock::{all_mocks_pass, MatchStatus, Mock, MockBuilder, SilentResponder};
pub use crate::request::QueryParams;
pub use crate::session::{select_request, RequestSelection, Session};
pub use crate::utils::Times;
pub use crate::{can_consider, Match};
