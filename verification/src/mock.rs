//! Mocks: the matchers a connection has to satisfy, the responder that answers it, and how
//! often a test expects it to be called.
use crate::match_state::{same_messages, MatchState};
use crate::message::Message;
use crate::request::QueryParams;
use axum::http::HeaderMap;
use crate::utils::Times;
use crate::Match;
use vstd::prelude::*;

verus! {

/// Whether bit `i` of `mask` is set.
pub open spec fn has_bit(mask: u64, i: u64) -> bool {
    (mask >> i) & 1u64 == 1u64
}

/// The mask with exactly the lowest `n` bits set.
pub open spec fn full_mask(n: u64) -> u64 {
    u64::MAX >> ((64 - n) as u64)
}

/// The mask with bit `i` set exactly where matcher `i` answered `Some(true)`.
pub open spec fn true_bits(values: Seq<Option<bool>>) -> u64
    decreases values.len(),
{
    if values.len() == 0 {
        0
    } else {
        let rest = true_bits(values.drop_last());
        if values.last() == Some(true) {
            rest | (1u64 << ((values.len() - 1) as u64))
        } else {
            rest
        }
    }
}

/// How the matchers of a mock, taken together, judge a request or a message.
#[derive(Clone, Copy, Debug, PartialEq, Eq, Structural, PartialOrd, Ord, Hash)]
pub enum MatchStatus {
    /// One or more matchers return Some(false)
    Mismatch,
    /// All matchers return None
    Potential,
    /// Some matchers return Some(true) some None
    Partial,
    /// Every matcher returns Some(true)
    Full,
}

impl MatchStatus {
    /// The order of completeness: a mismatch ranks lowest, a full match highest.
    pub open spec fn rank(self) -> int {
        match self {
            MatchStatus::Mismatch => 0,
            MatchStatus::Potential => 1,
            MatchStatus::Partial => 2,
            MatchStatus::Full => 3,
        }
    }

    /// The rank of this status.
    pub fn level(&self) -> (r: u8)
        ensures
            r == self.rank(),
    {
        match self {
            MatchStatus::Mismatch => 0,
            MatchStatus::Potential => 1,
            MatchStatus::Partial => 2,
            MatchStatus::Full => 3,
        }
    }
}

/// The status that the matchers' answers `values` give.
pub open spec fn status_of(values: Seq<Option<bool>>) -> MatchStatus {
    if exists|i: int| 0 <= i < values.len() && values[i] == Some(false) {
        MatchStatus::Mismatch
    } else if !exists|i: int| 0 <= i < values.len() && values[i] == Some(true) {
        MatchStatus::Potential
    } else if exists|i: int| 0 <= i < values.len() && values[i] is None {
        MatchStatus::Partial
    } else {
        MatchStatus::Full
    }
}

/// The status and the mask of matchers that answered `Some(true)`; the mask is empty unless
/// the status is a partial or a full match.
pub open spec fn outcome_of(values: Seq<Option<bool>>) -> (MatchStatus, u64) {
    let status = status_of(values);
    (
        status,
        if status == MatchStatus::Partial || status == MatchStatus::Full {
            true_bits(values)
        } else {
            0
        },
    )
}

/// `answer` is one that `matcher` may give to the request: `None`, or an answer the matcher
/// admits.
pub open spec fn request_answer_allowed(
    matcher: Box<dyn Match>,
    path: Seq<char>,
    headers: HeaderMap,
    query: QueryParams,
    answer: Option<bool>,
) -> bool {
    answer is None || matcher.admits_request_answer(path, headers, query, answer)
}

/// `values` holds one answer per matcher, each one that matcher may give to the request.
pub open spec fn request_answers(
    matchers: Seq<Box<dyn Match>>,
    path: Seq<char>,
    headers: HeaderMap,
    query: QueryParams,
    values: Seq<Option<bool>>,
) -> bool {
    &&& values.len() == matchers.len()
    &&& forall|i: int|
        0 <= i < values.len() ==> request_answer_allowed(matchers[i], path, headers, query, #[trigger] values[i])
}

/// `answer` is one that `matcher` may give about the stream held in `before`, leaving `after`:
/// `None`, an answer its stream judgement admits, or, with the state untouched, an answer it
/// admits for the last message alone.
pub open spec fn stream_answer_allowed(matcher: Box<dyn Match>, before: MatchState, after: MatchState, answer: Option<bool>) -> bool {
    ||| answer is None
    ||| matcher.admits_stream_answer(before, after, answer)
    ||| after == before && matcher.admits_message_answer(before.entries().last().1, answer)
}

/// `values` holds one answer per matcher, matcher `i` judging the state `states[i]` and leaving
/// `states[i + 1]`.
pub open spec fn stream_answers(matchers: Seq<Box<dyn Match>>, states: Seq<MatchState>, values: Seq<Option<bool>>) -> bool {
    &&& values.len() == matchers.len()
    &&& states.len() == values.len() + 1
    &&& forall|i: int|
        0 <= i < values.len() ==> stream_answer_allowed(matchers[i], states[i], states[i + 1], #[trigger] values[i])
}

/// `boxed` judges as `matcher` does: it admits the same answers.
pub open spec fn answers_like<M: Match>(boxed: Box<dyn Match>, matcher: M) -> bool {
    &&& forall|p: Seq<char>, h: HeaderMap, q: QueryParams, a: Option<bool>|
        boxed.admits_request_answer(p, h, q, a) == #[trigger] matcher.admits_request_answer(p, h, q, a)
    &&& forall|m: Message, a: Option<bool>|
        boxed.admits_message_answer(m, a) == #[trigger] matcher.admits_message_answer(m, a)
    &&& forall|before: MatchState, after: MatchState, a: Option<bool>|
        boxed.admits_stream_answer(before, after, a) == #[trigger] matcher.admits_stream_answer(before, after, a)
}

/// The responder a mock starts with: it never sends a message but keeps the stream open.
#[derive(Clone, Copy, Debug)]
pub struct SilentResponder;

/// Specify things like the routes this responds to i.e. `/api/ws-stream` query parameters, and
/// behaviour it should exhibit in terms of source/sink messages.
///
/// # Mock precedence
///
/// Matching has four states:
///
/// 1. Mismatch: One or more matchers is false
/// 2. Potential: No matchers match but none have rejected the request
/// 3. Partial: Some matchers match the request
/// 4. Full: All matchers match the request - this is unambiguous
///
/// If a mock is in state 3 or 4 at the request point the one with the most complete status and
/// then the highest priority is picked. Otherwise, the potential mocks are checked against each
/// message until one reaches state 3 or higher.
///
/// For the `Mock` to pass then all of the matchers added will have to have evaluated as
/// `Some(true)` at least once. If any return `Some(false)` after the `Mock` has been selected then
/// the call won't be registered but no other failure will occur.
pub struct Mock<R> {
    matcher: Vec<Box<dyn Match>>,
    responder: R,
    expected_calls: Times,
    calls: u64,
    name: Option<String>,
    priority: u8,
}

/// A fluent builder to construct a [`Mock`] instance given matchers and a responder.
pub struct MockBuilder<R> {
    matcher: Vec<Box<dyn Match>>,
    responder: R,
    name: Option<String>,
    priority: u8,
}

impl<R> Mock<R> {
    #[verifier::type_invariant]
    closed spec fn well_formed(self) -> bool {
        &&& 1 <= self.matcher@.len() <= 64
        &&& self.priority >= 1
    }

    /// The matchers, in the order they were added.
    pub closed spec fn matchers(self) -> Seq<Box<dyn Match>> {
        self.matcher@
    }

    /// The number of matchers.
    pub open spec fn matcher_count(self) -> nat {
        self.matchers().len()
    }

    /// The priority: `1` is the highest, `255` the lowest.
    pub closed spec fn priority(self) -> u8 {
        self.priority
    }

    /// How many connections counted as calls of this mock.
    pub closed spec fn calls(self) -> u64 {
        self.calls
    }

    /// How many calls the test expects.
    pub closed spec fn expected(self) -> Times {
        self.expected_calls
    }

    /// The name given to the mock.
    pub closed spec fn name(self) -> Option<Seq<char>> {
        match self.name {
            Some(n) => Some(n@),
            None => None,
        }
    }

    /// What answers a connection once this mock is active.
    pub closed spec fn responder(self) -> R {
        self.responder
    }

    /// The number of matchers; a mock keeps between one and 64 of them.
    pub fn count_matchers(&self) -> (n: usize)
        ensures
            n == self.matcher_count(),
            1 <= n <= 64,
    {
        proof {
            use_type_invariant(self);
        }
        self.matcher.len()
    }

    /// The priority; it is at least 1.
    pub fn get_priority(&self) -> (p: u8)
        ensures
            p == self.priority(),
            p >= 1,
    {
        proof {
            use_type_invariant(self);
        }
        self.priority
    }

    /// How many connections counted as calls of this mock.
    pub fn get_calls(&self) -> (n: u64)
        ensures
            n == self.calls(),
    {
        self.calls
    }

    /// The expected number of calls.
    pub fn expected_calls(&self) -> (t: &Times)
        ensures
            *t == self.expected(),
    {
        &self.expected_calls
    }

    /// The name given to the mock, if any.
    pub fn get_name(&self) -> (n: Option<&String>)
        ensures
            n matches Some(s) ==> self.name() == Some(s@),
            n is None ==> self.name() is None,
    {
        match &self.name {
            Some(s) => Some(s),
            None => None,
        }
    }

    /// What answers a connection once this mock is active.
    pub fn get_responder(&self) -> (r: &R)
        ensures
            *r == self.responder(),
    {
        &self.responder
    }

    /// Whether the number of calls this mock counted meets the expectation. A mock keeps its
    /// own count: the server counts calls on the mocks it holds, and verifies those.
    pub fn verify(&self) -> (r: bool)
        ensures
            r == self.expected().admits(self.calls()),
    {
        self.expected_calls.contains(self.calls)
    }

    /// Classifies the matchers' answers `values`: the overall status and the mask of matchers
    /// that answered `Some(true)`.
    pub fn check_matcher_responses(&self, values: &[Option<bool>]) -> (r: (MatchStatus, u64))
        requires
            values@.len() <= 64,
        ensures
            r == outcome_of(values@),
    {
        let n = values.len();
        let mut all_considered = true;
        let mut contains_true = false;
        let mut contains_none = false;
        let mut i: usize = 0;
        while i < n
            invariant
                n == values@.len(),
                i <= n,
                all_considered == forall|j: int| 0 <= j < i ==> values@[j] != Some(false),
                contains_true == exists|j: int| 0 <= j < i && values@[j] == Some(true),
                contains_none == exists|j: int| 0 <= j < i && values@[j] is None,
            decreases n - i,
        {
            match values[i] {
                Some(true) => {
                    contains_true = true;
                },
                Some(false) => {
                    all_considered = false;
                },
                None => {
                    contains_none = true;
                },
            }
            i = i + 1;
        }
        if all_considered {
            if contains_true {
                let mut current_mask = 0u64;
                let mut k: usize = 0;
                while k < n
                    invariant
                        n == values@.len(),
                        n <= 64,
                        k <= n,
                        current_mask == true_bits(values@.take(k as int)),
                    decreases n - k,
                {
                    proof {
                        assert(values@.take(k + 1).drop_last() =~= values@.take(k as int));
                        assert(values@.take(k + 1).last() == values@[k as int]);
                    }
                    if values[k] == Some(true) {
                        current_mask = current_mask | (1u64 << (k as u64));
                    }
                    k = k + 1;
                }
                proof {
                    assert(values@.take(n as int) =~= values@);
                }
                if !contains_none {
                    (MatchStatus::Full, current_mask)
                } else {
                    (MatchStatus::Partial, current_mask)
                }
            } else {
                (MatchStatus::Potential, 0)
            }
        } else {
            (MatchStatus::Mismatch, 0)
        }
    }

    /// The mask that every matcher answering `Some(true)` at least once produces.
    pub fn expected_mask(&self) -> (m: u64)
        ensures
            m == full_mask(self.matcher_count() as u64),
            1 <= self.matcher_count() <= 64,
    {
        proof {
            use_type_invariant(self);
        }
        u64::MAX >> (64 - self.matcher.len() as u64)
    }

    /// Counts one more call of this mock (wrapping around at `u64::MAX`, as an atomic counter
    /// does).
    pub fn register_hit(&mut self)
        ensures
            final(self).calls() == (if old(self).calls() == u64::MAX { 0 } else { (old(self).calls() + 1) as u64 }),
            final(self).matchers() == old(self).matchers(),
            final(self).priority() == old(self).priority(),
            final(self).expected() == old(self).expected(),
            final(self).name() == old(self).name(),
            final(self).responder() == old(self).responder(),
    {
        proof {
            use_type_invariant(&*self);
        }
        let calls = if self.calls == u64::MAX { 0 } else { self.calls + 1 };
        self.calls = calls;
    }

    /// Asks every matcher, in order, about the initial request, and classifies their answers.
    pub fn check_request(&self, path: &str, headers: &HeaderMap, params: &QueryParams) -> (r: (MatchStatus, u64))
        ensures
            exists|values: Seq<Option<bool>>|
                request_answers(self.matchers(), path@, *headers, *params, values) && r == outcome_of(values),
    {
        proof {
            use_type_invariant(self);
        }
        let mut values: Vec<Option<bool>> = Vec::new();
        let mut i: usize = 0;
        while i < self.matcher.len()
            invariant
                i <= self.matcher@.len(),
                self.matcher@.len() <= 64,
                values@.len() == i,
                forall|j: int|
                    0 <= j < i ==> request_answer_allowed(self.matcher@[j], path@, *headers, *params, #[trigger] values@[j]),
            decreases self.matcher@.len() - i,
        {
            let v = self.matcher[i].request_match(path, headers, params);
            values.push(v);
            i = i + 1;
        }
        proof {
            assert(request_answers(self.matchers(), path@, *headers, *params, values@));
        }
        self.check_matcher_responses(values.as_slice())
    }

    /// Asks every matcher, in order, about the message stream after a message arrived, each
    /// matcher seeing the state the one before it left, and classifies their answers.
    pub fn check_message(&self, state: &mut MatchState) -> (r: (MatchStatus, u64))
        requires
            old(state).entries().len() > 0,
        ensures
            same_messages(&*final(state), &*old(state)),
            exists|values: Seq<Option<bool>>, states: Seq<MatchState>|
                {
                    &&& stream_answers(self.matchers(), states, values)
                    &&& states[0] == *old(state)
                    &&& states.last() == *final(state)
                    &&& r == outcome_of(values)
                },
    {
        proof {
            use_type_invariant(self);
        }
        let mut values: Vec<Option<bool>> = Vec::new();
        let ghost mut states: Seq<MatchState> = seq![*state];
        let mut i: usize = 0;
        while i < self.matcher.len()
            invariant
                i <= self.matcher@.len(),
                self.matcher@.len() <= 64,
                values@.len() == i,
                states.len() == i + 1,
                states[0] == *old(state),
                states[i as int] == *state,
                forall|j: int|
                    0 <= j < i ==> stream_answer_allowed(self.matcher@[j], states[j], states[j + 1], #[trigger] values@[j]),
                same_messages(&*state, &*old(state)),
                state.entries().len() > 0,
            decreases self.matcher@.len() - i,
        {
            let v = self.matcher[i].temporal_match(state);
            values.push(v);
            proof {
                states = states.push(*state);
            }
            i = i + 1;
        }
        proof {
            assert(stream_answers(self.matchers(), states, values@));
        }
        self.check_matcher_responses(values.as_slice())
    }

    /// Hands the responder over and puts `responder` in its place; everything else is kept.
    pub fn replace_responder<S>(self, responder: S) -> (r: (Mock<S>, R))
        ensures
            r.0.responder() == responder,
            r.1 == self.responder(),
            r.0.matchers() == self.matchers(),
            r.0.priority() == self.priority(),
            r.0.calls() == self.calls(),
            r.0.expected() == self.expected(),
            r.0.name() == self.name(),
    {
        proof {
            use_type_invariant(&self);
        }
        let Mock { matcher, responder: old_responder, expected_calls, calls, name, priority } = self;
        (Mock { matcher, responder, expected_calls, calls, name, priority }, old_responder)
    }
}

impl Mock<SilentResponder> {
    /// Start building a [`Mock`] specifying the first matcher. The mock answers with the
    /// [`SilentResponder`], at priority 5 and without a name, until told otherwise.
    pub fn given<M: Match + 'static>(matcher: M) -> (b: MockBuilder<SilentResponder>)
        ensures
            ({
                let first: Box<dyn Match> = Box::new(matcher);
                b.matchers() == Seq::<Box<dyn Match>>::empty().push(first)
            }),
            b.matcher_count() == 1,
            answers_like(b.matchers()[0], matcher),
            b.priority() == 5,
            b.name() is None,
    {
        let first: Box<dyn Match> = Box::new(matcher);
        let matchers: Vec<Box<dyn Match>> = vec![first];
        proof {
            assert(matchers@ =~= Seq::<Box<dyn Match>>::empty().push(first));
        }
        MockBuilder { matcher: matchers, responder: SilentResponder, name: None, priority: 5 }
    }
}

impl<R> MockBuilder<R> {
    #[verifier::type_invariant]
    closed spec fn well_formed(self) -> bool {
        &&& 1 <= self.matcher@.len() <= 64
        &&& self.priority >= 1
    }

    /// The matchers added so far, in the order they were added.
    pub closed spec fn matchers(self) -> Seq<Box<dyn Match>> {
        self.matcher@
    }

    /// The number of matchers added so far.
    pub open spec fn matcher_count(self) -> nat {
        self.matchers().len()
    }

    /// The priority the mock will have.
    pub closed spec fn priority(self) -> u8 {
        self.priority
    }

    /// The name the mock will have.
    pub closed spec fn name(self) -> Option<Seq<char>> {
        match self.name {
            Some(n) => Some(n@),
            None => None,
        }
    }

    /// The responder the mock will have.
    pub closed spec fn responder(self) -> R {
        self.responder
    }

    /// Assign a name to your mock.
    ///
    /// The mock name will be used in error messages (e.g. if the mock expectation
    /// is not satisfied) and debug logs to help you identify what failed.
    pub fn named(self, mock_name: &str) -> (b: Self)
        ensures
            b.name() == Some(mock_name@),
            b.matchers() == self.matchers(),
            b.priority() == self.priority(),
            b.responder() == self.responder(),
    {
        proof {
            use_type_invariant(&self);
        }
        let MockBuilder { matcher, responder, name: _, priority } = self;
        MockBuilder { matcher, responder, name: Some(mock_name.to_owned()), priority }
    }

    /// Set an expectation on the number of times this [`Mock`] should match in the current
    /// test case. By default, no expectation is set for [`Mock`]s.
    pub fn expect<T: Into<Times>>(self, times: T) -> (m: Mock<R>)
        ensures
            <T as vstd::std_specs::convert::IntoSpec<Times>>::obeys_into_spec() ==> m.expected()
                == <T as vstd::std_specs::convert::IntoSpec<Times>>::into_spec(times),
            m.calls() == 0,
            m.matchers() == self.matchers(),
            m.priority() == self.priority(),
            m.name() == self.name(),
            m.responder() == self.responder(),
    {
        proof {
            use_type_invariant(&self);
        }
        let MockBuilder { matcher, responder, name, priority } = self;
        Mock { matcher, responder, expected_calls: times.into(), calls: 0, name, priority }
    }

    /// Add another request matcher to the `Mock` you are building.
    ///
    /// **All** specified matchers must match for the overall [`Mock`] you are building. A mock
    /// holds at most 64 matchers.
    pub fn add_matcher<M: Match + 'static>(self, matcher: M) -> (b: Self)
        requires
            self.matcher_count() < 64,
        ensures
            ({
                let added: Box<dyn Match> = Box::new(matcher);
                b.matchers() == self.matchers().push(added)
            }),
            b.matcher_count() == self.matcher_count() + 1,
            answers_like(b.matchers().last(), matcher),
            b.priority() == self.priority(),
            b.name() == self.name(),
            b.responder() == self.responder(),
    {
        proof {
            use_type_invariant(&self);
        }
        let MockBuilder { matcher: mut matchers, responder, name, priority } = self;
        let added: Box<dyn Match> = Box::new(matcher);
        let mut tail: Vec<Box<dyn Match>> = vec![added];
        let ghost before = matchers@;
        matchers.append(&mut tail);
        proof {
            assert(matchers@ =~= before.push(added));
        }
        MockBuilder { matcher: matchers, responder, name, priority }
    }

    /// Like [`MockBuilder::add_matcher`], but hands the builder back unchanged, as `Err`, where
    /// it already holds 64 matchers.
    pub fn try_add_matcher<M: Match + 'static>(self, matcher: M) -> (b: Result<Self, Self>)
        ensures
            self.matcher_count() < 64 ==> (b matches Ok(b) && ({
                let added: Box<dyn Match> = Box::new(matcher);
                b.matchers() == self.matchers().push(added)
            }) && answers_like(b.matchers().last(), matcher) && b.priority() == self.priority() && b.name() == self.name() && b.responder()
                == self.responder()),
            self.matcher_count() >= 64 ==> b == Err::<Self, Self>(self),
    {
        if self.count_matchers() < 64 {
            Ok(self.add_matcher(matcher))
        } else {
            Err(self)
        }
    }

    /// The number of matchers added so far; a builder holds between one and 64 of them.
    pub fn count_matchers(&self) -> (n: usize)
        ensures
            n == self.matcher_count(),
            1 <= n <= 64,
    {
        proof {
            use_type_invariant(self);
        }
        self.matcher.len()
    }
}

impl<R> MockBuilder<R> {
    /// Specify a priority for this [`Mock`]: `1` is the highest priority, `255` the lowest,
    /// default to `5`. If two mocks have the same priority, the one mounted first takes
    /// precedence. The priority must be strictly greater than 0.
    pub fn with_priority(self, priority: u8) -> (b: Self)
        requires
            priority > 0,
        ensures
            b.priority() == priority,
            b.matchers() == self.matchers(),
            b.name() == self.name(),
            b.responder() == self.responder(),
    {
        proof {
            use_type_invariant(&self);
        }
        let MockBuilder { matcher, responder, name, priority: _ } = self;
        MockBuilder { matcher, responder, name, priority }
    }

    /// Sets a responder for the `Mock`.
    pub fn set_responder<S>(self, responder: S) -> (b: MockBuilder<S>)
        ensures
            b.responder() == responder,
            b.priority() == self.priority(),
            b.matchers() == self.matchers(),
            b.name() == self.name(),
    {
        proof {
            use_type_invariant(&self);
        }
        let MockBuilder { matcher, responder: _, name, priority } = self;
        MockBuilder { matcher, responder, name, priority }
    }
}

/// Whether every mock's calls meet its expectation.
pub fn all_mocks_pass<R>(mocks: &Vec<Mock<R>>) -> (r: bool)
    ensures
        r == forall|i: int| 0 <= i < mocks@.len() ==> (#[trigger] mocks@[i]).expected().admits(mocks@[i].calls()),
{
    let mut res = true;
    let mut i: usize = 0;
    while i < mocks.len()
        invariant
            i <= mocks@.len(),
            res == forall|j: int| 0 <= j < i ==> (#[trigger] mocks@[j]).expected().admits(mocks@[j].calls()),
        decreases mocks@.len() - i,
    {
        let mock_res = mocks[i].verify();
        res = res && mock_res;
        i = i + 1;
    }
    res
}

/// Two masks with the same bits are equal (bits `s` and above agreeing gives the same shifted
/// masks).
proof fn lemma_bits_agree_from(a: u64, b: u64, s: u64)
    requires
        s <= 64,
        forall|i: u64| s <= i < 64 ==> (#[trigger] has_bit(a, i) <==> has_bit(b, i)),
    ensures
        a >> s == b >> s,
    decreases 64 - s,
{
    if s == 64 {
        assert(a >> s == 0u64 && b >> s == 0u64) by (bit_vector)
            requires
                s == 64,
        ;
    } else {
        let t = (s + 1) as u64;
        lemma_bits_agree_from(a, b, t);
        assert(has_bit(a, s) <==> has_bit(b, s));
        assert(a >> s == b >> s) by (bit_vector)
            requires
                s < 64,
                t == s + 1,
                a >> t == b >> t,
                ((a >> s) & 1u64 == 1u64) <==> ((b >> s) & 1u64 == 1u64),
        ;
    }
}

/// Masks are determined by their bits.
pub proof fn lemma_bits_determine(a: u64, b: u64)
    requires
        forall|i: u64| i < 64 ==> (#[trigger] has_bit(a, i) <==> has_bit(b, i)),
    ensures
        a == b,
{
    lemma_bits_agree_from(a, b, 0);
    assert(a >> 0u64 == a && b >> 0u64 == b) by (bit_vector);
}

/// The empty mask has no bit set.
pub proof fn lemma_no_bits(i: u64)
    requires
        i < 64,
    ensures
        !has_bit(0, i),
{
    assert((0u64 >> i) & 1u64 != 1u64) by (bit_vector);
}

/// A bit of a union is set where it is set in either part.
pub proof fn lemma_union_bits(a: u64, b: u64, i: u64)
    requires
        i < 64,
    ensures
        has_bit(a | b, i) <==> (has_bit(a, i) || has_bit(b, i)),
{
    assert(((a | b) >> i) & 1u64 == 1u64 <==> (((a >> i) & 1u64 == 1u64) || ((b >> i) & 1u64 == 1u64)))
        by (bit_vector)
        requires
            i < 64,
    ;
}

/// Adding bit `k` sets exactly that bit.
proof fn lemma_add_bit(m: u64, k: u64, i: u64)
    requires
        k < 64,
        i < 64,
    ensures
        has_bit(m | (1u64 << k), i) <==> (has_bit(m, i) || i == k),
{
    assert(((m | (1u64 << k)) >> i) & 1u64 == 1u64 <==> (((m >> i) & 1u64 == 1u64) || i == k))
        by (bit_vector)
        requires
            k < 64,
            i < 64,
    ;
}

/// The full mask of `n` matchers has exactly the bits below `n` set.
pub proof fn lemma_full_mask_bits(n: u64)
    requires
        1 <= n <= 64,
    ensures
        forall|i: u64| i < 64 ==> (#[trigger] has_bit(full_mask(n), i) <==> i < n),
{
    assert forall|i: u64| i < 64 implies (#[trigger] has_bit(full_mask(n), i) <==> i < n) by {
        let s = (64 - n) as u64;
        assert(((u64::MAX >> s) >> i) & 1u64 == 1u64 <==> i < n) by (bit_vector)
            requires
                1 <= n <= 64,
                s == 64 - n,
                i < 64,
        ;
    }
}

/// The mask of `Some(true)` answers has bit `i` set exactly where matcher `i` answered
/// `Some(true)`.
pub proof fn lemma_true_bits(values: Seq<Option<bool>>)
    requires
        values.len() <= 64,
    ensures
        forall|i: u64|
            i < 64 ==> (#[trigger] has_bit(true_bits(values), i) <==> (i < values.len() && values[i as int] == Some(true))),
    decreases values.len(),
{
    if values.len() == 0 {
        assert forall|i: u64| i < 64 implies !#[trigger] has_bit(true_bits(values), i) by {
            lemma_no_bits(i);
        }
    } else {
        let rest = values.drop_last();
        lemma_true_bits(rest);
        let k = (values.len() - 1) as u64;
        let rest_mask = true_bits(rest);
        assert(true_bits(values) == if values.last() == Some(true) {
            rest_mask | (1u64 << k)
        } else {
            rest_mask
        });
        assert forall|i: u64| i < 64 implies (#[trigger] has_bit(true_bits(values), i) <==> (i < values.len()
            && values[i as int] == Some(true))) by {
            if values.last() == Some(true) {
                lemma_add_bit(rest_mask, k, i);
                assert(has_bit(true_bits(values), i) <==> (has_bit(rest_mask, i) || i == k));
            } else {
                assert(has_bit(true_bits(values), i) == has_bit(rest_mask, i));
            }
            assert(has_bit(rest_mask, i) <==> (i < rest.len() && rest[i as int] == Some(true)));
            if i < k {
                assert(rest[i as int] == values[i as int]);
            }
            if i == k {
                assert(values[i as int] == values.last());
            }
        }
    }
}

/// The masks of several evaluations joined together.
pub open spec fn masks_joined(masks: Seq<u64>) -> u64
    decreases masks.len(),
{
    if masks.len() == 0 {
        0
    } else {
        masks_joined(masks.drop_last()) | masks.last()
    }
}

/// The masks that a sequence of evaluations of a mock's matchers produce.
pub open spec fn evaluation_masks(evaluations: Seq<Seq<Option<bool>>>) -> Seq<u64> {
    evaluations.map_values(|values: Seq<Option<bool>>| outcome_of(values).1)
}

/// Matcher `i` answered `Some(true)` in an evaluation that no matcher rejected.
pub open spec fn hit_in(evaluations: Seq<Seq<Option<bool>>>, i: int) -> bool {
    exists|j: int|
        0 <= j < evaluations.len() && status_of(#[trigger] evaluations[j]) != MatchStatus::Mismatch
            && evaluations[j][i] == Some(true)
}

/// Bit `i` of the joined masks of evaluations of `n` matchers is set exactly when matcher `i`
/// answered `Some(true)` in one of them that no matcher rejected.
pub proof fn lemma_joined_bits(evaluations: Seq<Seq<Option<bool>>>, n: u64, i: u64)
    requires
        n <= 64,
        i < 64,
        forall|j: int| 0 <= j < evaluations.len() ==> (#[trigger] evaluations[j]).len() == n,
    ensures
        has_bit(masks_joined(evaluation_masks(evaluations)), i) <==> (i < n && hit_in(evaluations, i as int)),
    decreases evaluations.len(),
{
    let masks = evaluation_masks(evaluations);
    if evaluations.len() == 0 {
        lemma_no_bits(i);
    } else {
        let rest = evaluations.drop_last();
        lemma_joined_bits(rest, n, i);
        assert(evaluation_masks(rest) =~= masks.drop_last());
        let last = evaluations.last();
        lemma_union_bits(masks_joined(masks.drop_last()), masks.last(), i);
        lemma_true_bits(last);
        let status = status_of(last);
        if !(status == MatchStatus::Partial || status == MatchStatus::Full) {
            lemma_no_bits(i);
        }
        if hit_in(evaluations, i as int) {
            let j = choose|j: int|
                0 <= j < evaluations.len() && status_of(#[trigger] evaluations[j]) != MatchStatus::Mismatch
                    && evaluations[j][i as int] == Some(true);
            if j < evaluations.len() - 1 {
                assert(rest[j] == evaluations[j]);
            }
        }
        if hit_in(rest, i as int) {
            let j = choose|j: int|
                0 <= j < rest.len() && status_of(#[trigger] rest[j]) != MatchStatus::Mismatch
                    && rest[j][i as int] == Some(true);
            assert(evaluations[j] == rest[j]);
        }
    }
}

/// A connection completes the mask of a mock with `n` matchers exactly when every matcher
/// answered `Some(true)` in some evaluation that no matcher of the mock rejected: "all of the
/// matchers added will have to have evaluated as `Some(true)` at least once".
pub proof fn lemma_mask_complete_iff_every_matcher_hit(evaluations: Seq<Seq<Option<bool>>>, n: u64)
    requires
        1 <= n <= 64,
        forall|j: int| 0 <= j < evaluations.len() ==> (#[trigger] evaluations[j]).len() == n,
    ensures
        masks_joined(evaluation_masks(evaluations)) == full_mask(n) <==> forall|i: int|
            0 <= i < n ==> hit_in(evaluations, i),
{
    let joined = masks_joined(evaluation_masks(evaluations));
    lemma_full_mask_bits(n);
    assert forall|i: u64| i < 64 implies (#[trigger] has_bit(joined, i) <==> (i < n && hit_in(evaluations, i as int))) by {
        lemma_joined_bits(evaluations, n, i);
    }
    if forall|i: int| 0 <= i < n ==> hit_in(evaluations, i) {
        assert forall|i: u64| i < 64 implies (#[trigger] has_bit(joined, i) <==> has_bit(full_mask(n), i)) by {
            if i < n {
                assert(hit_in(evaluations, i as int));
            }
        }
        lemma_bits_determine(joined, full_mask(n));
    }
    if joined == full_mask(n) {
        assert forall|i: int| 0 <= i < n implies hit_in(evaluations, i) by {
            assert(has_bit(full_mask(n), i as u64));
        }
    }
}


} // verus!
