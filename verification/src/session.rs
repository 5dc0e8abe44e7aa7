//! The decisions taken on one websocket connection: which mocks stay candidates once the
//! upgrade request is seen, which mock becomes active as messages arrive, when its responder
//! starts, and whether the connection counts as a call of the active mock.
use crate::match_state::{kept_entries, same_messages, MatchState, StoredEntry};
use crate::message::Message;
use crate::mock::{
    evaluation_masks, full_mask, has_bit, hit_in, lemma_full_mask_bits, lemma_joined_bits, lemma_union_bits,
    masks_joined, outcome_of, request_answers, stream_answers, MatchStatus, Mock,
};
use crate::Match;
use crate::request::QueryParams;
use axum::http::HeaderMap;
use vstd::prelude::*;

verus! {

/// A mock can be picked outright when its matchers give a partial or a full match.
pub open spec fn eligible(status: MatchStatus) -> bool {
    status == MatchStatus::Partial || status == MatchStatus::Full
}

/// `(s1, p1)` takes precedence over `(s2, p2)`: a more complete status, or the same status and a
/// higher priority (a smaller number).
pub open spec fn beats(s1: MatchStatus, p1: u8, s2: MatchStatus, p2: u8) -> bool {
    s1.rank() > s2.rank() || (s1.rank() == s2.rank() && p1 < p2)
}

/// Candidate `b` is the one the precedence rules pick: it is eligible, no eligible candidate
/// takes precedence over it, and it takes precedence over every eligible candidate before it
/// (so that among equals the one registered first wins).
pub open spec fn is_best(outcomes: Seq<(MatchStatus, u64)>, priorities: Seq<u8>, b: int) -> bool {
    &&& 0 <= b < outcomes.len()
    &&& eligible(outcomes[b].0)
    &&& forall|j: int|
        0 <= j < outcomes.len() && eligible(#[trigger] outcomes[j].0) ==> !beats(
            outcomes[j].0,
            priorities[j],
            outcomes[b].0,
            priorities[b],
        )
    &&& forall|j: int|
        0 <= j < b && eligible(#[trigger] outcomes[j].0) ==> beats(
            outcomes[b].0,
            priorities[b],
            outcomes[j].0,
            priorities[j],
        )
}

/// At most one candidate is the best.
pub proof fn lemma_best_unique(outcomes: Seq<(MatchStatus, u64)>, priorities: Seq<u8>, b1: int, b2: int)
    requires
        is_best(outcomes, priorities, b1),
        is_best(outcomes, priorities, b2),
    ensures
        b1 == b2,
{
    if b1 < b2 {
        assert(eligible(outcomes[b1].0));
    } else if b2 < b1 {
        assert(eligible(outcomes[b2].0));
    }
}

/// Picks the candidate that the precedence rules favour, if any is eligible.
pub fn best_candidate(outcomes: &Vec<(MatchStatus, u64)>, priorities: &Vec<u8>) -> (r: Option<usize>)
    requires
        outcomes@.len() == priorities@.len(),
    ensures
        r matches Some(b) ==> is_best(outcomes@, priorities@, b as int),
        r is None <==> forall|j: int| 0 <= j < outcomes@.len() ==> !eligible(#[trigger] outcomes@[j].0),
{
    let mut best: Option<usize> = None;
    let mut i: usize = 0;
    while i < outcomes.len()
        invariant
            outcomes@.len() == priorities@.len(),
            i <= outcomes@.len(),
            best matches Some(b) ==> is_best(outcomes@.take(i as int), priorities@.take(i as int), b as int),
            best is None <==> forall|j: int| 0 <= j < i ==> !eligible(#[trigger] outcomes@[j].0),
        decreases outcomes@.len() - i,
    {
        let (status, _mask) = outcomes[i];
        let ghost o = outcomes@.take(i + 1);
        let ghost p = priorities@.take(i + 1);
        if status == MatchStatus::Full || status == MatchStatus::Partial {
            match best {
                Some(b) => {
                    let (best_status, _best_mask) = outcomes[b];
                    if status.level() > best_status.level() || (status.level() == best_status.level()
                        && priorities[i] < priorities[b]) {
                        best = Some(i);
                        proof {
                            assert forall|j: int| 0 <= j < o.len() && eligible(#[trigger] o[j].0) implies !beats(
                                o[j].0,
                                p[j],
                                o[i as int].0,
                                p[i as int],
                            ) by {
                                if j < i {
                                    assert(o[j] == outcomes@.take(i as int)[j]);
                                    assert(p[j] == priorities@.take(i as int)[j]);
                                }
                            }
                            assert forall|j: int| 0 <= j < i && eligible(#[trigger] o[j].0) implies beats(
                                o[i as int].0,
                                p[i as int],
                                o[j].0,
                                p[j],
                            ) by {
                                assert(o[j] == outcomes@.take(i as int)[j]);
                                assert(p[j] == priorities@.take(i as int)[j]);
                            }
                        }
                    } else {
                        proof {
                            assert forall|j: int| 0 <= j < o.len() && eligible(#[trigger] o[j].0) implies !beats(
                                o[j].0,
                                p[j],
                                o[b as int].0,
                                p[b as int],
                            ) by {
                                if j < i {
                                    assert(o[j] == outcomes@.take(i as int)[j]);
                                    assert(p[j] == priorities@.take(i as int)[j]);
                                }
                            }
                            assert forall|j: int| 0 <= j < b && eligible(#[trigger] o[j].0) implies beats(
                                o[b as int].0,
                                p[b as int],
                                o[j].0,
                                p[j],
                            ) by {
                                assert(o[j] == outcomes@.take(i as int)[j]);
                                assert(p[j] == priorities@.take(i as int)[j]);
                            }
                        }
                    }
                },
                None => {
                    best = Some(i);
                    proof {
                        assert forall|j: int| 0 <= j < o.len() && eligible(#[trigger] o[j].0) implies !beats(
                            o[j].0,
                            p[j],
                            o[i as int].0,
                            p[i as int],
                        ) by {
                            if j < i {
                                assert(o[j] == outcomes@[j]);
                            }
                        }
                    }
                },
            }
        } else {
            proof {
                if let Some(b) = best {
                    assert forall|j: int| 0 <= j < o.len() && eligible(#[trigger] o[j].0) implies !beats(
                        o[j].0,
                        p[j],
                        o[b as int].0,
                        p[b as int],
                    ) by {
                        if j < i {
                            assert(o[j] == outcomes@.take(i as int)[j]);
                            assert(p[j] == priorities@.take(i as int)[j]);
                        }
                    }
                    assert forall|j: int| 0 <= j < b && eligible(#[trigger] o[j].0) implies beats(
                        o[b as int].0,
                        p[b as int],
                        o[j].0,
                        p[j],
                    ) by {
                        assert(o[j] == outcomes@.take(i as int)[j]);
                        assert(p[j] == priorities@.take(i as int)[j]);
                    }
                }
            }
        }
        i = i + 1;
    }
    proof {
        assert(outcomes@.take(outcomes@.len() as int) =~= outcomes@);
        assert(priorities@.take(priorities@.len() as int) =~= priorities@);
    }
    best
}

/// Position `t` holds the smallest value, and no earlier position holds as small a one.
pub open spec fn is_first_min(values: Seq<u8>, t: int) -> bool {
    &&& 0 <= t < values.len()
    &&& forall|j: int| 0 <= j < values.len() ==> values[t] <= #[trigger] values[j]
    &&& forall|j: int| 0 <= j < t ==> values[t] < #[trigger] values[j]
}

/// The first position of the smallest value, if there is any value.
pub fn first_min(values: &Vec<u8>) -> (r: Option<usize>)
    ensures
        r matches Some(t) ==> is_first_min(values@, t as int),
        r is None <==> values@.len() == 0,
{
    if values.len() == 0 {
        return None;
    }
    let mut t: usize = 0;
    let mut i: usize = 1;
    while i < values.len()
        invariant
            1 <= i <= values@.len(),
            t < i,
            forall|j: int| 0 <= j < i ==> values@[t as int] <= #[trigger] values@[j],
            forall|j: int| 0 <= j < t ==> values@[t as int] < #[trigger] values@[j],
        decreases values@.len() - i,
    {
        if values[i] < values[t] {
            t = i;
        }
        i = i + 1;
    }
    Some(t)
}

/// The positions of the candidates that were not rejected, in order.
pub open spec fn not_rejected(outcomes: Seq<(MatchStatus, u64)>) -> Seq<usize>
    decreases outcomes.len(),
{
    if outcomes.len() == 0 {
        Seq::empty()
    } else {
        let rest = not_rejected(outcomes.drop_last());
        if outcomes.last().0 != MatchStatus::Mismatch {
            rest.push((outcomes.len() - 1) as usize)
        } else {
            rest
        }
    }
}

/// The candidates that stay in play once the request is seen, and the mask of matchers already
/// satisfied: the best candidate alone with its mask, or else every candidate that was not
/// rejected, with an empty mask.
pub open spec fn request_choice(outcomes: Seq<(MatchStatus, u64)>, priorities: Seq<u8>) -> (Seq<usize>, u64) {
    if exists|b: int| is_best(outcomes, priorities, b) {
        let b = choose|b: int| is_best(outcomes, priorities, b);
        (seq![b as usize], outcomes[b].1)
    } else {
        (not_rejected(outcomes), 0)
    }
}

/// What the upgrade request decided: the mocks that stay candidates for the connection (by
/// their position in the server's list) and the matchers of the chosen mock already satisfied.
pub struct RequestSelection {
    pub active: Vec<usize>,
    pub mask: u64,
}

/// Decides which candidates stay in play given how each mock judged the request.
pub fn choose_for_request(outcomes: &Vec<(MatchStatus, u64)>, priorities: &Vec<u8>) -> (r: RequestSelection)
    requires
        outcomes@.len() == priorities@.len(),
    ensures
        (r.active@, r.mask) == request_choice(outcomes@, priorities@),
{
    let best = best_candidate(outcomes, priorities);
    match best {
        Some(b) => {
            proof {
                assert forall|c: int| is_best(outcomes@, priorities@, c) implies c == b by {
                    lemma_best_unique(outcomes@, priorities@, c, b as int);
                }
            }
            let (_status, mask) = outcomes[b];
            RequestSelection { active: vec![b], mask }
        },
        None => {
            let mut active: Vec<usize> = Vec::new();
            let mut i: usize = 0;
            while i < outcomes.len()
                invariant
                    i <= outcomes@.len(),
                    active@ == not_rejected(outcomes@.take(i as int)),
                decreases outcomes@.len() - i,
            {
                proof {
                    assert(outcomes@.take(i + 1).drop_last() =~= outcomes@.take(i as int));
                }
                let (status, _mask) = outcomes[i];
                if status != MatchStatus::Mismatch {
                    active.push(i);
                }
                i = i + 1;
            }
            proof {
                assert(outcomes@.take(outcomes@.len() as int) =~= outcomes@);
            }
            RequestSelection { active, mask: 0 }
        },
    }
}

/// `outcome` classifies answers that the matchers of `mock`, asked in order, may give to the
/// request.
pub open spec fn request_outcome<R>(
    mock: Mock<R>,
    path: Seq<char>,
    headers: HeaderMap,
    query: QueryParams,
    outcome: (MatchStatus, u64),
) -> bool {
    exists|values: Seq<Option<bool>>|
        request_answers(mock.matchers(), path, headers, query, values) && outcome == outcome_of(values)
}

/// `outcome` classifies answers that the matchers of `mock`, asked in order about the stream
/// held in `before`, may give, the last of them leaving `after`.
pub open spec fn stream_outcome<R>(mock: Mock<R>, before: MatchState, after: MatchState, outcome: (MatchStatus, u64)) -> bool {
    exists|values: Seq<Option<bool>>, states: Seq<MatchState>|
        {
            &&& stream_answers(mock.matchers(), states, values)
            &&& states[0] == before
            &&& states.last() == after
            &&& outcome == outcome_of(values)
        }
}

/// Asks every mock about the upgrade request and decides which stay candidates for the
/// connection.
pub fn select_request<R>(mocks: &Vec<Mock<R>>, path: &str, headers: &HeaderMap, params: &QueryParams) -> (r: RequestSelection)
    ensures
        exists|outcomes: Seq<(MatchStatus, u64)>|
            {
                &&& outcomes.len() == mocks@.len()
                &&& forall|i: int|
                    0 <= i < mocks@.len() ==> request_outcome(mocks@[i], path@, *headers, *params, #[trigger] outcomes[i])
                &&& (r.active@, r.mask) == request_choice(
                    outcomes,
                    mocks@.map_values(|m: Mock<R>| m.priority()),
                )
            },
{
    let mut outcomes: Vec<(MatchStatus, u64)> = Vec::new();
    let mut priorities: Vec<u8> = Vec::new();
    let mut i: usize = 0;
    while i < mocks.len()
        invariant
            i <= mocks@.len(),
            outcomes@.len() == i,
            priorities@ == mocks@.take(i as int).map_values(|m: Mock<R>| m.priority()),
            forall|j: int|
                0 <= j < i ==> request_outcome(mocks@[j], path@, *headers, *params, #[trigger] outcomes@[j]),
        decreases mocks@.len() - i,
    {
        let outcome = mocks[i].check_request(path, headers, params);
        let priority = mocks[i].get_priority();
        outcomes.push(outcome);
        priorities.push(priority);
        proof {
            assert(mocks@.take(i + 1).map_values(|m: Mock<R>| m.priority()) =~= mocks@.take(i as int).map_values(
                |m: Mock<R>| m.priority(),
            ).push(mocks@[i as int].priority()));
        }
        i = i + 1;
    }
    proof {
        assert(mocks@.take(mocks@.len() as int) =~= mocks@);
    }
    choose_for_request(&outcomes, &priorities)
}

/// At most one position is the first smallest.
pub proof fn lemma_first_min_unique(values: Seq<u8>, t1: int, t2: int)
    requires
        is_first_min(values, t1),
        is_first_min(values, t2),
    ensures
        t1 == t2,
{
    if t1 < t2 {
        assert(values[t2] < values[t1]);
    } else if t2 < t1 {
        assert(values[t1] < values[t2]);
    }
}

/// The priorities used when no candidate can be picked outright: a rejected candidate counts
/// as the lowest priority, 255. A candidate that was given priority 255 itself therefore ties
/// with the rejected ones, and the first of the tied candidates is taken, rejected or not.
pub open spec fn fallback_priorities(outcomes: Seq<(MatchStatus, u64)>, priorities: Seq<u8>) -> Seq<u8> {
    Seq::new(
        outcomes.len(),
        |i: int| if outcomes[i].0 != MatchStatus::Mismatch { priorities[i] } else { 255u8 },
    )
}

/// The candidate picked after a message: the best one if any is eligible, or else the first one
/// of the highest fallback priority; `None` only when there are no candidates.
pub open spec fn message_choice(outcomes: Seq<(MatchStatus, u64)>, priorities: Seq<u8>) -> Option<int> {
    if exists|b: int| is_best(outcomes, priorities, b) {
        Some(choose|b: int| is_best(outcomes, priorities, b))
    } else if outcomes.len() > 0 {
        Some(choose|t: int| is_first_min(fallback_priorities(outcomes, priorities), t))
    } else {
        None
    }
}

/// The priorities of the candidates `active`.
pub open spec fn priorities_of<R>(mocks: Seq<Mock<R>>, active: Seq<usize>) -> Seq<u8> {
    active.map_values(|i: usize| mocks[i as int].priority())
}

/// `new` is `old` after an eviction and the arrival of `message`: the kept entries, then
/// `message` under the next index with no interest taken in it yet.
pub open spec fn arrival(new: MatchState, old: MatchState, message: Message) -> bool {
    &&& new.received() == old.received() + 1
    &&& new.entries() == kept_entries(old.entries()).push((old.received(), message, 0))
}

/// `new` holds what `old` held after an eviction, plus `message` under the next index: the
/// same indices and messages, whatever interest the matchers then took in them.
pub open spec fn arrived(new: MatchState, old: MatchState, message: Message) -> bool {
    let expected = kept_entries(old.entries()).push((old.received(), message, 0));
    &&& new.received() == old.received() + 1
    &&& new.entries().len() == expected.len()
    &&& forall|k: int|
        0 <= k < expected.len() ==> (#[trigger] new.entries()[k]).0 == expected[k].0
            && new.entries()[k].1 == expected[k].1
}

/// An evaluation of the stream: the matchers asked, in order, and their answers.
pub type Judgement = (Seq<Box<dyn Match>>, Seq<Option<bool>>);

/// The answers of each evaluation.
pub open spec fn judged_answers(judged: Seq<Judgement>) -> Seq<Seq<Option<bool>>> {
    judged.map_values(|e: Judgement| e.1)
}

/// `values` are answers that `matchers`, asked in order about some stream, may give.
pub open spec fn given_on_stream(matchers: Seq<Box<dyn Match>>, values: Seq<Option<bool>>) -> bool {
    exists|states: Seq<MatchState>| stream_answers(matchers, states, values)
}

/// Answers behind a stream outcome of `mock`: the matchers and the answers they gave.
pub open spec fn judgement_of<R>(mock: Mock<R>, before: MatchState, after: MatchState, outcome: (MatchStatus, u64)) -> Judgement {
    (
        mock.matchers(),
        (choose|v: Seq<Option<bool>>, st: Seq<MatchState>|
            {
                &&& stream_answers(mock.matchers(), st, v)
                &&& st[0] == before
                &&& st.last() == after
                &&& outcome == outcome_of(v)
            }).0,
    )
}

proof fn lemma_judgement_of<R>(mock: Mock<R>, before: MatchState, after: MatchState, outcome: (MatchStatus, u64))
    requires
        stream_outcome(mock, before, after, outcome),
    ensures
        judgement_of(mock, before, after, outcome).0 == mock.matchers(),
        given_on_stream(judgement_of(mock, before, after, outcome).0, judgement_of(mock, before, after, outcome).1),
        outcome == outcome_of(judgement_of(mock, before, after, outcome).1),
{
    let (v, st) = choose|v: Seq<Option<bool>>, st: Seq<MatchState>|
        {
            &&& stream_answers(mock.matchers(), st, v)
            &&& st[0] == before
            &&& st.last() == after
            &&& outcome == outcome_of(v)
        };
    assert(stream_answers(mock.matchers(), st, v));
}

/// Joining one more evaluation into the mask adds that evaluation's mask.
proof fn lemma_judge_more(request_mask: u64, judged: Seq<Judgement>, e: Judgement, mask: u64)
    requires
        mask == request_mask | masks_joined(evaluation_masks(judged_answers(judged))),
    ensures
        mask | outcome_of(e.1).1 == request_mask | masks_joined(evaluation_masks(judged_answers(judged.push(e)))),
{
    let before = evaluation_masks(judged_answers(judged));
    let o = outcome_of(e.1).1;
    assert(judged_answers(judged.push(e)) =~= judged_answers(judged).push(e.1));
    assert(evaluation_masks(judged_answers(judged).push(e.1)) =~= before.push(o));
    assert(before.push(o).drop_last() =~= before);
    let joined = masks_joined(before);
    assert((request_mask | joined) | o == request_mask | (joined | o)) by (bit_vector);
}

/// The state of one connection: the mocks still candidates, the matchers of the active mock
/// already satisfied, whether the active mock rejected a message, and the message history.
pub struct Session {
    active: Vec<usize>,
    mask: u64,
    no_mismatch: bool,
    state: MatchState,
    mock_count: usize,
    request_mask: Ghost<u64>,
    judged: Ghost<Seq<Judgement>>,
}

impl Session {
    #[verifier::type_invariant]
    closed spec fn candidates_known(self) -> bool {
        &&& forall|k: int| 0 <= k < self.active@.len() ==> #[trigger] self.active@[k] < self.mock_count
        &&& self.mask == self.request_mask@ | masks_joined(evaluation_masks(judged_answers(self.judged@)))
        &&& forall|k: int|
            0 <= k < self.judged@.len() ==> given_on_stream((#[trigger] self.judged@[k]).0, self.judged@[k].1)
    }

    /// The mask the upgrade request left.
    pub closed spec fn request_mask(self) -> u64 {
        self.request_mask@
    }

    /// The evaluations of the stream whose masks joined the request's one: for each, the
    /// matchers of the mock that was (or became) the only candidate, and their answers.
    pub closed spec fn judged(self) -> Seq<Judgement> {
        self.judged@
    }

    /// The candidate mocks, by their position in the server's list.
    pub closed spec fn active(self) -> Seq<usize> {
        self.active@
    }

    /// The matchers of the active mock that answered `Some(true)` so far.
    pub closed spec fn mask(self) -> u64 {
        self.mask
    }

    /// Whether the active mock accepted every message since it became the only candidate.
    pub closed spec fn no_mismatch(self) -> bool {
        self.no_mismatch
    }

    /// The message history.
    pub closed spec fn state(self) -> MatchState {
        self.state
    }

    /// How many mocks the server held when the connection started.
    pub closed spec fn mock_count(self) -> nat {
        self.mock_count as nat
    }

    fn placeholder() -> (s: Session)
        ensures
            s.active().len() == 0,
    {
        proof {
            assert(evaluation_masks(judged_answers(Seq::<Judgement>::empty())) =~= Seq::<u64>::empty());
            assert(0u64 | 0u64 == 0u64) by (bit_vector);
        }
        Session {
            active: Vec::new(),
            mask: 0,
            no_mismatch: true,
            state: MatchState::new(),
            mock_count: 0,
            request_mask: Ghost(0),
            judged: Ghost(Seq::empty()),
        }
    }

    /// Starts a connection from what the upgrade request decided, against a server that holds
    /// `mock_count` mocks; candidates beyond that count are dropped.
    pub fn new(selection: RequestSelection, mock_count: usize) -> (s: Session)
        ensures
            s.active() == selection.active@.filter(|i: usize| i < mock_count),
            s.mask() == selection.mask,
            s.no_mismatch(),
            s.state().received() == 0,
            s.state().entries().len() == 0,
            s.mock_count() == mock_count,
            s.request_mask() == selection.mask,
            s.judged().len() == 0,
    {
        let RequestSelection { active: requested, mask } = selection;
        let mut active: Vec<usize> = Vec::new();
        let mut i: usize = 0;
        while i < requested.len()
            invariant
                i <= requested@.len(),
                active@ == requested@.take(i as int).filter(|i: usize| i < mock_count),
                forall|k: int| 0 <= k < active@.len() ==> #[trigger] active@[k] < mock_count,
            decreases requested@.len() - i,
        {
            proof {
                assert(requested@.take(i + 1).drop_last() =~= requested@.take(i as int));
                reveal_with_fuel(Seq::filter, 1);
            }
            if requested[i] < mock_count {
                active.push(requested[i]);
            }
            i = i + 1;
        }
        proof {
            assert(requested@.take(requested@.len() as int) =~= requested@);
        }
        proof {
            assert(evaluation_masks(judged_answers(Seq::<Judgement>::empty())) =~= Seq::<u64>::empty());
            assert(mask | 0u64 == mask) by (bit_vector);
        }
        Session {
            active,
            mask,
            no_mismatch: true,
            state: MatchState::new(),
            mock_count,
            request_mask: Ghost(mask),
            judged: Ghost(Seq::empty()),
        }
    }

    /// The mock whose responder starts with the connection: the sole candidate, if there is
    /// exactly one.
    pub fn initial_responder(&self) -> (r: Option<usize>)
        ensures
            r == (if self.active().len() == 1 { Some(self.active()[0]) } else { None }),
    {
        if self.active.len() == 1 {
            Some(self.active[0])
        } else {
            None
        }
    }

    /// The number of messages received on the connection.
    pub fn received(&self) -> (n: usize)
        ensures
            n == self.state().received(),
    {
        self.state.len()
    }

    /// The number of candidate mocks.
    pub fn candidate_count(&self) -> (n: usize)
        ensures
            n == self.active().len(),
    {
        self.active.len()
    }

    /// How many mocks the server held when the connection started.
    pub fn mocks_known(&self) -> (n: usize)
        ensures
            n == self.mock_count(),
    {
        self.mock_count
    }

    /// Handles one message from the client: the history drops what no matcher keeps and
    /// records the message; the sole candidate's matchers then judge the stream, or, while
    /// several mocks (or none) are candidates, every candidate judges it and one is picked.
    /// Returns the mock whose responder must start now, if one was just picked.
    pub fn on_message<R>(&mut self, mocks: &Vec<Mock<R>>, message: Message) -> (r: Option<usize>)
        requires
            mocks@.len() >= old(self).mock_count(),
            old(self).state().received() < usize::MAX,
        ensures
            final(self).mock_count() == old(self).mock_count(),
            final(self).request_mask() == old(self).request_mask(),
            forall|k: int|
                0 <= k < final(self).judged().len() ==> given_on_stream(
                    (#[trigger] final(self).judged()[k]).0,
                    final(self).judged()[k].1,
                ),
            arrived(final(self).state(), old(self).state(), message),
            r matches Some(i) ==> final(self).active() == seq![i],
            old(self).active().len() >= 1 ==> final(self).active().len() == 1,
            old(self).active().len() == 0 ==> final(self).active().len() == 0 && r is None,
            old(self).active().len() == 1 ==> {
                &&& r is None
                &&& final(self).active() == old(self).active()
                &&& exists|o: (MatchStatus, u64), arrived_state: MatchState|
                    {
                        &&& arrival(arrived_state, old(self).state(), message)
                        &&& stream_outcome(
                            mocks@[old(self).active()[0] as int],
                            arrived_state,
                            final(self).state(),
                            o,
                        )
                        &&& final(self).mask() == old(self).mask() | o.1
                        &&& final(self).no_mismatch() == (old(self).no_mismatch() && o.0
                            != MatchStatus::Mismatch)
                        &&& final(self).judged() == old(self).judged().push(
                            (mocks@[old(self).active()[0] as int].matchers(), final(self).judged().last().1),
                        )
                        &&& o == outcome_of(final(self).judged().last().1)
                    }
            },
            old(self).active().len() != 1 ==> exists|outcomes: Seq<(MatchStatus, u64)>, states: Seq<MatchState>|
                #![trigger message_choice(outcomes, priorities_of(mocks@, old(self).active())), states.len()]
                {
                    &&& outcomes.len() == old(self).active().len()
                    &&& states.len() == outcomes.len() + 1
                    &&& arrival(states[0], old(self).state(), message)
                    &&& states.last() == final(self).state()
                    &&& forall|k: int|
                        0 <= k < outcomes.len() ==> stream_outcome(
                            mocks@[old(self).active()[k] as int],
                            states[k],
                            states[k + 1],
                            #[trigger] outcomes[k],
                        )
                    &&& final(self).no_mismatch() == old(self).no_mismatch()
                    &&& match message_choice(outcomes, priorities_of(mocks@, old(self).active())) {
                        Some(k) => {
                            &&& r == Some(old(self).active()[k])
                            &&& final(self).active() == seq![old(self).active()[k]]
                            &&& final(self).mask() == old(self).mask() | outcomes[k].1
                            &&& final(self).judged() == old(self).judged().push(
                                (mocks@[old(self).active()[k] as int].matchers(), final(self).judged().last().1),
                            )
                            &&& outcomes[k] == outcome_of(final(self).judged().last().1)
                        },
                        None => {
                            &&& r is None
                            &&& final(self).active() == old(self).active()
                            &&& final(self).mask() == old(self).mask()
                            &&& final(self).judged() == old(self).judged()
                        },
                    }
                },
    {
        proof {
            use_type_invariant(&*self);
        }
        let mut taken = Session::placeholder();
        std::mem::swap(self, &mut taken);
        let Session { active, mut mask, mut no_mismatch, mut state, mock_count, request_mask, judged } = taken;
        assert(active@ == old(self).active());
        state.evict();
        state.push_message(message);
        let ghost pushed = state;
        assert(arrival(pushed, old(self).state(), message));
        if active.len() == 1 {
            let chosen = active[0];
            let ghost old_mask = mask;
            let (status, message_mask) = mocks[chosen].check_message(&mut state);
            mask = mask | message_mask;
            if status == MatchStatus::Mismatch {
                no_mismatch = false;
            }
            let ghost matchers = mocks@[chosen as int].matchers();
            let ghost (values, states) = choose|v: Seq<Option<bool>>, st: Seq<MatchState>|
                {
                    &&& stream_answers(matchers, st, v)
                    &&& st[0] == pushed
                    &&& st.last() == state
                    &&& (status, message_mask) == outcome_of(v)
                };
            let ghost e: Judgement = (matchers, values);
            proof {
                assert(stream_outcome(mocks@[chosen as int], pushed, state, (status, message_mask)));
                assert(given_on_stream(e.0, e.1));
                lemma_judge_more(request_mask@, judged@, e, old_mask);
            }
            let judged = Ghost(judged@.push(e));
            *self = Session { active, mask, no_mismatch, state, mock_count, request_mask, judged };
            proof {
                let o = (status, message_mask);
                assert(arrival(pushed, old(self).state(), message));
                assert(stream_outcome(mocks@[old(self).active()[0] as int], pushed, self.state(), o));
                assert(self.mask() == old(self).mask() | o.1);
            }
            return None;
        }
        let mut outcomes: Vec<(MatchStatus, u64)> = Vec::new();
        let mut priorities: Vec<u8> = Vec::new();
        let mut fallback: Vec<u8> = Vec::new();
        let ghost mut states: Seq<MatchState> = seq![pushed];
        let mut k: usize = 0;
        while k < active.len()
            invariant
                k <= active@.len(),
                states.len() == k + 1,
                states[0] == pushed,
                states[k as int] == state,
                mocks@.len() >= mock_count,
                forall|j: int| 0 <= j < active@.len() ==> #[trigger] active@[j] < mock_count,
                outcomes@.len() == k,
                priorities@ == priorities_of(mocks@, active@.take(k as int)),
                fallback@ == fallback_priorities(outcomes@, priorities@),
                forall|j: int|
                    0 <= j < k ==> stream_outcome(mocks@[active@[j] as int], states[j], states[j + 1], #[trigger] outcomes@[j]),
                same_messages(&state, &pushed),
                state.entries().len() > 0,
            decreases active@.len() - k,
        {
            let index = active[k];
            let ghost before = state;
            let outcome = mocks[index].check_message(&mut state);
            proof {
                assert(stream_outcome(mocks@[index as int], before, state, outcome));
                states = states.push(state);
            }
            let priority = mocks[index].get_priority();
            let (status, _m) = outcome;
            outcomes.push(outcome);
            priorities.push(priority);
            if status != MatchStatus::Mismatch {
                fallback.push(priority);
            } else {
                fallback.push(u8::MAX);
            }
            proof {
                assert(active@.take(k + 1) =~= active@.take(k as int).push(index));
                assert(priorities@ =~= priorities_of(mocks@, active@.take(k + 1)));
                assert(fallback@ =~= fallback_priorities(outcomes@, priorities@));
            }
            k = k + 1;
        }
        proof {
            assert(active@.take(active@.len() as int) =~= active@);
        }
        let result = match best_candidate(&outcomes, &priorities) {
            Some(b) => {
                proof {
                    assert forall|c: int| is_best(outcomes@, priorities@, c) implies c == b by {
                        lemma_best_unique(outcomes@, priorities@, c, b as int);
                    }
                }
                let chosen = active[b];
                let (_status, chosen_mask) = outcomes[b];
                proof {
                    assert(message_choice(outcomes@, priorities_of(mocks@, old(self).active())) == Some(b as int));
                }
                let ghost e = judgement_of(mocks@[chosen as int], states[b as int], states[b + 1], outcomes@[b as int]);
                proof {
                    lemma_judgement_of(mocks@[chosen as int], states[b as int], states[b + 1], outcomes@[b as int]);
                    lemma_judge_more(request_mask@, judged@, e, mask);
                }
                mask = mask | chosen_mask;
                let judged = Ghost(judged@.push(e));
                *self = Session { active: vec![chosen], mask, no_mismatch, state, mock_count, request_mask, judged };
                Some(chosen)
            },
            None => match first_min(&fallback) {
                Some(t) => {
                    proof {
                        assert forall|c: int| is_first_min(fallback@, c) implies c == t by {
                            lemma_first_min_unique(fallback@, c, t as int);
                        }
                    }
                    let chosen = active[t];
                    let (_status, chosen_mask) = outcomes[t];
                    proof {
                        assert(!exists|c: int| is_best(outcomes@, priorities@, c));
                        assert(fallback@.len() == outcomes@.len());
                        assert(message_choice(outcomes@, priorities_of(mocks@, old(self).active())) == Some(t as int));
                    }
                    let ghost e = judgement_of(mocks@[chosen as int], states[t as int], states[t + 1], outcomes@[t as int]);
                    proof {
                        lemma_judgement_of(mocks@[chosen as int], states[t as int], states[t + 1], outcomes@[t as int]);
                        lemma_judge_more(request_mask@, judged@, e, mask);
                    }
                    mask = mask | chosen_mask;
                    let judged = Ghost(judged@.push(e));
                    *self = Session { active: vec![chosen], mask, no_mismatch, state, mock_count, request_mask, judged };
                    Some(chosen)
                },
                None => {
                    proof {
                        assert(!exists|c: int| is_best(outcomes@, priorities@, c));
                        assert(message_choice(outcomes@, priorities_of(mocks@, old(self).active())) is None);
                    }
                    *self = Session { active, mask, no_mismatch, state, mock_count, request_mask, judged };
                    None
                },
            },
        };
        result
    }

    /// Whether the connection, now closed, counts as a call of the active mock (the first
    /// candidate, where several remain): every one of its matchers answered `Some(true)` at
    /// least once, and it rejected no message after it became the only candidate. Returns that
    /// mock's position. At least one candidate must remain.
    ///
    /// A call needs every matcher: where the connection counts and every evaluation of the stream
    /// was one by this mock's matchers, each matcher answered `Some(true)` to the upgrade request
    /// or in an evaluation of the stream that no matcher rejected.
    pub fn finish<R>(&self, mocks: &Vec<Mock<R>>) -> (r: Option<usize>)
        requires
            self.active().len() >= 1,
            mocks@.len() >= self.mock_count(),
        ensures
            r == (if self.mask() == full_mask(mocks@[self.active()[0] as int].matcher_count() as u64)
                && self.no_mismatch() {
                Some(self.active()[0])
            } else {
                None
            }),
            forall|k: int|
                0 <= k < self.judged().len() ==> given_on_stream(
                    (#[trigger] self.judged()[k]).0,
                    self.judged()[k].1,
                ),
            r matches Some(i) ==> ((forall|k: int|
                0 <= k < self.judged().len() ==> (#[trigger] self.judged()[k]).0 == mocks@[i as int].matchers())
                ==> forall|j: int|
                0 <= j < mocks@[i as int].matcher_count() ==> has_bit(self.request_mask(), j as u64)
                    || hit_in(judged_answers(self.judged()), j)),
    {
        proof {
            use_type_invariant(self);
        }
        let chosen = self.active[0];
        let expected = mocks[chosen].expected_mask();
        if self.mask == expected && self.no_mismatch {
            proof {
                let ghost mock = mocks@[chosen as int];
                let n = mock.matcher_count() as u64;
                if forall|k: int| 0 <= k < self.judged().len() ==> (#[trigger] self.judged()[k]).0 == mock.matchers() {
                    let answers = judged_answers(self.judged@);
                    assert forall|k: int| 0 <= k < answers.len() implies (#[trigger] answers[k]).len() == n by {
                        assert(self.judged()[k].0 == mock.matchers());
                        assert(given_on_stream(self.judged()[k].0, self.judged()[k].1));
                        assert(answers[k] == self.judged()[k].1);
                    }
                    lemma_full_mask_bits(n);
                    assert forall|j: int| 0 <= j < n implies has_bit(self.request_mask(), j as u64) || hit_in(
                        answers,
                        j,
                    ) by {
                        assert(has_bit(full_mask(n), j as u64));
                        lemma_union_bits(self.request_mask@, masks_joined(evaluation_masks(answers)), j as u64);
                        lemma_joined_bits(answers, n, j as u64);
                    }
                }
            }
            Some(chosen)
        } else {
            None
        }
    }
}

} // verus!
