//! Utility functions and types used by wiremocket.
use std::ops::{Range, RangeFrom, RangeFull, RangeInclusive, RangeTo, RangeToInclusive};
use vstd::prelude::*;

verus! {

#[verifier::external_type_specification]
pub struct ExRangeFull(RangeFull);

#[verifier::external_type_specification]
#[verifier::reject_recursive_types(Idx)]
pub struct ExRangeFrom<Idx>(RangeFrom<Idx>);

#[verifier::external_type_specification]
#[verifier::reject_recursive_types(Idx)]
pub struct ExRangeTo<Idx>(RangeTo<Idx>);

#[verifier::external_type_specification]
#[verifier::reject_recursive_types(Idx)]
pub struct ExRangeToInclusive<Idx>(RangeToInclusive<Idx>);

/// `RangeInclusive::start` hands back the lower bound the range holds.
pub assume_specification<Idx>[ std::ops::RangeInclusive::<Idx>::start ](r: &std::ops::RangeInclusive<Idx>) -> (s: &Idx)
    ensures
        *s == r@.start,
;

/// `RangeInclusive::end` hands back the upper bound the range holds.
pub assume_specification<Idx>[ std::ops::RangeInclusive::<Idx>::end ](r: &std::ops::RangeInclusive<Idx>) -> (e: &Idx)
    ensures
        *e == r@.end,
;

/// The derived `Clone` of `Range` clones each bound.
pub assume_specification<Idx>[ <std::ops::Range<Idx> as std::clone::Clone>::clone ](r: &std::ops::Range<Idx>) -> (c: std::ops::Range<Idx>)
    where
        Idx: std::clone::Clone,
    ensures
        cloned(r.start, c.start),
        cloned(r.end, c.end),
;

/// The derived `Clone` of `RangeFrom` clones its lower bound.
pub assume_specification<Idx>[ <std::ops::RangeFrom<Idx> as std::clone::Clone>::clone ](r: &std::ops::RangeFrom<Idx>) -> (c: std::ops::RangeFrom<Idx>)
    where
        Idx: std::clone::Clone,
    ensures
        cloned(r.start, c.start),
;

/// The derived `Clone` of `RangeTo` clones its upper bound.
pub assume_specification<Idx>[ <std::ops::RangeTo<Idx> as std::clone::Clone>::clone ](r: &std::ops::RangeTo<Idx>) -> (c: std::ops::RangeTo<Idx>)
    where
        Idx: std::clone::Clone,
    ensures
        cloned(r.end, c.end),
;

/// The derived `Clone` of `RangeToInclusive` clones its upper bound.
pub assume_specification<Idx>[ <std::ops::RangeToInclusive<Idx> as std::clone::Clone>::clone ](r: &std::ops::RangeToInclusive<Idx>) -> (c: std::ops::RangeToInclusive<Idx>)
    where
        Idx: std::clone::Clone,
    ensures
        cloned(r.end, c.end),
;

/// The derived `Clone` of `RangeInclusive` clones both bounds and keeps whether the range was
/// exhausted.
pub assume_specification<Idx>[ <std::ops::RangeInclusive<Idx> as std::clone::Clone>::clone ](r: &std::ops::RangeInclusive<Idx>) -> (c: std::ops::RangeInclusive<Idx>)
    where
        Idx: std::clone::Clone,
    ensures
        cloned(r@.start, c@.start),
        cloned(r@.end, c@.end),
        c@.exhausted == r@.exhausted,
;

/// The derived `Clone` of `RangeFull`; the type has a single value.
pub assume_specification[ <std::ops::RangeFull as std::clone::Clone>::clone ](r: &std::ops::RangeFull) -> std::ops::RangeFull;

/// Specify how many times we expect a [`Mock`](crate::Mock) to match via
/// [`expect`](crate::MockBuilder::expect). It is used to set expectations on the usage of a
/// mock in a test case: either an exact value or a range of values.
#[derive(Clone, Debug)]
pub struct Times(TimesEnum);

#[derive(Clone, Debug)]
pub enum TimesEnum {
    Exact(u64),
    Unbounded(RangeFull),
    Range(Range<u64>),
    RangeFrom(RangeFrom<u64>),
    RangeTo(RangeTo<u64>),
    RangeToInclusive(RangeToInclusive<u64>),
    RangeInclusive(RangeInclusive<u64>),
}

/// Whether `n` calls meet the expectation `t`.
pub open spec fn times_admit(t: TimesEnum, n: u64) -> bool {
    match t {
        TimesEnum::Exact(e) => n == e,
        TimesEnum::Unbounded(_) => true,
        TimesEnum::Range(r) => r.start <= n < r.end,
        TimesEnum::RangeFrom(r) => r.start <= n,
        TimesEnum::RangeTo(r) => n < r.end,
        TimesEnum::RangeToInclusive(r) => n <= r.end,
        TimesEnum::RangeInclusive(r) => r@.start <= n && if r@.exhausted {
            n < r@.end
        } else {
            n <= r@.end
        },
    }
}

impl Times {
    /// The expectation this value holds.
    pub closed spec fn kind(self) -> TimesEnum {
        self.0
    }

    /// Whether `n_calls` calls meet this expectation.
    pub open spec fn admits(self, n_calls: u64) -> bool {
        times_admit(self.kind(), n_calls)
    }

    /// Whether `n_calls` calls meet this expectation.
    pub fn contains(&self, n_calls: u64) -> (r: bool)
        ensures
            r == self.admits(n_calls),
    {
        match &self.0 {
            TimesEnum::Exact(e) => *e == n_calls,
            TimesEnum::Unbounded(_) => true,
            TimesEnum::Range(r) => r.start <= n_calls && n_calls < r.end,
            TimesEnum::RangeFrom(r) => r.start <= n_calls,
            TimesEnum::RangeTo(r) => n_calls < r.end,
            TimesEnum::RangeToInclusive(r) => n_calls <= r.end,
            TimesEnum::RangeInclusive(r) => r.contains(&n_calls),
        }
    }
}

impl Default for Times {
    /// By default, no expectation is set: any number of calls passes.
    fn default() -> (t: Times)
        ensures
            t.kind() == TimesEnum::Unbounded(..),
    {
        Times(TimesEnum::Unbounded(..))
    }
}

impl From<u64> for Times {
    fn from(x: u64) -> (t: Times)
        ensures
            t.kind() == TimesEnum::Exact(x),
    {
        Times(TimesEnum::Exact(x))
    }
}

impl vstd::std_specs::convert::FromSpecImpl<u64> for Times {
    open spec fn obeys_from_spec() -> bool {
        true
    }

    closed spec fn from_spec(x: u64) -> Times {
        Times(TimesEnum::Exact(x))
    }
}

impl From<Range<u64>> for Times {
    fn from(r: Range<u64>) -> (t: Times)
        ensures
            t.kind() == TimesEnum::Range(r),
    {
        Times(TimesEnum::Range(r))
    }
}

impl vstd::std_specs::convert::FromSpecImpl<Range<u64>> for Times {
    open spec fn obeys_from_spec() -> bool {
        true
    }

    closed spec fn from_spec(r: Range<u64>) -> Times {
        Times(TimesEnum::Range(r))
    }
}

impl From<RangeFrom<u64>> for Times {
    fn from(r: RangeFrom<u64>) -> (t: Times)
        ensures
            t.kind() == TimesEnum::RangeFrom(r),
    {
        Times(TimesEnum::RangeFrom(r))
    }
}

impl vstd::std_specs::convert::FromSpecImpl<RangeFrom<u64>> for Times {
    open spec fn obeys_from_spec() -> bool {
        true
    }

    closed spec fn from_spec(r: RangeFrom<u64>) -> Times {
        Times(TimesEnum::RangeFrom(r))
    }
}

impl From<RangeTo<u64>> for Times {
    fn from(r: RangeTo<u64>) -> (t: Times)
        ensures
            t.kind() == TimesEnum::RangeTo(r),
    {
        Times(TimesEnum::RangeTo(r))
    }
}

impl vstd::std_specs::convert::FromSpecImpl<RangeTo<u64>> for Times {
    open spec fn obeys_from_spec() -> bool {
        true
    }

    closed spec fn from_spec(r: RangeTo<u64>) -> Times {
        Times(TimesEnum::RangeTo(r))
    }
}

impl From<RangeToInclusive<u64>> for Times {
    fn from(r: RangeToInclusive<u64>) -> (t: Times)
        ensures
            t.kind() == TimesEnum::RangeToInclusive(r),
    {
        Times(TimesEnum::RangeToInclusive(r))
    }
}

impl vstd::std_specs::convert::FromSpecImpl<RangeToInclusive<u64>> for Times {
    open spec fn obeys_from_spec() -> bool {
        true
    }

    closed spec fn from_spec(r: RangeToInclusive<u64>) -> Times {
        Times(TimesEnum::RangeToInclusive(r))
    }
}

impl From<RangeInclusive<u64>> for Times {
    fn from(r: RangeInclusive<u64>) -> (t: Times)
        ensures
            t.kind() == TimesEnum::RangeInclusive(r),
    {
        Times(TimesEnum::RangeInclusive(r))
    }
}

impl vstd::std_specs::convert::FromSpecImpl<RangeInclusive<u64>> for Times {
    open spec fn obeys_from_spec() -> bool {
        true
    }

    closed spec fn from_spec(r: RangeInclusive<u64>) -> Times {
        Times(TimesEnum::RangeInclusive(r))
    }
}

impl From<RangeFull> for Times {
    fn from(r: RangeFull) -> (t: Times)
        ensures
            t.kind() == TimesEnum::Unbounded(r),
    {
        Times(TimesEnum::Unbounded(r))
    }
}

impl vstd::std_specs::convert::FromSpecImpl<RangeFull> for Times {
    open spec fn obeys_from_spec() -> bool {
        true
    }

    closed spec fn from_spec(r: RangeFull) -> Times {
        Times(TimesEnum::Unbounded(r))
    }
}

/// `Times::from(n)` for a number of calls expects exactly `n` calls.
pub proof fn lemma_times_from_u64(n: u64)
    ensures
        <Times as vstd::std_specs::convert::FromSpec<u64>>::from_spec(n).kind() == TimesEnum::Exact(n),
{
}

/// `Times::from(a..b)` expects at least `a` and fewer than `b` calls.
pub proof fn lemma_times_from_range(r: Range<u64>)
    ensures
        <Times as vstd::std_specs::convert::FromSpec<Range<u64>>>::from_spec(r).kind() == TimesEnum::Range(r),
{
}

/// `Times::from(a..)` expects at least `a` calls.
pub proof fn lemma_times_from_range_from(r: RangeFrom<u64>)
    ensures
        <Times as vstd::std_specs::convert::FromSpec<RangeFrom<u64>>>::from_spec(r).kind() == TimesEnum::RangeFrom(r),
{
}

/// `Times::from(..b)` expects fewer than `b` calls.
pub proof fn lemma_times_from_range_to(r: RangeTo<u64>)
    ensures
        <Times as vstd::std_specs::convert::FromSpec<RangeTo<u64>>>::from_spec(r).kind() == TimesEnum::RangeTo(r),
{
}

/// `Times::from(..=b)` expects at most `b` calls.
pub proof fn lemma_times_from_range_to_inclusive(r: RangeToInclusive<u64>)
    ensures
        <Times as vstd::std_specs::convert::FromSpec<RangeToInclusive<u64>>>::from_spec(r).kind()
            == TimesEnum::RangeToInclusive(r),
{
}

/// `Times::from(a..=b)` expects between `a` and `b` calls, both included.
pub proof fn lemma_times_from_range_inclusive(r: RangeInclusive<u64>)
    ensures
        <Times as vstd::std_specs::convert::FromSpec<RangeInclusive<u64>>>::from_spec(r).kind()
            == TimesEnum::RangeInclusive(r),
{
}

/// `Times::from(..)` admits any number of calls.
pub proof fn lemma_times_from_range_full(r: RangeFull)
    ensures
        <Times as vstd::std_specs::convert::FromSpec<RangeFull>>::from_spec(r).kind() == TimesEnum::Unbounded(r),
{
}

/// The character of decimal digit `d`.
pub open spec fn digit_char(d: nat) -> char {
    (48 + d) as char
}

/// The decimal digits of `n`, most significant first.
pub open spec fn decimal(n: nat) -> Seq<char>
    decreases n,
{
    if n < 10 {
        seq![digit_char(n)]
    } else {
        decimal(n / 10).push(digit_char(n % 10))
    }
}

/// The text that describes the expectation `t`.
pub open spec fn times_text(t: TimesEnum) -> Seq<char> {
    match t {
        TimesEnum::Exact(e) => "== "@ + decimal(e as nat),
        TimesEnum::Unbounded(_) => "0 <= x"@,
        TimesEnum::Range(r) => decimal(r.start as nat) + " <= x < "@ + decimal(r.end as nat),
        TimesEnum::RangeFrom(r) => decimal(r.start as nat) + " <= x"@,
        TimesEnum::RangeTo(r) => "0 <= x < "@ + decimal(r.end as nat),
        TimesEnum::RangeToInclusive(r) => "0 <= x <= "@ + decimal(r.end as nat),
        TimesEnum::RangeInclusive(r) => decimal(r@.start as nat) + " <= x <= "@ + decimal(
            r@.end as nat,
        ),
    }
}

fn digit_text(d: u64) -> (s: &'static str)
    requires
        d < 10,
    ensures
        s@ == seq![digit_char(d as nat)],
{
    match d {
        0 => { proof { reveal_strlit("0"); } "0" },
        1 => { proof { reveal_strlit("1"); } "1" },
        2 => { proof { reveal_strlit("2"); } "2" },
        3 => { proof { reveal_strlit("3"); } "3" },
        4 => { proof { reveal_strlit("4"); } "4" },
        5 => { proof { reveal_strlit("5"); } "5" },
        6 => { proof { reveal_strlit("6"); } "6" },
        7 => { proof { reveal_strlit("7"); } "7" },
        8 => { proof { reveal_strlit("8"); } "8" },
        _ => { proof { reveal_strlit("9"); } "9" },
    }
}

/// Writes `n` in decimal.
pub fn decimal_text(n: u64) -> (s: String)
    ensures
        s@ == decimal(n as nat),
    decreases n,
{
    if n < 10 {
        let mut s = String::new();
        s.append(digit_text(n));
        s
    } else {
        let mut s = decimal_text(n / 10);
        s.append(digit_text(n % 10));
        s
    }
}

impl Times {
    /// Describes the expectation in terms of a call count `x`, e.g. `2 <= x < 5`.
    pub fn describe(&self) -> (s: String)
        ensures
            s@ == times_text(self.kind()),
    {
        match &self.0 {
            TimesEnum::Exact(e) => {
                let mut s = String::new();
                s.append("== ");
                s.append(decimal_text(*e).as_str());
                s
            },
            TimesEnum::Unbounded(_) => {
                let mut s = String::new();
                s.append("0 <= x");
                s
            },
            TimesEnum::Range(r) => {
                let mut s = decimal_text(r.start);
                s.append(" <= x < ");
                s.append(decimal_text(r.end).as_str());
                s
            },
            TimesEnum::RangeFrom(r) => {
                let mut s = decimal_text(r.start);
                s.append(" <= x");
                s
            },
            TimesEnum::RangeTo(r) => {
                let mut s = String::new();
                s.append("0 <= x < ");
                s.append(decimal_text(r.end).as_str());
                s
            },
            TimesEnum::RangeToInclusive(r) => {
                let mut s = String::new();
                s.append("0 <= x <= ");
                s.append(decimal_text(r.end).as_str());
                s
            },
            TimesEnum::RangeInclusive(r) => {
                let mut s = decimal_text(*r.start());
                s.append(" <= x <= ");
                s.append(decimal_text(*r.end()).as_str());
                s
            },
        }
    }
}

} // verus!
