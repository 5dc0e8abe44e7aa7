//! A collection of different matching strategies provided out-of-the-box by `wiremocket`.
//!
//! If the set of matchers provided out-of-the-box is not enough for your specific testing needs
//! you can implement your own thanks to the [`Match`] trait.
//!
//! Furthermore, `Fn` closures that take an immutable [`Message`] reference as input and return
//! an `Option<bool>` automatically implement [`Match`] and can be used where a matcher is
//! expected for unary stream matching.
use crate::message::Message;
use crate::request::{
    bytes_contain, bytes_equal, header_map_contents, header_name_of, header_present, header_values,
    lemma_header_name_canonical, occurs_in, parse_header_name, text_equal, values_under, QueryParams,
};
use axum::http::HeaderMap;
use crate::Match;
use vstd::prelude::*;
use vstd::string::StringSliceAdditionalSpecFns;
use vstd::utf8::encode_utf8;

verus! {

/// Whether `serde_json` parses `text` as a JSON value.
pub uninterp spec fn json_text_is_valid(text: Seq<char>) -> bool;

/// Whether `serde_json` parses `bytes` as a JSON value.
pub uninterp spec fn json_bytes_are_valid(bytes: Seq<u8>) -> bool;

/// A byte that `http::HeaderValue` accepts in a header value: a space or anything above it but
/// DEL, or a tab.
pub open spec fn header_value_byte(b: u8) -> bool {
    (b >= 32 && b != 127) || b == 9
}

/// Whether every byte of `value` may stand in a header value.
pub open spec fn header_value_ok(value: Seq<u8>) -> bool {
    forall|i: int| 0 <= i < value.len() ==> header_value_byte(#[trigger] value[i])
}

/// `http::HeaderValue::try_from(&str)`: it accepts the string exactly when every byte is a
/// space, a visible character, a tab or a byte of 128 or above, and then holds the string's
/// bytes unchanged.
#[verifier::external_body]
fn parse_header_value(value: &str) -> (r: Option<Vec<u8>>)
    ensures
        r is Some <==> header_value_ok(value.spec_bytes()),
        r matches Some(v) ==> v@ == value.spec_bytes(),
{
    match axum::http::HeaderValue::try_from(value) {
        Ok(v) => Some(v.as_bytes().to_vec()),
        Err(_) => None,
    }
}

/// `serde_json::from_str::<serde_json::Value>(text).is_ok()`, named by [`json_text_is_valid`].
#[verifier::external_body]
fn parses_as_json_text(text: &str) -> (r: bool)
    ensures
        r == json_text_is_valid(text@),
{
    serde_json::from_str::<serde_json::Value>(text).is_ok()
}

/// `serde_json::from_slice::<serde_json::Value>(bytes).is_ok()`, named by
/// [`json_bytes_are_valid`].
#[verifier::external_body]
fn parses_as_json_bytes(bytes: &[u8]) -> (r: bool)
    ensures
        r == json_bytes_are_valid(bytes@),
{
    serde_json::from_slice::<serde_json::Value>(bytes).is_ok()
}

/// Match exactly the path of a request.
pub struct PathExactMatcher(String);

/// Shorthand for [`PathExactMatcher::new`].
pub fn path(route: &str) -> (m: PathExactMatcher)
    ensures
        m.path() == route@,
{
    PathExactMatcher::new(route)
}

impl PathExactMatcher {
    /// The path this matcher accepts.
    pub closed spec fn path(&self) -> Seq<char> {
        self.0@
    }

    /// Creates a new `PathExactMatcher`.
    pub fn new(path: &str) -> (m: Self)
        ensures
            m.path() == path@,
    {
        Self(path.to_owned())
    }
}

impl Match for PathExactMatcher {
    open spec fn admits_request_answer(&self, path: Seq<char>, headers: HeaderMap, query: QueryParams, answer: Option<bool>) -> bool {
        answer == Some(self.path() == path)
    }

    fn request_match(&self, path: &str, _headers: &HeaderMap, _query: &QueryParams) -> (r: Option<bool>)
        ensures
            r == Some(self.path() == path@),
    {
        Some(text_equal(self.0.as_str(), path))
    }
}

/// Match exactly the header of a request: every one of the given values must be among the values
/// the request gives to the header.
pub struct HeaderExactMatcher(String, Vec<Vec<u8>>);

impl HeaderExactMatcher {
    /// The canonical header name, as bytes.
    pub closed spec fn name(&self) -> Seq<u8> {
        encode_utf8(self.0@)
    }

    #[verifier::type_invariant]
    closed spec fn name_canonical(&self) -> bool {
        header_name_of(self.name()) == Some(self.name())
    }

    /// The values that must all be present.
    pub closed spec fn values(&self) -> Seq<Seq<u8>> {
        self.1@.map_values(|v: Vec<u8>| v@)
    }

    /// Create a new `HeaderExactMatcher`. Multiple `values` are provided for instances when the
    /// header should be present more than once. The name and every value must be valid.
    pub fn new(name: &str, values: Vec<&str>) -> (m: Self)
        requires
            header_name_of(name.spec_bytes()) is Some,
            forall|i: int| 0 <= i < values@.len() ==> header_value_ok(#[trigger] values@[i].spec_bytes()),
        ensures
            header_name_of(name.spec_bytes()) == Some(m.name()),
            m.values() == values@.map_values(|v: &str| v.spec_bytes()),
    {
        let n = parse_header_name(name).unwrap();
        proof {
            lemma_header_name_canonical(name.spec_bytes());
        }
        let mut vals: Vec<Vec<u8>> = Vec::new();
        let mut i: usize = 0;
        while i < values.len()
            invariant
                i <= values@.len(),
                forall|j: int| 0 <= j < values@.len() ==> header_value_ok(#[trigger] values@[j].spec_bytes()),
                vals@.map_values(|v: Vec<u8>| v@) == values@.take(i as int).map_values(|v: &str| v.spec_bytes()),
            decreases values@.len() - i,
        {
            let v = parse_header_value(values[i]).unwrap();
            assert(v@ == values@[i as int].spec_bytes());
            vals.push(v);
            proof {
                assert(values@.take(i + 1) =~= values@.take(i as int).push(values@[i as int]));
                assert(values@.take(i + 1).map_values(|v: &str| v.spec_bytes()) =~= values@.take(i as int).map_values(|v: &str| v.spec_bytes()).push(values@[i as int].spec_bytes()));
                assert(vals@.map_values(|v: Vec<u8>| v@) =~= values@.take(i + 1).map_values(|v: &str| v.spec_bytes()));
            }
            i = i + 1;
        }
        proof {
            assert(values@.take(values@.len() as int) =~= values@);
        }
        Self(n, vals)
    }

    /// Like [`HeaderExactMatcher::new`], but gives `None` where the name or a value is invalid.
    pub fn try_new(name: &str, values: Vec<&str>) -> (m: Option<Self>)
        ensures
            m is Some <==> (header_name_of(name.spec_bytes()) is Some && forall|i: int|
                0 <= i < values@.len() ==> header_value_ok(#[trigger] values@[i].spec_bytes())),
            m matches Some(m) ==> header_name_of(name.spec_bytes()) == Some(m.name())
                && m.values() == values@.map_values(|v: &str| v.spec_bytes()),
    {
        if parse_header_name(name).is_none() {
            return None;
        }
        let mut i: usize = 0;
        while i < values.len()
            invariant
                i <= values@.len(),
                forall|j: int| 0 <= j < i ==> header_value_ok(#[trigger] values@[j].spec_bytes()),
            decreases values@.len() - i,
        {
            if parse_header_value(values[i]).is_none() {
                return None;
            }
            i = i + 1;
        }
        Some(Self::new(name, values))
    }
}

impl Match for HeaderExactMatcher {
    open spec fn admits_request_answer(&self, path: Seq<char>, headers: HeaderMap, query: QueryParams, answer: Option<bool>) -> bool {
        answer == Some(
            forall|i: int| 0 <= i < self.values().len() ==> values_under(header_map_contents(headers), self.name()).contains(
                #[trigger] self.values()[i],
            ),
        )
    }

    fn request_match(&self, _path: &str, headers: &HeaderMap, _query: &QueryParams) -> (r: Option<bool>)
        ensures
            r == Some(
                forall|i: int| 0 <= i < self.values().len() ==> values_under(header_map_contents(*headers), self.name()).contains(
                    #[trigger] self.values()[i],
                ),
            ),
    {
        proof {
            use_type_invariant(self);
        }
        let all_values = header_values(headers, self.0.as_str());
        let ghost present = values_under(header_map_contents(*headers), self.name());
        let mut i: usize = 0;
        while i < self.1.len()
            invariant
                i <= self.values().len(),
                self.values().len() == self.1@.len(),
                all_values@.map_values(|v: Vec<u8>| v@) == present,
                present == values_under(header_map_contents(*headers), self.name()),
                forall|j: int| 0 <= j < i ==> present.contains(#[trigger] self.values()[j]),
            decreases self.1@.len() - i,
        {
            let wanted = self.1[i].as_slice();
            assert(wanted@ == self.values()[i as int]);
            let mut k: usize = 0;
            let mut found = false;
            while k < all_values.len() && !found
                invariant
                    k <= all_values@.len(),
                    i < self.values().len(),
                    present == values_under(header_map_contents(*headers), self.name()),
                    all_values@.map_values(|v: Vec<u8>| v@) == present,
                    wanted@ == self.values()[i as int],
                    found ==> present.contains(wanted@),
                    !found ==> forall|j: int| 0 <= j < k ==> present[j] != wanted@,
                decreases all_values@.len() - k,
            {
                if bytes_equal(all_values[k].as_slice(), wanted) {
                    assert(present[k as int] == all_values@[k as int]@);
                    found = true;
                } else {
                    assert(present[k as int] == all_values@[k as int]@);
                }
                k = k + 1;
            }
            if !found {
                proof {
                    assert(present.len() == all_values@.len());
                    assert(!present.contains(self.values()[i as int]));
                    assert(present == values_under(header_map_contents(*headers), self.name()));
                    assert(!(forall|j: int| 0 <= j < self.values().len() ==> values_under(header_map_contents(*headers), self.name()).contains(
                        #[trigger] self.values()[j])));
                }
                return Some(false);
            }
            i = i + 1;
        }
        Some(true)
    }
}

/// Match exactly the header name of a request. It checks that the header is present but does not
/// validate the value.
pub struct HeaderExistsMatcher(String);

impl HeaderExistsMatcher {
    /// The canonical header name, as bytes.
    pub closed spec fn name(&self) -> Seq<u8> {
        encode_utf8(self.0@)
    }

    #[verifier::type_invariant]
    closed spec fn name_canonical(&self) -> bool {
        header_name_of(self.name()) == Some(self.name())
    }

    /// Creates a new `HeaderExistsMatcher`. The name must be valid.
    pub fn new(name: &str) -> (m: Self)
        requires
            header_name_of(name.spec_bytes()) is Some,
        ensures
            header_name_of(name.spec_bytes()) == Some(m.name()),
    {
        let n = parse_header_name(name).unwrap();
        proof {
            lemma_header_name_canonical(name.spec_bytes());
        }
        Self(n)
    }

    /// Like [`HeaderExistsMatcher::new`], but gives `None` where the name is invalid.
    pub fn try_new(name: &str) -> (m: Option<Self>)
        ensures
            m is Some <==> header_name_of(name.spec_bytes()) is Some,
            m matches Some(m) ==> header_name_of(name.spec_bytes()) == Some(m.name()),
    {
        match parse_header_name(name) {
            Some(n) => {
                proof {
                    lemma_header_name_canonical(name.spec_bytes());
                }
                Some(Self(n))
            },
            None => None,
        }
    }
}

impl Match for HeaderExistsMatcher {
    open spec fn admits_request_answer(&self, path: Seq<char>, headers: HeaderMap, query: QueryParams, answer: Option<bool>) -> bool {
        answer == Some(header_map_contents(headers).contains_key(self.name()))
    }

    fn request_match(&self, _path: &str, headers: &HeaderMap, _query: &QueryParams) -> (r: Option<bool>)
        ensures
            r == Some(header_map_contents(*headers).contains_key(self.name())),
    {
        proof {
            use_type_invariant(self);
        }
        Some(header_present(headers, self.0.as_str()))
    }
}

/// Match exactly the query parameter of a request.
pub struct QueryParamExactMatcher {
    name: String,
    value: String,
}

impl QueryParamExactMatcher {
    pub closed spec fn name(&self) -> Seq<char> {
        self.name@
    }

    pub closed spec fn value(&self) -> Seq<char> {
        self.value@
    }

    /// Create a new `QueryParamExactMatcher`.
    pub fn new(name: &str, value: &str) -> (m: Self)
        ensures
            m.name() == name@,
            m.value() == value@,
    {
        Self { name: name.to_owned(), value: value.to_owned() }
    }
}

impl Match for QueryParamExactMatcher {
    open spec fn admits_request_answer(&self, path: Seq<char>, headers: HeaderMap, query: QueryParams, answer: Option<bool>) -> bool {
        answer == Some(query@.dom().contains(self.name()) && query@[self.name()] == self.value())
    }

    fn request_match(&self, _path: &str, _headers: &HeaderMap, query: &QueryParams) -> (r: Option<bool>)
        ensures
            r == Some(query@.dom().contains(self.name()) && query@[self.name()] == self.value()),
    {
        match query.get(self.name.as_str()) {
            Some(v) => Some(text_equal(v.as_str(), self.value.as_str())),
            None => Some(false),
        }
    }
}

/// Match when a query parameter contains the specified value as a substring.
pub struct QueryParamContainsMatcher {
    name: String,
    value: String,
}

impl QueryParamContainsMatcher {
    pub closed spec fn name(&self) -> Seq<char> {
        self.name@
    }

    pub closed spec fn value(&self) -> Seq<char> {
        self.value@
    }

    /// Create a new `QueryParamContainsMatcher`
    pub fn new(name: &str, value: &str) -> (m: Self)
        ensures
            m.name() == name@,
            m.value() == value@,
    {
        Self { name: name.to_owned(), value: value.to_owned() }
    }
}

impl Match for QueryParamContainsMatcher {
    open spec fn admits_request_answer(&self, path: Seq<char>, headers: HeaderMap, query: QueryParams, answer: Option<bool>) -> bool {
        answer == Some(
            query@.dom().contains(self.name()) && occurs_in(
                vstd::utf8::encode_utf8(query@[self.name()]),
                vstd::utf8::encode_utf8(self.value()),
            ),
        )
    }

    fn request_match(&self, _path: &str, _headers: &HeaderMap, query: &QueryParams) -> (r: Option<bool>)
        ensures
            r == Some(
                query@.dom().contains(self.name()) && occurs_in(
                    vstd::utf8::encode_utf8(query@[self.name()]),
                    vstd::utf8::encode_utf8(self.value()),
                ),
            ),
    {
        if let Some(s) = query.get(self.name.as_str()) {
            Some(bytes_contain(s.as_str().as_bytes(), self.value.as_str().as_bytes()))
        } else {
            Some(false)
        }
    }
}

/// Only match requests that do not contain a specified query parameter.
pub struct QueryParamIsMissingMatcher(String);

impl QueryParamIsMissingMatcher {
    pub closed spec fn name(&self) -> Seq<char> {
        self.0@
    }

    /// Create a new `QueryParamIsMissingMatcher`.
    pub fn new(name: &str) -> (m: Self)
        ensures
            m.name() == name@,
    {
        Self(name.to_owned())
    }
}

impl Match for QueryParamIsMissingMatcher {
    open spec fn admits_request_answer(&self, path: Seq<char>, headers: HeaderMap, query: QueryParams, answer: Option<bool>) -> bool {
        answer == Some(!query@.dom().contains(self.name()))
    }

    fn request_match(&self, _path: &str, _headers: &HeaderMap, query: &QueryParams) -> (r: Option<bool>)
        ensures
            r == Some(!query@.dom().contains(self.name())),
    {
        Some(!query.contains_key(self.0.as_str()))
    }
}

/// Match requests where the session is terminated with a `CloseFrame` from the client.
pub struct CloseFrameReceivedMatcher;

impl Match for CloseFrameReceivedMatcher {
    open spec fn admits_message_answer(&self, message: Message, answer: Option<bool>) -> bool {
        answer == (if message is Close { Some(true) } else { None::<bool> })
    }

    fn unary_match(&self, msg: &Message) -> (r: Option<bool>)
        ensures
            r == (if msg is Close { Some(true) } else { None::<bool> }),
    {
        match msg {
            Message::Close(_) => Some(true),
            _ => None,
        }
    }
}

/// Match that every `Message::Binary` and `Message::Text` received by the server is valid
/// json.
pub struct ValidJsonMatcher;

impl Match for ValidJsonMatcher {
    open spec fn admits_message_answer(&self, message: Message, answer: Option<bool>) -> bool {
        answer == match message {
            Message::Text(t) => Some(json_text_is_valid(t@)),
            Message::Binary(b) => Some(json_bytes_are_valid(b@)),
            _ => None::<bool>,
        }
    }

    fn unary_match(&self, msg: &Message) -> (r: Option<bool>)
        ensures
            r == match msg {
                Message::Text(t) => Some(json_text_is_valid(t@)),
                Message::Binary(b) => Some(json_bytes_are_valid(b@)),
                _ => None::<bool>,
            },
    {
        match msg {
            Message::Text(t) => Some(parses_as_json_text(t.as_str())),
            Message::Binary(b) => Some(parses_as_json_bytes(b.as_slice())),
            _ => None,
        }
    }
}

} // verus!
