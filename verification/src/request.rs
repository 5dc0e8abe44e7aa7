//! What a websocket upgrade request carries that matchers can inspect: its headers and its query
//! parameters.
use axum::http::{HeaderMap, HeaderName, HeaderValue};
use vstd::prelude::*;
use vstd::string::StringSliceAdditionalSpecFns;
use vstd::utf8::encode_utf8;

verus! {

/// Whether `needle` occurs as a contiguous run inside `haystack`.
pub open spec fn occurs_in(haystack: Seq<u8>, needle: Seq<u8>) -> bool {
    exists|i: int|
        0 <= i && i + needle.len() <= haystack.len() && #[trigger] haystack.subrange(
            i,
            i + needle.len(),
        ) == needle
}

/// Compares two byte strings.
pub fn bytes_equal(a: &[u8], b: &[u8]) -> (r: bool)
    ensures
        r == (a@ == b@),
{
    if a.len() != b.len() {
        return false;
    }
    let mut i: usize = 0;
    while i < a.len()
        invariant
            a@.len() == b@.len(),
            i <= a@.len(),
            forall|j: int| 0 <= j < i ==> a@[j] == b@[j],
        decreases a@.len() - i,
    {
        if a[i] != b[i] {
            return false;
        }
        i = i + 1;
    }
    assert(a@ =~= b@);
    true
}

/// Compares two strings.
pub fn text_equal(a: &str, b: &str) -> (r: bool)
    ensures
        r == (a@ == b@),
{
    let r = bytes_equal(a.as_bytes(), b.as_bytes());
    proof {
        vstd::utf8::encode_utf8_decode_utf8(a@);
        vstd::utf8::encode_utf8_decode_utf8(b@);
    }
    r
}

/// Whether the run `needle` starts at position `at` of `haystack`.
fn occurs_at(haystack: &[u8], needle: &[u8], at: usize) -> (r: bool)
    requires
        at + needle@.len() <= haystack@.len(),
    ensures
        r == (haystack@.subrange(at as int, at + needle@.len()) == needle@),
{
    let mut j: usize = 0;
    let hl = haystack.len();
    while j < needle.len()
        invariant
            at + needle@.len() <= haystack@.len(),
            hl == haystack@.len(),
            j <= needle@.len(),
            forall|k: int| 0 <= k < j ==> haystack@[at + k] == needle@[k],
        decreases needle@.len() - j,
    {
        if haystack[at + j] != needle[j] {
            assert(haystack@.subrange(at as int, at + needle@.len())[j as int] != needle@[j as int]);
            return false;
        }
        j = j + 1;
    }
    assert(haystack@.subrange(at as int, at + needle@.len()) =~= needle@);
    true
}

/// Whether `needle` occurs inside `haystack`.
pub fn bytes_contain(haystack: &[u8], needle: &[u8]) -> (r: bool)
    ensures
        r == occurs_in(haystack@, needle@),
{
    if needle.len() > haystack.len() {
        return false;
    }
    let last = haystack.len() - needle.len();
    let mut i: usize = 0;
    while i < last
        invariant
            last + needle@.len() == haystack@.len(),
            i <= last,
            forall|k: int|
                0 <= k < i ==> #[trigger] haystack@.subrange(k, k + needle@.len()) != needle@,
        decreases last - i,
    {
        if occurs_at(haystack, needle, i) {
            return true;
        }
        i = i + 1;
    }
    occurs_at(haystack, needle, last)
}

/// Whether `b` may stand in a header name: a token character of RFC 7230 (a letter, a digit or
/// one of ``!#$%&'*+-.^_`|~``).
pub open spec fn header_name_byte(b: u8) -> bool {
    (48 <= b <= 57) || (65 <= b <= 90) || (97 <= b <= 122) || b == 33 || (35 <= b <= 39) || b == 42
        || b == 43 || b == 45 || b == 46 || (94 <= b <= 96) || b == 124 || b == 126
}

/// `b` in lower case.
pub open spec fn lower_byte(b: u8) -> u8 {
    if 65 <= b <= 90 {
        (b + 32) as u8
    } else {
        b
    }
}

/// The canonical header name of the bytes `name`: `None` unless it holds between 1 and 65535
/// token characters, and otherwise those characters in lower case.
pub open spec fn header_name_of(name: Seq<u8>) -> Option<Seq<u8>> {
    if 1 <= name.len() <= 65535 && forall|i: int| 0 <= i < name.len() ==> header_name_byte(#[trigger] name[i]) {
        Some(name.map_values(|b: u8| lower_byte(b)))
    } else {
        None
    }
}

/// A canonical header name is its own canonical name.
pub proof fn lemma_header_name_canonical(name: Seq<u8>)
    requires
        header_name_of(name) is Some,
    ensures
        header_name_of(header_name_of(name)->0) == header_name_of(name),
{
    let c = name.map_values(|b: u8| lower_byte(b));
    assert forall|i: int| 0 <= i < c.len() implies header_name_byte(#[trigger] c[i]) by {
        assert(header_name_byte(name[i]));
    }
    assert(c.map_values(|b: u8| lower_byte(b)) =~= c);
}

/// `http::HeaderName::try_from(&str)`: it accepts the string exactly when [`header_name_of`]
/// gives a name for its bytes, and then `HeaderName::as_str` holds that name.
#[verifier::external_body]
pub(crate) fn parse_header_name(name: &str) -> (r: Option<String>)
    ensures
        r matches Some(s) ==> header_name_of(name.spec_bytes()) == Some(encode_utf8(s@)),
        r is None ==> header_name_of(name.spec_bytes()) is None,
{
    match HeaderName::try_from(name) {
        Ok(n) => Some(n.as_str().to_string()),
        Err(_) => None,
    }
}

#[verifier::external_type_specification]
#[verifier::external_body]
#[verifier::reject_recursive_types(T)]
pub struct ExHeaderMap<T>(HeaderMap<T>);

#[verifier::external_type_specification]
#[verifier::external_body]
pub struct ExHeaderValue(HeaderValue);

/// What a `HeaderMap` holds: under each canonical header name present, the bytes of its values
/// in insertion order.
pub uninterp spec fn header_map_contents(map: HeaderMap) -> Map<Seq<u8>, Seq<Seq<u8>>>;

/// The values held under the canonical name `name`, in insertion order; none where it is absent.
pub open spec fn values_under(contents: Map<Seq<u8>, Seq<Seq<u8>>>, name: Seq<u8>) -> Seq<Seq<u8>> {
    if contents.contains_key(name) {
        contents[name]
    } else {
        Seq::empty()
    }
}

/// The values that a lookup by the string bytes `name` finds: the name is put in canonical form
/// first, and bytes that are no header name find nothing.
pub open spec fn lookup_values(contents: Map<Seq<u8>, Seq<Seq<u8>>>, name: Seq<u8>) -> Seq<Seq<u8>> {
    match header_name_of(name) {
        Some(n) => values_under(contents, n),
        None => Seq::empty(),
    }
}

/// Whether a lookup by the string bytes `name` finds a header.
pub open spec fn lookup_finds(contents: Map<Seq<u8>, Seq<Seq<u8>>>, name: Seq<u8>) -> bool {
    header_name_of(name) matches Some(n) && contents.contains_key(n)
}

/// `HeaderMap::get_all(name)` with a string key: the key is put in canonical form (a string that
/// is no header name finds nothing), and the values held under it come out in insertion order,
/// each as its bytes.
#[verifier::external_body]
pub(crate) fn header_values(map: &HeaderMap, name: &str) -> (r: Vec<Vec<u8>>)
    ensures
        r@.map_values(|v: Vec<u8>| v@) == lookup_values(header_map_contents(*map), name.spec_bytes()),
{
    map.get_all(name).iter().map(|v| v.as_bytes().to_vec()).collect()
}

/// `HeaderMap::contains_key(name)` with a string key: whether a header is held under the
/// canonical form of `name` (a string that is no header name is never found).
#[verifier::external_body]
pub(crate) fn header_present(map: &HeaderMap, name: &str) -> (r: bool)
    ensures
        r == lookup_finds(header_map_contents(*map), name.spec_bytes()),
{
    map.contains_key(name)
}

/// Keys that occur at most once.
pub open spec fn keys_distinct(pairs: Seq<(Seq<char>, Seq<char>)>) -> bool {
    forall|i: int, j: int|
        0 <= i < j < pairs.len() ==> (#[trigger] pairs[i]).0 != (#[trigger] pairs[j]).0
}

/// The map of keys to values that distinct-keyed pairs describe.
pub open spec fn pairs_map(pairs: Seq<(Seq<char>, Seq<char>)>) -> Map<Seq<char>, Seq<char>> {
    Map::new(
        |k: Seq<char>| exists|i: int| 0 <= i < pairs.len() && #[trigger] pairs[i].0 == k,
        |k: Seq<char>| pairs[choose|i: int| 0 <= i < pairs.len() && #[trigger] pairs[i].0 == k].1,
    )
}

/// The query parameters of a request: each name maps to one value.
pub struct QueryParams {
    pairs: Vec<(String, String)>,
}

impl QueryParams {
    /// The (name, value) pairs, in insertion order.
    pub closed spec fn pairs(&self) -> Seq<(Seq<char>, Seq<char>)> {
        self.pairs@.map_values(|p: (String, String)| (p.0@, p.1@))
    }

    #[verifier::type_invariant]
    closed spec fn names_unique(&self) -> bool {
        keys_distinct(self.pairs())
    }
}

impl View for QueryParams {
    type V = Map<Seq<char>, Seq<char>>;

    closed spec fn view(&self) -> Map<Seq<char>, Seq<char>> {
        pairs_map(self.pairs())
    }
}

/// Finds the position of the pair named `name`.
fn find_name(pairs: &Vec<(String, String)>, name: &str) -> (r: Option<usize>)
    ensures
        r matches Some(k) ==> k < pairs@.len() && pairs@[k as int].0@ == name@,
        r is None ==> forall|k: int| 0 <= k < pairs@.len() ==> pairs@[k].0@ != name@,
{
    let mut k: usize = 0;
    while k < pairs.len()
        invariant
            k <= pairs@.len(),
            forall|j: int| 0 <= j < k ==> pairs@[j].0@ != name@,
        decreases pairs@.len() - k,
    {
        if text_equal(pairs[k].0.as_str(), name) {
            return Some(k);
        }
        k = k + 1;
    }
    None
}

impl QueryParams {
    /// No parameters.
    pub fn new() -> (q: QueryParams)
        ensures
            q@ == Map::<Seq<char>, Seq<char>>::empty(),
    {
        let q = QueryParams { pairs: Vec::new() };
        assert(q@ =~= Map::<Seq<char>, Seq<char>>::empty());
        q
    }

    /// Sets the parameter `name` to `value`, replacing any value it had.
    pub fn insert(&mut self, name: String, value: String)
        ensures
            final(self)@ == old(self)@.insert(name@, value@),
    {
        proof {
            use_type_invariant(&*self);
        }
        let mut taken = QueryParams::new();
        std::mem::swap(self, &mut taken);
        let QueryParams { mut pairs } = taken;
        let ghost before = pairs@.map_values(|p: (String, String)| (p.0@, p.1@));
        let found = find_name(&pairs, name.as_str());
        let ghost key = name@;
        let ghost val = value@;
        assert(before == old(self).pairs());
        match found {
            Some(k) => {
                pairs.set(k, (name, value));
                proof {
                    let after = pairs@.map_values(|p: (String, String)| (p.0@, p.1@));
                    assert(before[k as int].0 == key);
                    assert(after =~= before.update(k as int, (key, val)));
                    assert(keys_distinct(after));
                    assert(pairs_map(after) =~= pairs_map(before).insert(key, val)) by {
                        assert forall|n: Seq<char>| pairs_map(after).dom().contains(n)
                            implies pairs_map(after)[n] == pairs_map(before).insert(key, val)[n] by {
                            let i = choose|i: int| 0 <= i < after.len() && #[trigger] after[i].0 == n;
                            if n != key {
                                assert(before[i].0 == n);
                                let j = choose|j: int| 0 <= j < before.len() && #[trigger] before[j].0 == n;
                                assert(i == j);
                            }
                        }
                        assert forall|n: Seq<char>| pairs_map(before).insert(key, val).dom().contains(n)
                            implies pairs_map(after).dom().contains(n) by {
                            if n == key {
                                assert(after[k as int].0 == n);
                            } else {
                                let j = choose|j: int| 0 <= j < before.len() && #[trigger] before[j].0 == n;
                                assert(after[j].0 == n);
                            }
                        }
                    }
                }
                self.pairs_set(pairs);
            },
            None => {
                pairs.push((name, value));
                proof {
                    let after = pairs@.map_values(|p: (String, String)| (p.0@, p.1@));
                    assert(after =~= before.push((key, val)));
                    assert(keys_distinct(after));
                    assert(pairs_map(after) =~= pairs_map(before).insert(key, val)) by {
                        assert forall|n: Seq<char>| pairs_map(after).dom().contains(n)
                            implies pairs_map(after)[n] == pairs_map(before).insert(key, val)[n] by {
                            let i = choose|i: int| 0 <= i < after.len() && #[trigger] after[i].0 == n;
                            if n != key {
                                assert(before[i].0 == n);
                                let j = choose|j: int| 0 <= j < before.len() && #[trigger] before[j].0 == n;
                                assert(i == j);
                            } else {
                                assert(i == before.len());
                            }
                        }
                        assert forall|n: Seq<char>| pairs_map(before).insert(key, val).dom().contains(n)
                            implies pairs_map(after).dom().contains(n) by {
                            if n == key {
                                assert(after[before.len() as int].0 == n);
                            } else {
                                let j = choose|j: int| 0 <= j < before.len() && #[trigger] before[j].0 == n;
                                assert(after[j].0 == n);
                            }
                        }
                    }
                }
                self.pairs_set(pairs);
            },
        }
    }

    fn pairs_set(&mut self, pairs: Vec<(String, String)>)
        requires
            keys_distinct(pairs@.map_values(|p: (String, String)| (p.0@, p.1@))),
        ensures
            final(self).pairs() == pairs@.map_values(|p: (String, String)| (p.0@, p.1@)),
    {
        *self = QueryParams { pairs };
    }

    /// The value of the parameter `name`, if it is present.
    pub fn get(&self, name: &str) -> (r: Option<&String>)
        ensures
            r is Some <==> self@.dom().contains(name@),
            r matches Some(v) ==> v@ == self@[name@],
    {
        proof {
            use_type_invariant(self);
        }
        let found = find_name(&self.pairs, name);
        match found {
            Some(k) => {
                proof {
                    let ps = self.pairs();
                    assert(ps[k as int].0 == name@);
                    let j = choose|j: int| 0 <= j < ps.len() && #[trigger] ps[j].0 == name@;
                    assert(j == k);
                }
                Some(&self.pairs[k].1)
            },
            None => {
                proof {
                    if self@.dom().contains(name@) {
                        let ps = self.pairs();
                        let j = choose|j: int| 0 <= j < ps.len() && #[trigger] ps[j].0 == name@;
                        assert(self.pairs@[j].0@ == name@);
                    }
                }
                None
            },
        }
    }

    /// Whether the parameter `name` is present.
    pub fn contains_key(&self, name: &str) -> (r: bool)
        ensures
            r == self@.dom().contains(name@),
    {
        self.get(name).is_some()
    }
}

/// Reading a parameter after setting it gives the value set; other parameters are untouched.
pub proof fn lemma_insert_then_get(
    query: Map<Seq<char>, Seq<char>>,
    name: Seq<char>,
    value: Seq<char>,
    other: Seq<char>,
)
    ensures
        query.insert(name, value).dom().contains(name),
        query.insert(name, value)[name] == value,
        other != name ==> (query.insert(name, value).dom().contains(other) == query.dom().contains(other)),
        other != name && query.dom().contains(other) ==> query.insert(name, value)[other] == query[other],
{
}

} // verus!
