//! Handles storing the state of the connection over time for temporal checking of the stream.
use crate::message::Message;
use vstd::prelude::*;

verus! {

/// A message held for temporal matching.
struct StoredMessage {
    /// Index in the message stream
    index: usize,
    /// The message contents
    message: Message,
    /// The number of matchers interested
    count: usize,
}

/// One stored message as the contracts see it: its index in the stream, its contents and the
/// number of matchers that asked to keep it.
pub type StoredEntry = (nat, Message, nat);

spec fn entry_of(s: StoredMessage) -> StoredEntry {
    (s.index as nat, s.message, s.count as nat)
}

spec fn entries_of(stored: Seq<StoredMessage>) -> Seq<StoredEntry> {
    stored.map_values(|s: StoredMessage| entry_of(s))
}

/// The stored entries hold strictly increasing stream indices, all below `received`.
pub open spec fn entries_ordered(entries: Seq<StoredEntry>, received: nat) -> bool {
    &&& forall|k: int| 0 <= k < entries.len() ==> #[trigger] entries[k].0 < received
    &&& forall|k: int, l: int| 0 <= k < l < entries.len() ==> #[trigger] entries[k].0 < #[trigger] entries[l].0
}

/// Whether the entry for stream index `index` is still stored.
pub open spec fn holds_index(entries: Seq<StoredEntry>, index: nat) -> bool {
    exists|k: int| 0 <= k < entries.len() && #[trigger] entries[k].0 == index
}

/// The entries with one interest count changed to `count`.
pub open spec fn with_count(entries: Seq<StoredEntry>, k: int, count: nat) -> Seq<StoredEntry> {
    entries.update(k, (entries[k].0, entries[k].1, count))
}

/// The entries that some matcher still wants to keep.
pub open spec fn kept_entries(entries: Seq<StoredEntry>) -> Seq<StoredEntry> {
    entries.filter(|e: StoredEntry| e.2 > 0)
}

/// Two states hold the same messages under the same indices; only interest counts may differ.
pub open spec fn same_messages(a: &MatchState, b: &MatchState) -> bool {
    &&& a.received() == b.received()
    &&& a.entries().len() == b.entries().len()
    &&& forall|k: int|
        0 <= k < a.entries().len() ==> (#[trigger] a.entries()[k]).0 == b.entries()[k].0
            && a.entries()[k].1 == b.entries()[k].1
}

/// Mutable state shared for every matcher. For more thorough documentation [`Match`](crate::Match) can be
/// consulted.
pub struct MatchState {
    messages_received: usize,
    stored_messages: Vec<StoredMessage>,
}

/// Unfolds [`kept_entries`] by its last entry.
proof fn lemma_kept_step(entries: Seq<StoredEntry>)
    requires
        entries.len() > 0,
    ensures
        kept_entries(entries) == (if entries.last().2 > 0 {
            kept_entries(entries.drop_last()).push(entries.last())
        } else {
            kept_entries(entries.drop_last())
        }),
{
    reveal_with_fuel(Seq::filter, 1);
}

/// Keeping a subsequence of ordered entries keeps them ordered.
proof fn lemma_kept_ordered(entries: Seq<StoredEntry>, received: nat)
    requires
        entries_ordered(entries, received),
    ensures
        entries_ordered(kept_entries(entries), received),
        forall|j: int|
            0 <= j < kept_entries(entries).len() ==> exists|i: int|
                0 <= i < entries.len() && #[trigger] kept_entries(entries)[j] == entries[i],
    decreases entries.len(),
{
    if entries.len() > 0 {
        let rest = entries.drop_last();
        lemma_kept_ordered(rest, received);
        lemma_kept_step(entries);
        let kr = kept_entries(rest);
        assert forall|j: int| 0 <= j < kr.len() implies (#[trigger] kr[j]).0 < entries.last().0 by {
            let i = choose|i: int| 0 <= i < rest.len() && kr[j] == rest[i];
            assert(entries[i] == rest[i]);
        }
        let k = kept_entries(entries);
        assert forall|j: int| 0 <= j < k.len() implies exists|i: int|
            0 <= i < entries.len() && #[trigger] k[j] == entries[i] by {
            if j < kr.len() {
                let i = choose|i: int| 0 <= i < rest.len() && kr[j] == rest[i];
                assert(entries[i] == rest[i]);
            } else {
                assert(k[j] == entries[entries.len() - 1]);
            }
        }
    }
}

/// Finds, from the newest end, the position of the stored message with stream index `index`.
fn find_stored(stored: &Vec<StoredMessage>, index: usize) -> (r: Option<usize>)
    ensures
        r matches Some(k) ==> k < stored@.len() && stored@[k as int].index == index,
        r is None ==> forall|k: int| 0 <= k < stored@.len() ==> stored@[k].index != index,
{
    let mut k = stored.len();
    while k > 0
        invariant
            k <= stored@.len(),
            forall|j: int| k <= j < stored@.len() ==> stored@[j].index != index,
        decreases k,
    {
        k = k - 1;
        if stored[k].index == index {
            return Some(k);
        }
    }
    None
}

impl MatchState {
    /// The number of messages received so far on the connection.
    pub closed spec fn received(&self) -> nat {
        self.messages_received as nat
    }

    /// The messages still held, oldest first.
    pub closed spec fn entries(&self) -> Seq<StoredEntry> {
        entries_of(self.stored_messages@)
    }

    #[verifier::type_invariant]
    closed spec fn well_formed(&self) -> bool {
        entries_ordered(self.entries(), self.received())
    }

    /// A state for a connection on which nothing has been received yet.
    pub fn new() -> (state: Self)
        ensures
            entries_ordered(state.entries(), state.received()),
            state.received() == 0,
            state.entries() == Seq::<StoredEntry>::empty(),
    {
        let state = MatchState { messages_received: 0, stored_messages: Vec::new() };
        assert(state.entries() =~= Seq::<StoredEntry>::empty());
        state
    }

    /// Records a newly received message, with no matcher yet interested in keeping it. This is
    /// the connection's own step; a matcher that calls it breaks the promise of
    /// [`Match::temporal_match`](crate::Match::temporal_match) to keep the messages as they are.
    pub fn push_message(&mut self, message: Message)
        requires
            old(self).received() < usize::MAX,
        ensures
            entries_ordered(final(self).entries(), final(self).received()),
            final(self).received() == old(self).received() + 1,
            final(self).entries() == old(self).entries().push((old(self).received(), message, 0)),
    {
        proof {
            use_type_invariant(&*self);
        }
        let mut taken = MatchState::new();
        std::mem::swap(self, &mut taken);
        let MatchState { messages_received, mut stored_messages } = taken;
        let ghost before = stored_messages@;
        stored_messages.push(StoredMessage { index: messages_received, message, count: 0 });
        proof {
            assert(entries_of(stored_messages@) =~= before.map_values(
                |s: StoredMessage| entry_of(s),
            ).push((messages_received as nat, message, 0)));
        }
        *self = MatchState { messages_received: messages_received + 1, stored_messages };
    }

    /// Specify that you want the message to be kept in the history for temporal checking.
    ///
    /// The message with stream index `index` must still be held.
    pub fn keep_message(&mut self, index: usize)
        requires
            holds_index(old(self).entries(), index as nat),
            forall|k: int|
                0 <= k < old(self).entries().len() && #[trigger] old(self).entries()[k].0 == index
                    ==> old(self).entries()[k].2 < usize::MAX,
        ensures
            entries_ordered(final(self).entries(), final(self).received()),
            final(self).received() == old(self).received(),
            exists|k: int|
                0 <= k < old(self).entries().len() && #[trigger] old(self).entries()[k].0 == index
                    && final(self).entries() == with_count(
                    old(self).entries(),
                    k,
                    old(self).entries()[k].2 + 1,
                ),
    {
        proof {
            use_type_invariant(&*self);
        }
        let mut taken = MatchState::new();
        std::mem::swap(self, &mut taken);
        let MatchState { messages_received, mut stored_messages } = taken;
        let ghost before = stored_messages@;
        let found = find_stored(&stored_messages, index);
        match found {
            Some(k) => {
                assert(entries_of(before)[k as int].0 == index);
                let stored = stored_messages.remove(k);
                let StoredMessage { index: i, message, count } = stored;
                stored_messages.insert(k, StoredMessage { index: i, message, count: count + 1 });
                proof {
                    assert(stored_messages@ =~= before.update(k as int, StoredMessage { index: i, message, count: (count + 1) as usize }));
                    assert(entries_of(stored_messages@) =~= with_count(
                        entries_of(before),
                        k as int,
                        (count + 1) as nat,
                    ));
                }
                *self = MatchState { messages_received, stored_messages };
            },
            None => {
                proof {
                    let k = choose|k: int|
                        0 <= k < before.len() && #[trigger] entries_of(before)[k].0 == index;
                    assert(before[k].index == index);
                }
                *self = MatchState { messages_received, stored_messages };
            },
        }
    }

    /// Forgets a message from the state. Unlike [`MatchState::keep_message`] this won't panic if
    /// the message isn't found. If we don't want to remember it then it not being present isn't a
    /// fail-state.
    pub fn forget_message(&mut self, index: usize)
        ensures
            entries_ordered(final(self).entries(), final(self).received()),
            final(self).received() == old(self).received(),
            !holds_index(old(self).entries(), index as nat) ==> final(self).entries() == old(self).entries(),
            holds_index(old(self).entries(), index as nat) ==> exists|k: int|
                0 <= k < old(self).entries().len() && #[trigger] old(self).entries()[k].0 == index
                    && final(self).entries() == with_count(
                    old(self).entries(),
                    k,
                    if old(self).entries()[k].2 > 0 { (old(self).entries()[k].2 - 1) as nat } else { 0 },
                ),
    {
        proof {
            use_type_invariant(&*self);
        }
        let mut taken = MatchState::new();
        std::mem::swap(self, &mut taken);
        let MatchState { messages_received, mut stored_messages } = taken;
        let ghost before = stored_messages@;
        let found = find_stored(&stored_messages, index);
        match found {
            Some(k) => {
                let stored = stored_messages.remove(k);
                let StoredMessage { index: i, message, count } = stored;
                let lowered = count.saturating_sub(1);
                stored_messages.insert(k, StoredMessage { index: i, message, count: lowered });
                proof {
                    assert(stored_messages@ =~= before.update(k as int, StoredMessage { index: i, message, count: lowered }));
                    assert(entries_of(stored_messages@) =~= with_count(
                        entries_of(before),
                        k as int,
                        lowered as nat,
                    ));
                }
                *self = MatchState { messages_received, stored_messages };
            },
            None => {
                proof {
                    if holds_index(entries_of(before), index as nat) {
                        let k = choose|k: int|
                            0 <= k < before.len() && #[trigger] entries_of(before)[k].0 == index;
                        assert(before[k].index == index);
                    }
                }
                *self = MatchState { messages_received, stored_messages };
            },
        }
    }

    /// Drops every stored message that no matcher asked to keep. This is the connection's own
    /// step; a matcher that calls it breaks the promise of
    /// [`Match::temporal_match`](crate::Match::temporal_match) to keep the messages as they are.
    pub fn evict(&mut self)
        ensures
            entries_ordered(final(self).entries(), final(self).received()),
            final(self).received() == old(self).received(),
            final(self).entries() == kept_entries(old(self).entries()),
    {
        proof {
            use_type_invariant(&*self);
        }
        let mut taken = MatchState::new();
        std::mem::swap(self, &mut taken);
        let MatchState { messages_received, stored_messages } = taken;
        let ghost initial = stored_messages@;
        let mut rest = stored_messages;
        let mut kept: Vec<StoredMessage> = Vec::new();
        while rest.len() > 0
            invariant
                rest@.len() <= initial.len(),
                rest@ =~= initial.skip(initial.len() - rest@.len()),
                entries_of(kept@) == kept_entries(entries_of(initial.take(initial.len() - rest@.len()))),
            decreases rest@.len(),
        {
            let ghost done = initial.len() - rest@.len();
            let s = rest.remove(0);
            proof {
                assert(s == initial[done]);
                let e1 = entries_of(initial.take(done));
                let e2 = entries_of(initial.take(done + 1));
                assert(e2 =~= e1.push(entry_of(s)));
                assert(e2.drop_last() =~= e1);
                lemma_kept_step(e2);
            }
            if s.count > 0 {
                let ghost prev = kept@;
                kept.push(s);
                proof {
                    assert(entries_of(kept@) =~= entries_of(prev).push(entry_of(s)));
                }
            }
        }
        proof {
            assert(initial.take(initial.len() as int) =~= initial);
            lemma_kept_ordered(entries_of(initial), messages_received as nat);
        }
        *self = MatchState { messages_received, stored_messages: kept };
    }

    /// Gets the last message that arrived into the system.
    ///
    /// At least one message must be held.
    pub fn last(&self) -> (m: &Message)
        requires
            self.entries().len() > 0,
        ensures
            entries_ordered(self.entries(), self.received()),
            *m == self.entries().last().1,
    {
        proof {
            use_type_invariant(self);
        }
        let n = self.stored_messages.len();
        &self.stored_messages[n - 1].message
    }

    /// Gets a message at a specific index - or `None` if the message was forgotten.
    pub fn get_message(&self, index: usize) -> (m: Option<&Message>)
        ensures
            entries_ordered(self.entries(), self.received()),
            m is Some <==> holds_index(self.entries(), index as nat),
            m matches Some(msg) ==> exists|k: int|
                0 <= k < self.entries().len() && #[trigger] self.entries()[k].0 == index
                    && self.entries()[k].1 == *msg,
    {
        proof {
            use_type_invariant(self);
        }
        let mut k: usize = 0;
        while k < self.stored_messages.len()
            invariant
                k <= self.stored_messages@.len(),
                entries_ordered(self.entries(), self.received()),
                forall|j: int| 0 <= j < k ==> self.stored_messages@[j].index != index,
            decreases self.stored_messages@.len() - k,
        {
            if self.stored_messages[k].index == index {
                assert(self.entries()[k as int].0 == index);
                return Some(&self.stored_messages[k].message);
            }
            k = k + 1;
        }
        proof {
            if holds_index(self.entries(), index as nat) {
                let j = choose|j: int| 0 <= j < self.entries().len() && #[trigger] self.entries()[j].0 == index;
                assert(self.stored_messages@[j].index == index);
            }
        }
        None
    }

    /// Get the number of messages received by the server for the active connection.
    pub fn len(&self) -> (n: usize)
        ensures
            entries_ordered(self.entries(), self.received()),
            n == self.received(),
    {
        proof {
            use_type_invariant(self);
        }
        self.messages_received
    }

    /// The number of messages currently held for temporal checking.
    pub fn stored_len(&self) -> (n: usize)
        ensures
            entries_ordered(self.entries(), self.received()),
            n == self.entries().len(),
    {
        proof {
            use_type_invariant(self);
        }
        self.stored_messages.len()
    }
}

/// A state holding a single close message, as a matcher sees it after the first message of a
/// connection.
pub fn default_doctest_state() -> (state: MatchState)
    ensures
        entries_ordered(state.entries(), state.received()),
        state.received() == 1,
        state.entries() == seq![(0nat, Message::Close(None), 0nat)],
{
    let mut state = MatchState::new();
    state.push_message(Message::Close(None));
    proof {
        assert(state.entries() =~= seq![(0nat, Message::Close(None), 0nat)]);
    }
    state
}

/// Forgetting a message after keeping it restores the interest counts as they were.
pub proof fn lemma_forget_undoes_keep(entries: Seq<StoredEntry>, k: int)
    requires
        0 <= k < entries.len(),
    ensures
        with_count(with_count(entries, k, entries[k].2 + 1), k, entries[k].2) == entries,
{
    assert(with_count(with_count(entries, k, entries[k].2 + 1), k, entries[k].2) =~= entries);
}

/// After an eviction a message is still held exactly when some matcher asked to keep it.
pub proof fn lemma_evict_holds_exactly_kept(entries: Seq<StoredEntry>, index: nat)
    ensures
        holds_index(kept_entries(entries), index) <==> exists|k: int|
            0 <= k < entries.len() && #[trigger] entries[k].0 == index && entries[k].2 > 0,
    decreases entries.len(),
{
    if entries.len() > 0 {
        let rest = entries.drop_last();
        lemma_evict_holds_exactly_kept(rest, index);
        lemma_kept_step(entries);
        let kept = kept_entries(entries);
        let kr = kept_entries(rest);
        if holds_index(kept, index) {
            let j = choose|j: int| 0 <= j < kept.len() && #[trigger] kept[j].0 == index;
            if j < kr.len() {
                assert(kr[j].0 == index);
                let k = choose|k: int| 0 <= k < rest.len() && #[trigger] rest[k].0 == index && rest[k].2 > 0;
                assert(entries[k] == rest[k]);
            } else {
                assert(entries[entries.len() - 1].0 == index);
            }
        }
        if exists|k: int| 0 <= k < entries.len() && #[trigger] entries[k].0 == index && entries[k].2 > 0 {
            let k = choose|k: int| 0 <= k < entries.len() && #[trigger] entries[k].0 == index && entries[k].2 > 0;
            if k < entries.len() - 1 {
                assert(rest[k] == entries[k]);
                let j = choose|j: int| 0 <= j < kr.len() && #[trigger] kr[j].0 == index;
                assert(kept[j] == kr[j]);
            } else {
                assert(kept[kept.len() - 1].0 == index);
            }
        }
    }
}

/// A message just pushed is held under the index `received` had, and that index names no other
/// message: asking for it gives the message back.
pub proof fn lemma_pushed_message_is_found(entries: Seq<StoredEntry>, received: nat, message: Message)
    requires
        entries_ordered(entries, received),
    ensures
        holds_index(entries.push((received, message, 0)), received),
        forall|k: int|
            0 <= k < entries.len() + 1 && (#[trigger] entries.push((received, message, 0))[k]).0 == received
                ==> entries.push((received, message, 0))[k].1 == message,
{
    let pushed = entries.push((received, message, 0));
    assert(pushed[entries.len() as int].0 == received);
    assert forall|k: int| 0 <= k < entries.len() + 1 && (#[trigger] pushed[k]).0 == received implies pushed[k].1
        == message by {
        if k < entries.len() {
            assert(pushed[k] == entries[k]);
        }
    }
}

} // verus!
