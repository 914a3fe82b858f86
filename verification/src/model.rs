//! What a top-k queue is, apart from how it is laid out.
use crate::traits::at_most;
use vstd::prelude::*;

verus! {

/// A tracked item with its count and the number of its insertion.
pub struct Entry<T> {
    pub item: T,
    pub count: u64,
    pub sequence: nat,
}

/// Whether the pair `a` comes strictly before `b`, the first number counting more.
pub open spec fn pair_less(a: (int, int), b: (int, int)) -> bool {
    a.0 < b.0 || (a.0 == b.0 && a.1 < b.1)
}

/// An order among entries.
pub enum Order {
    /// Smallest count first, then oldest.
    Eviction,
    /// Largest count first, then oldest.
    Listing,
    /// Oldest first.
    Insertion,
}

/// The place of an entry in an order, as a pair of numbers that ascends.
pub open spec fn rank<T>(order: Order, e: Entry<T>) -> (int, int) {
    match order {
        Order::Eviction => (e.count as int, e.sequence as int),
        Order::Listing => (-(e.count as int), e.sequence as int),
        Order::Insertion => (e.sequence as int, 0),
    }
}

/// Whether `a` comes strictly before `b`.
pub open spec fn before<T>(order: Order, a: Entry<T>, b: Entry<T>) -> bool {
    pair_less(rank(order, a), rank(order, b))
}

/// A call that may change a queue.
#[verifier::reject_recursive_types(T)]
pub enum Call<T: View> {
    /// `item` is offered with `count`.
    Upsert { item: T, count: u64 },
    /// The count of `key` is raised to `count`, if the key is tracked.
    Raise { key: T::V, count: u64 },
}

/// What a call answers.
pub enum Answer<T> {
    /// The item that an offer displaced.
    Evicted(Option<T>),
    /// Whether the key of a raise is tracked.
    Present(bool),
}

/// A queue of at most `capacity` entries, found by the keys of their items.
#[verifier::reject_recursive_types(T)]
pub struct QueueModel<T: View> {
    pub capacity: nat,
    /// The number of the last insertion.
    pub sequence: nat,
    pub entries: Map<T::V, Entry<T>>,
}

impl<T: View> QueueModel<T> {
    /// The queue that tracks nothing.
    pub open spec fn empty(capacity: nat) -> Self {
        QueueModel { capacity, sequence: 0, entries: Map::empty() }
    }

    /// What holds of every queue: entries are filed under their own keys, there
    /// are no more of them than the capacity, and each has an insertion number of
    /// its own.
    pub open spec fn well_formed(self) -> bool {
        &&& self.entries.dom().finite()
        &&& self.entries.len() <= self.capacity
        &&& forall|k: T::V| #[trigger]
            self.entries.contains_key(k) ==> {
                &&& self.entries[k].item@ == k
                &&& 1 <= self.entries[k].sequence <= self.sequence
            }
        &&& forall|k: T::V, o: T::V| #[trigger]
            self.entries.contains_key(k) && #[trigger] self.entries.contains_key(o) && k != o
                ==> self.entries[k].sequence != self.entries[o].sequence
    }

    /// Every place is taken.
    pub open spec fn is_full(self) -> bool {
        self.entries.len() >= self.capacity
    }

    /// The count of a key, if it is tracked.
    pub open spec fn count_of(self, key: T::V) -> Option<u64> {
        if self.entries.contains_key(key) {
            Some(self.entries[key].count)
        } else {
            None
        }
    }

    /// Some key has this count.
    pub open spec fn has_count(self, count: u64) -> bool {
        exists|k: T::V| #[trigger]
            self.entries.contains_key(k) && self.entries[k].count == count
    }

    /// Nothing that is tracked is evicted before `key`.
    pub open spec fn is_min(self, key: T::V) -> bool {
        &&& self.entries.contains_key(key)
        &&& forall|o: T::V| #[trigger]
            self.entries.contains_key(o) ==> !before(
                Order::Eviction,
                self.entries[o],
                self.entries[key],
            )
    }

    /// The key that is evicted next.
    pub open spec fn min_key(self) -> T::V {
        choose|k: T::V| self.is_min(k)
    }

    /// The smallest count that is tracked, 0 where nothing is.
    pub open spec fn min_count(self) -> u64 {
        if self.entries.len() == 0 {
            0
        } else {
            self.entries[self.min_key()].count
        }
    }

    /// The queue with another count for a tracked key.
    pub open spec fn recounted(self, key: T::V, count: u64) -> Self {
        QueueModel {
            entries: self.entries.insert(key, Entry { count, ..self.entries[key] }),
            ..self
        }
    }

    /// The queue with a new entry.
    pub open spec fn added(self, item: T, count: u64) -> Self {
        let sequence = self.sequence + 1;
        QueueModel {
            capacity: self.capacity,
            sequence,
            entries: self.entries.insert(item@, Entry { item, count, sequence }),
        }
    }

    /// The queue without the entry of `key`.
    pub open spec fn removed(self, key: T::V) -> Self {
        QueueModel { entries: self.entries.remove(key), ..self }
    }

    /// Whether a newcomer of this count takes the place of the smallest entry: the
    /// queue is full, holds something, and the count beats the minimum.
    pub open spec fn displaces(self, key: T::V, count: u64) -> bool {
        &&& !self.entries.contains_key(key)
        &&& self.is_full()
        &&& self.entries.len() > 0
        &&& count > self.min_count()
    }

    /// Whether offering the key opens a new entry, in a free place or in that of
    /// the smallest entry.
    pub open spec fn takes_in(self, key: T::V, count: u64) -> bool {
        ||| !self.entries.contains_key(key) && !self.is_full()
        ||| self.displaces(key, count)
    }

    /// Whether the numbers that a new entry needs can still be given out: an
    /// insertion number that fits in a `u64`, and in a free place a slot number
    /// that fits in a `u32`.
    pub open spec fn has_room(self, key: T::V, count: u64) -> bool {
        self.takes_in(key, count) ==> {
            &&& self.sequence < u64::MAX
            &&& self.is_full() || self.entries.len() <= u32::MAX
        }
    }

    /// The queue after `item` was offered with `count`: a tracked item gets the
    /// count, a new one is added while there is room, and otherwise replaces the
    /// smallest entry if its count is larger.
    pub open spec fn upserted(self, item: T, count: u64) -> Self {
        if self.entries.contains_key(item@) {
            self.recounted(item@, count)
        } else if !self.is_full() {
            self.added(item, count)
        } else if self.displaces(item@, count) {
            self.removed(self.min_key()).added(item, count)
        } else {
            self
        }
    }

    /// The item that gives up its place when `key` is offered with `count`.
    pub open spec fn evicted(self, key: T::V, count: u64) -> Option<T> {
        if self.displaces(key, count) {
            Some(self.entries[self.min_key()].item)
        } else {
            None
        }
    }

    /// The queue after the count of a tracked key was raised to `count`; a count
    /// that is no larger changes nothing.
    pub open spec fn raised(self, key: T::V, count: u64) -> Self {
        if self.entries.contains_key(key) && count > self.entries[key].count {
            self.recounted(key, count)
        } else {
            self
        }
    }

    /// The queue after a call, where counts are held up to `limit`.
    pub open spec fn called(self, call: Call<T>, limit: u64) -> Self {
        match call {
            Call::Upsert { item, count } => self.upserted(item, at_most(count, limit)),
            Call::Raise { key, count } => self.raised(key, at_most(count, limit)),
        }
    }

    /// What the queue answers to a call.
    pub open spec fn answer(self, call: Call<T>, limit: u64) -> Answer<T> {
        match call {
            Call::Upsert { item, count } => Answer::Evicted(
                self.evicted(item@, at_most(count, limit)),
            ),
            Call::Raise { key, count } => Answer::Present(self.entries.contains_key(key)),
        }
    }

    /// The queue after the calls of `calls`, one after the other.
    pub open spec fn run(self, calls: Seq<Call<T>>, limit: u64) -> Self
        decreases calls.len(),
    {
        if calls.len() == 0 {
            self
        } else {
            self.run(calls.drop_last(), limit).called(calls.last(), limit)
        }
    }

    /// What the queue answers to the calls of `calls`, one after the other.
    pub open spec fn answers(self, calls: Seq<Call<T>>, limit: u64) -> Seq<Answer<T>> {
        Seq::new(
            calls.len(),
            |i: int| self.run(calls.take(i), limit).answer(calls[i], limit),
        )
    }

    /// The entries in the given order.
    pub open spec fn listing(self, order: Order) -> Seq<Entry<T>> {
        choose|s: Seq<Entry<T>>| lists(self.entries, s, order)
    }

    /// The entries by descending count, older ones first among equals.
    pub open spec fn ranked(self) -> Seq<Entry<T>> {
        self.listing(Order::Listing)
    }

    /// The entries in the order of their insertion.
    pub open spec fn by_sequence(self) -> Seq<Entry<T>> {
        self.listing(Order::Insertion)
    }
}

/// The calls that offer the entries of `s` one after the other.
pub open spec fn offers<T: View>(s: Seq<Entry<T>>) -> Seq<Call<T>> {
    Seq::new(s.len(), |i: int| Call::Upsert { item: s[i].item, count: s[i].count })
}

/// Two calls that are the same but for the values that stand for a key.
pub open spec fn same_call<T: View>(a: Call<T>, b: Call<T>) -> bool {
    match (a, b) {
        (
            Call::Upsert { item, count },
            Call::Upsert { item: other, count: other_count },
        ) => item@ == other@ && count == other_count,
        (
            Call::Raise { key, count },
            Call::Raise { key: other, count: other_count },
        ) => key == other && count == other_count,
        _ => false,
    }
}

/// Two sequences of calls that are the same but for the values that stand for a key.
pub open spec fn same_calls<T: View>(a: Seq<Call<T>>, b: Seq<Call<T>>) -> bool {
    &&& a.len() == b.len()
    &&& forall|i: int| 0 <= i < a.len() ==> same_call(#[trigger] a[i], #[trigger] b[i])
}

/// Two answers that are the same but for the values that stand for a key.
pub open spec fn same_answer<T: View>(a: Answer<T>, b: Answer<T>) -> bool {
    match (a, b) {
        (Answer::Evicted(Some(item)), Answer::Evicted(Some(other))) => item@ == other@,
        (Answer::Evicted(None), Answer::Evicted(None)) => true,
        (Answer::Present(present), Answer::Present(other)) => present == other,
        _ => false,
    }
}

/// Two sequences of answers that are the same but for the values that stand for a
/// key.
pub open spec fn same_answers<T: View>(a: Seq<Answer<T>>, b: Seq<Answer<T>>) -> bool {
    &&& a.len() == b.len()
    &&& forall|i: int| 0 <= i < a.len() ==> same_answer(#[trigger] a[i], #[trigger] b[i])
}

/// Two listings that are the same but for the values that stand for a key.
pub open spec fn same_listing<T: View>(a: Seq<(&T, u64)>, b: Seq<(&T, u64)>) -> bool {
    &&& a.len() == b.len()
    &&& forall|i: int|
        #![trigger a[i]]
        #![trigger b[i]]
        0 <= i < a.len() ==> a[i].0@ == b[i].0@ && a[i].1 == b[i].1
}

/// Two queues that track the same keys with the same counts, inserted in the same
/// order.
pub open spec fn alike<T: View>(a: QueueModel<T>, b: QueueModel<T>) -> bool {
    &&& a.capacity == b.capacity
    &&& a.entries.dom() == b.entries.dom()
    &&& forall|k: T::V| #[trigger]
        a.entries.contains_key(k) ==> b.entries[k].count == a.entries[k].count
    &&& forall|k: T::V, o: T::V| #[trigger]
        a.entries.contains_key(k) && #[trigger] a.entries.contains_key(o) ==> (
        b.entries[k].sequence < b.entries[o].sequence <==> a.entries[k].sequence
            < a.entries[o].sequence)
}

/// `s` holds every entry of `entries` once, in the given order.
pub open spec fn lists<T: View>(
    entries: Map<T::V, Entry<T>>,
    s: Seq<Entry<T>>,
    order: Order,
) -> bool {
    &&& s.len() == entries.len()
    &&& forall|i: int|
        0 <= i < s.len() ==> {
            &&& entries.contains_key(#[trigger] s[i].item@)
            &&& entries[s[i].item@] == s[i]
        }
    &&& forall|k: T::V| #[trigger] entries.contains_key(k) ==> s.contains(entries[k])
    &&& forall|i: int, j: int|
        0 <= i < j < s.len() ==> #[trigger] before(order, s[i], s[j])
}

/// The items and counts of a listing.
pub open spec fn listed<'a, T>(s: Seq<Entry<T>>) -> Seq<(&'a T, u64)> {
    Seq::new(s.len(), |i: int| (&s[i].item, s[i].count))
}

/// No two entries of `s` have the same key.
pub open spec fn distinct_keys<T: View>(s: Seq<Entry<T>>) -> bool {
    forall|i: int, j: int|
        0 <= i < j < s.len() ==> #[trigger] s[i].item@ != #[trigger] s[j].item@
}

/// The place of a key in `s`.
pub open spec fn place_of<T: View>(s: Seq<Entry<T>>, key: T::V) -> int {
    choose|i: int| 0 <= i < s.len() && #[trigger] s[i].item@ == key
}

/// The entries of `s` filed under their keys.
pub open spec fn keyed<T: View>(s: Seq<Entry<T>>) -> Map<T::V, Entry<T>> {
    Map::new(
        |k: T::V| exists|i: int| 0 <= i < s.len() && #[trigger] s[i].item@ == k,
        |k: T::V| s[place_of(s, k)],
    )
}

/// Every entry is filed under its key.
pub proof fn lemma_keyed_entry<T: View>(s: Seq<Entry<T>>, i: int)
    requires
        distinct_keys(s),
        0 <= i < s.len(),
    ensures
        keyed(s).contains_key(s[i].item@),
        keyed(s)[s[i].item@] == s[i],
        place_of(s, s[i].item@) == i,
{
    let k = s[i].item@;
    let p = place_of(s, k);
    assert(0 <= p < s.len() && s[p].item@ == k);
    if p < i {
        assert(s[p].item@ != s[i].item@);
    } else if i < p {
        assert(s[i].item@ != s[p].item@);
    }
}

/// What is filed under a key has its place in `s`.
pub proof fn lemma_keyed_place<T: View>(s: Seq<Entry<T>>, key: T::V)
    requires
        keyed(s).contains_key(key),
    ensures
        0 <= place_of(s, key) < s.len(),
        s[place_of(s, key)].item@ == key,
        keyed(s)[key] == s[place_of(s, key)],
{
}

/// One more entry with a new key.
pub proof fn lemma_keyed_push<T: View>(s: Seq<Entry<T>>, e: Entry<T>)
    requires
        distinct_keys(s),
        !keyed(s).contains_key(e.item@),
    ensures
        distinct_keys(s.push(e)),
        keyed(s.push(e)) == keyed(s).insert(e.item@, e),
{
    let after = s.push(e);
    assert forall|i: int, j: int| 0 <= i < j < after.len() implies #[trigger] after[i].item@
        != #[trigger] after[j].item@ by {
        if j == s.len() {
            assert(s[i].item@ == after[i].item@);
            lemma_keyed_entry(s, i);
        } else {
            assert(s[i].item@ != s[j].item@);
        }
    }
    assert forall|k: T::V| keyed(after).contains_key(k) <==> keyed(s).insert(
        e.item@,
        e,
    ).contains_key(k) by {
        if keyed(after).contains_key(k) {
            lemma_keyed_place(after, k);
            let p = place_of(after, k);
            if p < s.len() {
                assert(s[p].item@ == k);
            }
        }
        if k == e.item@ {
            assert(after[s.len() as int].item@ == k);
        } else if keyed(s).contains_key(k) {
            lemma_keyed_place(s, k);
            assert(after[place_of(s, k)].item@ == k);
        }
    }
    assert forall|k: T::V| keyed(after).contains_key(k) implies keyed(after)[k] == keyed(s).insert(
        e.item@,
        e,
    )[k] by {
        if k == e.item@ {
            lemma_keyed_entry(after, s.len() as int);
        } else {
            lemma_keyed_place(s, k);
            lemma_keyed_entry(after, place_of(s, k));
        }
    }
    assert(keyed(after) =~= keyed(s).insert(e.item@, e));
}

/// Exchanging the entry at `i` for one whose key is the same or new.
pub proof fn lemma_keyed_update<T: View>(s: Seq<Entry<T>>, i: int, e: Entry<T>)
    requires
        distinct_keys(s),
        0 <= i < s.len(),
        e.item@ == s[i].item@ || !keyed(s).contains_key(e.item@),
    ensures
        distinct_keys(s.update(i, e)),
        keyed(s.update(i, e)) == keyed(s).remove(s[i].item@).insert(e.item@, e),
        e.item@ == s[i].item@ ==> keyed(s.update(i, e)) == keyed(s).insert(e.item@, e),
{
    let after = s.update(i, e);
    let expected = keyed(s).remove(s[i].item@).insert(e.item@, e);
    assert forall|a: int, b: int| 0 <= a < b < after.len() implies #[trigger] after[a].item@
        != #[trigger] after[b].item@ by {
        assert(s[a].item@ != s[b].item@);
        lemma_keyed_entry(s, a);
        lemma_keyed_entry(s, b);
    }
    assert forall|k: T::V| keyed(after).contains_key(k) <==> expected.contains_key(k) by {
        if keyed(after).contains_key(k) {
            lemma_keyed_place(after, k);
            let p = place_of(after, k);
            if p != i {
                lemma_keyed_entry(s, p);
                if p < i {
                    assert(s[p].item@ != s[i].item@);
                } else {
                    assert(s[i].item@ != s[p].item@);
                }
            }
        }
        if expected.contains_key(k) {
            if k == e.item@ {
                assert(after[i].item@ == k);
            } else {
                lemma_keyed_place(s, k);
                assert(after[place_of(s, k)].item@ == k);
            }
        }
    }
    assert forall|k: T::V| keyed(after).contains_key(k) implies keyed(after)[k] == expected[k] by {
        if k == e.item@ {
            lemma_keyed_entry(after, i);
        } else {
            lemma_keyed_place(s, k);
            lemma_keyed_entry(after, place_of(s, k));
        }
    }
    assert(keyed(after) =~= expected);
    assert(e.item@ == s[i].item@ ==> expected =~= keyed(s).insert(e.item@, e));
}

/// As many keys are filed as there are entries.
pub proof fn lemma_keyed_len<T: View>(s: Seq<Entry<T>>)
    requires
        distinct_keys(s),
    ensures
        keyed(s).dom().finite(),
        keyed(s).len() == s.len(),
    decreases s.len(),
{
    if s.len() == 0 {
        assert(keyed(s).dom() =~= Set::empty());
    } else {
        let front = s.drop_last();
        assert(distinct_keys(front)) by {
            assert forall|i: int, j: int| 0 <= i < j < front.len() implies #[trigger] front[i].item@
                != #[trigger] front[j].item@ by {
                assert(s[i].item@ != s[j].item@);
            }
        }
        lemma_keyed_len(front);
        if keyed(front).contains_key(s.last().item@) {
            lemma_keyed_place(front, s.last().item@);
            let p = place_of(front, s.last().item@);
            assert(s[p].item@ != s[s.len() - 1].item@);
        }
        lemma_keyed_push(front, s.last());
        assert(front.push(s.last()) =~= s);
        assert(keyed(s).dom() =~= keyed(front).dom().insert(s.last().item@));
    }
}

/// One more call after others.
pub proof fn lemma_run_push<T: View>(
    m: QueueModel<T>,
    calls: Seq<Call<T>>,
    call: Call<T>,
    limit: u64,
)
    ensures
        m.run(calls.push(call), limit) == m.run(calls, limit).called(call, limit),
{
    assert(calls.push(call).drop_last() =~= calls);
}

/// The entry that is evicted next is the only one that nothing comes before, so
/// that every replica picks the same.
pub proof fn law_min_is_unique<T: View>(m: QueueModel<T>, key: T::V)
    requires
        m.well_formed(),
        m.is_min(key),
    ensures
        m.min_key() == key,
{
    let other = m.min_key();
    assert(m.is_min(other));
    assert(m.entries.contains_key(key) && m.entries.contains_key(other));
}

/// Two listings in one order agree up to `n`.
proof fn lemma_listings_agree<T: View>(
    entries: Map<T::V, Entry<T>>,
    a: Seq<Entry<T>>,
    b: Seq<Entry<T>>,
    order: Order,
    n: int,
)
    requires
        lists(entries, a, order),
        lists(entries, b, order),
        0 <= n <= a.len(),
    ensures
        forall|i: int| 0 <= i < n ==> a[i] == b[i],
    decreases n,
{
    if n > 0 {
        let last = n - 1;
        lemma_listings_agree(entries, a, b, order, last);
        assert(entries.contains_key(a[last].item@));
        assert(entries.contains_key(b[last].item@));
        let j = choose|j: int| 0 <= j < b.len() && b[j] == a[last];
        let i = choose|i: int| 0 <= i < a.len() && a[i] == b[last];
        if j < last {
            assert(before(order, a[j], a[last]));
        } else if last < j {
            assert(before(order, b[last], b[j]));
            if i < last {
                assert(before(order, b[i], b[last]));
            } else if last < i {
                assert(before(order, a[last], a[i]));
            }
        }
    }
}

/// There is only one listing in a given order.
pub proof fn law_listing_is_unique<T: View>(
    entries: Map<T::V, Entry<T>>,
    a: Seq<Entry<T>>,
    b: Seq<Entry<T>>,
    order: Order,
)
    requires
        lists(entries, a, order),
        lists(entries, b, order),
    ensures
        a == b,
{
    lemma_listings_agree(entries, a, b, order, a.len() as int);
    assert(a =~= b);
}

/// Two entries of one queue never have the same place in an order.
pub proof fn lemma_order_is_total<T: View>(m: QueueModel<T>, order: Order, k: T::V, o: T::V)
    requires
        m.well_formed(),
        m.entries.contains_key(k),
        m.entries.contains_key(o),
        k != o,
    ensures
        before(order, m.entries[k], m.entries[o]) || before(order, m.entries[o], m.entries[k]),
{
}

} // verus!
