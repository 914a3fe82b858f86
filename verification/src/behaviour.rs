//! What callers see of a queue, call by call.
//!
//! These laws speak of calls and of what they hand back, and of nothing inside the
//! queue. What a queue holds shows in [`TopKQueue::iter_by_sequence`], the items in the
//! order of their insertion with their counts; every other call is told by it.
use crate::heap_order::parent_of;
use crate::laws::{law_listings_exist, law_min_exists};
use crate::model::{
    before, law_listing_is_unique, lemma_keyed_entry, lemma_keyed_place, listed, lists, place_of,
    Entry, Order, QueueModel,
};
use crate::priority_queue::{clones_keep_keys, Slot, TopKQueue};
use crate::realloc::Reallocator;
use crate::sip::{SipHash, SipState};
use crate::traits::{Counter, Lookup};
use vstd::layout::size_of;
use vstd::prelude::*;
use vstd::std_specs::iter::IteratorSpec;

verus! {

/// The listing by age after another count was filed.
proof fn lemma_recounted_in_order<T: View>(m: QueueModel<T>, i: int, count: u64)
    requires
        m.well_formed(),
        0 <= i < m.by_sequence().len(),
    ensures
        ({
            let s = m.by_sequence();
            let e = Entry { count, ..s[i] };
            &&& m.entries.contains_key(s[i].item@)
            &&& m.recounted(s[i].item@, count).well_formed()
            &&& m.recounted(s[i].item@, count).by_sequence() == s.update(i, e)
        }),
{
    law_listings_exist(m);
    let s = m.by_sequence();
    let key = s[i].item@;
    assert(m.entries.contains_key(key) && m.entries[key] == s[i]);
    let e = Entry { count, ..s[i] };
    let n = m.recounted(key, count);
    let t = s.update(i, e);
    assert(n.entries.dom() =~= m.entries.dom());
    assert(n.well_formed());
    assert forall|a: int| 0 <= a < t.len() implies {
        &&& n.entries.contains_key(#[trigger] t[a].item@)
        &&& n.entries[t[a].item@] == t[a]
    } by {
        assert(m.entries.contains_key(s[a].item@) && m.entries[s[a].item@] == s[a]);
        if a != i && s[a].item@ == key {
            lemma_ages_differ(m, a, i);
        }
    }
    assert forall|k: T::V| #[trigger] n.entries.contains_key(k) implies t.contains(
        n.entries[k],
    ) by {
        assert(m.entries.contains_key(k));
        let a = choose|a: int| 0 <= a < s.len() && s[a] == m.entries[k];
        if k == key {
            assert(t[i] == n.entries[k]);
        } else {
            assert(t[a] == n.entries[k]);
        }
    }
    assert forall|a: int, b: int| 0 <= a < b < t.len() implies #[trigger] before(
        Order::Insertion,
        t[a],
        t[b],
    ) by {
        assert(before(Order::Insertion, s[a], s[b]));
    }
    assert(lists(n.entries, t, Order::Insertion));
    law_listings_exist(n);
    law_listing_is_unique(n.entries, t, n.by_sequence(), Order::Insertion);
}

/// Listed by age, no key stands in two places.
proof fn lemma_ages_differ<T: View>(m: QueueModel<T>, a: int, b: int)
    requires
        m.well_formed(),
        0 <= a < m.by_sequence().len(),
        0 <= b < m.by_sequence().len(),
        a != b,
    ensures
        m.by_sequence()[a].item@ != m.by_sequence()[b].item@,
{
    law_listings_exist(m);
    let s = m.by_sequence();
    if a < b {
        assert(before(Order::Insertion, s[a], s[b]));
    } else {
        assert(before(Order::Insertion, s[b], s[a]));
    }
    assert(m.entries[s[a].item@] == s[a] && m.entries[s[b].item@] == s[b]);
}

/// The listing by age after an item was added.
proof fn lemma_added_in_order<T: View>(m: QueueModel<T>, item: T, count: u64)
    requires
        m.well_formed(),
        m.added(item, count).well_formed(),
        !m.entries.contains_key(item@),
    ensures
        m.added(item, count).by_sequence() == m.by_sequence().push(
            Entry { item, count, sequence: m.sequence + 1 },
        ),
{
    law_listings_exist(m);
    let s = m.by_sequence();
    let e = Entry { item, count, sequence: m.sequence + 1 };
    let n = m.added(item, count);
    let t = s.push(e);
    assert forall|a: int| 0 <= a < t.len() implies {
        &&& n.entries.contains_key(#[trigger] t[a].item@)
        &&& n.entries[t[a].item@] == t[a]
    } by {
        if a < s.len() {
            assert(m.entries.contains_key(s[a].item@) && m.entries[s[a].item@] == s[a]);
        }
    }
    assert forall|k: T::V| #[trigger] n.entries.contains_key(k) implies t.contains(
        n.entries[k],
    ) by {
        if k == item@ {
            assert(t[s.len() as int] == n.entries[k]);
        } else {
            assert(m.entries.contains_key(k));
            let a = choose|a: int| 0 <= a < s.len() && s[a] == m.entries[k];
            assert(t[a] == n.entries[k]);
        }
    }
    assert forall|a: int, b: int| 0 <= a < b < t.len() implies #[trigger] before(
        Order::Insertion,
        t[a],
        t[b],
    ) by {
        assert(m.entries.contains_key(s[a].item@));
        if b < s.len() {
            assert(before(Order::Insertion, s[a], s[b]));
        }
    }
    assert(lists(n.entries, t, Order::Insertion));
    law_listings_exist(n);
    law_listing_is_unique(n.entries, t, n.by_sequence(), Order::Insertion);
}

/// The listing by age after an item was removed.
proof fn lemma_removed_in_order<T: View>(m: QueueModel<T>, i: int)
    requires
        m.well_formed(),
        0 <= i < m.by_sequence().len(),
    ensures
        ({
            let s = m.by_sequence();
            &&& m.entries.contains_key(s[i].item@)
            &&& m.removed(s[i].item@).well_formed()
            &&& m.removed(s[i].item@).by_sequence() == s.remove(i)
        }),
{
    law_listings_exist(m);
    let s = m.by_sequence();
    let key = s[i].item@;
    assert(m.entries.contains_key(key) && m.entries[key] == s[i]);
    let n = m.removed(key);
    let t = s.remove(i);
    assert(n.well_formed());
    assert forall|a: int| 0 <= a < t.len() implies {
        &&& n.entries.contains_key(#[trigger] t[a].item@)
        &&& n.entries[t[a].item@] == t[a]
    } by {
        let b = if a < i {
            a
        } else {
            a + 1
        };
        assert(t[a] == s[b]);
        assert(m.entries.contains_key(s[b].item@) && m.entries[s[b].item@] == s[b]);
        lemma_ages_differ(m, b, i);
    }
    assert forall|k: T::V| #[trigger] n.entries.contains_key(k) implies t.contains(
        n.entries[k],
    ) by {
        assert(m.entries.contains_key(k));
        let a = choose|a: int| 0 <= a < s.len() && s[a] == m.entries[k];
        assert(a != i);
        let b = if a < i {
            a
        } else {
            a - 1
        };
        assert(t[b] == n.entries[k]);
    }
    assert forall|a: int, b: int| 0 <= a < b < t.len() implies #[trigger] before(
        Order::Insertion,
        t[a],
        t[b],
    ) by {
        let c = if a < i {
            a
        } else {
            a + 1
        };
        let d = if b < i {
            b
        } else {
            b + 1
        };
        assert(before(Order::Insertion, s[c], s[d]));
    }
    assert(lists(n.entries, t, Order::Insertion));
    law_listings_exist(n);
    law_listing_is_unique(n.entries, t, n.by_sequence(), Order::Insertion);
}

/// A key is tracked exactly if it is listed.
proof fn lemma_listed_by_age<T: View>(m: QueueModel<T>, key: T::V) -> (i: int)
    requires
        m.well_formed(),
    ensures
        m.by_sequence().len() == m.entries.len(),
        m.entries.contains_key(key) ==> {
            &&& 0 <= i < m.by_sequence().len()
            &&& m.by_sequence()[i].item@ == key
            &&& m.by_sequence()[i] == m.entries[key]
        },
        !m.entries.contains_key(key) ==> forall|j: int|
            0 <= j < m.by_sequence().len() ==> (#[trigger] m.by_sequence()[j]).item@ != key,
{
    law_listings_exist(m);
    let s = m.by_sequence();
    if m.entries.contains_key(key) {
        let i = choose|i: int| 0 <= i < s.len() && s[i] == m.entries[key];
        i
    } else {
        assert forall|j: int| 0 <= j < s.len() implies (#[trigger] s[j]).item@ != key by {
            assert(m.entries.contains_key(s[j].item@));
        }
        0
    }
}

/// What offering an item does to the items in the order of their insertion. A count is
/// held up to what the width of the counter holds.
///
/// - An item that is there gets the count and keeps its place; nothing is displaced.
/// - A new one comes last while there is room; nothing is displaced.
/// - In a full queue it comes last if some count is smaller than its own: the oldest of
///   those with the smallest count goes, and is handed back.
/// - Otherwise nothing changes and nothing is displaced.
pub proof fn law_upsert_shows_in_order<T: Lookup<T>, C: Counter>(
    queue: &mut TopKQueue<T, C>,
    after: TopKQueue<T, C>,
    item: T,
    count: u64,
    evicted: Option<T>,
    full: bool,
    old_items: std::vec::IntoIter<(&T, u64)>,
    new_items: std::vec::IntoIter<(&T, u64)>,
)
    requires
        queue.wf(),
        call_ensures(TopKQueue::<T, C>::is_full, (&*queue,), full),
        call_ensures(TopKQueue::<T, C>::iter_by_sequence, (&*queue,), old_items),
        call_ensures(TopKQueue::<T, C>::upsert, (queue, item, count), evicted),
        after == *final(queue),
        call_ensures(TopKQueue::<T, C>::iter_by_sequence, (&after,), new_items),
    ensures
        after.wf(),
        ({
            let s = old_items.remaining();
            let t = new_items.remaining();
            let c = if count <= C::limit() {
                count
            } else {
                C::limit()
            };
            let absent = forall|i: int| 0 <= i < s.len() ==> (#[trigger] s[i]).0@ != item@;
            let beats = exists|i: int| 0 <= i < s.len() && (#[trigger] s[i]).1 < c;
            &&& forall|i: int|
                0 <= i < s.len() && (#[trigger] s[i]).0@ == item@ ==> evicted is None && t
                    == s.update(i, (s[i].0, c))
            &&& absent && !full ==> evicted is None && t == s.push((&item, c))
            &&& absent && full && beats ==> exists|i: int|
                {
                    &&& 0 <= i < s.len()
                    &&& evicted == Some(*(#[trigger] s[i]).0)
                    &&& s[i].1 < c
                    &&& forall|j: int| 0 <= j < i ==> (#[trigger] s[j]).1 > s[i].1
                    &&& forall|j: int| i <= j < s.len() ==> (#[trigger] s[j]).1 >= s[i].1
                    &&& t == s.remove(i).push((&item, c))
                }
            &&& absent && full && !beats ==> evicted is None && t == s
        }),
{
    let m = queue@;
    let n = after@;
    queue.law_queue_is_well_formed();
    after.law_queue_is_well_formed();
    let c = if count <= C::limit() {
        count
    } else {
        C::limit()
    };
    let e = m.by_sequence();
    let s = old_items.remaining();
    let t = new_items.remaining();
    let p = lemma_listed_by_age(m, item@);
    law_listings_exist(m);
    assert(s == listed(e) && t == listed(n.by_sequence()));
    assert forall|i: int| 0 <= i < s.len() implies (#[trigger] s[i]).0@ == e[i].item@ && s[i].1
        == e[i].count && *s[i].0 == e[i].item by {}
    assert forall|i: int| 0 <= i < s.len() && (#[trigger] s[i]).0@ == item@ implies evicted is None
        && t == s.update(i, (s[i].0, c)) by {
        assert(m.entries.contains_key(e[i].item@));
        lemma_recounted_in_order(m, i, c);
        assert(t =~= s.update(i, (s[i].0, c)));
    }
    if m.entries.contains_key(item@) {
        assert(s[p].0@ == item@);
    } else if !m.is_full() {
        lemma_added_in_order(m, item, c);
        assert(t =~= s.push((&item, c)));
    } else {
        if m.entries.len() > 0 {
            law_min_exists(m);
        }
        if m.displaces(item@, c) {
            let i = lemma_listed_by_age(m, m.min_key());
            lemma_removed_in_order(m, i);
            lemma_added_in_order(m.removed(m.min_key()), item, c);
            assert forall|j: int| 0 <= j < i implies (#[trigger] s[j]).1 > s[i].1 by {
                assert(m.entries.contains_key(e[j].item@) && m.entries[e[j].item@] == e[j]);
                assert(before(Order::Insertion, e[j], e[i]));
            }
            assert forall|j: int| i <= j < s.len() implies (#[trigger] s[j]).1 >= s[i].1 by {
                assert(m.entries.contains_key(e[j].item@) && m.entries[e[j].item@] == e[j]);
            }
            assert(t =~= s.remove(i).push((&item, c)));
            assert(evicted == Some(*s[i].0));
        } else {
            assert forall|i: int| 0 <= i < s.len() implies (#[trigger] s[i]).1 >= c by {
                assert(m.entries.contains_key(e[i].item@) && m.entries[e[i].item@] == e[i]);
            }
        }
        if exists|i: int| 0 <= i < s.len() && (#[trigger] s[i]).1 < c {
            let i = choose|i: int| 0 <= i < s.len() && (#[trigger] s[i]).1 < c;
            assert(m.entries.contains_key(e[i].item@) && m.entries[e[i].item@] == e[i]);
            assert(m.displaces(item@, c));
        }
    }
}

/// What raising a count does to the items in the order of their insertion: an item that
/// is there gets the larger of the two counts and keeps its place, and nothing else
/// changes. The answer is whether it is there.
pub proof fn law_update_shows_in_order<T: Lookup<T> + Lookup<Q>, C: Counter, Q>(
    queue: &mut TopKQueue<T, C>,
    after: TopKQueue<T, C>,
    key: &Q,
    count: u64,
    present: bool,
    old_items: std::vec::IntoIter<(&T, u64)>,
    new_items: std::vec::IntoIter<(&T, u64)>,
) where Q: SipHash + View<V = <T as View>::V> + ?Sized
    requires
        queue.wf(),
        call_ensures(TopKQueue::<T, C>::iter_by_sequence, (&*queue,), old_items),
        call_ensures(TopKQueue::<T, C>::update_if_present::<Q>, (queue, key, count), present),
        after == *final(queue),
        call_ensures(TopKQueue::<T, C>::iter_by_sequence, (&after,), new_items),
    ensures
        after.wf(),
        ({
            let s = old_items.remaining();
            let t = new_items.remaining();
            let c = if count <= C::limit() {
                count
            } else {
                C::limit()
            };
            &&& present <==> exists|i: int| 0 <= i < s.len() && (#[trigger] s[i]).0@ == key@
            &&& !present ==> t == s
            &&& forall|i: int|
                0 <= i < s.len() && (#[trigger] s[i]).0@ == key@ ==> t == s.update(
                    i,
                    (
                        s[i].0,
                        if c > s[i].1 {
                            c
                        } else {
                            s[i].1
                        },
                    ),
                )
        }),
{
    let m = queue@;
    queue.law_queue_is_well_formed();
    after.law_queue_is_well_formed();
    let c = if count <= C::limit() {
        count
    } else {
        C::limit()
    };
    let e = m.by_sequence();
    let s = old_items.remaining();
    let t = new_items.remaining();
    let p = lemma_listed_by_age(m, key@);
    law_listings_exist(m);
    if m.entries.contains_key(key@) {
        assert(s[p].0@ == key@);
    }
    assert forall|i: int| 0 <= i < s.len() && (#[trigger] s[i]).0@ == key@ implies present && t
        == s.update(
        i,
        (
            s[i].0,
            if c > s[i].1 {
                c
            } else {
                s[i].1
            },
        ),
    ) by {
        assert(m.entries.contains_key(e[i].item@) && m.entries[e[i].item@] == e[i]);
        if c > s[i].1 {
            lemma_recounted_in_order(m, i, c);
        }
        assert(t =~= s.update(
            i,
            (
                s[i].0,
                if c > s[i].1 {
                    c
                } else {
                    s[i].1
                },
            ),
        ));
    }
}

/// What lookups answer, told by the items in the order of their insertion: no key stands
/// there twice; a key has the count that it has there, or is not tracked; there are as
/// many items as `len` says, never more than the capacity, and a queue is full when
/// there are as many; the smallest count is the smallest there, or 0 where there is
/// none.
pub proof fn law_lookups_show_in_order<T: Lookup<T> + Lookup<Q>, C: Counter, Q>(
    queue: TopKQueue<T, C>,
    key: &Q,
    items: std::vec::IntoIter<(&T, u64)>,
    got: Option<u64>,
    present: bool,
    len: usize,
    full: bool,
    smallest: u64,
) where Q: SipHash + View<V = <T as View>::V> + ?Sized
    requires
        queue.wf(),
        call_ensures(TopKQueue::<T, C>::iter_by_sequence, (&queue,), items),
        call_ensures(TopKQueue::<T, C>::get::<Q>, (&queue, key), got),
        call_ensures(TopKQueue::<T, C>::contains::<Q>, (&queue, key), present),
        call_ensures(TopKQueue::<T, C>::len, (&queue,), len),
        call_ensures(TopKQueue::<T, C>::is_full, (&queue,), full),
        call_ensures(TopKQueue::<T, C>::min_count, (&queue,), smallest),
    ensures
        ({
            let s = items.remaining();
            &&& forall|i: int, j: int|
                0 <= i < j < s.len() ==> (#[trigger] s[i]).0@ != (#[trigger] s[j]).0@
            &&& forall|i: int|
                0 <= i < s.len() && (#[trigger] s[i]).0@ == key@ ==> present && got == Some(s[i].1)
            &&& (forall|i: int| 0 <= i < s.len() ==> (#[trigger] s[i]).0@ != key@) ==> !present
                && got is None
            &&& len == s.len()
            &&& s.len() <= queue@.capacity
            &&& full <==> s.len() == queue@.capacity
            &&& s.len() == 0 ==> smallest == 0
            &&& s.len() > 0 ==> exists|i: int| 0 <= i < s.len() && (#[trigger] s[i]).1 == smallest
            &&& forall|i: int| 0 <= i < s.len() ==> smallest <= (#[trigger] s[i]).1 <= C::limit()
        }),
{
    let m = queue@;
    queue.law_queue_is_well_formed();
    law_listings_exist(m);
    let e = m.by_sequence();
    let s = items.remaining();
    let p = lemma_listed_by_age(m, key@);
    assert forall|i: int, j: int| 0 <= i < j < s.len() implies (#[trigger] s[i]).0@ != (
    #[trigger] s[j]).0@ by {
        lemma_ages_differ(m, i, j);
    }
    assert forall|i: int| 0 <= i < s.len() implies m.entries.contains_key(
        (#[trigger] s[i]).0@,
    ) && m.entries[s[i].0@].count == s[i].1 by {
        assert(m.entries.contains_key(e[i].item@) && m.entries[e[i].item@] == e[i]);
    }
    if m.entries.contains_key(key@) {
        assert(s[p].0@ == key@);
    }
    if s.len() > 0 {
        law_min_exists(m);
        let i = lemma_listed_by_age(m, m.min_key());
        assert(s[i].1 == smallest);
    }
}

/// The items by descending count are those in the order of their insertion, each once:
/// of two of them, the first has the larger count, or an equal one and is older.
pub proof fn law_listing_shows_in_order<T: Lookup<T>, C: Counter>(
    queue: TopKQueue<T, C>,
    items: std::vec::IntoIter<(&T, u64)>,
    by_count: std::vec::IntoIter<(&T, u64)>,
)
    requires
        queue.wf(),
        call_ensures(TopKQueue::<T, C>::iter_by_sequence, (&queue,), items),
        call_ensures(TopKQueue::<T, C>::iter, (&queue,), by_count),
    ensures
        ({
            let s = items.remaining();
            let t = by_count.remaining();
            &&& t.len() == s.len()
            &&& forall|i: int| 0 <= i < s.len() ==> t.contains(#[trigger] s[i])
            &&& forall|i: int| 0 <= i < t.len() ==> s.contains(#[trigger] t[i])
            &&& forall|i: int, j: int|
                0 <= i < j < t.len() ==> {
                    ||| (#[trigger] t[i]).1 > (#[trigger] t[j]).1
                    ||| t[i].1 == t[j].1 && exists|a: int, b: int|
                        0 <= a < b < s.len() && #[trigger] s[a] == t[i] && #[trigger] s[b] == t[j]
                }
        }),
{
    let m = queue@;
    queue.law_queue_is_well_formed();
    law_listings_exist(m);
    let e = m.by_sequence();
    let f = m.ranked();
    let s = items.remaining();
    let t = by_count.remaining();
    assert forall|i: int| 0 <= i < s.len() implies t.contains(#[trigger] s[i]) by {
        assert(m.entries.contains_key(e[i].item@) && m.entries[e[i].item@] == e[i]);
        let a = choose|a: int| 0 <= a < f.len() && f[a] == m.entries[e[i].item@];
        assert(t[a] == s[i]);
    }
    assert forall|i: int| 0 <= i < t.len() implies s.contains(#[trigger] t[i]) by {
        let a = lemma_listed_by_age(m, f[i].item@);
        assert(m.entries.contains_key(f[i].item@) && m.entries[f[i].item@] == f[i]);
        assert(s[a] == t[i]);
    }
    assert forall|i: int, j: int| 0 <= i < j < t.len() implies {
        ||| (#[trigger] t[i]).1 > (#[trigger] t[j]).1
        ||| t[i].1 == t[j].1 && exists|a: int, b: int|
            0 <= a < b < s.len() && #[trigger] s[a] == t[i] && #[trigger] s[b] == t[j]
    } by {
        assert(before(Order::Listing, f[i], f[j]));
        let a = lemma_listed_by_age(m, f[i].item@);
        let b = lemma_listed_by_age(m, f[j].item@);
        assert(m.entries.contains_key(f[i].item@) && m.entries[f[i].item@] == f[i]);
        assert(m.entries.contains_key(f[j].item@) && m.entries[f[j].item@] == f[j]);
        assert(s[a] == t[i] && s[b] == t[j]);
        if t[i].1 == t[j].1 {
            if b < a {
                assert(before(Order::Insertion, e[b], e[a]));
            }
        }
    }
}

/// A queue that was just made holds nothing, and has the capacity that was asked for.
pub proof fn law_new_queue_is_empty<T: Lookup<T>, C: Counter>(
    capacity: usize,
    hasher: SipState,
    queue: TopKQueue<T, C>,
    items: std::vec::IntoIter<(&T, u64)>,
)
    requires
        call_ensures(
            TopKQueue::<T, C>::with_capacity_and_hasher,
            (capacity, hasher),
            queue,
        ) || call_ensures(TopKQueue::<T, C>::with_capacity, (capacity,), queue),
        call_ensures(TopKQueue::<T, C>::iter_by_sequence, (&queue,), items),
    ensures
        queue.wf(),
        queue@.capacity == capacity,
        items.remaining().len() == 0,
{
    queue.law_queue_is_well_formed();
    law_listings_exist(queue@);
}

/// No call changes the capacity of a queue.
pub proof fn law_capacity_stays<T: Lookup<T> + Lookup<Q>, C: Counter, R: Reallocator, Q>(
    queue: &mut TopKQueue<T, C>,
    item: T,
    key: &Q,
    count: u64,
    evicted: Option<T>,
    present: bool,
    reallocator: &mut R,
) where Q: SipHash + View<V = <T as View>::V> + ?Sized
    requires
        queue.wf(),
        ({
            ||| call_ensures(TopKQueue::<T, C>::upsert, (queue, item, count), evicted)
            ||| call_ensures(TopKQueue::<T, C>::update_if_present::<Q>, (queue, key, count), present)
            ||| call_ensures(
                TopKQueue::<T, C>::realloc_large_heap_allocated_objects::<R>,
                (queue, reallocator),
                (),
            )
        }),
    ensures
        final(queue)@.capacity == old(queue)@.capacity,
{
}

/// Relocation leaves the items, their counts and their order as they are.
pub proof fn law_relocation_shows_nowhere<T: Lookup<T>, C: Counter, R: Reallocator>(
    queue: &mut TopKQueue<T, C>,
    after: TopKQueue<T, C>,
    reallocator: &mut R,
    old_items: std::vec::IntoIter<(&T, u64)>,
    new_items: std::vec::IntoIter<(&T, u64)>,
)
    requires
        queue.wf(),
        call_ensures(TopKQueue::<T, C>::iter_by_sequence, (&*queue,), old_items),
        call_ensures(
            TopKQueue::<T, C>::realloc_large_heap_allocated_objects::<R>,
            (queue, reallocator),
            (),
        ),
        after == *final(queue),
        call_ensures(TopKQueue::<T, C>::iter_by_sequence, (&after,), new_items),
    ensures
        after.wf(),
        new_items.remaining() == old_items.remaining(),
{
}

/// Where clones of an item stand for the same key and feed a hasher alike, a clone of a
/// queue holds the same keys with the same counts in the same order.
pub proof fn law_clone_shows_in_order<T: Lookup<T> + Clone, C: Counter>(
    queue: TopKQueue<T, C>,
    copy: TopKQueue<T, C>,
    old_items: std::vec::IntoIter<(&T, u64)>,
    new_items: std::vec::IntoIter<(&T, u64)>,
)
    requires
        queue.wf(),
        forall|a: T, b: T| #[trigger] cloned::<T>(a, b) ==> a@ == b@ && a.stream() == b.stream(),
        call_ensures(TopKQueue::<T, C>::clone, (&queue,), copy),
        call_ensures(TopKQueue::<T, C>::iter_by_sequence, (&queue,), old_items),
        call_ensures(TopKQueue::<T, C>::iter_by_sequence, (&copy,), new_items),
    ensures
        copy.wf(),
        copy@.capacity == queue@.capacity,
        ({
            let s = old_items.remaining();
            let t = new_items.remaining();
            &&& t.len() == s.len()
            &&& forall|i: int|
                0 <= i < s.len() ==> (#[trigger] s[i]).0@ == t[i].0@ && s[i].1 == t[i].1
                    && cloned::<T>(*s[i].0, *t[i].0)
        }),
{
    assert(clones_keep_keys::<T>());
    queue.law_queue_is_well_formed();
    copy.law_queue_is_well_formed();
    let m = queue@;
    let n = copy@;
    law_listings_exist(m);
    let e = m.by_sequence();
    let f = Seq::new(e.len(), |i: int| n.entries[e[i].item@]);
    assert forall|i: int| 0 <= i < e.len() implies m.entries.contains_key(
        (#[trigger] e[i]).item@,
    ) && n.entries.contains_key(e[i].item@) && m.entries[e[i].item@] == e[i] && f[i].item@
        == e[i].item@ by {
        assert(m.entries.contains_key(e[i].item@));
        assert(n.entries.dom().contains(e[i].item@));
    }
    assert forall|i: int| 0 <= i < f.len() implies {
        &&& n.entries.contains_key(#[trigger] f[i].item@)
        &&& n.entries[f[i].item@] == f[i]
    } by {
        assert(n.entries.contains_key(e[i].item@));
    }
    assert forall|k: T::V| #[trigger] n.entries.contains_key(k) implies f.contains(
        n.entries[k],
    ) by {
        assert(m.entries.dom().contains(k));
        let i = lemma_listed_by_age(m, k);
        assert(f[i] == n.entries[k]);
    }
    assert forall|a: int, b: int| 0 <= a < b < f.len() implies #[trigger] before(
        Order::Insertion,
        f[a],
        f[b],
    ) by {
        assert(before(Order::Insertion, e[a], e[b]));
        assert(m.entries.contains_key(e[a].item@) && m.entries.contains_key(e[b].item@));
    }
    assert(lists(n.entries, f, Order::Insertion));
    law_listings_exist(n);
    law_listing_is_unique(n.entries, f, n.by_sequence(), Order::Insertion);
    let s = old_items.remaining();
    let t = new_items.remaining();
    assert forall|i: int| 0 <= i < s.len() implies (#[trigger] s[i]).0@ == t[i].0@ && s[i].1
        == t[i].1 && cloned::<T>(*s[i].0, *t[i].0) by {
        assert(m.entries.contains_key(e[i].item@));
        assert(t[i].0 == f[i].item);
    }
}

/// The counts in the order of the heap are those of the slots, each in one place, and
/// none is smaller than the one above it: that of position `i` is above those of `2 * i
/// + 1` and `2 * i + 2`. The slots hold the items that are tracked, each in one place.
pub proof fn law_heap_counts_show_in_slots<T: Lookup<T>, C: Counter>(
    queue: TopKQueue<T, C>,
    counts: Vec<u64>,
)
    requires
        queue.wf(),
        call_ensures(TopKQueue::<T, C>::heap_counts, (&queue,), counts),
    ensures
        counts@.len() == queue.slots().len() == queue@.entries.len(),
        exists|place: Seq<u32>|
            {
                &&& #[trigger] place.len() == counts@.len()
                &&& forall|p: int|
                    0 <= p < place.len() ==> (#[trigger] place[p]) < counts@.len() && counts@[p]
                        == queue.slots()[place[p] as int].count
                &&& forall|p: int, r: int|
                    0 <= p < r < place.len() ==> (#[trigger] place[p]) != (#[trigger] place[r])
            },
        forall|i: int, j: int|
            0 <= i < j < counts@.len() && (j == 2 * i + 1 || j == 2 * i + 2)
                ==> #[trigger] counts@[i] <= #[trigger] counts@[j],
        forall|i: int|
            0 <= i < queue.slots().len() ==> {
                &&& queue@.entries.contains_key((#[trigger] queue.slots()[i]).item@)
                &&& queue@.entries[queue.slots()[i].item@] == queue.slots()[i]
            },
        forall|i: int, j: int|
            0 <= i < j < queue.slots().len() ==> (#[trigger] queue.slots()[i]).item@ != (
            #[trigger] queue.slots()[j]).item@,
        forall|k: T::V| #[trigger]
            queue@.entries.contains_key(k) ==> exists|i: int|
                0 <= i < queue.slots().len() && (#[trigger] queue.slots()[i]).item@ == k,
{
    queue.law_heap_property();
    queue.law_slots_hold_the_entries();
    queue.law_heap_is_laid_out();
    let slots = queue.slots();
    assert forall|i: int| 0 <= i < slots.len() implies {
        &&& queue@.entries.contains_key((#[trigger] slots[i]).item@)
        &&& queue@.entries[slots[i].item@] == slots[i]
    } by {
        lemma_keyed_entry(slots, i);
    }
    assert forall|k: T::V| #[trigger] queue@.entries.contains_key(k) implies exists|i: int|
        0 <= i < slots.len() && (#[trigger] slots[i]).item@ == k by {
        lemma_keyed_place(slots, k);
        assert(slots[place_of(slots, k)].item@ == k);
    }
    assert forall|i: int, j: int|
        0 <= i < j < counts@.len() && (j == 2 * i + 1 || j == 2 * i
            + 2) implies #[trigger] counts@[i] <= #[trigger] counts@[j] by {
        assert((j - 1) / 2 == i);
        assert(queue.counts_in_heap()[parent_of(j)] <= queue.counts_in_heap()[j]);
    }
    let place = queue.heap_vec()@;
    assert(place.len() == counts@.len());
}

/// The parent of a heap position is above it.
pub proof fn law_parent_is_above<T, C: Counter>(i: usize, p: usize)
    requires
        i > 0,
        call_ensures(TopKQueue::<T, C>::parent, (i,), p),
    ensures
        i == 2 * p + 1 || i == 2 * p + 2,
{
}

/// Of two slots, the one with the smaller count comes first in the heap, or with the
/// same count the older one.
pub proof fn law_heap_less_is_by_count_and_age<T: Lookup<T>, C: Counter>(
    queue: TopKQueue<T, C>,
    a: u32,
    b: u32,
    less: bool,
)
    requires
        call_ensures(TopKQueue::<T, C>::heap_less, (&queue, a, b), less),
    ensures
        ({
            let (x, y) = (queue.slots()[a as int], queue.slots()[b as int]);
            less <==> x.count < y.count || (x.count == y.count && x.sequence < y.sequence)
        }),
{
}

/// A queue can be made for every capacity whose slots fit in an allocation, up to that
/// of a table.
pub proof fn law_queues_can_be_made<T: Lookup<T>, C: Counter>(
    capacity: usize,
    hasher: SipState,
    possible: bool,
)
    requires
        call_ensures(TopKQueue::<T, C>::can_hold, (capacity,), possible),
    ensures
        possible <==> capacity <= 7 * ((usize::MAX + 1) / 256) && capacity * size_of::<
            Slot<T, C>,
        >() <= isize::MAX,
        possible ==> call_requires(
            TopKQueue::<T, C>::with_capacity_and_hasher,
            (capacity, hasher),
        ) && call_requires(TopKQueue::<T, C>::with_capacity, (capacity,)),
{
    assert(usize::MAX == 0xffff_ffff || usize::MAX == 0xffff_ffff_ffff_ffff);
}

/// Every item can be offered with every count: one that is tracked always, a new one
/// until the insertion numbers run out or a free place is beyond the numbers for slots.
pub proof fn law_items_can_be_offered<T: Lookup<T>, C: Counter>(
    queue: &mut TopKQueue<T, C>,
    item: T,
    count: u64,
)
    requires
        queue.wf(),
        ({
            ||| queue@.entries.contains_key(item@)
            ||| queue@.sequence < u64::MAX && (queue@.entries.len() <= u32::MAX
                || queue@.entries.len() == queue@.capacity)
        }),
    ensures
        call_requires(TopKQueue::<T, C>::upsert, (queue, item, count)),
{
}

/// Every queue can be asked for every key and for its listings, have the count of any key
/// raised, be relocated, and tell its memory by any function that can be asked of every
/// item.
pub proof fn law_queues_can_be_asked<T: Lookup<T> + Lookup<Q>, C: Counter, R: Reallocator, F, Q>(
    queue: &mut TopKQueue<T, C>,
    key: &Q,
    count: u64,
    reallocator: &mut R,
    item_heap: F,
) where Q: SipHash + View<V = <T as View>::V> + ?Sized, F: Fn(&T) -> usize
    requires
        queue.wf(),
        forall|item: T| call_requires(item_heap, (&item,)),
    ensures
        call_requires(
            TopKQueue::<T, C>::realloc_large_heap_allocated_objects::<R>,
            (queue, reallocator),
        ),
        call_requires(TopKQueue::<T, C>::mem_bytes::<F>, (old(queue), item_heap)),
        call_requires(TopKQueue::<T, C>::get::<Q>, (old(queue), key)),
        call_requires(TopKQueue::<T, C>::contains::<Q>, (old(queue), key)),
        call_requires(TopKQueue::<T, C>::update_if_present::<Q>, (queue, key, count)),
        call_requires(TopKQueue::<T, C>::iter, (old(queue),)),
        call_requires(TopKQueue::<T, C>::iter_by_sequence, (old(queue),)),
        call_requires(TopKQueue::<T, C>::len, (old(queue),)),
        call_requires(TopKQueue::<T, C>::min_count, (old(queue),)),
        call_requires(TopKQueue::<T, C>::is_full, (old(queue),)),
        call_requires(TopKQueue::<T, C>::heap_counts, (old(queue),)),
{
}

/// With `u64` counters an item that is offered with any count, while it is tracked or
/// there is room, is found with this very count; in a full queue so is a new one with a
/// count above the smallest, and one with another count is not found. What is tracked
/// besides keeps its count, but for the item that is handed back.
pub proof fn law_offered_counts_are_found<T: Lookup<T> + Lookup<Q>, Q>(
    queue: &mut TopKQueue<T, u64>,
    after: TopKQueue<T, u64>,
    item: T,
    count: u64,
    evicted: Option<T>,
    full: bool,
    tracked_before: Option<u64>,
    smallest: u64,
    found: Option<u64>,
    other: &Q,
    other_before: Option<u64>,
    other_after: Option<u64>,
) where Q: SipHash + View<V = <T as View>::V> + ?Sized
    requires
        queue.wf(),
        queue@.capacity > 0,
        call_ensures(TopKQueue::<T, u64>::is_full, (&*queue,), full),
        call_ensures(TopKQueue::<T, u64>::get::<T>, (&*queue, &item), tracked_before),
        call_ensures(TopKQueue::<T, u64>::min_count, (&*queue,), smallest),
        call_ensures(TopKQueue::<T, u64>::get::<Q>, (&*queue, other), other_before),
        call_ensures(TopKQueue::<T, u64>::upsert, (queue, item, count), evicted),
        after == *final(queue),
        call_ensures(TopKQueue::<T, u64>::get::<T>, (&after, &item), found),
        call_ensures(TopKQueue::<T, u64>::get::<Q>, (&after, other), other_after),
    ensures
        tracked_before is Some || !full || count > smallest ==> found == Some(count),
        tracked_before is None && full && count <= smallest ==> found is None,
        evicted is Some <==> tracked_before is None && full && count > smallest,
        other@ != item@ && (evicted is None || evicted->0@ != other@) ==> other_after
            == other_before,
        evicted is Some && evicted->0@ == other@ ==> other_before == Some(smallest)
            && other_after is None,
{
    queue.law_queue_is_well_formed();
    if queue@.entries.len() > 0 {
        law_min_exists(queue@);
    }
}

} // verus!
