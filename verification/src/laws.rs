//! What follows for every queue from what its operations do.
use crate::model::{
    alike, before, distinct_keys, keyed, law_listing_is_unique, law_min_is_unique,
    lemma_keyed_entry, lemma_keyed_len, lemma_keyed_place, lemma_keyed_push, lemma_order_is_total,
    listed, lists, offers, place_of, same_answer, same_answers, same_call, same_calls, same_listing,
    Answer, Call, Entry, Order, QueueModel,
};
use crate::traits::at_most;
use vstd::prelude::*;

verus! {

/// Of finitely many entries, one comes first.
proof fn lemma_first<T: View>(entries: Map<T::V, Entry<T>>, order: Order) -> (key: T::V)
    requires
        entries.dom().finite(),
        entries.len() > 0,
    ensures
        entries.contains_key(key),
        forall|o: T::V| #[trigger]
            entries.contains_key(o) ==> !before(order, entries[o], entries[key]),
    decreases entries.len(),
{
    let a = entries.dom().choose();
    let rest = entries.remove(a);
    if rest.len() == 0 {
        assert forall|o: T::V| #[trigger] entries.contains_key(o) implies o == a by {
            if o != a {
                assert(rest.dom().contains(o));
            }
        }
        a
    } else {
        let b = lemma_first(rest, order);
        assert forall|o: T::V| #[trigger] entries.contains_key(o) && o != a implies !before(
            order,
            entries[o],
            entries[b],
        ) by {
            assert(rest.contains_key(o));
        }
        assert(rest.contains_key(b));
        if before(order, entries[a], entries[b]) {
            a
        } else {
            b
        }
    }
}

/// Of finitely many entries, one comes last.
proof fn lemma_last<T: View>(entries: Map<T::V, Entry<T>>, order: Order) -> (key: T::V)
    requires
        entries.dom().finite(),
        entries.len() > 0,
    ensures
        entries.contains_key(key),
        forall|o: T::V| #[trigger]
            entries.contains_key(o) ==> !before(order, entries[key], entries[o]),
    decreases entries.len(),
{
    let a = entries.dom().choose();
    let rest = entries.remove(a);
    if rest.len() == 0 {
        assert forall|o: T::V| #[trigger] entries.contains_key(o) implies o == a by {
            if o != a {
                assert(rest.dom().contains(o));
            }
        }
        a
    } else {
        let b = lemma_last(rest, order);
        assert forall|o: T::V| #[trigger] entries.contains_key(o) && o != a implies !before(
            order,
            entries[b],
            entries[o],
        ) by {
            assert(rest.contains_key(o));
        }
        assert(rest.contains_key(b));
        if before(order, entries[b], entries[a]) {
            a
        } else {
            b
        }
    }
}

/// A queue that holds something has an entry that is evicted next.
pub proof fn law_min_exists<T: View>(m: QueueModel<T>)
    requires
        m.well_formed(),
        m.entries.len() > 0,
    ensures
        m.is_min(m.min_key()),
        forall|k: T::V| #[trigger]
            m.entries.contains_key(k) ==> m.min_count() <= m.entries[k].count,
{
    let k = lemma_first(m.entries, Order::Eviction);
    assert(m.is_min(k));
    law_min_is_unique(m, k);
}

proof fn lemma_listing<T: View>(m: QueueModel<T>, order: Order) -> (s: Seq<Entry<T>>)
    requires
        m.well_formed(),
    ensures
        lists(m.entries, s, order),
    decreases m.entries.len(),
{
    if m.entries.len() == 0 {
        let s = Seq::<Entry<T>>::empty();
        assert forall|k: T::V| #[trigger] m.entries.contains_key(k) implies s.contains(
            m.entries[k],
        ) by {
            assert(m.entries.dom().contains(k));
        }
        s
    } else {
        let last = lemma_last(m.entries, order);
        let rest = m.removed(last);
        let front = lemma_listing(rest, order);
        let s = front.push(m.entries[last]);
        assert forall|i: int| 0 <= i < s.len() implies {
            &&& m.entries.contains_key(#[trigger] s[i].item@)
            &&& m.entries[s[i].item@] == s[i]
        } by {
            if i < front.len() {
                assert(rest.entries.contains_key(front[i].item@));
            }
        }
        assert forall|k: T::V| #[trigger] m.entries.contains_key(k) implies s.contains(
            m.entries[k],
        ) by {
            if k == last {
                assert(s[front.len() as int] == m.entries[k]);
            } else {
                assert(rest.entries.contains_key(k));
                let i = choose|i: int| 0 <= i < front.len() && front[i] == rest.entries[k];
                assert(s[i] == m.entries[k]);
            }
        }
        assert forall|i: int, j: int| 0 <= i < j < s.len() implies #[trigger] before(
            order,
            s[i],
            s[j],
        ) by {
            if j < front.len() {
                assert(before(order, front[i], front[j]));
            } else {
                assert(rest.entries.contains_key(front[i].item@));
                lemma_order_is_total(m, order, front[i].item@, last);
            }
        }
        s
    }
}

/// Every queue has its listings: by descending count with older entries first
/// among equals, and by age. Each holds every entry once.
pub proof fn law_listings_exist<T: View>(m: QueueModel<T>)
    requires
        m.well_formed(),
    ensures
        lists(m.entries, m.ranked(), Order::Listing),
        lists(m.entries, m.by_sequence(), Order::Insertion),
{
    let a = lemma_listing(m, Order::Listing);
    let b = lemma_listing(m, Order::Insertion);
}

/// Offering an item keeps a queue well-formed: it never tracks more items than its
/// capacity, and insertion numbers stay apart.
pub proof fn law_upsert_keeps_well_formed<T: View>(m: QueueModel<T>, item: T, count: u64)
    requires
        m.well_formed(),
    ensures
        m.upserted(item, count).well_formed(),
{
    if m.entries.contains_key(item@) {
        assert(m.entries.insert(
            item@,
            Entry { count, ..m.entries[item@] },
        ).dom() =~= m.entries.dom());
    } else if m.displaces(item@, count) {
        law_min_exists(m);
    }
}

/// Raising a count keeps a queue well-formed, never lowers a count, and leaves the
/// other entries as they are.
pub proof fn law_raise_never_lowers<T: View>(m: QueueModel<T>, key: T::V, count: u64)
    requires
        m.well_formed(),
    ensures
        m.raised(key, count).well_formed(),
        m.raised(key, count).entries.dom() == m.entries.dom(),
        forall|k: T::V| #[trigger]
            m.entries.contains_key(k) ==> {
                &&& m.raised(key, count).entries[k].count >= m.entries[k].count
                &&& m.raised(key, count).entries[k].sequence == m.entries[k].sequence
                &&& k != key ==> m.raised(key, count).entries[k] == m.entries[k]
            },
        m.entries.contains_key(key) ==> m.raised(key, count).entries[key].count >= count,
{
    assert(m.raised(key, count).entries.dom() =~= m.entries.dom());
}

/// What is tracked after an offer: the item, if it was tracked before or taken in,
/// with the count that was offered; and every other item that was tracked before,
/// unchanged, but for the one that was evicted.
pub proof fn law_upsert_tracks<T: View>(m: QueueModel<T>, item: T, count: u64)
    requires
        m.well_formed(),
    ensures
        m.upserted(item, count).count_of(item@) == (if m.entries.contains_key(item@) || m.takes_in(
            item@,
            count,
        ) {
            Some(count)
        } else {
            None
        }),
        forall|k: T::V|
            k != item@ ==> m.upserted(item, count).count_of(k) == (if m.displaces(item@, count) && k
                == m.min_key() {
                None
            } else {
                #[trigger] m.count_of(k)
            }),
        !m.entries.contains_key(item@) && !m.takes_in(item@, count) ==> m.upserted(item, count)
            == m,
{
    if m.displaces(item@, count) {
        law_min_exists(m);
    }
}

/// An eviction gives up the smallest entry, the oldest of those with the smallest
/// count, for a larger one: the item is no longer tracked, the newcomer is, the
/// queue stays full, and no count is below what the minimum was.
pub proof fn law_eviction_gives_up_the_smallest<T: View>(m: QueueModel<T>, item: T, count: u64)
    requires
        m.well_formed(),
        m.evicted(item@, count) is Some,
    ensures
        m.is_full(),
        m.is_min(m.evicted(item@, count)->0@),
        m.entries[m.evicted(item@, count)->0@].count < count,
        !m.upserted(item, count).entries.contains_key(m.evicted(item@, count)->0@),
        m.upserted(item, count).entries.contains_key(item@),
        m.upserted(item, count).entries.len() == m.entries.len(),
        forall|k: T::V| #[trigger]
            m.upserted(item, count).entries.contains_key(k) ==> m.upserted(
                item,
                count,
            ).entries[k].count >= m.min_count(),
{
    law_min_exists(m);
}

/// While a queue is full, offering an item that it does not track never lowers the
/// smallest count.
pub proof fn law_floor_never_drops<T: View>(m: QueueModel<T>, item: T, count: u64)
    requires
        m.well_formed(),
        m.is_full(),
        !m.entries.contains_key(item@),
    ensures
        m.upserted(item, count).min_count() >= m.min_count(),
{
    if m.displaces(item@, count) {
        law_eviction_gives_up_the_smallest(m, item, count);
        law_upsert_keeps_well_formed(m, item, count);
        law_min_exists(m.upserted(item, count));
    }
}

/// Offering the same item with the same count again changes nothing.
pub proof fn law_second_offer_changes_nothing<T: View>(m: QueueModel<T>, item: T, count: u64)
    requires
        m.well_formed(),
    ensures
        m.upserted(item, count).upserted(item, count) == m.upserted(item, count),
{
    let once = m.upserted(item, count);
    if once.entries.contains_key(item@) {
        assert(once.recounted(item@, count).entries =~= once.entries);
    }
}

/// What holds of every queue that any calls lead to from an empty one: it tracks no
/// more items than its capacity, and no count is above the limit or below the
/// smallest count.
pub proof fn law_calls_keep_the_bounds<T: View>(capacity: nat, calls: Seq<Call<T>>, limit: u64)
    ensures
        ({
            let m = QueueModel::empty(capacity).run(calls, limit);
            &&& m.well_formed()
            &&& m.capacity == capacity
            &&& m.entries.len() <= capacity
            &&& forall|k: T::V| #[trigger]
                m.entries.contains_key(k) ==> m.min_count() <= m.entries[k].count <= limit
        }),
    decreases calls.len(),
{
    let m = QueueModel::empty(capacity).run(calls, limit);
    if calls.len() > 0 {
        let p = QueueModel::empty(capacity).run(calls.drop_last(), limit);
        law_calls_keep_the_bounds(capacity, calls.drop_last(), limit);
        match calls.last() {
            Call::Upsert { item, count } => {
                law_upsert_keeps_well_formed(p, item, at_most(count, limit));
                if p.entries.len() > 0 {
                    law_min_exists(p);
                }
            },
            Call::Raise { key, count } => {
                law_raise_never_lowers(p, key, at_most(count, limit));
            },
        }
        assert forall|k: T::V| #[trigger] m.entries.contains_key(k) implies m.entries[k].count
            <= limit by {
            if p.entries.contains_key(k) {
                assert(p.entries[k].count <= limit);
            }
        }
    }
    if m.entries.len() > 0 {
        law_min_exists(m);
    } else {
        assert forall|k: T::V| #[trigger] m.entries.contains_key(k) implies false by {
            assert(m.entries.dom().contains(k));
        }
    }
}

/// A listing shows as many items as are tracked, none twice, each with the count
/// that a lookup gives, and every item that is tracked.
pub proof fn law_listings_agree_with_lookups<T: View>(m: QueueModel<T>, order: Order)
    requires
        m.well_formed(),
    ensures
        ({
            let s = listed(m.listing(order));
            &&& s.len() == m.entries.len()
            &&& forall|i: int, j: int|
                0 <= i < j < s.len() ==> (#[trigger] s[i]).0@ != (#[trigger] s[j]).0@
            &&& forall|i: int|
                0 <= i < s.len() ==> m.count_of((#[trigger] s[i]).0@) == Some(s[i].1)
            &&& forall|k: T::V| #[trigger]
                m.entries.contains_key(k) ==> exists|i: int|
                    0 <= i < s.len() && (#[trigger] s[i]).0@ == k
        }),
{
    let some_listing = lemma_listing(m, order);
    let e = m.listing(order);
    let s = listed(e);
    assert forall|i: int, j: int| 0 <= i < j < s.len() implies (#[trigger] s[i]).0@ != (
    #[trigger] s[j]).0@ by {
        assert(before(order, e[i], e[j]));
        assert(m.entries[e[i].item@] == e[i] && m.entries[e[j].item@] == e[j]);
    }
    assert forall|i: int| 0 <= i < s.len() implies m.count_of((#[trigger] s[i]).0@) == Some(
        s[i].1,
    ) by {
        assert(m.entries.contains_key(e[i].item@));
    }
    assert forall|k: T::V| #[trigger] m.entries.contains_key(k) implies exists|i: int|
        0 <= i < s.len() && (#[trigger] s[i]).0@ == k by {
        let i = choose|i: int| 0 <= i < e.len() && e[i] == m.entries[k];
        assert(s[i].0@ == k);
    }
}

/// A queue is full exactly when it tracks as many items as its capacity, and no
/// call makes room in a full queue.
pub proof fn law_full_stays_full<T: View>(m: QueueModel<T>, call: Call<T>, limit: u64)
    requires
        m.well_formed(),
    ensures
        m.is_full() <==> m.entries.len() == m.capacity,
        m.is_full() ==> m.called(call, limit).is_full(),
{
    match call {
        Call::Upsert { item, count } => {
            if m.entries.contains_key(item@) {
                assert(m.called(call, limit).entries.dom() =~= m.entries.dom());
            } else if m.displaces(item@, at_most(count, limit)) {
                law_min_exists(m);
            }
        },
        Call::Raise { key, count } => {
            law_raise_never_lowers(m, key, at_most(count, limit));
        },
    }
}

/// A call keeps a queue well-formed.
proof fn lemma_call_keeps_well_formed<T: View>(m: QueueModel<T>, call: Call<T>, limit: u64)
    requires
        m.well_formed(),
    ensures
        m.called(call, limit).well_formed(),
{
    match call {
        Call::Upsert { item, count } => {
            law_upsert_keeps_well_formed(m, item, at_most(count, limit));
        },
        Call::Raise { key, count } => {
            law_raise_never_lowers(m, key, at_most(count, limit));
        },
    }
}

/// Two queues that are alike give up the same item next.
proof fn lemma_alike_min<T: View>(a: QueueModel<T>, b: QueueModel<T>)
    requires
        a.well_formed(),
        b.well_formed(),
        alike(a, b),
    ensures
        a.entries.len() > 0 ==> {
            &&& a.is_min(a.min_key())
            &&& b.is_min(b.min_key())
            &&& a.min_key() == b.min_key()
        },
        a.min_count() == b.min_count(),
{
    if a.entries.len() > 0 {
        law_min_exists(a);
        let k = a.min_key();
        assert forall|o: T::V| #[trigger] b.entries.contains_key(o) implies !before(
            Order::Eviction,
            b.entries[o],
            b.entries[k],
        ) by {
            assert(a.entries.contains_key(o) && a.entries.contains_key(k));
        }
        assert(b.is_min(k));
        law_min_is_unique(b, k);
    }
}

/// The same call finds two queues that are alike, and leaves them so, with the same
/// answer.
proof fn lemma_alike_called<T: View>(
    a: QueueModel<T>,
    b: QueueModel<T>,
    call: Call<T>,
    other: Call<T>,
    limit: u64,
)
    requires
        a.well_formed(),
        b.well_formed(),
        alike(a, b),
        same_call(call, other),
    ensures
        same_answer(a.answer(call, limit), b.answer(other, limit)),
        a.called(call, limit).well_formed(),
        b.called(other, limit).well_formed(),
        alike(a.called(call, limit), b.called(other, limit)),
        b.called(other, limit).sequence - b.sequence == a.called(call, limit).sequence - a.sequence,
{
    lemma_alike_min(a, b);
    lemma_call_keeps_well_formed(a, call, limit);
    lemma_call_keeps_well_formed(b, other, limit);
    let x = a.called(call, limit);
    let y = b.called(other, limit);
    assert forall|k: T::V| a.entries.contains_key(k) <==> b.entries.contains_key(k) by {
        assert(a.entries.dom().contains(k) <==> b.entries.dom().contains(k));
    }
    assert(x.entries.dom() =~= y.entries.dom());
    assert forall|k: T::V, o: T::V| #[trigger]
        x.entries.contains_key(k) && #[trigger] x.entries.contains_key(o) implies (
    y.entries[k].sequence < y.entries[o].sequence <==> x.entries[k].sequence
        < x.entries[o].sequence) by {
        if a.entries.contains_key(k) {
            assert(b.entries.contains_key(k));
        }
        if a.entries.contains_key(o) {
            assert(b.entries.contains_key(o));
        }
    }
}

/// Two queues that track the same keys with the same counts, inserted in the same
/// order, cannot be told apart: whatever the same calls follow, both give the same
/// answers, are listed alike, and use up as many insertion numbers.
pub proof fn law_alike_stays_alike<T: View>(
    a: QueueModel<T>,
    b: QueueModel<T>,
    calls: Seq<Call<T>>,
    others: Seq<Call<T>>,
    limit: u64,
)
    requires
        a.well_formed(),
        b.well_formed(),
        alike(a, b),
        same_calls(calls, others),
    ensures
        same_answers(a.answers(calls, limit), b.answers(others, limit)),
        alike(a.run(calls, limit), b.run(others, limit)),
        b.run(others, limit).sequence - b.sequence == a.run(calls, limit).sequence - a.sequence,
        a.run(calls, limit).well_formed(),
        b.run(others, limit).well_formed(),
        a.run(calls, limit).min_count() == b.run(others, limit).min_count(),
        same_listing(
            listed(a.run(calls, limit).ranked()),
            listed(b.run(others, limit).ranked()),
        ),
        same_listing(
            listed(a.run(calls, limit).by_sequence()),
            listed(b.run(others, limit).by_sequence()),
        ),
    decreases calls.len(),
{
    if calls.len() > 0 {
        let front = calls.drop_last();
        let other_front = others.drop_last();
        let last = calls.len() - 1;
        assert forall|i: int| 0 <= i < front.len() implies same_call(
            #[trigger] front[i],
            #[trigger] other_front[i],
        ) by {
            assert(same_call(calls[i], others[i]));
        }
        assert(same_call(calls[last], others[last]));
        law_alike_stays_alike(a, b, front, other_front, limit);
        lemma_alike_called(
            a.run(front, limit),
            b.run(other_front, limit),
            calls.last(),
            others.last(),
            limit,
        );
        let x = a.answers(calls, limit);
        let y = b.answers(others, limit);
        assert forall|i: int| 0 <= i < x.len() implies same_answer(
            #[trigger] x[i],
            #[trigger] y[i],
        ) by {
            if i < last {
                assert(front.take(i) =~= calls.take(i));
                assert(other_front.take(i) =~= others.take(i));
                assert(same_answer(
                    a.answers(front, limit)[i],
                    b.answers(other_front, limit)[i],
                ));
            } else {
                assert(calls.take(i) =~= front);
                assert(others.take(i) =~= other_front);
            }
        }
    }
    let x = a.run(calls, limit);
    let y = b.run(others, limit);
    lemma_alike_min(x, y);
    lemma_same_listing(x, y, Order::Listing);
    lemma_same_listing(x, y, Order::Insertion);
}

/// The entries of `s` with the numbers 1, 2, 3 and so on in place of their own.
spec fn renumbered<T>(s: Seq<Entry<T>>) -> Seq<Entry<T>> {
    Seq::new(s.len(), |i: int| Entry { sequence: (i + 1) as nat, ..s[i] })
}

/// Without its last entry, a sequence of entries still has no key twice.
proof fn lemma_distinct_front<T: View>(s: Seq<Entry<T>>)
    requires
        distinct_keys(s),
        s.len() > 0,
    ensures
        distinct_keys(s.drop_last()),
        offers(s).drop_last() == offers(s.drop_last()),
        forall|i: int| 0 <= i < s.len() - 1 ==> (#[trigger] s[i]).item@ != s.last().item@,
{
    let front = s.drop_last();
    assert forall|i: int, j: int| 0 <= i < j < front.len() implies #[trigger] front[i].item@
        != #[trigger] front[j].item@ by {
        assert(s[i].item@ != s[j].item@);
    }
    assert forall|i: int| 0 <= i < s.len() - 1 implies (#[trigger] s[i]).item@
        != s.last().item@ by {
        assert(s[i].item@ != s[s.len() - 1].item@);
    }
    assert(offers(s).drop_last() =~= offers(front));
}

/// Offering entries with different keys to an empty queue that has room for all
/// of them files each under the number of its turn, and displaces nothing.
proof fn lemma_replay<T: View>(capacity: nat, s: Seq<Entry<T>>, limit: u64)
    requires
        distinct_keys(s),
        s.len() <= capacity,
        forall|i: int| 0 <= i < s.len() ==> (#[trigger] s[i]).count <= limit,
    ensures
        distinct_keys(renumbered(s)),
        QueueModel::empty(capacity).run(offers(s), limit) == (QueueModel {
            capacity,
            sequence: s.len(),
            entries: keyed(renumbered(s)),
        }),
        forall|i: int|
            0 <= i < s.len() ==> #[trigger] QueueModel::empty(capacity).answers(offers(s), limit)[i]
                == Answer::Evicted(None::<T>),
    decreases s.len(),
{
    let start = QueueModel::<T>::empty(capacity);
    if s.len() == 0 {
        assert(keyed(renumbered(s)) =~= Map::empty());
    } else {
        let front = s.drop_last();
        lemma_distinct_front(s);
        assert forall|i: int| 0 <= i < front.len() implies (#[trigger] front[i]).count
            <= limit by {
            assert(s[i].count <= limit);
        }
        lemma_replay(capacity, front, limit);
        let e = Entry { sequence: s.len(), ..s.last() };
        if keyed(renumbered(front)).contains_key(e.item@) {
            lemma_keyed_place(renumbered(front), e.item@);
            let p = place_of(renumbered(front), e.item@);
            assert(s[p].item@ != s.last().item@);
        }
        lemma_keyed_len(renumbered(front));
        lemma_keyed_push(renumbered(front), e);
        assert(renumbered(s) =~= renumbered(front).push(e));
        assert(s[s.len() - 1].count <= limit);
        assert forall|i: int| 0 <= i < s.len() implies #[trigger] start.answers(
            offers(s),
            limit,
        )[i] == Answer::Evicted(None::<T>) by {
            if i < front.len() {
                assert(offers(front).take(i) =~= offers(s).take(i));
                assert(start.answers(offers(front), limit)[i] == Answer::Evicted(None::<T>));
            } else {
                assert(offers(s).take(i) =~= offers(front));
            }
        }
    }
}

/// Listed by age, an entry has a number no smaller than its place.
proof fn lemma_numbers_ascend<T: View>(m: QueueModel<T>, n: int)
    requires
        m.well_formed(),
        lists(m.entries, m.by_sequence(), Order::Insertion),
        0 <= n <= m.entries.len(),
    ensures
        n > 0 ==> m.by_sequence()[n - 1].sequence >= n,
        n <= m.sequence,
    decreases n,
{
    let s = m.by_sequence();
    if n > 0 {
        lemma_numbers_ascend(m, n - 1);
        assert(m.entries.contains_key(s[n - 1].item@));
        if n > 1 {
            assert(before(Order::Insertion, s[n - 2], s[n - 1]));
        }
    }
}

/// Offering the very items of a queue in the order of their insertion.
proof fn lemma_replay_items<T: View>(m: QueueModel<T>, limit: u64)
    requires
        m.well_formed(),
        forall|k: T::V| #[trigger] m.entries.contains_key(k) ==> m.entries[k].count <= limit,
    ensures
        forall|i: int|
            0 <= i < m.entries.len() ==> #[trigger] QueueModel::empty(m.capacity).answers(
                offers(m.by_sequence()),
                limit,
            )[i] == Answer::Evicted(None::<T>),
        forall|i: int|
            0 <= i <= m.entries.len() ==> {
                let part = #[trigger] QueueModel::empty(m.capacity).run(
                    offers(m.by_sequence()).take(i),
                    limit,
                );
                part.sequence == i && part.entries.len() == i
            },
        m.by_sequence().len() == m.entries.len() <= m.sequence,
        QueueModel::empty(m.capacity).run(offers(m.by_sequence()), limit).well_formed(),
        alike(m, QueueModel::empty(m.capacity).run(offers(m.by_sequence()), limit)),
{
    law_listings_exist(m);
    let s = m.by_sequence();
    let r = renumbered(s);
    let restored = QueueModel::empty(m.capacity).run(offers(s), limit);
    assert(distinct_keys(s)) by {
        assert forall|i: int, j: int| 0 <= i < j < s.len() implies #[trigger] s[i].item@
            != #[trigger] s[j].item@ by {
            assert(before(Order::Insertion, s[i], s[j]));
        }
    }
    assert forall|i: int| 0 <= i < s.len() implies (#[trigger] s[i]).count <= limit by {
        assert(m.entries.contains_key(s[i].item@));
    }
    assert forall|i: int| 0 <= i <= s.len() implies {
        let part = #[trigger] QueueModel::empty(m.capacity).run(offers(s).take(i), limit);
        part.sequence == i && part.entries.len() == i
    } by {
        let part = s.take(i);
        assert(distinct_keys(part)) by {
            assert forall|a: int, b: int| 0 <= a < b < part.len() implies #[trigger] part[a].item@
                != #[trigger] part[b].item@ by {
                assert(s[a].item@ != s[b].item@);
            }
        }
        assert forall|a: int| 0 <= a < part.len() implies (#[trigger] part[a]).count <= limit by {
            assert(s[a].count <= limit);
        }
        lemma_replay(m.capacity, part, limit);
        lemma_keyed_len(renumbered(part));
        assert(offers(part) =~= offers(s).take(i));
    }
    lemma_numbers_ascend(m, s.len() as int);
    lemma_replay(m.capacity, s, limit);
    lemma_keyed_len(r);
    assert forall|k: T::V| #[trigger] m.entries.contains_key(k) implies {
        &&& restored.entries.contains_key(k)
        &&& 0 <= place_of(r, k) < s.len()
        &&& s[place_of(r, k)] == m.entries[k]
        &&& restored.entries[k] == r[place_of(r, k)]
    } by {
        let i = choose|i: int| 0 <= i < s.len() && s[i] == m.entries[k];
        assert(r[i].item@ == k);
        lemma_keyed_entry(r, i);
    }
    assert forall|k: T::V| #[trigger] restored.entries.contains_key(k) implies {
        &&& m.entries.contains_key(k)
        &&& restored.entries[k].item@ == k
        &&& 1 <= restored.entries[k].sequence <= restored.sequence
    } by {
        lemma_keyed_place(r, k);
        let i = place_of(r, k);
        assert(m.entries.contains_key(s[i].item@));
    }
    assert(restored.entries.dom() =~= m.entries.dom());
    assert forall|k: T::V, o: T::V| #[trigger]
        m.entries.contains_key(k) && #[trigger] m.entries.contains_key(o) implies (
    restored.entries[k].sequence < restored.entries[o].sequence <==> m.entries[k].sequence
        < m.entries[o].sequence) by {
        let i = place_of(r, k);
        let j = place_of(r, o);
        if i < j {
            assert(before(Order::Insertion, s[i], s[j]));
        } else if j < i {
            assert(before(Order::Insertion, s[j], s[i]));
        }
    }
    assert forall|k: T::V, o: T::V| #[trigger]
        restored.entries.contains_key(k) && #[trigger] restored.entries.contains_key(o) && k
            != o implies restored.entries[k].sequence != restored.entries[o].sequence by {
        assert(m.entries.contains_key(k) && m.entries.contains_key(o));
        assert(m.entries[k].sequence != m.entries[o].sequence);
    }
}

/// Two queues that are both like a third one are alike.
proof fn lemma_alike_through<T: View>(a: QueueModel<T>, b: QueueModel<T>, c: QueueModel<T>)
    requires
        alike(a, b),
        alike(b, c),
    ensures
        alike(a, c),
{
    assert forall|k: T::V| #[trigger] a.entries.contains_key(k) implies b.entries.contains_key(
        k,
    ) by {
        assert(b.entries.dom().contains(k));
    }
}

/// Restoring a queue from its items in the order of insertion, by offering them, or
/// others that stand for the same keys, to an empty queue of the same capacity,
/// displaces nothing and gives back every key and count. The insertion numbers may
/// differ but not their order, and no more of them are used up: one for each item.
pub proof fn law_replay_restores<T: View>(m: QueueModel<T>, calls: Seq<Call<T>>, limit: u64)
    requires
        m.well_formed(),
        forall|k: T::V| #[trigger] m.entries.contains_key(k) ==> m.entries[k].count <= limit,
        same_calls(offers(m.by_sequence()), calls),
    ensures
        calls.len() == m.entries.len() <= m.sequence,
        forall|i: int|
            0 <= i < calls.len() ==> #[trigger] QueueModel::empty(m.capacity).answers(
                calls,
                limit,
            )[i] == Answer::Evicted(None::<T>),
        forall|i: int|
            0 <= i <= calls.len() ==> {
                let part = #[trigger] QueueModel::empty(m.capacity).run(calls.take(i), limit);
                part.sequence == i && part.entries.len() == i
            },
        QueueModel::empty(m.capacity).run(calls, limit).well_formed(),
        alike(m, QueueModel::empty(m.capacity).run(calls, limit)),
{
    let start = QueueModel::<T>::empty(m.capacity);
    let offered = offers(m.by_sequence());
    lemma_replay_items(m, limit);
    law_alike_stays_alike(start, start, offered, calls, limit);
    assert forall|i: int| 0 <= i < calls.len() implies #[trigger] start.answers(calls, limit)[i]
        == Answer::Evicted(None::<T>) by {
        assert(same_answer(start.answers(offered, limit)[i], start.answers(calls, limit)[i]));
    }
    assert forall|i: int| 0 <= i <= calls.len() implies {
        let part = #[trigger] start.run(calls.take(i), limit);
        part.sequence == i && part.entries.len() == i
    } by {
        let (a, b) = (offered.take(i), calls.take(i));
        assert forall|j: int| 0 <= j < a.len() implies same_call(#[trigger] a[j], #[trigger] b[j]) by {
            assert(same_call(offered[j], calls[j]));
        }
        law_alike_stays_alike(start, start, a, b, limit);
        assert(start.run(offered.take(i), limit).sequence == i);
    }
    lemma_alike_through(m, start.run(offered, limit), start.run(calls, limit));
}

/// Two queues that are alike are listed alike.
proof fn lemma_same_listing<T: View>(a: QueueModel<T>, b: QueueModel<T>, order: Order)
    requires
        a.well_formed(),
        b.well_formed(),
        alike(a, b),
    ensures
        same_listing(listed(a.listing(order)), listed(b.listing(order))),
{
    let some_listing = lemma_listing(a, order);
    let s = a.listing(order);
    let t = Seq::new(s.len(), |i: int| b.entries[s[i].item@]);
    assert forall|i: int| 0 <= i < t.len() implies {
        &&& b.entries.contains_key(#[trigger] t[i].item@)
        &&& b.entries[t[i].item@] == t[i]
    } by {
        assert(a.entries.contains_key(s[i].item@));
    }
    assert forall|k: T::V| #[trigger] b.entries.contains_key(k) implies t.contains(
        b.entries[k],
    ) by {
        assert(a.entries.contains_key(k));
        let i = choose|i: int| 0 <= i < s.len() && s[i] == a.entries[k];
        assert(t[i] == b.entries[k]);
    }
    assert forall|i: int, j: int| 0 <= i < j < t.len() implies #[trigger] before(
        order,
        t[i],
        t[j],
    ) by {
        assert(before(order, s[i], s[j]));
        assert(a.entries.contains_key(s[i].item@) && a.entries.contains_key(s[j].item@));
    }
    assert(lists(b.entries, t, order));
    law_listing_is_unique(b.entries, t, b.listing(order), order);
    assert forall|i: int| 0 <= i < s.len() implies (#[trigger] s[i]).item@ == t[i].item@
        && s[i].count == t[i].count by {
        assert(a.entries.contains_key(s[i].item@));
    }
    let x = listed(s);
    let y = listed(t);
    assert forall|i: int| 0 <= i < x.len() implies (#[trigger] x[i]).0@ == y[i].0@ && x[i].1
        == y[i].1 by {
        assert(s[i].item@ == t[i].item@);
    }
}

/// The queue tracks the heaviest of the entries of `s`: as many as it has room for,
/// with their counts up to the limit, and nothing that is left out is heavier than
/// anything that is kept, nor than the smallest count.
pub open spec fn keeps_the_heaviest<T: View>(
    m: QueueModel<T>,
    s: Seq<Entry<T>>,
    limit: u64,
) -> bool {
    &&& m.entries.len() == (if s.len() <= m.capacity {
        s.len()
    } else {
        m.capacity
    })
    &&& forall|k: T::V| #[trigger]
        m.entries.contains_key(k) ==> exists|i: int|
            0 <= i < s.len() && (#[trigger] s[i]).item@ == k && m.entries[k].count == at_most(
                s[i].count,
                limit,
            )
    &&& forall|i: int|
        0 <= i < s.len() && !m.entries.contains_key((#[trigger] s[i]).item@) ==> m.is_full()
    &&& forall|i: int, k: T::V|
        0 <= i < s.len() && !m.entries.contains_key((#[trigger] s[i]).item@)
            && #[trigger] m.entries.contains_key(k) ==> at_most(s[i].count, limit)
            <= m.entries[k].count
    &&& forall|i: int|
        0 <= i < s.len() && !m.entries.contains_key((#[trigger] s[i]).item@) && m.capacity > 0
            ==> at_most(s[i].count, limit) <= m.min_count()
}

/// Offered items that each come once, a queue keeps the heaviest.
pub proof fn law_keeps_the_heaviest<T: View>(capacity: nat, s: Seq<Entry<T>>, limit: u64)
    requires
        distinct_keys(s),
    ensures
        QueueModel::empty(capacity).run(offers(s), limit).well_formed(),
        QueueModel::empty(capacity).run(offers(s), limit).capacity == capacity,
        keeps_the_heaviest(QueueModel::empty(capacity).run(offers(s), limit), s, limit),
    decreases s.len(),
{
    let m = QueueModel::empty(capacity).run(offers(s), limit);
    if s.len() > 0 {
        let front = s.drop_last();
        let e = s.last();
        let count = at_most(e.count, limit);
        lemma_distinct_front(s);
        law_keeps_the_heaviest(capacity, front, limit);
        let p = QueueModel::empty(capacity).run(offers(front), limit);
        assert(m == p.upserted(e.item, count));
        assert(!p.entries.contains_key(e.item@)) by {
            if p.entries.contains_key(e.item@) {
                let i = choose|i: int|
                    0 <= i < front.len() && (#[trigger] front[i]).item@ == e.item@
                        && p.entries[e.item@].count == at_most(front[i].count, limit);
                assert(s[i].item@ != s.last().item@);
            }
        }
        law_upsert_keeps_well_formed(p, e.item, count);
        if p.entries.len() > 0 {
            law_min_exists(p);
        }
        assert forall|k: T::V| #[trigger] m.entries.contains_key(k) implies exists|i: int|
            0 <= i < s.len() && (#[trigger] s[i]).item@ == k && m.entries[k].count == at_most(
                s[i].count,
                limit,
            ) by {
            if k == e.item@ {
                assert(s[s.len() - 1].item@ == k);
            } else {
                assert(p.entries.contains_key(k));
                let i = choose|i: int|
                    0 <= i < front.len() && (#[trigger] front[i]).item@ == k && p.entries[k].count
                        == at_most(front[i].count, limit);
                assert(s[i].item@ == k);
            }
        }
        assert forall|i: int|
            0 <= i < s.len() && !m.entries.contains_key(
                (#[trigger] s[i]).item@,
            ) implies m.is_full() by {
            if i < front.len() {
                assert(front[i] == s[i]);
            }
        }
        assert forall|i: int, k: T::V|
            0 <= i < s.len() && !m.entries.contains_key((#[trigger] s[i]).item@)
                && #[trigger] m.entries.contains_key(k) implies at_most(s[i].count, limit)
            <= m.entries[k].count by {
            let old_key = s[i].item@;
            if i < front.len() {
                assert(front[i] == s[i]);
                if p.entries.contains_key(old_key) {
                    assert(old_key == p.min_key());
                    let j = choose|j: int|
                        0 <= j < front.len() && (#[trigger] front[j]).item@ == old_key
                            && p.entries[old_key].count == at_most(front[j].count, limit);
                    if j < i {
                        assert(s[j].item@ != s[i].item@);
                    } else if i < j {
                        assert(s[i].item@ != s[j].item@);
                    }
                    if k != e.item@ {
                        assert(p.entries.contains_key(k));
                    }
                } else if k != e.item@ {
                    assert(p.entries.contains_key(k));
                } else if p.entries.len() > 0 {
                    assert(p.entries.contains_key(p.min_key()));
                    assert(at_most(s[i].count, limit) <= p.min_count());
                }
            } else {
                assert(p.entries.contains_key(k));
            }
        }
        assert forall|i: int|
            0 <= i < s.len() && !m.entries.contains_key((#[trigger] s[i]).item@) && m.capacity
                > 0 implies at_most(s[i].count, limit) <= m.min_count() by {
            assert(m.is_full());
            law_min_exists(m);
            assert(m.entries.contains_key(m.min_key()));
        }
    }
}

/// The listings, by the numbers themselves. Each holds every entry, and of two entries
/// the first has the larger count, or the same count and the smaller number, in the one;
/// and the smaller number in the other.
pub proof fn law_listings_go_by_the_numbers<T: View>(m: QueueModel<T>)
    requires
        m.well_formed(),
    ensures
        m.ranked().len() == m.entries.len() == m.by_sequence().len(),
        forall|i: int, j: int|
            0 <= i < j < m.ranked().len() ==> {
                ||| (#[trigger] m.ranked()[i]).count > (#[trigger] m.ranked()[j]).count
                ||| m.ranked()[i].count == m.ranked()[j].count && m.ranked()[i].sequence
                    < m.ranked()[j].sequence
            },
        forall|i: int, j: int|
            0 <= i < j < m.by_sequence().len() ==> (#[trigger] m.by_sequence()[i]).sequence < (
            #[trigger] m.by_sequence()[j]).sequence,
        forall|i: int|
            0 <= i < m.ranked().len() ==> {
                &&& m.entries.contains_key((#[trigger] m.ranked()[i]).item@)
                &&& m.entries[m.ranked()[i].item@] == m.ranked()[i]
                &&& listed(m.ranked())[i] == (&m.ranked()[i].item, m.ranked()[i].count)
            },
        forall|i: int|
            0 <= i < m.by_sequence().len() ==> {
                &&& m.entries.contains_key((#[trigger] m.by_sequence()[i]).item@)
                &&& m.entries[m.by_sequence()[i].item@] == m.by_sequence()[i]
                &&& listed(m.by_sequence())[i] == (
                    &m.by_sequence()[i].item,
                    m.by_sequence()[i].count,
                )
            },
        listed(m.ranked()).len() == m.ranked().len(),
        listed(m.by_sequence()).len() == m.by_sequence().len(),
{
    law_listings_exist(m);
    let s = m.ranked();
    let t = m.by_sequence();
    assert forall|i: int, j: int| 0 <= i < j < s.len() implies {
        ||| (#[trigger] s[i]).count > (#[trigger] s[j]).count
        ||| s[i].count == s[j].count && s[i].sequence < s[j].sequence
    } by {
        assert(before(Order::Listing, s[i], s[j]));
    }
    assert forall|i: int, j: int| 0 <= i < j < t.len() implies (#[trigger] t[i]).sequence < (
    #[trigger] t[j]).sequence by {
        assert(before(Order::Insertion, t[i], t[j]));
    }
}

/// What offering an item does, by the entries and the numbers themselves: an item that
/// is tracked gets the count; a new one gets the next number while there are fewer than
/// the capacity; in a full queue it takes the place of the entry with the smallest
/// count, and among those with the smallest number, if its count is larger; and
/// otherwise nothing changes.
pub proof fn law_offers_go_by_the_numbers<T: View>(m: QueueModel<T>, item: T, count: u64)
    requires
        m.well_formed(),
    ensures
        ({
            let n = m.upserted(item, count);
            let gone = m.evicted(item@, count);
            let added = Entry { item, count, sequence: m.sequence + 1 };
            let new = !m.entries.contains_key(item@);
            let beats = exists|k: T::V| #[trigger]
                m.entries.contains_key(k) && m.entries[k].count < count;
            &&& n.capacity == m.capacity
            &&& !new ==> gone is None && n.sequence == m.sequence && n.entries
                == m.entries.insert(item@, Entry { count, ..m.entries[item@] })
            &&& new && m.entries.len() < m.capacity ==> gone is None && n.sequence == m.sequence + 1
                && n.entries == m.entries.insert(item@, added)
            &&& new && m.entries.len() >= m.capacity && beats ==> {
                &&& gone is Some
                &&& m.entries.contains_key(gone->0@)
                &&& m.entries[gone->0@].item == gone->0
                &&& m.entries[gone->0@].count < count
                &&& forall|k: T::V| #[trigger]
                    m.entries.contains_key(k) && k != gone->0@ ==> {
                        ||| m.entries[gone->0@].count < m.entries[k].count
                        ||| m.entries[gone->0@].count == m.entries[k].count
                            && m.entries[gone->0@].sequence < m.entries[k].sequence
                    }
                &&& n.sequence == m.sequence + 1
                &&& n.entries == m.entries.remove(gone->0@).insert(item@, added)
            }
            &&& new && m.entries.len() >= m.capacity && !beats ==> gone is None && n == m
        }),
{
    if m.entries.len() > 0 {
        law_min_exists(m);
    } else {
        assert forall|k: T::V| #[trigger] m.entries.contains_key(k) implies false by {
            assert(m.entries.dom().contains(k));
        }
    }
    if m.displaces(item@, count) {
        let k = m.min_key();
        assert(m.entries.contains_key(k) && m.entries[k].count < count);
    }
}

/// What raising a count does, by the entries themselves: a key that is tracked with a
/// smaller count gets this one, and otherwise nothing changes.
pub proof fn law_raises_go_by_the_numbers<T: View>(m: QueueModel<T>, key: T::V, count: u64)
    ensures
        m.entries.contains_key(key) && m.entries[key].count < count ==> m.raised(key, count) == (
        QueueModel {
            entries: m.entries.insert(key, Entry { count, ..m.entries[key] }),
            ..m
        }),
        !(m.entries.contains_key(key) && m.entries[key].count < count) ==> m.raised(key, count)
            == m,
{
}

/// The smallest count is that of an entry, and none is smaller; it is 0 where there is no
/// entry. A count is that of the entry of the key, and a queue is full when it has as many
/// entries as its capacity.
pub proof fn law_answers_go_by_the_numbers<T: View>(m: QueueModel<T>, key: T::V)
    requires
        m.well_formed(),
    ensures
        m.entries.len() == 0 ==> m.min_count() == 0,
        m.entries.len() > 0 ==> exists|k: T::V| #[trigger]
            m.entries.contains_key(k) && m.entries[k].count == m.min_count(),
        forall|k: T::V| #[trigger]
            m.entries.contains_key(k) ==> m.min_count() <= m.entries[k].count,
        m.entries.contains_key(key) ==> m.count_of(key) == Some(m.entries[key].count),
        !m.entries.contains_key(key) ==> m.count_of(key) is None,
        m.is_full() <==> m.entries.len() == m.capacity,
{
    if m.entries.len() > 0 {
        law_min_exists(m);
        assert(m.entries.contains_key(m.min_key()));
    } else {
        assert forall|k: T::V| #[trigger] m.entries.contains_key(k) implies false by {
            assert(m.entries.dom().contains(k));
        }
    }
}

/// A queue before any call tracks nothing.
pub proof fn law_first_queue_tracks_nothing<T: View>(capacity: nat)
    ensures
        QueueModel::<T>::empty(capacity).entries == Map::<T::V, Entry<T>>::empty(),
        QueueModel::<T>::empty(capacity).capacity == capacity,
        QueueModel::<T>::empty(capacity).sequence == 0,
{
}

} // verus!
