//! The queue of the heaviest items.
use crate::calls::outcome_of_two;
use crate::heap_order::{
    edge_ok, heap_ordered, lemma_append, lemma_rerank, lemma_rise, lemma_root_is_least,
    lemma_sink, lemma_sunk, ordered_around, ordered_but_up, parent_of, rank_less, sinking, swapped,
};
use crate::laws::{
    keeps_the_heaviest, law_alike_stays_alike, law_calls_keep_the_bounds, law_keeps_the_heaviest,
    law_listings_agree_with_lookups, law_replay_restores,
};
use crate::model::{
    alike, before, distinct_keys, keyed, law_listing_is_unique, law_min_is_unique,
    lemma_keyed_entry, lemma_keyed_len, lemma_keyed_place, lemma_keyed_push, lemma_keyed_update,
    lemma_order_is_total, lemma_run_push, listed, lists, offers, place_of, same_answers,
    same_calls, same_listing, Answer, Call, Entry, Order, QueueModel,
};
use crate::realloc::{realloc_vec, relocates, Reallocator};
use crate::sip::{drawn, seed_keys, SipHash, SipState};
use crate::table::{
    law_table_records_are_calls, table_entries, table_limit, SlotHash, SlotTable,
};
use crate::traits::{at_most, Counter, Lookup};
use crate::vectors::{
    fits, has_room_for, in_rank_order, law_records_are_calls, law_room_is_what_the_vector_says,
    made_for, push_onto, pushes, restore_room, restores, room_of, sort_by_rank, trims_to,
    unboxes_to, vec_capacity, vec_for,
};
use vstd::layout::size_of;
use vstd::prelude::*;
use vstd::std_specs::iter::IteratorSpec;

verus! {

/// A tracked item and its place in the heap.
pub struct Slot<T, C> {
    item: T,
    count: C,
    sequence: u64,
    heap_pos: u32,
}

impl<T, C: Counter> Slot<T, C> {
    /// Count, then sequence.
    spec fn rank(self) -> (u64, u64) {
        (self.count.value(), self.sequence)
    }

    spec fn entry(self) -> Entry<T> {
        Entry { item: self.item, count: self.count.value(), sequence: self.sequence as nat }
    }
}

/// A specialized priority queue that maintains the top-k items by count.
///
/// Items live in `item_store`; a hash table maps each item to its slot index for
/// O(1) lookup on every add.
///
/// `C` is the stored counter width. The public API speaks `u64`; values are
/// saturated into `C` on the way in. A sketch whose cells are `u32` never
/// produces a count above `u32::MAX`, so storing `u64` here would waste four
/// bytes per slot.
pub struct TopKQueue<T, C: Counter = u64> {
    item_store: Vec<Slot<T, C>>,
    /// Slot indices, min-heap ordered by count.
    heap: Vec<u32>,
    /// Hash to slot index into `item_store`.
    table: SlotTable,
    capacity: usize,
    /// Monotonic insertion counter used to break count ties (older wins).
    sequence: u64,
    hasher: SipState,
}

/// The ranks of the slots in the order of the heap.
spec fn ranks<T, C: Counter>(store: Seq<Slot<T, C>>, heap: Seq<u32>) -> Seq<(u64, u64)> {
    Seq::new(heap.len(), |p: int| store[heap[p] as int].rank())
}

/// Heap positions and slots point at each other.
spec fn linked<T, C: Counter>(store: Seq<Slot<T, C>>, heap: Seq<u32>) -> bool {
    &&& heap.len() == store.len()
    &&& forall|p: int|
        0 <= p < heap.len() ==> (#[trigger] heap[p]) < store.len() && store[heap[p] as int].heap_pos
            == p
    &&& forall|s: int|
        0 <= s < store.len() ==> (#[trigger] store[s]).heap_pos < heap.len()
            && heap[store[s].heap_pos as int] == s
}

/// Two stores that differ in heap positions at most.
spec fn same_slots<T, C: Counter>(a: Seq<Slot<T, C>>, b: Seq<Slot<T, C>>) -> bool {
    &&& a.len() == b.len()
    &&& forall|s: int|
        #![trigger a[s]]
        #![trigger b[s]]
        0 <= s < a.len() ==> a[s].item == b[s].item && a[s].count == b[s].count && a[s].sequence
            == b[s].sequence
}

impl<T, C: Counter> TopKQueue<T, C> {
    /// The items that are tracked, in the order of their slots.
    pub closed spec fn slots(self) -> Seq<Entry<T>> {
        self.entries()
    }

    spec fn ranks(self) -> Seq<(u64, u64)> {
        ranks(self.item_store@, self.heap@)
    }

    spec fn linked(self) -> bool {
        linked(self.item_store@, self.heap@)
    }

    /// Only the order of the heap differs.
    spec fn reordered_from(self, before: Self) -> bool {
        &&& same_slots(before.item_store@, self.item_store@)
        &&& self.table == before.table
        &&& self.capacity == before.capacity
        &&& self.sequence == before.sequence
        &&& self.hasher == before.hasher
    }

    /// The parent of a heap position.
    pub fn parent(i: usize) -> (p: usize)
        requires
            i > 0,
        ensures
            p == parent_of(i as int),
    {
        assert((i - 1) as usize >> 1 == (i - 1) as usize / 2) by (bit_vector)
            requires
                i > 0,
        ;
        (i - 1) >> 1
    }

    /// The left child of a heap position.
    fn left(i: usize) -> (c: usize)
        requires
            2 * i + 1 <= usize::MAX,
        ensures
            c == 2 * i + 1,
    {
        2 * i + 1
    }

    /// The right child of a heap position.
    fn right(i: usize) -> (c: usize)
        requires
            2 * i + 2 <= usize::MAX,
        ensures
            c == 2 * i + 2,
    {
        2 * i + 2
    }

    /// Heap order: count, then sequence. Ties broken by sequence keep the
    /// minimum unique, so eviction picks the same item on every replica.
    pub fn heap_less(&self, a: u32, b: u32) -> (less: bool)
        requires
            a < self.slots().len(),
            b < self.slots().len(),
        ensures
            less == before(Order::Eviction, self.slots()[a as int], self.slots()[b as int]),
    {
        let slot_a = &self.item_store[a as usize];
        let slot_b = &self.item_store[b as usize];
        let count_a: u64 = slot_a.count.as_u64();
        let count_b: u64 = slot_b.count.as_u64();
        count_a < count_b || (count_a == count_b && slot_a.sequence < slot_b.sequence)
    }

    fn swap_nodes(&mut self, i: usize, j: usize)
        requires
            old(self).linked(),
            i < old(self).heap@.len(),
            j < old(self).heap@.len(),
        ensures
            final(self).linked(),
            final(self).reordered_from(*old(self)),
            final(self).heap@ == swapped(old(self).heap@, i as int, j as int),
            final(self).ranks() == swapped(old(self).ranks(), i as int, j as int),
    {
        let at_i: u32 = self.heap[i];
        let at_j: u32 = self.heap[j];
        self.heap[i] = at_j;
        self.heap[j] = at_i;
        // Update heap positions in item_store
        self.item_store[at_j as usize].heap_pos = i as u32;
        self.item_store[at_i as usize].heap_pos = j as u32;
        assert(self.ranks() =~= swapped(old(self).ranks(), i as int, j as int));
    }

    fn sift_up(&mut self, pos: usize)
        requires
            old(self).linked(),
            pos < old(self).heap@.len(),
            ordered_but_up(old(self).ranks(), pos as int),
        ensures
            final(self).linked(),
            final(self).reordered_from(*old(self)),
            heap_ordered(final(self).ranks()),
    {
        let mut pos: usize = pos;
        while pos > 0
            invariant_except_break
                ordered_but_up(self.ranks(), pos as int),
            invariant
                self.linked(),
                self.reordered_from(*old(self)),
                pos < self.heap@.len(),
            ensures
                heap_ordered(self.ranks()),
            decreases pos,
        {
            let parent: usize = Self::parent(pos);
            if self.heap_less(self.heap[pos], self.heap[parent]) {
                proof {
                    lemma_rise(self.ranks(), pos as int);
                }
                self.swap_nodes(parent, pos);
                pos = parent;
            } else {
                assert(edge_ok(self.ranks(), pos as int));
                break;
            }
        }
    }

    fn sift_down(&mut self, pos: usize)
        requires
            old(self).linked(),
            pos < old(self).heap@.len(),
            2 * old(self).heap@.len() + 2 <= usize::MAX,
            ordered_around(old(self).ranks(), pos as int),
        ensures
            final(self).linked(),
            final(self).reordered_from(*old(self)),
            ordered_but_up(final(self).ranks(), pos as int),
            pos == 0 || edge_ok(old(self).ranks(), pos as int) ==> heap_ordered(
                final(self).ranks(),
            ),
    {
        let ghost start: int = pos as int;
        let mut pos: usize = pos;
        loop
            invariant_except_break
                sinking(self.ranks(), start, pos as int),
            invariant
                self.linked(),
                self.reordered_from(*old(self)),
                0 <= start <= pos < self.heap@.len(),
                2 * self.heap@.len() + 2 <= usize::MAX,
                pos == start ==> self.ranks() == old(self).ranks(),
            ensures
                ordered_but_up(self.ranks(), start),
                pos != start ==> heap_ordered(self.ranks()),
            decreases self.heap@.len() - pos,
        {
            let mut smallest: usize = pos;
            let left: usize = Self::left(pos);
            let right: usize = Self::right(pos);

            if left < self.heap.len() && self.heap_less(self.heap[left], self.heap[smallest]) {
                smallest = left;
            }
            if right < self.heap.len() && self.heap_less(self.heap[right], self.heap[smallest]) {
                smallest = right;
            }
            assert forall|c: int| 1 <= c < self.ranks().len() && #[trigger] parent_of(c)
                == pos implies !rank_less(self.ranks()[c], self.ranks()[smallest as int]) by {
                assert(c == left || c == right);
            }

            if smallest == pos {
                proof {
                    lemma_sunk(self.ranks(), start, pos as int);
                }
                break;
            }
            proof {
                lemma_sink(self.ranks(), start, pos as int, smallest as int);
            }
            self.swap_nodes(pos, smallest);
            pos = smallest;
        }
        proof {
            if pos == start && (start == 0 || edge_ok(old(self).ranks(), start)) {
                assert forall|i: int| 1 <= i < self.ranks().len() implies #[trigger] edge_ok(
                    self.ranks(),
                    i,
                ) by {}
            }
        }
    }
}

/// The largest capacity of a queue: twice as many slot numbers still fit in a
/// table.
pub open spec fn max_capacity() -> int {
    table_limit() / 2
}

impl<T: View, C: Counter> View for TopKQueue<T, C> {
    type V = QueueModel<T>;

    closed spec fn view(&self) -> QueueModel<T> {
        QueueModel {
            capacity: self.capacity as nat,
            sequence: self.sequence as nat,
            entries: keyed(self.entries()),
        }
    }
}

/// Every slot has an insertion number of its own, none after the last one.
spec fn numbered<T, C: Counter>(store: Seq<Slot<T, C>>, sequence: u64) -> bool {
    &&& forall|i: int| 0 <= i < store.len() ==> 1 <= (#[trigger] store[i]).sequence <= sequence
    &&& forall|i: int, j: int|
        0 <= i < j < store.len() ==> (#[trigger] store[i]).sequence != (#[trigger] store[j]).sequence
}

/// Slots keep their numbers apart where only something else of them changed.
proof fn lemma_still_numbered<T, C: Counter>(
    before: Seq<Slot<T, C>>,
    after: Seq<Slot<T, C>>,
    sequence: u64,
)
    requires
        numbered(before, sequence),
        after.len() == before.len(),
        forall|i: int|
            0 <= i < after.len() ==> (#[trigger] after[i]).sequence == before[i].sequence,
    ensures
        numbered(after, sequence),
{
    assert forall|i: int, j: int| 0 <= i < j < after.len() implies (#[trigger] after[i]).sequence
        != (#[trigger] after[j]).sequence by {
        assert(before[i].sequence != before[j].sequence);
    }
}

impl<T, C: Counter> TopKQueue<T, C> {
    /// The entries in the order of their slots.
    spec fn entries(self) -> Seq<Entry<T>> {
        Seq::new(self.item_store@.len(), |i: int| self.item_store@[i].entry())
    }
}

impl<T, C: Counter> TopKQueue<T, C> {
    /// Whether a queue of this capacity can be made: the table has room for its slot
    /// numbers, and its slots take no more bytes than an allocation may have.
    pub open spec fn allows(capacity: usize) -> bool {
        &&& capacity <= max_capacity()
        &&& capacity * size_of::<Slot<T, C>>() <= isize::MAX
    }

    /// Whether a queue of this capacity can be made.
    pub fn can_hold(capacity: usize) -> (possible: bool)
        ensures
            possible == Self::allows(capacity),
    {
        capacity <= 7 * (usize::MAX / 128 + 1) / 2 && fits::<Slot<T, C>>(capacity)
    }
}

/// The hashes of the items in their slots.
struct SlotHashes<'a, T, C> {
    store: &'a Vec<Slot<T, C>>,
    hasher: &'a SipState,
}

impl<T: SipHash, C> SlotHash for SlotHashes<'_, T, C> {
    closed spec fn knows(&self, slot: u32) -> bool {
        slot < self.store@.len()
    }

    closed spec fn hash_of(&self, slot: u32) -> u64 {
        self.hasher.digest(self.store@[slot as int].item.stream())
    }

    fn slot_hash(&self, slot: &u32) -> (hash: u64) {
        self.hasher.hash_one(&self.store[*slot as usize].item)
    }
}

impl<T: SipHash, C: Counter> TopKQueue<T, C> {
    /// The lookup table.
    pub closed spec fn lookup_table(self) -> SlotTable {
        self.table
    }

    /// The table behind `table` gives up its room beyond `capacity` slot numbers.
    pub closed spec fn compacts(table: &mut SlotTable, capacity: usize) -> bool {
        exists|hashes: SlotHashes<'_, T, C>| #[trigger]
            SlotTable::shrinks(table, capacity, &hashes)
    }

    /// Slots, heap and table were made for as many items as the queue can track.
    pub closed spec fn made_in_full(self) -> bool {
        &&& made_for(self.item_store, self.capacity)
        &&& made_for(self.heap, self.capacity)
        &&& self.table.made_for(self.capacity)
    }

    /// The vector of slots.
    pub closed spec fn slot_vec(self) -> Vec<Slot<T, C>> {
        self.item_store
    }

    /// The vector of slot numbers in the order of the heap.
    pub closed spec fn heap_vec(self) -> Vec<u32> {
        self.heap
    }

    /// What stands at `pos` in the heap behind `queue` rises to its place.
    pub closed spec fn sifts_up(queue: &mut Self, pos: usize) -> bool {
        call_ensures(Self::sift_up, (queue, pos), ())
    }

    /// The table holds every slot once, filed under the hash of its item.
    spec fn indexed(self) -> bool {
        &&& table_entries(self.table).len() == self.item_store@.len()
        &&& forall|h: u64, slot: u32| #[trigger]
            table_entries(self.table).count((h, slot)) == (if slot < self.item_store@.len() && h
                == self.hasher.digest(self.item_store@[slot as int].item.stream()) {
                1nat
            } else {
                0nat
            })
    }

    /// The keys that lookups are hashed under.
    pub closed spec fn hash_keys(self) -> (u64, u64) {
        self.hasher@
    }

    /// What holds of every queue between two calls.
    pub closed spec fn wf(self) -> bool {
        &&& self.linked()
        &&& heap_ordered(self.ranks())
        &&& self.item_store@.len() <= self.capacity
        &&& Self::allows(self.capacity)
        &&& distinct_keys(self.entries())
        &&& numbered(self.item_store@, self.sequence)
        &&& self.indexed()
    }

    /// Whether the queue is what `calls` make of an empty queue of this capacity.
    pub open spec fn made_by(self, capacity: nat, calls: Seq<Call<T>>) -> bool {
        &&& self.wf()
        &&& self@ == QueueModel::<T>::empty(capacity).run(calls, C::limit())
    }

    /// What is said of the parts of a queue is said of the parts themselves, and what is
    /// said to be made, sifted or compacted came of the call that does it.
    proof fn law_parts_and_records(
        self,
        behind: &mut Self,
        table: &mut SlotTable,
        pos: usize,
        capacity: usize,
    )
        ensures
            self.slot_vec() == self.item_store,
            self.heap_vec() == self.heap,
            self.lookup_table() == self.table,
            self.hash_keys() == self.hasher@,
            self.made_in_full() ==> {
                &&& call_ensures(
                    Vec::<Slot<T, C>>::with_capacity,
                    (self.capacity,),
                    self.item_store,
                )
                &&& call_ensures(Vec::<u32>::with_capacity, (self.capacity,), self.heap)
                &&& call_ensures(SlotTable::with_capacity, (self.capacity,), self.table)
            },
            Self::sifts_up(behind, pos) ==> call_ensures(Self::sift_up, (behind, pos), ()),
            Self::compacts(table, capacity) ==> exists|hashes: SlotHashes<'_, T, C>| #[trigger]
                call_ensures(
                    SlotTable::shrink_to::<SlotHashes<'_, T, C>>,
                    (table, capacity, &hashes),
                    (),
                ),
    {
        let boxed = arbitrary::<Box<[u32]>>();
        let slots = arbitrary::<Box<[Slot<T, C>]>>();
        let slot = arbitrary::<Slot<T, C>>();
        law_records_are_calls(
            self.heap,
            arbitrary::<&mut Vec<u32>>(),
            boxed,
            0u32,
            self.capacity,
        );
        law_records_are_calls(
            self.item_store,
            arbitrary::<&mut Vec<Slot<T, C>>>(),
            slots,
            slot,
            self.capacity,
        );
        let hashes = arbitrary::<SlotHashes<'_, T, C>>();
        law_table_records_are_calls(self.table, table, self.capacity, &hashes, 0);
        if Self::compacts(table, capacity) {
            let hashes = choose|hashes: SlotHashes<'_, T, C>| #[trigger]
                SlotTable::shrinks(table, capacity, &hashes);
            law_table_records_are_calls(self.table, table, capacity, &hashes, 0);
        }
    }

    /// Every queue is well-formed: it tracks no more items than its capacity, and
    /// each has an insertion number of its own.
    pub proof fn law_queue_is_well_formed(self)
        requires
            self.wf(),
        ensures
            self@.well_formed(),
            self@.capacity <= usize::MAX,
            Self::allows(self@.capacity as usize),
            forall|k: T::V| #[trigger]
                self@.entries.contains_key(k) ==> self@.entries[k].count <= C::limit(),
    {
        lemma_keyed_len(self.entries());
        assert forall|k: T::V| #[trigger] self@.entries.contains_key(k) implies {
            &&& self@.entries[k].item@ == k
            &&& 1 <= self@.entries[k].sequence <= self@.sequence
            &&& self@.entries[k].count <= C::limit()
        } by {
            lemma_keyed_place(self.entries(), k);
            let i = place_of(self.entries(), k);
            self.item_store@[i].count.value_in_limit();
        }
        assert forall|k: T::V, o: T::V| #[trigger]
            self@.entries.contains_key(k) && #[trigger] self@.entries.contains_key(o) && k
                != o implies self@.entries[k].sequence != self@.entries[o].sequence by {
            lemma_keyed_place(self.entries(), k);
            lemma_keyed_place(self.entries(), o);
            let i = place_of(self.entries(), k);
            let j = place_of(self.entries(), o);
            assert(self.item_store@[i].sequence != self.item_store@[j].sequence);
        }
    }
}

impl<T: Lookup<T>, C: Counter> TopKQueue<T, C> {
    /// Makes an empty queue for at most `capacity` items.
    pub fn with_capacity_and_hasher(capacity: usize, hasher: SipState) -> (queue: Self)
        requires
            Self::allows(capacity),
        ensures
            queue.wf(),
            queue@ == QueueModel::<T>::empty(capacity as nat),
            queue.made_by(capacity as nat, Seq::empty()),
            queue.made_in_full(),
            queue.hash_keys() == hasher@,
    {
        proof {
            broadcast use vstd::layout::layout_of_primitives;

        }
        let queue = TopKQueue {
            item_store: vec_for(capacity),
            heap: vec_for(capacity),
            table: SlotTable::for_capacity(capacity),
            capacity,
            sequence: 0,
            hasher,
        };
        assert(queue@.entries =~= Map::empty());
        queue
    }

    /// Makes an empty queue whose lookups are seeded at random.
    pub fn with_capacity(capacity: usize) -> (queue: Self)
        requires
            Self::allows(capacity),
        ensures
            queue.wf(),
            queue@ == QueueModel::<T>::empty(capacity as nat),
            queue.made_by(capacity as nat, Seq::empty()),
            queue.made_in_full(),
            exists|seed: u64| #[trigger] drawn(seed) && queue.hash_keys() == seed_keys(seed),
    {
        Self::with_capacity_and_hasher(capacity, SipState::random())
    }

    /// How many items are tracked.
    pub fn len(&self) -> (n: usize)
        requires
            self.wf(),
        ensures
            n == self@.entries.len(),
    {
        proof {
            lemma_keyed_len(self.entries());
        }
        self.item_store.len()
    }

    /// The slot that holds the key of `item`, given its hash.
    fn find_slot_with_hash<Q>(&self, item: &Q, hash: u64) -> (found: Option<usize>) where
        T: Lookup<Q>,
        Q: SipHash + View<V = <T as View>::V> + ?Sized,

        requires
            self.wf(),
            hash == self.hasher.digest(item.stream()),
        ensures
            match found {
                Some(slot) => {
                    &&& slot < self.item_store@.len()
                    &&& self.item_store@[slot as int].item@ == item@
                    &&& self@.entries.contains_key(item@)
                    &&& self@.entries[item@] == self.entries()[slot as int]
                },
                None => !self@.entries.contains_key(item@),
            },
    {
        let store = &self.item_store;
        let eq = |slot: &u32| -> (same: bool)
            requires
                *slot < store@.len(),
            ensures
                same == (store@[*slot as int].item@ == item@),
            { store[*slot as usize].item.same_key(item) };
        let found = self.table.find(hash, eq);
        match found {
            Some(slot) => {
                proof {
                    lemma_keyed_entry(self.entries(), slot as int);
                }
                Some(slot as usize)
            },
            None => {
                proof {
                    if self@.entries.contains_key(item@) {
                        lemma_keyed_place(self.entries(), item@);
                        let i = place_of(self.entries(), item@);
                        self.item_store@[i].item.same_key_same_stream(item);
                        assert(self.item_store@[i].heap_pos < self.heap@.len());
                        let slot = self.heap@[self.item_store@[i].heap_pos as int];
                        assert(slot == i);
                        assert(table_entries(self.table).count((hash, slot)) > 0);
                    }
                }
                None
            },
        }
    }

    /// The slot that holds the key of `item`.
    fn find_slot<Q>(&self, item: &Q) -> (found: Option<usize>) where
        T: Lookup<Q>,
        Q: SipHash + View<V = <T as View>::V> + ?Sized,

        requires
            self.wf(),
        ensures
            match found {
                Some(slot) => {
                    &&& slot < self.item_store@.len()
                    &&& self.item_store@[slot as int].item@ == item@
                    &&& self@.entries.contains_key(item@)
                    &&& self@.entries[item@] == self.entries()[slot as int]
                },
                None => !self@.entries.contains_key(item@),
            },
    {
        let hash: u64 = self.hasher.hash_one(item);
        self.find_slot_with_hash(item, hash)
    }

    /// The count of an item, if it is tracked.
    pub fn get<Q>(&self, item: &Q) -> (count: Option<u64>) where
        T: Lookup<Q>,
        Q: SipHash + View<V = <T as View>::V> + ?Sized,

        requires
            self.wf(),
        ensures
            count == self@.count_of(item@),
    {
        match self.find_slot(item) {
            Some(slot) => Some(self.item_store[slot].count.as_u64()),
            None => None,
        }
    }

    /// Whether an item is tracked.
    pub fn contains<Q>(&self, item: &Q) -> (present: bool) where
        T: Lookup<Q>,
        Q: SipHash + View<V = <T as View>::V> + ?Sized,

        requires
            self.wf(),
        ensures
            present == self@.entries.contains_key(item@),
    {
        self.find_slot(item).is_some()
    }

    /// The smallest count that is tracked, 0 where nothing is.
    pub fn min_count(&self) -> (count: u64)
        requires
            self.wf(),
        ensures
            count == self@.min_count(),
    {
        proof {
            lemma_keyed_len(self.entries());
        }
        if self.item_store.is_empty() {
            0
        } else {
            proof {
                self.lemma_root_is_min();
            }
            self.item_store[self.heap[0] as usize].count.as_u64()
        }
    }

    /// The root of the heap is the entry that is evicted next.
    proof fn lemma_root_is_min(self)
        requires
            self.wf(),
            self.item_store@.len() > 0,
        ensures
            self.heap@[0] < self.item_store@.len(),
            self@.entries.contains_key(self.item_store@[self.heap@[0] as int].item@),
            self@.entries[self.item_store@[self.heap@[0] as int].item@]
                == self.entries()[self.heap@[0] as int],
            self@.min_key() == self.item_store@[self.heap@[0] as int].item@,
            self@.entries.len() == self.item_store@.len(),
    {
        self.law_queue_is_well_formed();
        lemma_keyed_len(self.entries());
        let root = self.heap@[0] as int;
        let key = self.item_store@[root].item@;
        lemma_keyed_entry(self.entries(), root);
        assert forall|o: T::V| #[trigger] self@.entries.contains_key(o) implies !before(
            Order::Eviction,
            self@.entries[o],
            self@.entries[key],
        ) by {
            lemma_keyed_place(self.entries(), o);
            let i = place_of(self.entries(), o);
            let p = self.item_store@[i].heap_pos as int;
            lemma_root_is_least(self.ranks(), p);
            assert(self.heap@[p] == i);
            assert(self.ranks()[p] == self.item_store@[i].rank());
        }
        assert(self@.is_min(key));
        law_min_is_unique(self@, key);
    }

    /// Whether every place is taken.
    pub fn is_full(&self) -> (full: bool)
        requires
            self.wf(),
        ensures
            full == self@.is_full(),
    {
        proof {
            lemma_keyed_len(self.entries());
        }
        self.item_store.len() >= self.capacity
    }

    /// What the calls that made the queue and one more make.
    proof fn lemma_made_by(self, call: Call<T>)
        ensures
            forall|capacity: nat, calls: Seq<Call<T>>| #[trigger]
                self.made_by(capacity, calls) ==> QueueModel::<T>::empty(capacity).run(
                    calls.push(call),
                    C::limit(),
                ) == self@.called(call, C::limit()),
    {
        assert forall|capacity: nat, calls: Seq<Call<T>>| #[trigger]
            self.made_by(capacity, calls) implies QueueModel::<T>::empty(capacity).run(
            calls.push(call),
            C::limit(),
        ) == self@.called(call, C::limit()) by {
            lemma_run_push(QueueModel::<T>::empty(capacity), calls, call, C::limit());
        }
    }

    /// The queue is in order but perhaps for its heap.
    spec fn settled(self) -> bool {
        &&& self.linked()
        &&& self.item_store@.len() <= self.capacity
        &&& Self::allows(self.capacity)
        &&& distinct_keys(self.entries())
        &&& numbered(self.item_store@, self.sequence)
        &&& self.indexed()
    }

    /// Another order of the heap is still the same queue.
    proof fn lemma_reordered(self, before: Self)
        requires
            before.settled(),
            self.linked(),
            self.reordered_from(before),
        ensures
            self.settled(),
            self@ == before@,
    {
        assert(self.entries() =~= before.entries());
        lemma_still_numbered(before.item_store@, self.item_store@, self.sequence);
    }

    /// Writes a new count into a slot and says where in the heap the slot is. The
    /// heap is left to be put in order.
    fn set_count(&mut self, slot: usize, count: C) -> (pos: usize)
        requires
            old(self).wf(),
            slot < old(self).item_store@.len(),
        ensures
            final(self).settled(),
            pos < final(self).heap@.len(),
            ordered_around(final(self).ranks(), pos as int),
            count.value() >= old(self).item_store@[slot as int].count.value() && pos > 0 ==> edge_ok(
                final(self).ranks(),
                pos as int,
            ),
            final(self)@ == old(self)@.recounted(
                old(self).item_store@[slot as int].item@,
                count.value(),
            ),
            final(self).hash_keys() == old(self).hash_keys(),
    {
        let pos: usize = self.item_store[slot].heap_pos as usize;
        let ghost e = Entry { count: count.value(), ..self.entries()[slot as int] };
        let ghost rank = (count.value(), self.item_store@[slot as int].sequence);
        self.item_store[slot].count = count;
        proof {
            assert(self.ranks() =~= old(self).ranks().update(pos as int, rank));
            lemma_rerank(old(self).ranks(), pos as int, rank);
            assert(self.entries() =~= old(self).entries().update(slot as int, e));
            lemma_keyed_entry(old(self).entries(), slot as int);
            lemma_keyed_update(old(self).entries(), slot as int, e);
            lemma_still_numbered(old(self).item_store@, self.item_store@, self.sequence);
        }
        pos
    }

    /// Updates an existing entry's count to `count`, if `item` is tracked.
    ///
    /// Returns `true` if `item` is present (whether or not this call actually
    /// raised its count), `false` if it isn't tracked at all.
    ///
    /// An estimate can fall below the value already tracked. The queue keeps the
    /// high-water estimate, so a non-increasing update is a no-op, not an error.
    pub fn update_if_present<Q>(&mut self, item: &Q, count: u64) -> (present: bool) where
        T: Lookup<Q>,
        Q: SipHash + View<V = <T as View>::V> + ?Sized,

        requires
            old(self).wf(),
        ensures
            final(self).wf(),
            final(self)@ == old(self)@.raised(item@, at_most(count, C::limit())),
            final(self).hash_keys() == old(self).hash_keys(),
            present == old(self)@.entries.contains_key(item@),
            forall|capacity: nat, calls: Seq<Call<T>>| #[trigger]
                old(self).made_by(capacity, calls) ==> final(self).made_by(
                    capacity,
                    calls.push(Call::Raise { key: item@, count }),
                ),
    {
        proof {
            old(self).lemma_made_by((Call::Raise { key: item@, count }));
        }
        let count: C = C::from_u64(count);
        match self.find_slot(item) {
            Some(slot) => {
                if count.as_u64() <= self.item_store[slot].count.as_u64() {
                    return true;
                }
                let pos: usize = self.set_count(slot, count);
                let ghost recounted = *self;
                self.sift_down(pos);
                proof {
                    self.lemma_reordered(recounted);
                }
                true
            },
            None => false,
        }
    }

    /// Files a new item in a free slot.
    fn add_slot(&mut self, item: T, count: C, hash: u64)
        requires
            old(self).wf(),
            hash == old(self).hasher.digest(item.stream()),
            !old(self)@.entries.contains_key(item@),
            !old(self)@.is_full(),
            old(self)@.entries.len() <= u32::MAX,
            old(self)@.sequence < u64::MAX,
        ensures
            final(self).wf(),
            final(self)@ == old(self)@.added(item, count.value()),
            final(self).hash_keys() == old(self).hash_keys(),
            exists|
                heap: &mut Vec<u32>,
                longer_heap: &mut Vec<u32>,
                store: &mut Vec<Slot<T, C>>,
                longer_store: &mut Vec<Slot<T, C>>,
                position: u32,
                slot: Slot<T, C>,
                queue: &mut Self,
                pos: usize,
            |
                {
                    &&& #[trigger] restores(heap, old(self)@.capacity as usize)
                    &&& *heap == old(self).heap_vec()
                    &&& #[trigger] restores(store, old(self)@.capacity as usize)
                    &&& *store == old(self).slot_vec()
                    &&& #[trigger] pushes(longer_store, slot)
                    &&& *longer_store == *final(store)
                    &&& #[trigger] pushes(longer_heap, position)
                    &&& *longer_heap == *final(heap)
                    &&& #[trigger] Self::sifts_up(queue, pos)
                    &&& queue.heap_vec() == *final(longer_heap)
                    &&& queue.slot_vec() == *final(longer_store)
                    &&& *final(queue) == *final(self)
                },
    {
        proof {
            broadcast use vstd::layout::layout_of_primitives;

            lemma_keyed_len(self.entries());
        }
        // Restore capacity to k after a defrag trimmed it, so it stays a
        // known constant for memory tracking.
        let capacity: usize = self.capacity;
        restore_room(&mut self.heap, capacity);
        let ghost heap = self.heap;
        assert(exists|v: &mut Vec<u32>| #[trigger]
            restores(v, capacity) && *v == old(self).heap && *final(v) == heap);
        restore_room(&mut self.item_store, capacity);
        let ghost store = self.item_store;
        assert(exists|v: &mut Vec<Slot<T, C>>| #[trigger]
            restores(v, capacity) && *v == old(self).item_store && *final(v) == store);

        let slot: u32 = self.item_store.len() as u32;
        self.sequence = self.sequence + 1;
        let ghost e = Entry { item, count: count.value(), sequence: self.sequence as nat };
        let ghost rank = (count.value(), self.sequence);
        let new_slot: Slot<T, C> = Slot { item, count, sequence: self.sequence, heap_pos: slot };
        let ghost filed = new_slot;
        push_onto(&mut self.item_store, new_slot);
        let ghost longer_store = self.item_store;
        assert(exists|v: &mut Vec<Slot<T, C>>| #[trigger]
            pushes(v, filed) && *v == store && *final(v) == longer_store);
        push_onto(&mut self.heap, slot);
        let ghost longer_heap = self.heap;
        assert(exists|v: &mut Vec<u32>| #[trigger]
            pushes(v, slot) && *v == heap && *final(v) == longer_heap);

        let hashes = SlotHashes { store: &self.item_store, hasher: &self.hasher };
        self.table.insert_unique(hash, slot, &hashes);
        proof {
            assert(self.ranks() =~= old(self).ranks().push(rank));
            lemma_append(old(self).ranks(), rank);
            assert(self.entries() =~= old(self).entries().push(e));
            lemma_keyed_push(old(self).entries(), e);
            assert forall|i: int, j: int| 0 <= i < j < self.item_store@.len() implies (
            #[trigger] self.item_store@[i]).sequence != (
            #[trigger] self.item_store@[j]).sequence by {
                if j < old(self).item_store@.len() {
                    assert(old(self).item_store@[i].sequence != old(self).item_store@[j].sequence);
                } else {
                    assert(old(self).item_store@[i].sequence <= old(self).sequence);
                }
            }
            assert(self.settled());
            assert(self@ =~= old(self)@.added(item, count.value()));
        }
        let ghost added = *self;
        outcome_of_two(Self::sift_up, self, slot as usize);
        proof {
            self.lemma_reordered(added);
            let queue = choose|queue: &mut Self| #[trigger]
                call_ensures(Self::sift_up, (queue, slot as usize), ()) && *queue == added
                    && *final(queue) == *self;
            assert(Self::sifts_up(queue, slot as usize));
            assert(capacity == old(self)@.capacity as usize);
        }
    }

    /// Gives the slot of the smallest entry to a new item, and hands the old item
    /// back.
    fn replace_min(&mut self, item: T, count: C, hash: u64) -> (old_item: T)
        requires
            old(self).wf(),
            hash == old(self).hasher.digest(item.stream()),
            old(self)@.displaces(item@, count.value()),
            old(self)@.sequence < u64::MAX,
        ensures
            final(self).wf(),
            final(self)@ == old(self)@.removed(old(self)@.min_key()).added(item, count.value()),
            final(self).hash_keys() == old(self).hash_keys(),
            exists|table: &mut SlotTable| #[trigger]
                Self::compacts(table, old(self)@.capacity as usize) && *final(table)
                    == final(self).lookup_table(),
            old_item == old(self)@.entries[old(self)@.min_key()].item,
    {
        proof {
            lemma_keyed_len(self.entries());
            self.lemma_root_is_min();
        }
        let min_slot: u32 = self.heap[0];
        let old_hash: u64 = self.hasher.hash_one(&self.item_store[min_slot as usize].item);
        assert(table_entries(self.table).count((old_hash, min_slot)) == 1);
        let is_min = |slot: &u32| -> (same: bool)
            ensures
                same == (*slot == min_slot),
            { *slot == min_slot };
        self.table.remove(old_hash, is_min);
        assert(table_entries(self.table) == table_entries(old(self).table).remove(
            (old_hash, min_slot),
        ));

        self.sequence = self.sequence + 1;
        let ghost e = Entry { item, count: count.value(), sequence: self.sequence as nat };
        let ghost rank = (count.value(), self.sequence);
        let mut old_item: T = item;
        std::mem::swap(&mut self.item_store[min_slot as usize].item, &mut old_item);
        self.item_store[min_slot as usize].count = count;
        self.item_store[min_slot as usize].sequence = self.sequence;

        let hashes = SlotHashes { store: &self.item_store, hasher: &self.hasher };
        self.table.insert_unique(hash, min_slot, &hashes);
        self.compact_table_if_grown();
        let ghost capacity: usize = old(self).capacity;
        assert(exists|table: &mut SlotTable| #[trigger]
            Self::compacts(table, capacity) && *final(table) == self.table);
        assert(capacity == old(self)@.capacity as usize);
        proof {
            assert(self.ranks() =~= old(self).ranks().update(0, rank));
            lemma_rerank(old(self).ranks(), 0, rank);
            assert(self.entries() =~= old(self).entries().update(min_slot as int, e));
            lemma_keyed_update(old(self).entries(), min_slot as int, e);
            assert forall|i: int, j: int| 0 <= i < j < self.item_store@.len() implies (
            #[trigger] self.item_store@[i]).sequence != (
            #[trigger] self.item_store@[j]).sequence by {
                assert(old(self).item_store@[i].sequence != old(self).item_store@[j].sequence);
                assert(old(self).item_store@[i].sequence <= old(self).sequence);
                assert(old(self).item_store@[j].sequence <= old(self).sequence);
            }
            assert(self.settled());
            assert(self@ =~= old(self)@.removed(old(self)@.min_key()).added(item, count.value()));
        }
        let ghost replaced = *self;
        self.sift_down(0);
        proof {
            self.lemma_reordered(replaced);
        }
        old_item
    }

    /// Rebuilds the lookup table at its construction size if evict/insert churn
    /// made it grow. The table leaves tombstones on removal, and once they exhaust
    /// the growth budget it doubles the allocation instead of rehashing in place,
    /// even though live entries never exceed `capacity`. Rebuilding clears the
    /// tombstones and keeps the table's footprint fixed, which the memory gauge and
    /// the up-front size estimate rely on.
    fn compact_table_if_grown(&mut self)
        requires
            old(self).indexed(),
        ensures
            table_entries(final(self).table) == table_entries(old(self).table),
            final(self).item_store == old(self).item_store,
            final(self).heap == old(self).heap,
            final(self).capacity == old(self).capacity,
            final(self).sequence == old(self).sequence,
            final(self).hasher == old(self).hasher,
            exists|table: &mut SlotTable| #[trigger]
                Self::compacts(table, old(self).capacity) && *table == old(self).table
                    && *final(table) == final(self).table,
    {
        let hashes = SlotHashes { store: &self.item_store, hasher: &self.hasher };
        let capacity: usize = self.capacity;
        self.table.shrink(capacity, &hashes);
        proof {
            let table = choose|table: &mut SlotTable| #[trigger]
                SlotTable::shrinks(table, capacity, &hashes) && *table == old(self).table
                    && *final(table) == self.table;
            assert(SlotTable::shrinks(table, capacity, &hashes));
            assert(Self::compacts(table, capacity));
        }
    }

    /// Inserts or updates `item` to `count`.
    ///
    /// `count` is saturated into the stored width `C`.
    ///
    /// Returns `Some(evicted)` when a previously tracked item is displaced by this
    /// call, otherwise `None`.
    ///
    /// A new item in a free place is filed in vectors whose room was brought back to
    /// the capacity just before; one that displaces another leaves a table that gave
    /// up its room beyond the capacity.
    pub fn upsert(&mut self, item: T, count: u64) -> (evicted: Option<T>)
        requires
            old(self).wf(),
            old(self)@.has_room(item@, at_most(count, C::limit())),
        ensures
            final(self).wf(),
            final(self)@ == old(self)@.upserted(item, at_most(count, C::limit())),
            final(self).hash_keys() == old(self).hash_keys(),
            evicted == old(self)@.evicted(item@, at_most(count, C::limit())),
            !old(self)@.entries.contains_key(item@) && !old(self)@.is_full() ==> exists|
                heap: &mut Vec<u32>,
                longer_heap: &mut Vec<u32>,
                store: &mut Vec<Slot<T, C>>,
                longer_store: &mut Vec<Slot<T, C>>,
                position: u32,
                slot: Slot<T, C>,
                queue: &mut Self,
                pos: usize,
            |
                {
                    &&& #[trigger] restores(heap, old(self)@.capacity as usize)
                    &&& *heap == old(self).heap_vec()
                    &&& #[trigger] restores(store, old(self)@.capacity as usize)
                    &&& *store == old(self).slot_vec()
                    &&& #[trigger] pushes(longer_store, slot)
                    &&& *longer_store == *final(store)
                    &&& #[trigger] pushes(longer_heap, position)
                    &&& *longer_heap == *final(heap)
                    &&& #[trigger] Self::sifts_up(queue, pos)
                    &&& queue.heap_vec() == *final(longer_heap)
                    &&& queue.slot_vec() == *final(longer_store)
                    &&& *final(queue) == *final(self)
                },
            evicted is Some ==> exists|table: &mut SlotTable| #[trigger]
                Self::compacts(table, old(self)@.capacity as usize) && *final(table)
                    == final(self).lookup_table(),
            forall|capacity: nat, calls: Seq<Call<T>>| #[trigger]
                old(self).made_by(capacity, calls) ==> final(self).made_by(
                    capacity,
                    calls.push(Call::Upsert { item, count }),
                ),
    {
        proof {
            old(self).lemma_made_by((Call::Upsert { item, count }));
            lemma_keyed_len(self.entries());
        }
        let count: C = C::from_u64(count);
        let hash: u64 = self.hasher.hash_one(&item);
        // Fast path: update existing item
        if let Some(slot) = self.find_slot_with_hash(&item, hash) {
            if count.as_u64() == self.item_store[slot].count.as_u64() {
                assert(self@.recounted(item@, count.value()).entries =~= self@.entries);
                return None;
            }
            let pos: usize = self.set_count(slot, count);
            let ghost recounted = *self;
            self.sift_down(pos);
            self.sift_up(pos);
            proof {
                self.lemma_reordered(recounted);
            }
            return None;
        }

        // For new items, if we have space just add it
        if self.item_store.len() < self.capacity {
            self.add_slot(item, count, hash);
            return None;
        }

        // Queue is full - check if new count beats minimum
        if !self.item_store.is_empty() {
            proof {
                self.lemma_root_is_min();
            }
            let min_count: u64 = self.item_store[self.heap[0] as usize].count.as_u64();
            if count.as_u64() > min_count {
                return Some(self.replace_min(item, count, hash));
            }
        }
        None
    }

    /// The items with their counts and sequence numbers, in the order of their
    /// slots.
    fn snapshot(&self) -> (items: Vec<(&T, u64, u64)>)
        ensures
            items@.len() == self.item_store@.len(),
            forall|i: int|
                0 <= i < items@.len() ==> entry_of(#[trigger] items@[i]) == self.entries()[i],
    {
        let mut items: Vec<(&T, u64, u64)> = Vec::with_capacity(self.item_store.len());
        let mut i: usize = 0;
        while i < self.item_store.len()
            invariant
                i <= self.item_store@.len(),
                items@.len() == i,
                forall|j: int| 0 <= j < i ==> entry_of(#[trigger] items@[j]) == self.entries()[j],
            decreases self.item_store@.len() - i,
        {
            let slot = &self.item_store[i];
            items.push((&slot.item, slot.count.as_u64(), slot.sequence));
            i = i + 1;
        }
        items
    }

    /// A sorted snapshot lists the entries.
    proof fn lemma_sorted_snapshot_lists(
        self,
        items: Seq<(&T, u64, u64)>,
        sorted: Seq<(&T, u64, u64)>,
        order: Order,
    )
        requires
            self.wf(),
            items.len() == self.item_store@.len(),
            forall|i: int|
                0 <= i < items.len() ==> entry_of(#[trigger] items[i]) == self.entries()[i],
            sorted.to_multiset() == items.to_multiset(),
            forall|i: int, j: int|
                0 <= i < j < sorted.len() ==> !before(
                    order,
                    entry_of(#[trigger] sorted[j]),
                    entry_of(#[trigger] sorted[i]),
                ),
        ensures
            lists(self@.entries, entries_of(sorted), order),
    {
        items.to_multiset_ensures();
        sorted.to_multiset_ensures();
        self.law_queue_is_well_formed();
        lemma_keyed_len(self.entries());
        let s = entries_of(sorted);
        assert forall|i: int, j: int| 0 <= i < items.len() && 0 <= j < items.len() && i
            != j implies items[i] != items[j] by {
            assert(entry_of(items[i]).sequence != entry_of(items[j]).sequence) by {
                assert(self.entries()[i].sequence != self.entries()[j].sequence) by {
                    assert(self.item_store@[i].sequence != self.item_store@[j].sequence);
                }
            }
        }
        items.lemma_multiset_has_no_duplicates();
        sorted.lemma_multiset_has_no_duplicates_conv();
        assert forall|i: int| 0 <= i < s.len() implies {
            &&& self@.entries.contains_key(#[trigger] s[i].item@)
            &&& self@.entries[s[i].item@] == s[i]
        } by {
            assert(sorted.contains(sorted[i]));
            assert(sorted.to_multiset().count(sorted[i]) > 0);
            assert(items.contains(sorted[i]));
            let p = choose|p: int| 0 <= p < items.len() && items[p] == sorted[i];
            lemma_keyed_entry(self.entries(), p);
        }
        assert forall|k: T::V| #[trigger] self@.entries.contains_key(k) implies s.contains(
            self@.entries[k],
        ) by {
            lemma_keyed_place(self.entries(), k);
            let p = place_of(self.entries(), k);
            assert(items.contains(items[p]));
            assert(items.to_multiset().count(items[p]) > 0);
            assert(sorted.contains(items[p]));
            let i = choose|i: int| 0 <= i < sorted.len() && sorted[i] == items[p];
            assert(s[i] == self.entries()[p]);
        }
        assert forall|i: int, j: int| 0 <= i < j < s.len() implies #[trigger] before(
            order,
            s[i],
            s[j],
        ) by {
            assert(!before(order, entry_of(sorted[j]), entry_of(sorted[i])));
            let k = s[i].item@;
            let o = s[j].item@;
            assert(self@.entries.contains_key(k) && self@.entries.contains_key(o));
            if k == o {
                assert(s[i] == s[j]);
                assert(sorted[i] == sorted[j]);
            }
            lemma_order_is_total(self@, order, k, o);
        }
    }

    /// The items with their counts, by descending count; among equal counts the
    /// older ones come first.
    pub fn iter(&self) -> (items: std::vec::IntoIter<(&T, u64)>)
        requires
            self.wf(),
        ensures
            items.remaining() == listed(self@.ranked()),
    {
        let mut items: Vec<(&T, u64, u64)> = self.snapshot();
        let ghost unsorted = items@;
        let rank = |e: &(&T, u64, u64)| -> (r: (u64, u64))
            ensures
                r == (((u64::MAX - e.1) as u64, e.2)),
            { (u64::MAX - e.1, e.2) };
        sort_by_rank(&mut items, rank);
        proof {
            assert forall|i: int, j: int| 0 <= i < j < items@.len() implies !before(
                Order::Listing,
                entry_of(#[trigger] items@[j]),
                entry_of(#[trigger] items@[i]),
            ) by {
                assert(in_rank_order(rank, items@[i], items@[j]));
            }
            self.lemma_sorted_snapshot_lists(unsorted, items@, Order::Listing);
            law_listing_is_unique(
                self@.entries,
                entries_of(items@),
                self@.ranked(),
                Order::Listing,
            );
        }
        without_sequence(items)
    }

    /// The items with their counts in ascending insertion-`sequence` order.
    ///
    /// Serialization uses this so restore (re-`upsert` in this order) reassigns
    /// sequences that preserve the count-tie ordering.
    pub fn iter_by_sequence(&self) -> (items: std::vec::IntoIter<(&T, u64)>)
        requires
            self.wf(),
        ensures
            items.remaining() == listed(self@.by_sequence()),
    {
        let mut items: Vec<(&T, u64, u64)> = self.snapshot();
        let ghost unsorted = items@;
        let rank = |e: &(&T, u64, u64)| -> (r: (u64, u64))
            ensures
                r == ((e.2, 0u64)),
            { (e.2, 0u64) };
        sort_by_rank(&mut items, rank);
        proof {
            assert forall|i: int, j: int| 0 <= i < j < items@.len() implies !before(
                Order::Insertion,
                entry_of(#[trigger] items@[j]),
                entry_of(#[trigger] items@[i]),
            ) by {
                assert(in_rank_order(rank, items@[i], items@[j]));
            }
            self.lemma_sorted_snapshot_lists(unsorted, items@, Order::Insertion);
            law_listing_is_unique(
                self@.entries,
                entries_of(items@),
                self@.by_sequence(),
                Order::Insertion,
            );
        }
        without_sequence(items)
    }

    /// Relocates the `heap` and then the `item_store` vector through `reallocator`. For
    /// `item_store` only the outer buffer moves; any heap a `T` owns (e.g. a
    /// `Vec<u8>` key's bytes) stays put. The hash table owns its own allocation and
    /// is not relocated.
    pub fn realloc_large_heap_allocated_objects<R: Reallocator>(&mut self, reallocator: &mut R)
        requires
            old(self).wf(),
        ensures
            final(self).wf(),
            final(self)@ == old(self)@,
            final(self).hash_keys() == old(self).hash_keys(),
            moves_both(
                *old(reallocator),
                *final(reallocator),
                old(self)@.entries.len(),
                size_of::<u32>(),
                size_of::<Slot<T, C>>(),
            ),
            exists|
                heap_block: Box<[u32]>,
                moved_heap: Box<[u32]>,
                first: &mut R,
                store_block: Box<[Slot<T, C>]>,
                moved_store: Box<[Slot<T, C>]>,
                second: &mut R,
            |
                {
                    &&& #[trigger] trims_to(old(self).heap_vec(), heap_block)
                    &&& #[trigger] relocates(first, heap_block, moved_heap)
                    &&& *first == *old(reallocator)
                    &&& #[trigger] unboxes_to(moved_heap, final(self).heap_vec())
                    &&& #[trigger] trims_to(old(self).slot_vec(), store_block)
                    &&& #[trigger] relocates(second, store_block, moved_store)
                    &&& *second == *final(first)
                    &&& *final(second) == *final(reallocator)
                    &&& #[trigger] unboxes_to(moved_store, final(self).slot_vec())
                },
            final(self).lookup_table() == old(self).lookup_table(),
            forall|capacity: nat, calls: Seq<Call<T>>| #[trigger]
                old(self).made_by(capacity, calls) ==> final(self).made_by(capacity, calls),
    {
        proof {
            lemma_keyed_len(self.entries());
        }
        assert(self.heap == self.heap_vec() && self.item_store == self.slot_vec());
        realloc_vec(&mut self.heap, reallocator);
        let ghost between = *reallocator;
        let ghost heap = self.heap;
        assert(exists|block: Box<[u32]>, moved: Box<[u32]>, r: &mut R|
            {
                &&& #[trigger] trims_to(old(self).heap_vec(), block)
                &&& #[trigger] relocates(r, block, moved)
                &&& *r == *old(reallocator)
                &&& *final(r) == between
                &&& #[trigger] unboxes_to(moved, heap)
            });
        realloc_vec(&mut self.item_store, reallocator);
        let ghost store = self.item_store;
        assert(exists|block: Box<[Slot<T, C>]>, moved: Box<[Slot<T, C>]>, r: &mut R|
            {
                &&& #[trigger] trims_to(old(self).slot_vec(), block)
                &&& #[trigger] relocates(r, block, moved)
                &&& *r == between
                &&& *final(r) == *reallocator
                &&& #[trigger] unboxes_to(moved, store)
            });
        assert(heap == self.heap_vec() && store == self.slot_vec());
        assert(R::moves(
            between,
            *reallocator,
            old(self)@.entries.len(),
            size_of::<Slot<T, C>>(),
        ));
        assert(self.entries() =~= old(self).entries());
        assert(self.ranks() =~= old(self).ranks());
    }

    /// The slots hold what is tracked, each item once.
    pub proof fn law_slots_hold_the_entries(self)
        requires
            self.wf(),
        ensures
            distinct_keys(self.slots()),
            keyed(self.slots()) == self@.entries,
            self.slots().len() == self@.entries.len(),
    {
        lemma_keyed_len(self.entries());
    }

    /// What the containers say of their allocations: the capacity of the slots, that
    /// of the heap vector, and the bytes of the table.
    pub closed spec fn measured(self, slots: usize, positions: usize, table_bytes: usize) -> bool {
        &&& has_room_for(self.item_store, slots)
        &&& has_room_for(self.heap, positions)
        &&& self.table.takes(table_bytes)
    }

    /// The heap memory (in bytes) used by this queue's containers.
    ///
    /// Computed from the allocated *capacity* of the slots, heap vector, and hash
    /// table, plus the heap each live item owns beyond its inline
    /// `size_of::<T>()`. `item_heap(t)` should return the bytes `t` points to (e.g.
    /// `String::capacity`).
    ///
    /// How much the containers have allocated is up to the allocator. `None` where
    /// the sum is more than a `usize` holds.
    pub fn mem_bytes<F>(&self, item_heap: F) -> (bytes: Option<usize>) where F: Fn(&T) -> usize
        requires
            self.wf(),
            forall|k: T::V| #[trigger]
                self@.entries.contains_key(k) ==> call_requires(
                    item_heap,
                    (&self@.entries[k].item,),
                ),
        ensures
            exists|slots: usize, positions: usize, table_bytes: usize, owned: Seq<usize>|
                {
                    &&& slots >= self@.entries.len()
                    &&& slots * size_of::<Slot<T, C>>() <= isize::MAX
                    &&& positions >= self@.entries.len()
                    &&& positions * 4 <= isize::MAX
                    &&& table_bytes <= isize::MAX
                    &&& self.measured(slots, positions, table_bytes)
                    &&& owned.len() == self@.entries.len()
                    &&& forall|i: int|
                        0 <= i < owned.len() ==> call_ensures(
                            item_heap,
                            (&(#[trigger] self.slots()[i]).item,),
                            owned[i],
                        )
                    &&& bytes == #[trigger] fitting(
                        footprint_total(
                            slots,
                            size_of::<Slot<T, C>>(),
                            positions,
                            table_bytes,
                            total_of(owned),
                        ),
                    )
                    &&& bytes is Some <==> slots * size_of::<Slot<T, C>>() + positions * 4
                        + table_bytes + total_of(owned) <= usize::MAX
                    &&& bytes is Some ==> bytes->0 == slots * size_of::<Slot<T, C>>() + positions
                        * 4 + table_bytes + total_of(owned)
                },
    {
        proof {
            lemma_keyed_len(self.entries());
        }
        let slots: usize = room_of(&self.item_store);
        let positions: usize = room_of(&self.heap);
        proof {
            broadcast use vstd::layout::layout_of_primitives;

        }
        // The table reports its own allocation, so the estimate cannot drift from
        // its internal layout.
        let table_bytes: usize = self.table.size();
        let mut item_bytes: u128 = 0;
        let ghost mut owned: Seq<usize> = Seq::empty();
        let mut i: usize = 0;
        while i < self.item_store.len()
            invariant
                self.wf(),
                forall|k: T::V| #[trigger]
                    self@.entries.contains_key(k) ==> call_requires(
                        item_heap,
                        (&self@.entries[k].item,),
                    ),
                i <= self.item_store@.len(),
                owned.len() == i,
                forall|j: int|
                    0 <= j < i ==> call_ensures(
                        item_heap,
                        (&(#[trigger] self.slots()[j]).item,),
                        owned[j],
                    ),
                item_bytes == total_of(owned),
                item_bytes <= i * usize::MAX,
            decreases self.item_store@.len() - i,
        {
            proof {
                lemma_keyed_entry(self.entries(), i as int);
                assert(self@.entries.contains_key(self.entries()[i as int].item@));
                assert(i * usize::MAX + usize::MAX == (i + 1) * usize::MAX) by (nonlinear_arith);
                assert((i + 1) * usize::MAX <= u128::MAX) by (nonlinear_arith)
                    requires
                        0 <= i < usize::MAX <= 0xffff_ffff_ffff_ffff,
                ;
            }
            let bytes: usize = item_heap(&self.item_store[i].item);
            item_bytes = item_bytes + bytes as u128;
            proof {
                assert(self.slots()[i as int].item == self.item_store@[i as int].item);
                assert(owned.push(bytes).drop_last() =~= owned);
                owned = owned.push(bytes);
            }
            i = i + 1;
        }
        footprint(slots, core::mem::size_of::<Slot<T, C>>(), positions, table_bytes, item_bytes)
    }

    /// The memory of a queue is what its slots, its heap and its table answer when asked
    /// how much they have allocated, and what the items own, each item once: a slot
    /// counts in full, a heap position four bytes. It is told unless a `usize` cannot
    /// hold it.
    proof fn law_memory_is_counted_in_full<F>(self, item_heap: F, bytes: Option<usize>) where
        F: Fn(&T) -> usize,

        requires
            self.wf(),
            call_ensures(Self::mem_bytes::<F>, (&self, item_heap), bytes),
        ensures
            exists|slots: usize, positions: usize, table_bytes: usize, owned: Seq<usize>|
                {
                    let total = slots * size_of::<Slot<T, C>>() + positions * 4 + table_bytes
                        + owned.fold_left(0int, |sum: int, n: usize| sum + n);
                    &&& #[trigger] call_ensures(
                        vec_capacity::<Slot<T, C>>,
                        (&self.item_store,),
                        slots,
                    )
                    &&& #[trigger] call_ensures(vec_capacity::<u32>, (&self.heap,), positions)
                    &&& #[trigger] call_ensures(
                        SlotTable::allocation_size,
                        (&self.table,),
                        table_bytes,
                    )
                    &&& #[trigger] owned.len() == self.item_store@.len()
                    &&& forall|i: int|
                        0 <= i < owned.len() ==> call_ensures(
                            item_heap,
                            (&(#[trigger] self.item_store@[i]).item,),
                            owned[i],
                        )
                    &&& total <= usize::MAX ==> bytes == Some(total as usize)
                    &&& total > usize::MAX ==> bytes is None
                },
    {
        self.law_slots_hold_the_entries();
        let (slots, positions, table_bytes, owned) = choose|
            slots: usize,
            positions: usize,
            table_bytes: usize,
            owned: Seq<usize>,
        |
            {
                &&& self.measured(slots, positions, table_bytes)
                &&& owned.len() == self@.entries.len()
                &&& forall|i: int|
                    0 <= i < owned.len() ==> call_ensures(
                        item_heap,
                        (&(#[trigger] self.slots()[i]).item,),
                        owned[i],
                    )
                &&& bytes == #[trigger] fitting(
                    footprint_total(
                        slots,
                        size_of::<Slot<T, C>>(),
                        positions,
                        table_bytes,
                        total_of(owned),
                    ),
                )
                &&& bytes is Some <==> slots * size_of::<Slot<T, C>>() + positions * 4
                    + table_bytes + total_of(owned) <= usize::MAX
                &&& bytes is Some ==> bytes->0 == slots * size_of::<Slot<T, C>>() + positions * 4
                    + table_bytes + total_of(owned)
            };
        law_room_is_what_the_vector_says(self.item_store, slots);
        law_room_is_what_the_vector_says(self.heap, positions);
        let hashes = arbitrary::<SlotHashes<'_, T, C>>();
        law_table_records_are_calls(
            self.table,
            arbitrary::<&mut SlotTable>(),
            0,
            &hashes,
            table_bytes,
        );
        lemma_total_is_a_sum(owned);
        assert(owned.len() == self.item_store@.len());
        assert forall|i: int| 0 <= i < owned.len() implies call_ensures(
            item_heap,
            (&(#[trigger] self.item_store@[i]).item,),
            owned[i],
        ) by {
            assert(self.slots()[i].item == self.item_store@[i].item);
        }
    }

    /// The counts in the order of the heap.
    pub closed spec fn counts_in_heap(self) -> Seq<u64> {
        Seq::new(self.heap@.len(), |p: int| self.item_store@[self.heap@[p] as int].count.value())
    }

    /// The counts in the order of the heap, the smallest at the root.
    pub fn heap_counts(&self) -> (counts: Vec<u64>)
        requires
            self.wf(),
        ensures
            counts@ == self.counts_in_heap(),
    {
        let mut counts: Vec<u64> = Vec::with_capacity(self.heap.len());
        let mut p: usize = 0;
        while p < self.heap.len()
            invariant
                self.wf(),
                p <= self.heap@.len(),
                counts@.len() == p,
                forall|q: int| 0 <= q < p ==> #[trigger] counts@[q] == self.counts_in_heap()[q],
            decreases self.heap@.len() - p,
        {
            counts.push(self.item_store[self.heap[p] as usize].count.as_u64());
            p = p + 1;
        }
        assert(counts@ =~= self.counts_in_heap());
        counts
    }

    /// The heap holds every slot number in one place, and shows the counts of the slots.
    pub proof fn law_heap_is_laid_out(self)
        requires
            self.wf(),
        ensures
            self.heap_vec()@.len() == self.counts_in_heap().len() == self.slots().len(),
            forall|p: int|
                0 <= p < self.heap_vec()@.len() ==> {
                    &&& (#[trigger] self.heap_vec()@[p]) < self.slots().len()
                    &&& self.counts_in_heap()[p] == self.slots()[self.heap_vec()@[p] as int].count
                },
            forall|p: int, r: int|
                0 <= p < r < self.heap_vec()@.len() ==> (#[trigger] self.heap_vec()@[p]) != (
                #[trigger] self.heap_vec()@[r]),
    {
        assert forall|p: int, r: int| 0 <= p < r < self.heap@.len() implies (
        #[trigger] self.heap@[p]) != (#[trigger] self.heap@[r]) by {
            assert(self.item_store@[self.heap@[p] as int].heap_pos == p);
            assert(self.item_store@[self.heap@[r] as int].heap_pos == r);
        }
    }

    /// The heap holds the count of every item that is tracked and no other, none
    /// smaller than that of its parent.
    pub proof fn law_heap_property(self)
        requires
            self.wf(),
        ensures
            self.counts_in_heap().len() == self@.entries.len(),
            forall|i: int|
                1 <= i < self.counts_in_heap().len() ==> self.counts_in_heap()[parent_of(i)]
                    <= #[trigger] self.counts_in_heap()[i],
            forall|k: T::V| #[trigger]
                self@.entries.contains_key(k) ==> self.counts_in_heap().contains(
                    self@.entries[k].count,
                ),
            forall|p: int|
                0 <= p < self.counts_in_heap().len() ==> self@.has_count(
                    #[trigger] self.counts_in_heap()[p],
                ),
    {
        lemma_keyed_len(self.entries());
        let counts = self.counts_in_heap();
        assert forall|i: int| 1 <= i < counts.len() implies counts[parent_of(i)]
            <= #[trigger] counts[i] by {
            assert(edge_ok(self.ranks(), i));
        }
        assert forall|k: T::V| #[trigger] self@.entries.contains_key(k) implies counts.contains(
            self@.entries[k].count,
        ) by {
            lemma_keyed_place(self.entries(), k);
            let p = self.item_store@[place_of(self.entries(), k)].heap_pos as int;
            assert(counts[p] == self@.entries[k].count);
        }
        assert forall|p: int| 0 <= p < counts.len() implies self@.has_count(
            #[trigger] counts[p],
        ) by {
            let slot = self.heap@[p] as int;
            lemma_keyed_entry(self.entries(), slot);
            assert(self@.entries.contains_key(self.entries()[slot].item@));
        }
    }
}

impl<T: Lookup<T>, C: Counter> TopKQueue<T, C> {
    /// Whatever was called on a queue: it tracks no more items than its capacity, a
    /// listing shows as many items as are tracked and none twice, a lookup gives what
    /// the listing shows, and no count is above the width or below the smallest one.
    pub proof fn law_holds_after_any_calls(self, capacity: nat, calls: Seq<Call<T>>, order: Order)
        requires
            self.made_by(capacity, calls),
        ensures
            self@.entries.len() <= capacity,
            forall|k: T::V| #[trigger]
                self@.entries.contains_key(k) ==> self@.min_count() <= self@.entries[k].count
                    <= C::limit(),
            listed(self@.listing(order)).len() == self@.entries.len(),
            forall|i: int, j: int|
                0 <= i < j < self@.entries.len() ==> (#[trigger] listed(
                    self@.listing(order),
                )[i]).0@ != (#[trigger] listed(self@.listing(order))[j]).0@,
            forall|i: int|
                0 <= i < self@.entries.len() ==> self@.count_of(
                    (#[trigger] listed(self@.listing(order))[i]).0@,
                ) == Some(listed(self@.listing(order))[i].1),
            forall|k: T::V| #[trigger]
                self@.entries.contains_key(k) ==> exists|i: int|
                    0 <= i < self@.entries.len() && (#[trigger] listed(
                        self@.listing(order),
                    )[i]).0@ == k,
    {
        law_calls_keep_the_bounds(capacity, calls, C::limit());
        law_listings_agree_with_lookups(self@, order);
    }

    /// Offered items that each come once, a queue keeps the heaviest.
    pub proof fn law_keeps_the_top_k(self, capacity: nat, s: Seq<Entry<T>>)
        requires
            self.made_by(capacity, offers(s)),
            distinct_keys(s),
        ensures
            self@.capacity == capacity,
            keeps_the_heaviest(self@, s, C::limit()),
    {
        law_keeps_the_heaviest(capacity, s, C::limit());
    }

    /// The hasher shows nowhere: two queues of one capacity on which the same was
    /// called track the same, answer alike to the same calls that follow, and are
    /// listed alike after them, whichever keys their lookups are hashed under. Items
    /// with equal views are the same.
    pub proof fn law_hasher_shows_nowhere(
        a: Self,
        b: Self,
        capacity: nat,
        calls: Seq<Call<T>>,
        others: Seq<Call<T>>,
        next: Seq<Call<T>>,
        other_next: Seq<Call<T>>,
    )
        requires
            a.made_by(capacity, calls),
            b.made_by(capacity, others),
            same_calls(calls, others),
            same_calls(next, other_next),
        ensures
            alike(a@, b@),
            calls == others ==> a@ == b@,
            a@.sequence == b@.sequence,
            Self::go_on_alike(a, b, next, other_next),
    {
        let start = QueueModel::<T>::empty(capacity);
        law_alike_stays_alike(start, start, calls, others, C::limit());
        law_alike_stays_alike(a@, b@, next, other_next, C::limit());
    }

    /// Two queues answer alike to the calls that follow, and track the same after
    /// them, with the same listings.
    pub open spec fn go_on_alike(
        a: Self,
        b: Self,
        next: Seq<Call<T>>,
        other_next: Seq<Call<T>>,
    ) -> bool {
        let m = a@.run(next, C::limit());
        let n = b@.run(other_next, C::limit());
        &&& same_answers(a@.answers(next, C::limit()), b@.answers(other_next, C::limit()))
        &&& alike(m, n)
        &&& m.entries.len() == n.entries.len()
        &&& m.is_full() == n.is_full()
        &&& m.min_count() == n.min_count()
        &&& forall|key: T::V| #[trigger] m.count_of(key) == n.count_of(key)
        &&& same_listing(listed(m.ranked()), listed(n.ranked()))
        &&& same_listing(listed(m.by_sequence()), listed(n.by_sequence()))
    }

    /// A queue restored by offering the items of another one in the order of their
    /// insertion, or clones that stand for the same keys, had room for each of them,
    /// displaced nothing on the way, and cannot be told from the other one: whatever is
    /// called on both, they answer alike and are listed alike, and the restored queue
    /// has insertion numbers for as much.
    pub proof fn law_restored_queue_goes_on_alike(
        self,
        restored: Self,
        calls: Seq<Call<T>>,
        next: Seq<Call<T>>,
        other_next: Seq<Call<T>>,
    )
        requires
            self.wf(),
            restored.made_by(self@.capacity, calls),
            same_calls(offers(self@.by_sequence()), calls),
            same_calls(next, other_next),
        ensures
            calls.len() == self@.entries.len(),
            forall|i: int|
                0 <= i < calls.len() ==> #[trigger] QueueModel::<T>::empty(self@.capacity).run(
                    calls.take(i),
                    C::limit(),
                ).has_room(self@.by_sequence()[i].item@, self@.by_sequence()[i].count),
            forall|i: int|
                0 <= i < calls.len() ==> #[trigger] QueueModel::<T>::empty(self@.capacity).answers(
                    calls,
                    C::limit(),
                )[i] == Answer::Evicted(None::<T>),
            alike(self@, restored@),
            same_listing(listed(self@.ranked()), listed(restored@.ranked())),
            same_listing(listed(self@.by_sequence()), listed(restored@.by_sequence())),
            Self::go_on_alike(self, restored, next, other_next),
            restored@.run(other_next, C::limit()).sequence <= self@.run(
                next,
                C::limit(),
            ).sequence,
    {
        self.law_queue_is_well_formed();
        law_replay_restores(self@, calls, C::limit());
        self.law_slots_hold_the_entries();
        let len = self.heap@.len();
        if len > 0 {
            assert(self.item_store@[self.heap@[len - 1] as int].heap_pos == len - 1);
        }
        assert forall|i: int| 0 <= i < calls.len() implies #[trigger] QueueModel::<T>::empty(
            self@.capacity,
        ).run(calls.take(i), C::limit()).has_room(
            self@.by_sequence()[i].item@,
            self@.by_sequence()[i].count,
        ) by {
            assert(QueueModel::<T>::empty(self@.capacity).run(
                calls.take(i),
                C::limit(),
            ).sequence == i);
        }
        assert(calls.take(calls.len() as int) =~= calls);
        law_alike_stays_alike(self@, restored@, Seq::empty(), Seq::empty(), C::limit());
        law_alike_stays_alike(self@, restored@, next, other_next, C::limit());
    }

    /// A slot is evicted before another if its count is smaller, or equal and its item
    /// older. Of two slots, exactly one is evicted before the other; none is evicted
    /// before itself.
    pub proof fn law_slots_rank_apart(self, i: int, j: int)
        requires
            self.wf(),
            0 <= i < self.slots().len(),
            0 <= j < self.slots().len(),
        ensures
            ({
                let (a, b) = (self.slots()[i], self.slots()[j]);
                &&& before(Order::Eviction, a, b) <==> a.count < b.count || (a.count == b.count
                    && a.sequence < b.sequence)
                &&& i == j ==> !before(Order::Eviction, a, b)
                &&& i != j ==> before(Order::Eviction, a, b) != before(Order::Eviction, b, a)
            }),
    {
        let (a, b) = if i < j {
            (i, j)
        } else {
            (j, i)
        };
        if i != j {
            assert(self.item_store@[a].sequence != self.item_store@[b].sequence);
        }
    }
}

/// Whether clones of an item stand for the same key and are hashed alike.
pub open spec fn clones_keep_keys<T: SipHash + Clone>() -> bool {
    forall|a: T, b: T| #[trigger]
        cloned::<T>(a, b) ==> a@ == b@ && a.stream() == b.stream()
}

/// Two queues that agree but for the items themselves, where the second one holds
/// clones of those of the first.
pub open spec fn cloned_queue<T: View + Clone>(a: QueueModel<T>, b: QueueModel<T>) -> bool {
    &&& a.capacity == b.capacity
    &&& a.sequence == b.sequence
    &&& a.entries.dom() == b.entries.dom()
    &&& forall|k: T::V| #[trigger]
        a.entries.contains_key(k) ==> {
            &&& cloned::<T>(a.entries[k].item, b.entries[k].item)
            &&& a.entries[k].count == b.entries[k].count
            &&& a.entries[k].sequence == b.entries[k].sequence
        }
}

impl<T: Lookup<T> + Clone, C: Counter> Clone for TopKQueue<T, C> {
    fn clone(&self) -> (copy: Self)
        ensures
            self.wf() && clones_keep_keys::<T>() ==> copy.wf() && cloned_queue(self@, copy@),
            copy.hash_keys() == self.hash_keys(),
    {
        let mut item_store: Vec<Slot<T, C>> = Vec::with_capacity(self.item_store.len());
        let mut i: usize = 0;
        while i < self.item_store.len()
            invariant
                i <= self.item_store@.len(),
                item_store@.len() == i,
                forall|j: int|
                    0 <= j < i ==> {
                        &&& cloned::<T>(self.item_store@[j].item, (#[trigger] item_store@[j]).item)
                        &&& item_store@[j].count == self.item_store@[j].count
                        &&& item_store@[j].sequence == self.item_store@[j].sequence
                        &&& item_store@[j].heap_pos == self.item_store@[j].heap_pos
                    },
            decreases self.item_store@.len() - i,
        {
            let slot = &self.item_store[i];
            item_store.push(
                Slot {
                    item: slot.item.clone(),
                    count: slot.count,
                    sequence: slot.sequence,
                    heap_pos: slot.heap_pos,
                },
            );
            i = i + 1;
        }
        let copy = TopKQueue {
            item_store,
            heap: self.heap.clone(),
            table: self.table.clone(),
            capacity: self.capacity,
            sequence: self.sequence,
            hasher: self.hasher.clone(),
        };
        proof {
            if self.wf() && clones_keep_keys::<T>() {
                self.lemma_clone(copy);
            }
        }
        copy
    }
}

impl<T: Lookup<T> + Clone, C: Counter> TopKQueue<T, C> {
    /// A clone of a queue cannot be told from it: whatever is called on both, they
    /// answer alike and are listed alike.
    pub proof fn law_clone_goes_on_alike(
        self,
        copy: Self,
        next: Seq<Call<T>>,
        other_next: Seq<Call<T>>,
    )
        requires
            self.wf(),
            copy.wf(),
            cloned_queue(self@, copy@),
            same_calls(next, other_next),
        ensures
            alike(self@, copy@),
            Self::go_on_alike(self, copy, next, other_next),
    {
        self.law_queue_is_well_formed();
        copy.law_queue_is_well_formed();
        law_alike_stays_alike(self@, copy@, next, other_next, C::limit());
    }

    proof fn lemma_clone(self, copy: Self)
        requires
            self.wf(),
            clones_keep_keys::<T>(),
            copy.item_store@.len() == self.item_store@.len(),
            forall|j: int|
                0 <= j < self.item_store@.len() ==> {
                    &&& cloned::<T>(self.item_store@[j].item, (#[trigger] copy.item_store@[j]).item)
                    &&& copy.item_store@[j].count == self.item_store@[j].count
                    &&& copy.item_store@[j].sequence == self.item_store@[j].sequence
                    &&& copy.item_store@[j].heap_pos == self.item_store@[j].heap_pos
                },
            copy.heap@ == self.heap@,
            table_entries(copy.table) == table_entries(self.table),
            copy.capacity == self.capacity,
            copy.sequence == self.sequence,
            copy.hasher@ == self.hasher@,
        ensures
            copy.wf(),
            cloned_queue(self@, copy@),
    {
        assert(copy.ranks() =~= self.ranks());
        let a = self.entries();
        let b = copy.entries();
        assert forall|j: int| 0 <= j < a.len() implies (#[trigger] a[j]).item@ == b[j].item@ by {
            assert(copy.item_store@[j].item == b[j].item);
        }
        assert forall|i: int, j: int| 0 <= i < j < b.len() implies #[trigger] b[i].item@
            != #[trigger] b[j].item@ by {
            assert(a[i].item@ != a[j].item@);
        }
        lemma_still_numbered(self.item_store@, copy.item_store@, self.sequence);
        assert(copy.linked());
        assert(copy.indexed());
        assert forall|k: T::V| self@.entries.contains_key(k) <==> copy@.entries.contains_key(k) by {
            if self@.entries.contains_key(k) {
                lemma_keyed_place(a, k);
                assert(b[place_of(a, k)].item@ == k);
            }
            if copy@.entries.contains_key(k) {
                lemma_keyed_place(b, k);
                assert(a[place_of(b, k)].item@ == k);
            }
        }
        assert(self@.entries.dom() =~= copy@.entries.dom());
        assert forall|k: T::V| #[trigger] self@.entries.contains_key(k) implies {
            &&& cloned::<T>(self@.entries[k].item, copy@.entries[k].item)
            &&& self@.entries[k].count == copy@.entries[k].count
            &&& self@.entries[k].sequence == copy@.entries[k].sequence
        } by {
            lemma_keyed_place(a, k);
            let i = place_of(a, k);
            lemma_keyed_entry(b, i);
            assert(copy.item_store@[i].item == b[i].item);
        }
    }
}

/// The reallocator moved two blocks of `len` elements each: the first of elements
/// of `first` bytes, then one of elements of `second` bytes.
pub open spec fn moves_both<R: Reallocator>(
    before: R,
    after: R,
    len: nat,
    first: nat,
    second: nat,
) -> bool {
    exists|between: R| #[trigger]
        R::moves(before, between, len, first) && R::moves(between, after, len, second)
}

/// The sum of the elements.
pub open spec fn total_of(sizes: Seq<usize>) -> nat
    decreases sizes.len(),
{
    if sizes.len() == 0 {
        0
    } else {
        total_of(sizes.drop_last()) + sizes.last() as nat
    }
}

/// Sizes add up one by one.
proof fn lemma_total_is_a_sum(sizes: Seq<usize>)
    ensures
        total_of(sizes) == sizes.fold_left(0int, |sum: int, n: usize| sum + n),
    decreases sizes.len(),
{
    if sizes.len() > 0 {
        lemma_total_is_a_sum(sizes.drop_last());
    }
}

/// The bytes of `slots` slots, of `positions` heap positions, of the table, and of
/// what the items own.
pub open spec fn footprint_total(
    slots: usize,
    slot_size: nat,
    positions: usize,
    table_bytes: usize,
    item_bytes: nat,
) -> nat {
    slots as nat * slot_size + positions as nat * 4 + table_bytes as nat + item_bytes
}

/// What the items own is counted once, on top of what the containers take.
pub proof fn law_items_are_counted_once(
    slots: usize,
    slot_size: nat,
    positions: usize,
    table_bytes: usize,
    owned: Seq<usize>,
    more: usize,
)
    ensures
        footprint_total(slots, slot_size, positions, table_bytes, total_of(owned))
            == footprint_total(slots, slot_size, positions, table_bytes, 0) + total_of(owned),
        total_of(owned.push(more)) == total_of(owned) + more,
{
    assert(owned.push(more).drop_last() =~= owned);
}

/// The memory adds up to the slots at the size of a slot, the heap positions at four
/// bytes, the table and what the items own; it is told unless a `usize` cannot hold it.
pub proof fn law_memory_adds_up(
    slots: usize,
    slot_size: usize,
    positions: usize,
    table_bytes: usize,
    item_bytes: u128,
    bytes: Option<usize>,
)
    requires
        call_ensures(footprint, (slots, slot_size, positions, table_bytes, item_bytes), bytes),
    ensures
        ({
            let total = slots * slot_size + positions * 4 + table_bytes + item_bytes;
            &&& total <= usize::MAX ==> bytes == Some(total as usize)
            &&& total > usize::MAX ==> bytes is None
        }),
{
}

/// A number that a `usize` holds, or nothing.
pub open spec fn fitting(n: nat) -> Option<usize> {
    if n <= usize::MAX {
        Some(n as usize)
    } else {
        None
    }
}

/// Adds up the memory of a queue; `None` where the sum is more than a `usize`
/// holds.
pub fn footprint(
    slots: usize,
    slot_size: usize,
    positions: usize,
    table_bytes: usize,
    item_bytes: u128,
) -> (bytes: Option<usize>)
    ensures
        bytes == fitting(
            footprint_total(slots, slot_size as nat, positions, table_bytes, item_bytes as nat),
        ),
{
    assert(slots * slot_size <= u128::MAX) by (nonlinear_arith)
        requires
            0 <= slots <= 0xffff_ffff_ffff_ffff,
            0 <= slot_size <= 0xffff_ffff_ffff_ffff,
    ;
    let store_bytes: u128 = (slots as u128) * (slot_size as u128);
    let heap_bytes: u128 = (positions as u128) * 4;
    let limit: u128 = usize::MAX as u128;
    if store_bytes > limit || item_bytes > limit {
        return None;
    }
    let total: u128 = store_bytes + heap_bytes + table_bytes as u128 + item_bytes;
    if total > limit {
        None
    } else {
        Some(total as usize)
    }
}

/// What an item, its count and its sequence number stand for.
spec fn entry_of<T>(t: (&T, u64, u64)) -> Entry<T> {
    Entry { item: *t.0, count: t.1, sequence: t.2 as nat }
}

spec fn entries_of<T>(items: Seq<(&T, u64, u64)>) -> Seq<Entry<T>> {
    Seq::new(items.len(), |i: int| entry_of(items[i]))
}

/// Hands out items and counts and leaves the sequence numbers behind.
fn without_sequence<T>(items: Vec<(&T, u64, u64)>) -> (out: std::vec::IntoIter<(&T, u64)>)
    ensures
        out.remaining() == listed(entries_of(items@)),
{
    let mut pairs: Vec<(&T, u64)> = Vec::with_capacity(items.len());
    let mut i: usize = 0;
    while i < items.len()
        invariant
            i <= items@.len(),
            pairs@.len() == i,
            forall|j: int| 0 <= j < i ==> #[trigger] pairs@[j] == (items@[j].0, items@[j].1),
        decreases items@.len() - i,
    {
        pairs.push((items[i].0, items[i].1));
        i = i + 1;
    }
    assert(pairs@ =~= listed(entries_of(items@)));
    pairs.into_iter()
}

} // verus!
