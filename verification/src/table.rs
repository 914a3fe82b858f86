//! The hash table that finds a slot by the hash of its item.
use crate::calls::{outcome_of, outcome_of_three};
use hashbrown::HashTable;
use vstd::multiset::Multiset;
use vstd::prelude::*;

verus! {

/// A [`hashbrown::HashTable`] of slot numbers.
///
/// The table does not compute hashes: each number is filed under the hash that
/// came with it.
#[verifier::external_body]
pub struct SlotTable {
    table: HashTable<u32>,
}

/// The slot numbers that a table holds, each with the hash that it is filed
/// under.
pub uninterp spec fn table_entries(table: SlotTable) -> Multiset<(u64, u32)>;

/// The largest capacity that a table of `u32` can be made for: with a seventh
/// added and rounded up to a power of two, five bytes a bucket still fit in
/// `isize::MAX` bytes.
pub open spec fn table_limit() -> int {
    7 * ((usize::MAX + 1) / 128)
}

/// What knows the hashes of slot numbers.
pub trait SlotHash {
    /// Whether the hash of this slot number is known.
    spec fn knows(&self, slot: u32) -> bool;

    /// The hash of a slot number.
    spec fn hash_of(&self, slot: u32) -> u64;

    /// The hash of a slot number.
    fn slot_hash(&self, slot: &u32) -> (hash: u64)
        requires
            self.knows(*slot),
        ensures
            hash == self.hash_of(*slot),
    ;
}

/// `hashes` knows every slot number that the table holds, with the hash that the
/// number is filed under.
pub open spec fn rehashes<S: SlotHash>(table: SlotTable, hashes: S) -> bool {
    forall|h: u64, slot: u32| #[trigger]
        table_entries(table).count((h, slot)) > 0 ==> hashes.knows(slot) && hashes.hash_of(slot)
            == h
}

/// `eq` can be asked for every slot number that the table holds.
pub open spec fn asks<F: Fn(&u32) -> bool>(table: SlotTable, eq: F) -> bool {
    forall|h: u64, slot: u32| #[trigger]
        table_entries(table).count((h, slot)) > 0 ==> call_requires(eq, (&slot,))
}

/// `eq` turned down every slot number that is filed under `hash`.
pub open spec fn none_matches<F: Fn(&u32) -> bool>(table: SlotTable, hash: u64, eq: F) -> bool {
    forall|slot: u32| #[trigger]
        table_entries(table).count((hash, slot)) > 0 ==> call_ensures(eq, (&slot,), false)
}

impl SlotTable {
    /// [`HashTable::with_capacity`] makes an empty table. It panics where the
    /// buckets for `capacity` numbers would be larger than an allocation may be.
    #[verifier::external_body]
    pub(crate) fn with_capacity(capacity: usize) -> (table: Self)
        requires
            capacity <= table_limit(),
        ensures
            table_entries(table) == Multiset::<(u64, u32)>::empty(),
    {
        SlotTable { table: HashTable::with_capacity(capacity) }
    }

    /// The table was made for `capacity` numbers.
    pub closed spec fn made_for(self, capacity: usize) -> bool {
        call_ensures(Self::with_capacity, (capacity,), self)
    }

    /// Makes an empty table for `capacity` numbers.
    pub(crate) fn for_capacity(capacity: usize) -> (table: Self)
        requires
            capacity <= table_limit(),
        ensures
            table_entries(table) == Multiset::<(u64, u32)>::empty(),
            table.made_for(capacity),
    {
        outcome_of(Self::with_capacity, capacity)
    }

    /// [`HashTable::find`] asks `eq` about every number that is filed under `hash`,
    /// and perhaps about others, until it says yes. What it says yes to is found;
    /// where nothing is found it said no to all that are filed under `hash`.
    #[verifier::external_body]
    pub(crate) fn find<F: Fn(&u32) -> bool>(&self, hash: u64, eq: F) -> (found: Option<u32>)
        requires
            asks(*self, eq),
        ensures
            match found {
                Some(slot) => {
                    &&& exists|h: u64| #[trigger] table_entries(*self).count((h, slot)) > 0
                    &&& call_ensures(eq, (&slot,), true)
                },
                None => none_matches(*self, hash, eq),
            },
    {
        self.table.find(hash, eq).copied()
    }

    /// [`HashTable::insert_unique`] files `slot` under `hash`, beside what the table
    /// holds. Where the table has no free bucket it files what it holds anew, by
    /// `hashes`, with room for twice as much at most; it panics where that would
    /// be larger than an allocation may be.
    #[verifier::external_body]
    pub(crate) fn insert_unique<S: SlotHash>(&mut self, hash: u64, slot: u32, hashes: &S)
        requires
            rehashes(*old(self), *hashes),
            2 * (table_entries(*old(self)).len() + 1) <= table_limit(),
        ensures
            table_entries(*final(self)) == table_entries(*old(self)).insert((hash, slot)),
    {
        self.table.insert_unique(hash, slot, |s| hashes.slot_hash(s));
    }

    /// [`HashTable::find_entry`] searches as [`HashTable::find`] does, and
    /// [`OccupiedEntry::remove`](hashbrown::hash_table::OccupiedEntry::remove) takes
    /// the entry that was found out of the table. Where nothing is found the table
    /// keeps what it holds.
    #[verifier::external_body]
    pub(crate) fn remove<F: Fn(&u32) -> bool>(&mut self, hash: u64, eq: F) -> (removed: Option<u32>)
        requires
            asks(*old(self), eq),
        ensures
            match removed {
                Some(slot) => {
                    &&& call_ensures(eq, (&slot,), true)
                    &&& exists|h: u64|
                        {
                            &&& #[trigger] table_entries(*old(self)).count((h, slot)) > 0
                            &&& table_entries(*final(self)) == table_entries(*old(self)).remove(
                                (h, slot),
                            )
                        }
                },
                None => {
                    &&& none_matches(*old(self), hash, eq)
                    &&& table_entries(*final(self)) == table_entries(*old(self))
                },
            },
    {
        match self.table.find_entry(hash, eq) {
            Ok(entry) => Some(entry.remove().0),
            Err(_) => None,
        }
    }

    /// [`HashTable::shrink_to`] gives up room beyond `capacity` and keeps what the
    /// table holds, filed anew by `hashes` where it has to move. A table with less
    /// room than that is left as it is. How much room the table then has follows
    /// from what it has allocated, and is not said.
    #[verifier::external_body]
    pub(crate) fn shrink_to<S: SlotHash>(&mut self, capacity: usize, hashes: &S)
        requires
            rehashes(*old(self), *hashes),
        ensures
            table_entries(*final(self)) == table_entries(*old(self)),
    {
        self.table.shrink_to(capacity, |s| hashes.slot_hash(s));
    }

    /// The table behind `table` gives up its room beyond `capacity` numbers.
    pub closed spec fn shrinks<S: SlotHash>(table: &mut Self, capacity: usize, hashes: &S) -> bool {
        call_ensures(Self::shrink_to::<S>, (table, capacity, hashes), ())
    }

    /// Gives up room beyond `capacity` numbers.
    pub(crate) fn shrink<S: SlotHash>(&mut self, capacity: usize, hashes: &S)
        requires
            rehashes(*old(self), *hashes),
        ensures
            table_entries(*final(self)) == table_entries(*old(self)),
            exists|table: &mut Self| #[trigger]
                Self::shrinks(table, capacity, hashes) && *table == *old(self) && *final(table)
                    == *final(self),
    {
        outcome_of_three(Self::shrink_to::<S>, self, capacity, hashes);
        proof {
            let table = choose|table: &mut Self| #[trigger]
                call_ensures(Self::shrink_to::<S>, (table, capacity, hashes), ()) && *table
                    == *old(self) && *final(table) == *self;
            assert(Self::shrinks(table, capacity, hashes));
        }
    }

    /// [`HashTable::allocation_size`]: the bytes that the table has allocated, which
    /// is no more than an allocation may be. How many there are follows from what
    /// the table went through, and is not said.
    #[verifier::external_body]
    pub(crate) fn allocation_size(&self) -> (bytes: usize)
        ensures
            bytes <= isize::MAX,
    {
        self.table.allocation_size()
    }

    /// `bytes` is what the table says it has allocated.
    pub closed spec fn takes(self, bytes: usize) -> bool {
        call_ensures(Self::allocation_size, (&self,), bytes)
    }

    /// The bytes that the table has allocated.
    pub(crate) fn size(&self) -> (bytes: usize)
        ensures
            bytes <= isize::MAX,
            self.takes(bytes),
    {
        outcome_of(Self::allocation_size, self)
    }
}

impl Clone for SlotTable {
    /// The [`Clone`] of [`HashTable`] copies what the table holds, filed under the
    /// same hashes.
    #[verifier::external_body]
    fn clone(&self) -> (copy: Self)
        ensures
            table_entries(copy) == table_entries(*self),
    {
        SlotTable { table: self.table.clone() }
    }
}

/// What a table is said to be made for, to take, or to give up came of the call that
/// does it, and its size is what it answered.
pub(crate) proof fn law_table_records_are_calls<S: SlotHash>(
    table: SlotTable,
    behind: &mut SlotTable,
    capacity: usize,
    hashes: &S,
    bytes: usize,
)
    ensures
        table.made_for(capacity) ==> call_ensures(SlotTable::with_capacity, (capacity,), table),
        table.takes(bytes) ==> call_ensures(SlotTable::allocation_size, (&table,), bytes),
        SlotTable::shrinks(behind, capacity, hashes) ==> call_ensures(
            SlotTable::shrink_to::<S>,
            (behind, capacity, hashes),
            (),
        ),
        call_ensures(SlotTable::size, (&table,), bytes) ==> call_ensures(
            SlotTable::allocation_size,
            (&table,),
            bytes,
        ),
{
}

} // verus!
