use heavykeeper::priority_queue::{Slot, TopKQueue};
use heavykeeper::realloc::{realloc_vec, Reallocator};
use heavykeeper::sip::SipState;
use heavykeeper::small_key::SmallKey;

#[test]
fn test_basic_insertion() {
    let mut queue = TopKQueue::<_, u64>::with_capacity(2);
    queue.upsert("a", 1);
    queue.upsert("b", 2);

    let items: Vec<_> = queue.iter().collect();
    assert_eq!(items, vec![(&"b", 2), (&"a", 1)]);
}

#[test]
fn test_update_existing() {
    let mut queue = TopKQueue::<_, u64>::with_capacity_and_hasher(2, SipState::random());
    queue.upsert("a", 1);
    queue.upsert("b", 2);
    queue.upsert("a", 3); // Update a's count

    let items: Vec<_> = queue.iter().collect();
    assert_eq!(items, vec![(&"a", 3), (&"b", 2)]);
}

#[test]
fn test_heap_cleanup() {
    let mut queue = TopKQueue::<_, u64>::with_capacity_and_hasher(2, SipState::random());

    // Insert initial items
    queue.upsert("a", 1);
    queue.upsert("b", 2);

    // Update 'a' multiple times
    queue.upsert("a", 3);
    queue.upsert("a", 4);
    queue.upsert("a", 5);

    // Insert new item with higher count
    queue.upsert("c", 6);

    // Check heap size vs items size
    assert_eq!(queue.heap_counts().len(), 2, "Expected 2 items");

    let items: Vec<_> = queue.iter().collect();
    assert_eq!(items, vec![(&"c", 6), (&"a", 5)]);
}

#[test]
fn test_insertion_order() {
    let mut queue = TopKQueue::<_, u64>::with_capacity_and_hasher(3, SipState::random());

    // Insert items with same count in specific order
    queue.upsert("a", 1);
    queue.upsert("b", 1);
    queue.upsert("c", 1);

    let items: Vec<_> = queue.iter().collect();
    assert_eq!(items, vec![(&"a", 1), (&"b", 1), (&"c", 1)]);
}

#[test]
fn test_heap_consistency() {
    let mut queue = TopKQueue::<_, u64>::with_capacity_and_hasher(2, SipState::random());

    // Fill queue
    queue.upsert("a", 1);
    queue.upsert("b", 2);

    // Update existing item multiple times
    for i in 3..10 {
        queue.upsert("a", i);
    }

    // Try to insert new item
    queue.upsert("c", 5);

    // Verify min_count is accurate
    assert_eq!(queue.min_count(), 5);
}

#[test]
fn test_capacity_overflow() {
    let mut queue = TopKQueue::<_, u64>::with_capacity_and_hasher(2, SipState::random());

    // Insert more items than capacity
    queue.upsert("a", 1);
    queue.upsert("b", 2);
    queue.upsert("c", 3);
    queue.upsert("d", 4);
    queue.upsert("e", 5);

    assert_eq!(queue.len(), 2, "Queue should maintain capacity");

    let items: Vec<_> = queue.iter().collect();
    assert_eq!(items, vec![(&"e", 5), (&"d", 4)]);
}

#[test]
fn test_upsert_returns_evicted_item() {
    // The displaced item is reported and lookups stay consistent afterwards.
    let mut queue = TopKQueue::<_, u64>::with_capacity_and_hasher(2, SipState::random());
    assert_eq!(queue.upsert("a", 1), None);
    assert_eq!(queue.upsert("b", 2), None);
    // Full queue, does not beat the min: rejected, nothing evicted.
    assert_eq!(queue.upsert("c", 1), None);
    // Full queue, beats the min: "a" is displaced and returned.
    assert_eq!(queue.upsert("c", 3), Some("a"));
    assert!(!queue.contains(&"a"));
    assert_eq!(queue.get(&"c"), Some(3));
    assert_eq!(queue.get(&"b"), Some(2));
}

// A `u32` counter width saturates on the way in and keeps ordering consistent
// with the saturated value; the slot is 32 bytes for a `Box<[u8]>` key (16-byte
// fat pointer + u32 count + u64 sequence + u32 heap_pos).
#[test]
fn test_u32_counter_saturates_and_slot_layout() {
    let mut queue: TopKQueue<Box<[u8]>, u32> =
        TopKQueue::with_capacity_and_hasher(2, SipState::with_seed(1));
    queue.upsert(Box::from(&b"a"[..]), 10);
    queue.upsert(Box::from(&b"b"[..]), u64::MAX);
    assert_eq!(queue.get(&b"b"[..]), Some(u32::MAX as u64));
    // Raising past the cap is a no-op, and a same-as-cap update is too.
    assert!(queue.update_if_present(&b"b"[..], u64::MAX - 1));
    assert_eq!(queue.get(&b"b"[..]), Some(u32::MAX as u64));
    assert_eq!(queue.min_count(), 10);
    // A count that saturates to the current min does not displace it.
    assert_eq!(queue.upsert(Box::from(&b"c"[..]), 10), None);
    assert_eq!(
        queue.upsert(Box::from(&b"c"[..]), 11),
        Some(Box::from(&b"a"[..]))
    );

    assert_eq!(std::mem::size_of::<Slot<Box<[u8]>, u32>>(), 32);
    assert_eq!(std::mem::size_of::<Slot<Vec<u8>, u64>>(), 48);
}

#[test]
fn test_repeated_updates() {
    let mut queue = TopKQueue::<_, u64>::with_capacity_and_hasher(2, SipState::random());

    // Insert and update same item repeatedly
    for i in 1..100 {
        queue.upsert("a", i);
    }

    queue.upsert("b", 50);

    assert_eq!(queue.len(), 2);

    let items: Vec<_> = queue.iter().collect();
    assert_eq!(items, vec![(&"a", 99), (&"b", 50)]);
}

#[test]
fn test_heap_property() {
    let mut queue = TopKQueue::<_, u64>::with_capacity_and_hasher(10, SipState::random());

    // Insert in reverse order to test heap maintenance
    for i in (0..=10).rev() {
        queue.upsert(format!("item{}", i), i as u64);
    }

    // Verify heap property: parent should be <= children for min-heap
    let counts = queue.heap_counts();
    for i in 1..counts.len() {
        let parent_idx = TopKQueue::<String, u64>::parent(i);
        let parent_count = counts[parent_idx];
        let child_count = counts[i];
        assert!(
            parent_count <= child_count,
            "Heap property violated: parent count {} at index {} is greater than child count {} at index {}",
            parent_count,
            parent_idx,
            child_count,
            i
        );
    }

    // Verify items are stored in descending order (highest counts first)
    let items: Vec<_> = queue.iter().collect();
    for i in 0..items.len() - 1 {
        assert!(
            items[i].1 >= items[i + 1].1,
            "Items not properly ordered by count: {} before {}",
            items[i].1,
            items[i + 1].1
        );
    }
}

// Evict/insert churn at a constant live count must not grow the lookup table:
// hashbrown leaves tombstones on remove and would otherwise double the allocation
// once they exhaust the growth budget.
#[test]
fn test_table_footprint_is_fixed_under_churn() {
    for k in [10usize, 100, 1000] {
        let mut queue: TopKQueue<Vec<u8>> =
            TopKQueue::<_, u64>::with_capacity_and_hasher(k, SipState::with_seed(7));
        for i in 0..k {
            queue.upsert(format!("seed-{i}").into_bytes(), 1_000);
        }
        // The vectors keep the room that they were made with, so what is left to
        // vary is the table.
        let table_bytes = queue.mem_bytes(|_| 0).unwrap();

        // Every insert beats the current min, so each one evicts exactly one.
        for r in 0..5000u64 {
            assert!(queue
                .upsert(format!("hot-{r}").into_bytes(), 2_000 + r)
                .is_some());
        }
        assert_eq!(
            queue.mem_bytes(|_| 0).unwrap(),
            table_bytes,
            "k={k}: table grew under churn"
        );
        // Lookups still work after the rebuilds.
        assert!(queue.contains(b"hot-4999".as_slice()));
        assert!(!queue.contains(b"seed-0".as_slice()));
    }
}

#[test]
fn a_queue_without_room_tracks_nothing() {
    let mut queue = TopKQueue::<&str>::with_capacity(0);
    assert!(queue.is_full());
    assert_eq!(queue.upsert("a", 9), None);
    assert_eq!(queue.len(), 0);
    assert_eq!(queue.min_count(), 0);
    assert!(!queue.contains(&"a"));
    assert_eq!(queue.iter().count(), 0);
}

#[test]
fn raising_keeps_the_high_water_mark() {
    let mut queue = TopKQueue::<&str>::with_capacity(3);
    queue.upsert("a", 5);
    queue.upsert("b", 7);
    queue.upsert("c", 6);
    assert!(queue.update_if_present(&"a", 4));
    assert_eq!(queue.get(&"a"), Some(5));
    assert!(queue.update_if_present(&"a", 9));
    assert_eq!(queue.get(&"a"), Some(9));
    assert_eq!(queue.min_count(), 6);
    assert!(!queue.update_if_present(&"d", 100));
    assert_eq!(queue.get(&"d"), None);
    // An upsert, on the other hand, lowers a count.
    assert_eq!(queue.upsert("a", 1), None);
    assert_eq!(queue.min_count(), 1);
    let items: Vec<_> = queue.iter().collect();
    assert_eq!(items, vec![(&"b", 7), (&"c", 6), (&"a", 1)]);
}

#[test]
fn the_oldest_of_the_smallest_is_evicted() {
    let mut queue = TopKQueue::<&str>::with_capacity(3);
    queue.upsert("a", 1);
    queue.upsert("b", 1);
    queue.upsert("c", 1);
    assert_eq!(queue.upsert("d", 1), None);
    assert!(!queue.contains(&"d"));
    assert_eq!(queue.upsert("d", 2), Some("a"));
    assert_eq!(queue.upsert("e", 2), Some("b"));
    assert_eq!(queue.upsert("f", 2), Some("c"));
    assert_eq!(queue.upsert("g", 2), None);
    let items: Vec<_> = queue.iter().collect();
    assert_eq!(items, vec![(&"d", 2), (&"e", 2), (&"f", 2)]);
    assert_eq!(queue.min_count(), 2);
}

#[test]
fn the_floor_of_a_full_queue_never_drops() {
    let mut queue: TopKQueue<u64> = TopKQueue::with_capacity(4);
    for key in 0..4u64 {
        queue.upsert(key, 10 + key);
    }
    let mut floor = queue.min_count();
    assert_eq!(floor, 10);
    for key in 4..200u64 {
        queue.upsert(key, (key * 29) % 97);
        assert!(queue.is_full());
        assert!(queue.min_count() >= floor);
        floor = queue.min_count();
    }
    assert_eq!(floor, 95);
}

#[test]
fn a_second_equal_offer_changes_nothing() {
    let mut queue = TopKQueue::<&str>::with_capacity(2);
    queue.upsert("a", 3);
    queue.upsert("b", 3);
    queue.upsert("c", 4);
    let before: Vec<(&str, u64)> = queue.iter().map(|(k, c)| (*k, c)).collect();
    assert_eq!(queue.upsert("c", 4), None);
    let after: Vec<(&str, u64)> = queue.iter().map(|(k, c)| (*k, c)).collect();
    assert_eq!(before, after);
    assert_eq!(after, vec![("c", 4), ("b", 3)]);
}

// Counts of a fixed pseudo-random run against a plain model of the queue.
#[test]
fn agrees_with_a_plain_model() {
    let mut state: u64 = 0x9E37_79B9_7F4A_7C15;
    let mut next = move || {
        state ^= state << 13;
        state ^= state >> 7;
        state ^= state << 17;
        state
    };
    for capacity in [1usize, 2, 5, 16] {
        let mut queue: TopKQueue<u64> =
            TopKQueue::with_capacity_and_hasher(capacity, SipState::with_seed(capacity as u64));
        let mut model: Vec<(u64, u64, u64)> = Vec::new();
        let mut sequence: u64 = 0;
        for _ in 0..3000 {
            let key = next() % 40;
            let count = next() % 50;
            if next() % 3 == 0 {
                let slot = model.iter_mut().find(|e| e.0 == key);
                assert_eq!(queue.update_if_present(&key, count), slot.is_some());
                if let Some(entry) = slot {
                    entry.1 = entry.1.max(count);
                }
            } else {
                let mut expected = None;
                if let Some(entry) = model.iter_mut().find(|e| e.0 == key) {
                    entry.1 = count;
                } else if model.len() < capacity {
                    sequence += 1;
                    model.push((key, count, sequence));
                } else {
                    let at = (0..model.len())
                        .min_by_key(|&i| (model[i].1, model[i].2))
                        .unwrap();
                    if count > model[at].1 {
                        sequence += 1;
                        expected = Some(model[at].0);
                        model[at] = (key, count, sequence);
                    }
                }
                assert_eq!(queue.upsert(key, count), expected);
            }
            assert_eq!(queue.len(), model.len());
            assert_eq!(queue.is_full(), model.len() == capacity);
            assert_eq!(queue.min_count(), model.iter().map(|e| e.1).min().unwrap_or(0));
            assert_eq!(queue.get(&key), model.iter().find(|e| e.0 == key).map(|e| e.1));
        }
        let mut ranked = model.clone();
        ranked.sort_by_key(|e| (u64::MAX - e.1, e.2));
        let listed: Vec<(u64, u64)> = queue.iter().map(|(k, c)| (*k, c)).collect();
        assert_eq!(listed, ranked.iter().map(|e| (e.0, e.1)).collect::<Vec<_>>());
        let mut aged = model.clone();
        aged.sort_by_key(|e| e.2);
        let listed: Vec<(u64, u64)> = queue.iter_by_sequence().map(|(k, c)| (*k, c)).collect();
        assert_eq!(listed, aged.iter().map(|e| (e.0, e.1)).collect::<Vec<_>>());
    }
}

// Restoring from the order of insertion keeps the order of ties.
#[test]
fn restoring_by_sequence_keeps_the_listing() {
    let mut queue: TopKQueue<String> =
        TopKQueue::with_capacity_and_hasher(6, SipState::with_seed(4));
    for i in 0..40u64 {
        queue.upsert(format!("k{}", (i * 7) % 11), i % 5);
    }
    let mut restored: TopKQueue<String> =
        TopKQueue::with_capacity_and_hasher(6, SipState::with_seed(5));
    for (item, count) in queue.iter_by_sequence() {
        assert_eq!(restored.upsert(item.clone(), count), None);
    }
    let a: Vec<_> = queue.iter().collect();
    let b: Vec<_> = restored.iter().collect();
    assert_eq!(a, b);
    assert_eq!(a.len(), 6);
    assert_eq!(
        queue.upsert("newcomer".to_string(), 100),
        restored.upsert("newcomer".to_string(), 100)
    );
}

#[test]
fn the_heaviest_of_distinct_items_stay() {
    let mut queue: TopKQueue<u64> = TopKQueue::with_capacity(5);
    let counts: Vec<u64> = (0..50u64).map(|i| (i * 37) % 101).collect();
    for (i, &count) in counts.iter().enumerate() {
        queue.upsert(i as u64, count);
    }
    let mut expected = counts.clone();
    expected.sort_unstable_by(|a, b| b.cmp(a));
    let kept: Vec<u64> = queue.iter().map(|(_, c)| c).collect();
    assert_eq!(kept, expected[..5].to_vec());
}

#[test]
fn small_keys_are_found_by_slices() {
    let mut queue: TopKQueue<SmallKey> = TopKQueue::with_capacity(3);
    queue.upsert(SmallKey::new(b"short"), 3);
    queue.upsert(SmallKey::new(b"a key that is spilled to the heap"), 4);
    assert_eq!(queue.get(b"short".as_slice()), Some(3));
    assert_eq!(queue.get(b"a key that is spilled to the heap".as_slice()), Some(4));
    assert_eq!(queue.get(&SmallKey::new(b"short")), Some(3));
    assert!(queue.update_if_present(b"short".as_slice(), 8));
    assert!(!queue.contains(b"shor".as_slice()));
    assert_eq!(queue.min_count(), 4);
    let base = queue.mem_bytes(|_| 0).unwrap();
    assert_eq!(queue.mem_bytes(|k| k.heap_bytes()), Some(base + 33));
    assert!(base >= 3 * (std::mem::size_of::<Slot<SmallKey, u64>>() + 4));
    assert_eq!(queue.mem_bytes(|_| usize::MAX), None);
}

#[test]
fn texts_are_found_by_texts() {
    let mut queue: TopKQueue<String> = TopKQueue::with_capacity(2);
    queue.upsert("grüße".to_string(), 3);
    assert_eq!(queue.get("grüße"), Some(3));
    assert_eq!(queue.get(&"grüße".to_string()), Some(3));
    assert_eq!(queue.get("grüss"), None);
    let mut borrowed: TopKQueue<&str> = TopKQueue::with_capacity(2);
    borrowed.upsert("x", 1);
    assert_eq!(borrowed.get("x"), Some(1));
    assert_eq!(borrowed.get(&"x"), Some(1));
    let mut slices: TopKQueue<&[u8]> = TopKQueue::with_capacity(2);
    slices.upsert(&b"ab"[..], 1);
    assert_eq!(slices.get(&b"ab"[..]), Some(1));
    assert_eq!(slices.get(&b"ac"[..]), None);
}

#[test]
fn a_clone_is_a_queue_of_its_own() {
    let mut queue: TopKQueue<String, u32> =
        TopKQueue::with_capacity_and_hasher(3, SipState::with_seed(2));
    for (name, count) in [("a", 4u64), ("b", 2), ("c", 3), ("d", 5)] {
        queue.upsert(name.to_string(), count);
    }
    let mut copy = queue.clone();
    let a: Vec<_> = queue.iter().collect();
    let b: Vec<_> = copy.iter().collect();
    assert_eq!(a, b);
    assert_eq!(copy.upsert("e".to_string(), 9), Some("c".to_string()));
    assert!(copy.contains("e"));
    assert!(!queue.contains("e"));
    assert!(queue.contains("c"));
}

/// Moves every element to a freshly allocated block.
struct Mover {
    blocks: usize,
    elements: usize,
}

impl Reallocator for Mover {
    fn relocate<E>(&mut self, block: Box<[E]>) -> Box<[E]> {
        self.blocks += 1;
        self.elements += block.len();
        let mut fresh: Vec<E> = Vec::with_capacity(block.len());
        fresh.extend(block.into_vec());
        fresh.into_boxed_slice()
    }
}

#[test]
fn relocation_keeps_the_queue() {
    let mut queue: TopKQueue<String> =
        TopKQueue::with_capacity_and_hasher(8, SipState::with_seed(6));
    for i in 0..5u64 {
        queue.upsert(format!("k{i}"), 10 - i);
    }
    let full_room = queue.mem_bytes(|_| 0).unwrap();
    let before: Vec<(String, u64)> = queue.iter().map(|(k, c)| (k.clone(), c)).collect();
    let mut mover = Mover { blocks: 0, elements: 0 };
    queue.realloc_large_heap_allocated_objects(&mut mover);
    assert_eq!((mover.blocks, mover.elements), (2, 10));
    let after: Vec<(String, u64)> = queue.iter().map(|(k, c)| (k.clone(), c)).collect();
    assert_eq!(before, after);
    assert!(queue.mem_bytes(|_| 0).unwrap() < full_room);
    // The next insertion brings the room back.
    queue.upsert("one more".to_string(), 1);
    assert_eq!(queue.mem_bytes(|_| 0), Some(full_room));
    assert_eq!(queue.get("one more"), Some(1));
}

#[test]
fn a_relocated_vector_has_no_spare_room() {
    let mut vec: Vec<u32> = Vec::with_capacity(64);
    vec.extend([3, 1, 2]);
    realloc_vec(&mut vec, &mut Mover { blocks: 0, elements: 0 });
    assert_eq!(vec, vec![3, 1, 2]);
    assert_eq!(vec.capacity(), 3);
}

#[test]
fn only_what_fits_in_memory_can_be_held() {
    assert!(TopKQueue::<u64, u64>::can_hold(0));
    assert!(TopKQueue::<u64, u64>::can_hold(1_000_000));
    assert!(!TopKQueue::<u64, u64>::can_hold(usize::MAX));
    // The slots of the largest queue fill what an allocation may have.
    let most = isize::MAX as usize / std::mem::size_of::<Slot<u64, u64>>();
    assert!(TopKQueue::<u64, u64>::can_hold(most));
    assert!(!TopKQueue::<u64, u64>::can_hold(most + 1));
}

#[test]
fn a_clone_takes_room_for_what_it_holds() {
    let mut queue = TopKQueue::<u64, u64>::with_capacity_and_hasher(1000, SipState::with_seed(1));
    for i in 0..10u64 {
        queue.upsert(i, i);
    }
    let copy = queue.clone();
    let all = queue.mem_bytes(|_| 0).unwrap();
    let held = copy.mem_bytes(|_| 0).unwrap();
    let slot = std::mem::size_of::<Slot<u64, u64>>();
    assert_eq!(all - held, (1000 - 10) * (slot + 4));
}

#[test]
fn what_items_own_is_counted_once() {
    let mut queue = TopKQueue::<u64, u64>::with_capacity_and_hasher(4, SipState::with_seed(1));
    for i in 0..9u64 {
        queue.upsert(i, i);
    }
    let containers = queue.mem_bytes(|_| 0).unwrap();
    // The items 5, 6, 7 and 8 are left.
    assert_eq!(queue.mem_bytes(|i| *i as usize), Some(containers + 5 + 6 + 7 + 8));
    assert_eq!(queue.mem_bytes(|_| usize::MAX), None);
}

fn pseudo_random(state: &mut u64) -> u64 {
    *state = state.wrapping_mul(6364136223846793005).wrapping_add(1442695040888963407);
    *state >> 33
}

#[test]
fn the_hasher_shows_nowhere() {
    let mut a = TopKQueue::<u64, u32>::with_capacity_and_hasher(5, SipState::with_seed(1));
    let mut b = TopKQueue::<u64, u32>::with_capacity_and_hasher(5, SipState::with_seed(2));
    let mut state = 3u64;
    for _ in 0..2000 {
        let key = pseudo_random(&mut state) % 12;
        let count = pseudo_random(&mut state) % 20;
        if pseudo_random(&mut state) % 3 == 0 {
            assert_eq!(a.update_if_present(&key, count), b.update_if_present(&key, count));
        } else {
            assert_eq!(a.upsert(key, count), b.upsert(key, count));
        }
        assert_eq!(a.len(), b.len());
        assert_eq!(a.min_count(), b.min_count());
        assert!(a.iter().eq(b.iter()));
        assert!(a.iter_by_sequence().eq(b.iter_by_sequence()));
    }
}

#[test]
fn a_restored_queue_goes_on_alike() {
    let mut queue = TopKQueue::<u64, u64>::with_capacity_and_hasher(6, SipState::with_seed(4));
    let mut state = 5u64;
    for _ in 0..100 {
        queue.upsert(pseudo_random(&mut state) % 30, pseudo_random(&mut state) % 5);
    }
    let mut restored = TopKQueue::<u64, u64>::with_capacity_and_hasher(6, SipState::with_seed(6));
    for (key, count) in queue.iter_by_sequence() {
        assert_eq!(restored.upsert(*key, count), None);
    }
    for _ in 0..500 {
        assert!(queue.iter().eq(restored.iter()));
        assert!(queue.iter_by_sequence().eq(restored.iter_by_sequence()));
        let key = pseudo_random(&mut state) % 30;
        let count = pseudo_random(&mut state) % 9;
        if count == 8 {
            assert_eq!(
                queue.update_if_present(&key, 3),
                restored.update_if_present(&key, 3)
            );
        } else {
            assert_eq!(queue.upsert(key, count), restored.upsert(key, count));
        }
    }
}

#[test]
fn a_full_queue_stays_full() {
    let mut queue = TopKQueue::<u64, u64>::with_capacity_and_hasher(3, SipState::with_seed(7));
    for i in 0..3u64 {
        assert!(!queue.is_full());
        queue.upsert(i, i);
    }
    for i in 0..50u64 {
        assert!(queue.is_full());
        assert_eq!(queue.len(), 3);
        queue.upsert(i, i % 7);
        queue.update_if_present(&(i / 2), i);
    }
}

#[test]
fn listings_and_lookups_agree_after_any_calls() {
    let mut queue = TopKQueue::<u64, u32>::with_capacity_and_hasher(4, SipState::with_seed(8));
    let mut state = 9u64;
    for _ in 0..500 {
        let key = pseudo_random(&mut state) % 9;
        let count = pseudo_random(&mut state) % 6;
        if count == 5 {
            queue.update_if_present(&key, u64::MAX);
        } else {
            queue.upsert(key, count);
        }
        let listed: Vec<(u64, u64)> = queue.iter().map(|(k, c)| (*k, c)).collect();
        assert_eq!(listed.len(), queue.len());
        assert!(queue.len() <= 4);
        for (i, (key, count)) in listed.iter().enumerate() {
            assert_eq!(queue.get(key), Some(*count));
            assert!(*count >= queue.min_count() && *count <= u32::MAX as u64);
            assert!(listed[..i].iter().all(|(other, _)| other != key));
        }
    }
}

#[test]
fn saturated_counts_keep_the_first_comers() {
    let mut queue = TopKQueue::<u64, u32>::with_capacity_and_hasher(2, SipState::with_seed(10));
    queue.upsert(1, u32::MAX as u64);
    queue.upsert(2, u32::MAX as u64 + 1);
    assert_eq!(queue.upsert(3, u64::MAX), None);
    let max = u32::MAX as u64;
    assert_eq!(queue.iter().collect::<Vec<_>>(), vec![(&1, max), (&2, max)]);
}

#[test]
fn many_types_can_be_tracked() {
    let mut pairs = TopKQueue::<(u8, i16), u64>::with_capacity(2);
    pairs.upsert((1, -1), 5);
    pairs.upsert((2, -2), 6);
    assert_eq!(pairs.upsert((3, -3), 7), Some((1, -1)));
    assert_eq!(pairs.get(&(3, -3)), Some(7));
    assert_eq!(pairs.get(&(3, 3)), None);

    let mut addresses = TopKQueue::<[u8; 4], u32>::with_capacity(2);
    addresses.upsert([127, 0, 0, 1], 9);
    assert_eq!(addresses.get(&[127, 0, 0, 1]), Some(9));
    assert_eq!(addresses.get([127u8, 0, 0, 1].as_slice()), Some(9));
    assert_eq!(addresses.get([127u8, 0, 0].as_slice()), None);

    let mut letters = TopKQueue::<char, u64>::with_capacity(2);
    letters.upsert('x', 1);
    assert!(letters.contains(&'x') && !letters.contains(&'y'));

    let mut flags = TopKQueue::<bool, u64>::with_capacity(2);
    flags.upsert(true, 1);
    assert!(flags.contains(&true) && !flags.contains(&false));

    let mut numbers = TopKQueue::<i128, u64>::with_capacity(2);
    numbers.upsert(-1, 1);
    assert!(numbers.contains(&-1) && !numbers.contains(&i128::MAX));

    let mut boxes = TopKQueue::<Box<str>, u64>::with_capacity(2);
    boxes.upsert("boxed".into(), 1);
    assert!(boxes.contains("boxed") && !boxes.contains("box"));
}

#[test]
fn a_queue_restored_from_clones_goes_on_alike() {
    let mut queue = TopKQueue::<SmallKey, u64>::with_capacity_and_hasher(4, SipState::with_seed(1));
    let mut state = 2u64;
    for _ in 0..60 {
        let len = pseudo_random(&mut state) as usize % 20;
        queue.upsert(SmallKey::new(&vec![b'k'; len]), pseudo_random(&mut state) % 6);
    }
    let mut restored =
        TopKQueue::<SmallKey, u64>::with_capacity_and_hasher(4, SipState::with_seed(3));
    for (key, count) in queue.iter_by_sequence() {
        assert_eq!(restored.upsert(key.clone(), count), None);
    }
    let mut copy = queue.clone();
    for _ in 0..200 {
        assert!(queue.iter().eq(restored.iter()) && queue.iter().eq(copy.iter()));
        assert!(queue.iter_by_sequence().eq(restored.iter_by_sequence()));
        let len = pseudo_random(&mut state) as usize % 20;
        let key = SmallKey::new(&vec![b'k'; len]);
        let count = pseudo_random(&mut state) % 9;
        let evicted = queue.upsert(key.clone(), count);
        assert_eq!(restored.upsert(key.clone(), count), evicted);
        assert_eq!(copy.upsert(key, count), evicted);
    }
}

/// Keeps the blocks where they are, and notes how large each is.
struct Ledger {
    bytes: Vec<usize>,
    places: Vec<usize>,
}

impl Reallocator for Ledger {
    fn relocate<E>(&mut self, block: Box<[E]>) -> Box<[E]> {
        self.bytes.push(std::mem::size_of_val(&*block));
        self.places.push(block.len());
        block
    }
}

#[test]
fn the_heap_and_then_the_slots_are_relocated() {
    let mut queue =
        TopKQueue::<Box<[u8]>, u32>::with_capacity_and_hasher(10, SipState::with_seed(1));
    for i in 0..4u8 {
        queue.upsert(vec![i; 20].into_boxed_slice(), i as u64);
    }
    let slot = std::mem::size_of::<Slot<Box<[u8]>, u32>>();
    assert_eq!(slot, 32);
    let before = queue.mem_bytes(|_| 0).unwrap();
    let mut ledger = Ledger { bytes: Vec::new(), places: Vec::new() };
    queue.realloc_large_heap_allocated_objects(&mut ledger);
    assert_eq!(ledger.bytes, vec![4 * 4, 4 * slot]);
    assert_eq!(ledger.places, vec![4, 4]);
    assert_eq!(queue.mem_bytes(|_| 0), Some(before - (10 - 4) * 36));
}

#[test]
fn slots_are_ordered_by_count_and_then_by_age() {
    let mut queue = TopKQueue::<u64, u64>::with_capacity_and_hasher(3, SipState::with_seed(1));
    queue.upsert(10, 5);
    queue.upsert(11, 5);
    queue.upsert(12, 4);
    assert!(queue.heap_less(0, 1) && !queue.heap_less(1, 0));
    assert!(queue.heap_less(2, 0) && !queue.heap_less(0, 2));
    for slot in 0..3 {
        assert!(!queue.heap_less(slot, slot));
    }
}
