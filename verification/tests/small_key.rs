use hashbrown::HashTable;
use heavykeeper::sip::SipState;
use heavykeeper::small_key::{SmallKey, INLINE_CAP};
use heavykeeper::traits::FromBorrowed;
use std::borrow::Borrow;
use std::cmp::Ordering;
use std::collections::hash_map::DefaultHasher;
use std::hash::{Hash, Hasher};

fn h<T: Hash + ?Sized>(t: &T) -> u64 {
    let mut s = DefaultHasher::new();
    t.hash(&mut s);
    s.finish()
}

#[test]
fn round_trips_every_length_across_the_inline_boundary() {
    for len in 0..=64usize {
        let bytes: Vec<u8> = (0..len).map(|i| (i * 37 + 11) as u8).collect();
        let key = SmallKey::new(&bytes);
        assert_eq!(key.as_slice(), &bytes[..], "len={len}");
        assert_eq!(key.is_heap(), len > INLINE_CAP, "len={len}");
        assert_eq!(key.heap_bytes(), if len > INLINE_CAP { len } else { 0 });
        assert_eq!(SmallKey::heap_bytes_for_len(len), key.heap_bytes());
        let cloned = key.clone();
        assert_eq!(cloned, key);
        assert_eq!(cloned.into_vec(), bytes);
        assert_eq!(key.into_vec(), bytes);
    }
}

#[test]
fn inline_bytes_are_never_misread_as_heap_tag() {
    // An inline key whose data bytes are all 0xFF must not be taken for a heap
    // key.
    let key = SmallKey::new(&[0xFF; INLINE_CAP]);
    assert!(!key.is_heap());
    assert_eq!(key.as_slice(), &[0xFF; INLINE_CAP]);
    let empty = SmallKey::new(b"");
    assert!(!empty.is_heap());
    assert!(empty.as_slice().is_empty());
}

#[test]
fn hash_eq_ord_match_slice_semantics() {
    for a in [
        &b""[..],
        b"a",
        b"abc",
        b"255.255.255.255",
        b"a much longer key value",
    ] {
        let ka = SmallKey::new(a);
        assert_eq!(h(&ka), h(a), "hash must equal [u8] hash for {a:?}");
        assert_eq!(h(&ka), h(&Box::<[u8]>::from(a)));
        assert_eq!(h(&ka), h(&a.to_vec()));
        let borrowed: &[u8] = ka.borrow();
        assert_eq!(borrowed, a);
        for b in [
            &b""[..],
            b"a",
            b"abd",
            b"255.255.255.254",
            b"a much longer key valuf",
        ] {
            let kb = SmallKey::new(b);
            assert_eq!(ka.cmp(&kb), a.cmp(b), "{a:?} vs {b:?}");
            assert_eq!(ka == kb, a == b);
        }
    }
}

#[test]
fn works_as_a_hashbrown_key_probed_by_slice() {
    let hasher = SipState::with_seed(3);
    let keys: Vec<SmallKey> = [
        &b"short"[..],
        b"exactly15bytes!",
        b"a spilled key over 15 bytes",
    ]
    .into_iter()
    .map(SmallKey::new)
    .collect();
    let mut table: HashTable<usize> = HashTable::with_capacity(keys.len());
    for (i, k) in keys.iter().enumerate() {
        table.insert_unique(hasher.hash_one(k), i, |&j| hasher.hash_one(&keys[j]));
    }
    for (i, probe) in [
        &b"short"[..],
        b"exactly15bytes!",
        b"a spilled key over 15 bytes",
    ]
    .into_iter()
    .enumerate()
    {
        let found = table.find(hasher.hash_one(probe), |&j| keys[j].as_slice() == probe);
        assert_eq!(found, Some(&i), "{probe:?}");
    }
    assert!(table
        .find(hasher.hash_one(&b"missing"[..]), |&j| keys[j].as_slice()
            == b"missing")
        .is_none());
}

#[test]
fn order_operators_follow_the_bytes() {
    let shorter = SmallKey::new(b"key");
    let longer = SmallKey::new(b"key with a tail of many bytes");
    assert!(shorter < longer);
    assert!(longer > shorter);
    assert!(shorter <= shorter.clone());
    assert_eq!(shorter.partial_cmp(&longer), Some(Ordering::Less));
    assert_eq!(longer.cmp(&shorter), Ordering::Greater);
    assert_eq!(shorter.cmp(&shorter.clone()), Ordering::Equal);
    // A zero byte is still longer than nothing.
    assert!(SmallKey::new(b"") < SmallKey::new(b"\0"));
    assert!(SmallKey::new(b"a") < SmallKey::new(b"a\0"));
}

#[test]
fn copies_from_and_lends_slices() {
    for bytes in [&b""[..], b"fifteen bytes!!", b"sixteen bytes!!!"] {
        let key = SmallKey::from_borrowed(bytes);
        let lent: &[u8] = key.as_ref();
        assert_eq!(lent, bytes);
    }
    assert!(!SmallKey::from_borrowed(&b"fifteen bytes!!"[..]).is_heap());
    assert!(SmallKey::from_borrowed(&b"sixteen bytes!!!"[..]).is_heap());
    assert_eq!(SmallKey::heap_bytes_for_len(15), 0);
    assert_eq!(SmallKey::heap_bytes_for_len(16), 16);
}

#[test]
fn every_holder_of_the_same_bytes_hashes_alike() {
    let state = SipState::with_seed(77);
    for len in [0usize, 3, 15, 16, 40] {
        let bytes: Vec<u8> = (0..len).map(|i| i as u8).collect();
        let key = SmallKey::new(&bytes);
        let expected = state.hash_one(bytes.as_slice());
        assert_eq!(state.hash_one(&key), expected);
        assert_eq!(state.hash_one(&bytes), expected);
        assert_eq!(state.hash_one(bytes.clone().into_boxed_slice()), expected);
    }
}

#[test]
fn a_key_takes_sixteen_bytes() {
    assert_eq!(std::mem::size_of::<SmallKey>(), 16);
    assert_eq!(std::mem::align_of::<SmallKey>(), 8);
}

#[test]
fn keys_show_their_bytes_and_where_they_are() {
    assert_eq!(
        format!("{:?}", SmallKey::new(b"ab")),
        "SmallKey { bytes: [97, 98], heap: false }"
    );
    assert_eq!(
        format!("{:?}", SmallKey::new(&[7; 16])),
        "SmallKey { bytes: [7, 7, 7, 7, 7, 7, 7, 7, 7, 7, 7, 7, 7, 7, 7, 7], heap: true }"
    );
    assert_eq!(
        format!("{:#?}", SmallKey::new(b"")),
        "SmallKey {\n    bytes: [],\n    heap: false,\n}"
    );
}

#[test]
fn a_spilled_key_hands_its_allocation_over() {
    let key = SmallKey::new(&[3; 40]);
    let place = key.as_slice().as_ptr();
    let copy = key.clone();
    assert!(copy.as_slice().as_ptr() != place);
    let bytes = key.into_vec();
    assert_eq!(bytes, vec![3; 40]);
    assert_eq!(bytes.as_ptr(), place);
    assert_eq!(bytes.capacity(), 40);
    assert_eq!(copy.as_slice(), &[3; 40]);
}
