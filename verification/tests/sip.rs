use heavykeeper::sip::{sip13_stream, SipState};
use siphasher::sip::SipHasher13;
use std::hash::{BuildHasher, Hash, Hasher};

// Pins portability: SipHash-1-3 with fixed keys is frozen, so these values must
// hold on every architecture, endianness, and crate version.
#[test]
fn test_hash_values_are_stable_and_portable() {
    assert_eq!(SipState::with_seed(0).hash_one(0u64), 2139874725565397917);
    assert_eq!(SipState::with_seed(42).hash_one(0u64), 13226300229752186361);
    assert_eq!(
        SipState::with_seed(42).hash_one(b"heavykeeper".as_slice()),
        3987788251188275386
    );
}

#[test]
fn test_hash_values_are_equivalent() {
    let a = SipState::with_seed(7);
    let b = SipState::with_seed(7);
    let c = SipState::with_seed(8);
    assert_eq!(a.hash_one("x"), b.hash_one("x"));
    assert_ne!(a.hash_one("x"), c.hash_one("x"));
}

fn std_hash<T: Hash + ?Sized>(seed: u64, value: &T) -> u64 {
    let mut hasher = SipHasher13::new_with_keys(seed, !seed);
    value.hash(&mut hasher);
    hasher.finish()
}

// The bytes that a value feeds are those that its `std::hash::Hash` feeds.
#[test]
fn hashes_what_the_standard_hash_feeds() {
    let state = SipState::with_seed(9);
    for n in [0u64, 1, 255, 256, 0x0102_0304_0506_0708, u64::MAX] {
        assert_eq!(state.hash_one(n), std_hash(9, &n));
        assert_eq!(state.hash_one(&n), std_hash(9, &n));
    }
    for len in 0..40usize {
        let bytes: Vec<u8> = (0..len).map(|i| (i * 91 + 5) as u8).collect();
        let boxed: Box<[u8]> = bytes.clone().into_boxed_slice();
        assert_eq!(state.hash_one(bytes.as_slice()), std_hash(9, bytes.as_slice()));
        assert_eq!(state.hash_one(&bytes), std_hash(9, &bytes));
        assert_eq!(state.hash_one(&boxed), std_hash(9, &boxed));
    }
    for text in ["", "x", "heavykeeper", "grüße", "日本語のテキスト", "🦀🦀"] {
        assert_eq!(state.hash_one(text), std_hash(9, text));
        assert_eq!(state.hash_one(text.to_string()), std_hash(9, text));
    }
}

#[test]
fn streams_are_hashed_as_they_are() {
    let hasher = SipHasher13::new_with_keys(5, 6);
    assert_eq!(sip13_stream(5, 6, b"raw bytes"), hasher.hash(b"raw bytes"));
    assert_eq!(sip13_stream(5, 6, b""), hasher.hash(b""));
    assert_ne!(sip13_stream(5, 6, b"raw bytes"), sip13_stream(6, 5, b"raw bytes"));
    // A text feeds its bytes and an end mark.
    assert_eq!(
        SipState::with_seed(5).hash_one("ab"),
        sip13_stream(5, !5, &[b'a', b'b', 0xff])
    );
}

#[test]
fn a_built_hasher_has_the_keys_of_the_state() {
    let state = SipState::with_seed(31);
    assert_eq!(state.build_hasher().keys(), (31, !31));
    assert_eq!(BuildHasher::hash_one(&state, "abc"), state.hash_one("abc"));
    assert_eq!(state.clone().build_hasher().keys(), (31, !31));
}

#[test]
fn random_states_are_seeded_states() {
    for _ in 0..20 {
        let (k0, k1) = SipState::random().build_hasher().keys();
        assert_eq!(k1, !k0);
    }
}

#[test]
fn numbers_arrays_and_tuples_hash_like_the_standard_hash() {
    let state = SipState::with_seed(11);
    for n in [0u128, 1, 0x80, 0xff, 0x8000, 0xdead_beef, 1 << 63, 1 << 64, u128::MAX] {
        assert_eq!(state.hash_one(n as u8), std_hash(11, &(n as u8)));
        assert_eq!(state.hash_one(n as u16), std_hash(11, &(n as u16)));
        assert_eq!(state.hash_one(n as u32), std_hash(11, &(n as u32)));
        assert_eq!(state.hash_one(n), std_hash(11, &n));
        assert_eq!(state.hash_one(n as usize), std_hash(11, &(n as usize)));
        assert_eq!(state.hash_one(n as i8), std_hash(11, &(n as i8)));
        assert_eq!(state.hash_one(n as i16), std_hash(11, &(n as i16)));
        assert_eq!(state.hash_one(n as i32), std_hash(11, &(n as i32)));
        assert_eq!(state.hash_one(n as i64), std_hash(11, &(n as i64)));
        assert_eq!(state.hash_one(n as i128), std_hash(11, &(n as i128)));
        assert_eq!(state.hash_one(n as isize), std_hash(11, &(n as isize)));
    }
    for flag in [false, true] {
        assert_eq!(state.hash_one(flag), std_hash(11, &flag));
    }
    for letter in ['a', 'ß', '\u{10ffff}'] {
        assert_eq!(state.hash_one(letter), std_hash(11, &letter));
    }
    let none: [u8; 0] = [];
    assert_eq!(state.hash_one(none), std_hash(11, &none));
    assert_eq!(state.hash_one([1u8, 2, 3]), std_hash(11, &[1u8, 2, 3]));
    assert_eq!(state.hash_one([1u8, 2, 3]), state.hash_one([1u8, 2, 3].as_slice()));
    assert_eq!(state.hash_one([7i32, -7]), std_hash(11, &[7i32, -7]));
    assert_eq!(state.hash_one([true, false]), std_hash(11, &[true, false]));
    assert_eq!(state.hash_one(['x', 'y']), std_hash(11, &['x', 'y']));
    assert_eq!(state.hash_one(()), std_hash(11, &()));
    assert_eq!(state.hash_one((5u8,)), std_hash(11, &(5u8,)));
    assert_eq!(state.hash_one((5u8, "x")), std_hash(11, &(5u8, "x")));
    assert_eq!(state.hash_one((1u8, 2u16, 3u32)), std_hash(11, &(1u8, 2u16, 3u32)));
    let four = (1i8, String::from("four"), [4u16; 4], 'd');
    assert_eq!(state.hash_one(&four), std_hash(11, &four));
    let five = (1u64, 2u64, 3u64, 4u64, 5u64);
    assert_eq!(state.hash_one(five), std_hash(11, &five));
    let six = (1u8, 2u8, 3u8, 4u8, 5u8, vec![6u8]);
    assert_eq!(state.hash_one(&six), std_hash(11, &six));
    let nested = ((1u8, 2u8, 3u8), (4u8, 5u8, vec![6u8]));
    assert_eq!(state.hash_one(&nested), state.hash_one(&six));
}
