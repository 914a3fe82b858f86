//! Portable seeded hasher for placement and lookups.
use crate::bytes::{law_le_bytes_add_up, le_bytes, to_le_bytes};
use crate::calls::outcome;
use siphasher::sip::SipHasher13;
use std::hash::{BuildHasher, Hasher};
use vstd::prelude::*;
use vstd::utf8::{encode_utf8, encode_utf8_decode_utf8};

verus! {

/// The type [`siphasher::sip::SipHasher13`], carried through as it is.
#[verifier::external_type_specification]
#[verifier::external_body]
pub struct ExSipHasher13(SipHasher13);

/// What [`SipHasher13::new_with_keys`] returns for two keys.
pub uninterp spec fn sip13_hasher(k0: u64, k1: u64) -> SipHasher13;

/// [`SipHasher13::new_with_keys`] makes a hasher of the two keys alone: equal
/// keys give equal hashers.
pub assume_specification[ SipHasher13::new_with_keys ](key0: u64, key1: u64) -> (hasher: SipHasher13)
    ensures
        hasher == sip13_hasher(key0, key1),
;

/// SipHash-1-3 of `stream` under the keys `k0` and `k1`.
pub uninterp spec fn sip13(k0: u64, k1: u64, stream: Seq<u8>) -> u64;

/// Hashes `head` and then `tail` with [`SipHasher13`]: a hasher made by
/// `new_with_keys`, one `write` for each part, then `finish`.
///
/// The result is a function of the keys and of the bytes of both parts in order;
/// where the first part ends does not matter. The hasher counts its bytes in a
/// `usize`, which two slices cannot exceed: a slice holds at most `isize::MAX`
/// bytes.
#[verifier::external_body]
fn sip13_of(k0: u64, k1: u64, head: &[u8], tail: &[u8]) -> (hash: u64)
    ensures
        hash == sip13(k0, k1, head@ + tail@),
{
    let mut hasher = SipHasher13::new_with_keys(k0, k1);
    hasher.write(head);
    hasher.write(tail);
    hasher.finish()
}

/// The SipHash-1-3 of a stream of bytes: what a type's [`SipHash::sip_hash`] comes
/// down to.
pub fn sip13_stream(k0: u64, k1: u64, stream: &[u8]) -> (hash: u64)
    ensures
        hash == sip13(k0, k1, stream@),
{
    let tail: [u8; 0] = [];
    assert(stream@ + tail@ =~= stream@);
    sip13_of(k0, k1, stream, &tail)
}

/// A random number from [`fastrand::u64`] over the whole range. Nothing is
/// claimed of it.
#[verifier::external_body]
pub(crate) fn random_u64() -> (seed: u64) {
    fastrand::u64(..)
}

/// The random source can hand out this number.
pub closed spec fn drawn(seed: u64) -> bool {
    call_ensures(random_u64, (), seed)
}

/// A value that SipHash-1-3 can hash.
pub trait SipHash: View {
    /// The bytes that the value feeds to a hasher.
    spec fn stream(&self) -> Seq<u8>;

    /// Appends the bytes that the value feeds to a hasher.
    fn feed(&self, out: &mut Vec<u8>)
        ensures
            final(out)@ == old(out)@ + self.stream(),
    ;

    /// The hash of the value under the keys `k0` and `k1`.
    fn sip_hash(&self, k0: u64, k1: u64) -> (hash: u64)
        ensures
            hash == sip13(k0, k1, self.stream()),
    {
        let mut stream: Vec<u8> = Vec::new();
        self.feed(&mut stream);
        assert(stream@ =~= self.stream());
        sip13_stream(k0, k1, stream.as_slice())
    }
}

/// What a byte string feeds to a hasher: its length, then its bytes.
pub open spec fn bytes_stream(bytes: Seq<u8>) -> Seq<u8> {
    le_bytes(bytes.len() as u64) + bytes
}

/// What a text feeds to a hasher: its UTF-8 bytes, then a byte that no UTF-8
/// holds.
pub open spec fn text_stream(text: Seq<char>) -> Seq<u8> {
    encode_utf8(text) + seq![0xffu8]
}

impl SipHash for u64 {
    open spec fn stream(&self) -> Seq<u8> {
        le_bytes(*self)
    }

    fn feed(&self, out: &mut Vec<u8>) {
        let bytes = to_le_bytes(*self);
        out.extend_from_slice(&bytes);
        assert(out@ =~= old(out)@ + self.stream());
    }

    fn sip_hash(&self, k0: u64, k1: u64) -> (hash: u64) {
        let bytes = to_le_bytes(*self);
        sip13_stream(k0, k1, &bytes)
    }
}

impl SipHash for [u8] {
    open spec fn stream(&self) -> Seq<u8> {
        bytes_stream(self@)
    }

    fn feed(&self, out: &mut Vec<u8>) {
        let head = to_le_bytes(self.len() as u64);
        out.extend_from_slice(&head);
        out.extend_from_slice(self);
        assert(out@ =~= old(out)@ + self.stream());
    }

    fn sip_hash(&self, k0: u64, k1: u64) -> (hash: u64) {
        let head = to_le_bytes(self.len() as u64);
        sip13_of(k0, k1, &head, self)
    }
}

impl SipHash for str {
    open spec fn stream(&self) -> Seq<u8> {
        text_stream(self@)
    }

    fn feed(&self, out: &mut Vec<u8>) {
        out.extend_from_slice(self.as_bytes());
        out.push(0xff);
        assert(out@ =~= old(out)@ + self.stream());
    }

    fn sip_hash(&self, k0: u64, k1: u64) -> (hash: u64) {
        let tail: [u8; 1] = [0xff];
        assert(tail@ =~= seq![0xffu8]);
        sip13_of(k0, k1, self.as_bytes(), &tail)
    }
}

impl SipHash for Vec<u8> {
    open spec fn stream(&self) -> Seq<u8> {
        bytes_stream(self@)
    }

    fn feed(&self, out: &mut Vec<u8>) {
        self.as_slice().feed(out);
    }

    fn sip_hash(&self, k0: u64, k1: u64) -> (hash: u64) {
        self.as_slice().sip_hash(k0, k1)
    }
}

impl SipHash for String {
    open spec fn stream(&self) -> Seq<u8> {
        text_stream(self@)
    }

    fn feed(&self, out: &mut Vec<u8>) {
        self.as_str().feed(out);
    }

    fn sip_hash(&self, k0: u64, k1: u64) -> (hash: u64) {
        self.as_str().sip_hash(k0, k1)
    }
}

impl<K: SipHash + ?Sized> SipHash for &K {
    open spec fn stream(&self) -> Seq<u8> {
        (**self).stream()
    }

    fn feed(&self, out: &mut Vec<u8>) {
        (**self).feed(out);
    }

    fn sip_hash(&self, k0: u64, k1: u64) -> (hash: u64) {
        (**self).sip_hash(k0, k1)
    }
}

impl<K: SipHash + ?Sized> SipHash for Box<K> {
    open spec fn stream(&self) -> Seq<u8> {
        (**self).stream()
    }

    fn feed(&self, out: &mut Vec<u8>) {
        (**self).feed(out);
    }

    fn sip_hash(&self, k0: u64, k1: u64) -> (hash: u64) {
        (**self).sip_hash(k0, k1)
    }
}

/// Seeded hasher producing SipHash-1-3.
///
/// SipHash is frozen: a given key produces identical output on every
/// architecture, endianness, and crate version. The view is the pair of keys.
#[derive(Debug)]
pub struct SipState {
    k0: u64,
    k1: u64,
}

impl View for SipState {
    type V = (u64, u64);

    closed spec fn view(&self) -> (u64, u64) {
        (self.k0, self.k1)
    }
}

/// The keys that a seed stands for: the seed and its complement.
pub open spec fn seed_keys(seed: u64) -> (u64, u64) {
    (seed, !seed)
}

impl SipState {
    /// The hash of a stream of bytes.
    pub open spec fn digest(self, stream: Seq<u8>) -> u64 {
        sip13(self@.0, self@.1, stream)
    }

    /// Builds the hasher of a seed.
    pub fn with_seed(seed: u64) -> (state: Self)
        ensures
            state@ == seed_keys(seed),
    {
        SipState { k0: seed, k1: !seed }
    }

    /// Builds from a random seed. For sketches that are never serialized (or
    /// whose seed is recorded elsewhere); seeded construction is the norm.
    pub fn random() -> (state: Self)
        ensures
            exists|seed: u64| #[trigger] drawn(seed) && state@ == seed_keys(seed),
    {
        let seed: u64 = outcome(random_u64);
        assert(drawn(seed));
        Self::with_seed(seed)
    }

    /// Hashes a single value.
    pub fn hash_one<T: SipHash>(&self, value: T) -> (hash: u64)
        ensures
            hash == self.digest(value.stream()),
    {
        value.sip_hash(self.k0, self.k1)
    }
}

impl Clone for SipState {
    fn clone(&self) -> (state: Self)
        ensures
            state@ == self@,
    {
        SipState { k0: self.k0, k1: self.k1 }
    }
}

impl BuildHasher for SipState {
    type Hasher = SipHasher13;

    fn build_hasher(&self) -> (hasher: SipHasher13)
        ensures
            hasher == sip13_hasher(self@.0, self@.1),
    {
        SipHasher13::new_with_keys(self.k0, self.k1)
    }
}

/// Hashers of one seed agree on every value, whatever type holds it, as long as
/// it feeds the same bytes.
pub proof fn law_equal_seeds_hash_alike<A: SipHash, B: SipHash>(
    a: SipState,
    b: SipState,
    seed: u64,
    x: A,
    y: B,
)
    requires
        a@ == seed_keys(seed),
        b@ == seed_keys(seed),
        x.stream() == y.stream(),
    ensures
        a.digest(x.stream()) == b.digest(y.stream()),
{
}

/// Different seeds stand for different keys.
pub proof fn law_seeds_give_different_keys(a: u64, b: u64)
    requires
        a != b,
    ensures
        seed_keys(a) != seed_keys(b),
{
}

/// The hash of a value under a seed is SipHash-1-3 of the bytes that the value feeds,
/// under the seed and its complement.
pub proof fn law_hash_is_sip13_under_the_seed<V: SipHash>(
    seed: u64,
    state: SipState,
    value: V,
    hash: u64,
)
    requires
        call_ensures(SipState::with_seed, (seed,), state),
        call_ensures(SipState::hash_one::<V>, (&state, value), hash),
    ensures
        hash == sip13(seed, !seed, value.stream()),
        state@ == (seed, !seed),
{
}

/// Whatever a value feeds is appended, and is what is hashed; so it is for bytes that
/// are at hand.
pub proof fn law_values_are_hashed_whole<V: SipHash>(
    value: &V,
    out: &mut Vec<u8>,
    k0: u64,
    k1: u64,
    hash: u64,
    stream: &[u8],
    stream_hash: u64,
)
    requires
        call_ensures(V::feed, (value, out), ()),
        call_ensures(V::sip_hash, (value, k0, k1), hash),
        call_ensures(sip13_stream, (k0, k1, stream), stream_hash),
    ensures
        final(out)@ == old(out)@ + value.stream(),
        hash == sip13(k0, k1, value.stream()),
        stream_hash == sip13(k0, k1, stream@),
{
}

/// A state made at random hashes under a number that the random source gave, and its
/// complement.
pub(crate) proof fn law_random_state_has_a_drawn_seed<V: SipHash>(
    state: SipState,
    value: V,
    hash: u64,
)
    requires
        call_ensures(SipState::random, (), state),
        call_ensures(SipState::hash_one::<V>, (&state, value), hash),
    ensures
        exists|seed: u64| #[trigger]
            call_ensures(random_u64, (), seed) && hash == sip13(seed, !seed, value.stream()),
{
    let seed = choose|seed: u64| #[trigger] drawn(seed) && state@ == seed_keys(seed);
    assert(call_ensures(random_u64, (), seed));
}

/// A copy of a state hashes alike.
pub proof fn law_cloned_state_hashes_alike<V: SipHash>(
    state: SipState,
    copy: SipState,
    value: V,
    hash: u64,
    again: u64,
)
    requires
        call_ensures(SipState::clone, (&state,), copy),
        call_ensures(SipState::hash_one::<V>, (&state, value), hash),
        call_ensures(SipState::hash_one::<V>, (&copy, value), again),
    ensures
        hash == again,
{
}

/// A text feeds its UTF-8 bytes, all of them, and then `0xff`, whichever type holds it.
/// Different texts feed different bytes.
pub proof fn law_text_feeds_its_utf8(
    slice: &str,
    string: String,
    boxed: Box<str>,
    other: &str,
)
    ensures
        slice.stream() == encode_utf8(slice@) + seq![0xffu8],
        string.stream() == encode_utf8(string@) + seq![0xffu8],
        boxed.stream() == encode_utf8(boxed@) + seq![0xffu8],
        slice@ != other@ ==> slice.stream() != other.stream(),
        string@ != other@ ==> string.stream() != other.stream(),
{
    encode_utf8_decode_utf8(slice@);
    encode_utf8_decode_utf8(string@);
    encode_utf8_decode_utf8(other@);
    assert(slice.stream().drop_last() =~= encode_utf8(slice@));
    assert(string.stream().drop_last() =~= encode_utf8(string@));
    assert(other.stream().drop_last() =~= encode_utf8(other@));
}

/// A byte string feeds its length, as eight bytes of which each is worth 256 times the
/// one before, and then its bytes, all of them.
pub proof fn law_bytes_feed_their_length_and_themselves(bytes: Seq<u8>)
    requires
        bytes.len() <= usize::MAX,
    ensures
        ({
            let s = bytes_stream(bytes);
            &&& s.len() == 8 + bytes.len()
            &&& s.skip(8) == bytes
            &&& bytes.len() == s[0] + 0x100 * s[1] + 0x1_0000 * s[2] + 0x100_0000 * s[3]
                + 0x1_0000_0000 * s[4] + 0x100_0000_0000 * s[5] + 0x1_0000_0000_0000 * s[6]
                + 0x100_0000_0000_0000 * s[7]
        }),
{
    law_le_bytes_add_up(bytes.len() as u64);
    assert(bytes_stream(bytes).skip(8) =~= bytes);
}

/// A slice, a vector and a box of bytes feed what [`bytes_stream`] says of their bytes;
/// different byte strings feed different bytes.
pub proof fn law_holders_of_bytes_feed_alike(
    slice: &[u8],
    vec: Vec<u8>,
    boxed: Box<[u8]>,
    other: &[u8],
)
    ensures
        slice.stream() == bytes_stream(slice@),
        vec.stream() == bytes_stream(vec@),
        boxed.stream() == bytes_stream(boxed@),
        slice@ != other@ ==> slice.stream() != other.stream(),
{
    assert(slice.stream().skip(8) =~= slice@);
    assert(other.stream().skip(8) =~= other@);
}

/// A reference and a box feed what they hold.
pub proof fn law_holders_feed_what_they_hold<K: SipHash>(value: K, boxed: Box<K>)
    ensures
        (&value).stream() == value.stream(),
        boxed.stream() == (*boxed).stream(),
{
}

/// A `u64` feeds eight bytes that add up to it.
pub proof fn law_u64_feeds_its_bytes(x: u64)
    ensures
        ({
            let s = x.stream();
            &&& s.len() == 8
            &&& x == s[0] + 0x100 * s[1] + 0x1_0000 * s[2] + 0x100_0000 * s[3] + 0x1_0000_0000
                * s[4] + 0x100_0000_0000 * s[5] + 0x1_0000_0000_0000 * s[6] + 0x100_0000_0000_0000
                * s[7]
        }),
{
    law_le_bytes_add_up(x);
}

} // verus!
