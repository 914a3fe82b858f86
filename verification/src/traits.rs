//! What the containers ask of the types that they hold.
use crate::bytes::bytes_equal;
use crate::sip::SipHash;
use vstd::prelude::*;
use vstd::utf8::encode_utf8_decode_utf8;

verus! {

/// A stored counter width.
///
/// Callers speak `u64`; a count is saturated into the width on the way in.
pub trait Counter: Copy {
    /// The largest count that the width holds.
    spec fn limit() -> u64;

    /// The count that is held.
    spec fn value(self) -> u64;

    /// No count is above the limit.
    proof fn value_in_limit(self)
        ensures
            self.value() <= Self::limit(),
    ;

    /// Saturates `count` into the width.
    fn from_u64(count: u64) -> (counter: Self)
        ensures
            counter.value() == at_most(count, Self::limit()),
    ;

    /// The count that is held.
    fn as_u64(self) -> (count: u64)
        ensures
            count == self.value(),
    ;
}

/// `count`, or `limit` where `count` is above it.
pub open spec fn at_most(count: u64, limit: u64) -> u64 {
    if count <= limit {
        count
    } else {
        limit
    }
}

impl Counter for u64 {
    open spec fn limit() -> u64 {
        u64::MAX
    }

    open spec fn value(self) -> u64 {
        self
    }

    proof fn value_in_limit(self) {
    }

    fn from_u64(count: u64) -> (counter: Self) {
        count
    }

    fn as_u64(self) -> (count: u64) {
        self
    }
}

impl Counter for u32 {
    open spec fn limit() -> u64 {
        u32::MAX as u64
    }

    open spec fn value(self) -> u64 {
        self as u64
    }

    proof fn value_in_limit(self) {
    }

    fn from_u64(count: u64) -> (counter: Self) {
        if count <= u32::MAX as u64 {
            count as u32
        } else {
            u32::MAX
        }
    }

    fn as_u64(self) -> (count: u64) {
        self as u64
    }
}

/// An owned value that can be copied from a borrowed one.
pub trait FromBorrowed<Q: View + ?Sized>: View<V = <Q as View>::V> + Sized {
    /// Whether the owned type can hold what `borrowed` holds.
    spec fn fits(borrowed: &Q) -> bool;

    /// Copies what `borrowed` holds.
    fn from_borrowed(borrowed: &Q) -> (owned: Self)
        requires
            Self::fits(borrowed),
        ensures
            owned@ == borrowed@,
    ;
}

/// An item that a probe of type `Q` can find again.
///
/// Two values stand for the same key exactly when their views are equal, and the
/// same key is hashed alike whichever type holds it.
pub trait Lookup<Q: SipHash + View<V = <Self as View>::V> + ?Sized>: SipHash {
    /// Whether item and probe stand for the same key.
    fn same_key(&self, probe: &Q) -> (same: bool)
        ensures
            same == (self@ == probe@),
    ;

    /// The same key is hashed alike.
    proof fn same_key_same_stream(&self, probe: &Q)
        requires
            self@ == probe@,
        ensures
            self.stream() == probe.stream(),
    ;
}

impl Lookup<[u8]> for [u8] {
    fn same_key(&self, probe: &[u8]) -> (same: bool) {
        bytes_equal(self, probe)
    }

    proof fn same_key_same_stream(&self, probe: &[u8]) {
    }
}

impl Lookup<[u8]> for &[u8] {
    fn same_key(&self, probe: &[u8]) -> (same: bool) {
        bytes_equal(*self, probe)
    }

    proof fn same_key_same_stream(&self, probe: &[u8]) {
    }
}

impl Lookup<[u8]> for Vec<u8> {
    fn same_key(&self, probe: &[u8]) -> (same: bool) {
        bytes_equal(self.as_slice(), probe)
    }

    proof fn same_key_same_stream(&self, probe: &[u8]) {
    }
}

impl Lookup<Vec<u8>> for Vec<u8> {
    fn same_key(&self, probe: &Vec<u8>) -> (same: bool) {
        bytes_equal(self.as_slice(), probe.as_slice())
    }

    proof fn same_key_same_stream(&self, probe: &Vec<u8>) {
    }
}

impl Lookup<[u8]> for Box<[u8]> {
    fn same_key(&self, probe: &[u8]) -> (same: bool) {
        bytes_equal(&**self, probe)
    }

    proof fn same_key_same_stream(&self, probe: &[u8]) {
    }
}

/// Whether two texts are the same.
fn text_equal(a: &str, b: &str) -> (same: bool)
    ensures
        same == (a@ == b@),
{
    let same = bytes_equal(a.as_bytes(), b.as_bytes());
    proof {
        encode_utf8_decode_utf8(a@);
        encode_utf8_decode_utf8(b@);
    }
    same
}

impl Lookup<str> for str {
    fn same_key(&self, probe: &str) -> (same: bool) {
        text_equal(self, probe)
    }

    proof fn same_key_same_stream(&self, probe: &str) {
    }
}

impl Lookup<str> for &str {
    fn same_key(&self, probe: &str) -> (same: bool) {
        text_equal(*self, probe)
    }

    proof fn same_key_same_stream(&self, probe: &str) {
    }
}

impl Lookup<str> for String {
    fn same_key(&self, probe: &str) -> (same: bool) {
        text_equal(self.as_str(), probe)
    }

    proof fn same_key_same_stream(&self, probe: &str) {
    }
}

impl Lookup<str> for Box<str> {
    fn same_key(&self, probe: &str) -> (same: bool) {
        text_equal(&**self, probe)
    }

    proof fn same_key_same_stream(&self, probe: &str) {
    }
}

impl Lookup<String> for String {
    fn same_key(&self, probe: &String) -> (same: bool) {
        text_equal(self.as_str(), probe.as_str())
    }

    proof fn same_key_same_stream(&self, probe: &String) {
    }
}

impl<Q: SipHash + View<V = <K as View>::V> + ?Sized, K: Lookup<Q> + ?Sized> Lookup<&Q> for &K {
    fn same_key(&self, probe: &&Q) -> (same: bool) {
        (**self).same_key(*probe)
    }

    proof fn same_key_same_stream(&self, probe: &&Q) {
        (**self).same_key_same_stream(*probe);
    }
}

impl<Q: SipHash + View<V = <K as View>::V> + ?Sized, K: Lookup<Q> + ?Sized> Lookup<
    Box<Q>,
> for Box<K> {
    fn same_key(&self, probe: &Box<Q>) -> (same: bool) {
        (**self).same_key(&**probe)
    }

    proof fn same_key_same_stream(&self, probe: &Box<Q>) {
        (**self).same_key_same_stream(&**probe);
    }
}

/// A `u64` counter holds every count: what was put in comes out again.
pub proof fn law_u64_holds_every_count(count: u64, counter: u64, back: u64)
    requires
        call_ensures(<u64 as Counter>::from_u64, (count,), counter),
        call_ensures(<u64 as Counter>::as_u64, (counter,), back),
    ensures
        back == count,
        <u64 as Counter>::limit() == 0xffff_ffff_ffff_ffff,
        counter.value() == count,
{
}

/// A `u32` counter holds every count up to `0xffff_ffff`, and that in place of larger
/// ones.
pub proof fn law_u32_holds_counts_up_to_its_own_limit(count: u64, counter: u32, back: u64)
    requires
        call_ensures(<u32 as Counter>::from_u64, (count,), counter),
        call_ensures(<u32 as Counter>::as_u64, (counter,), back),
    ensures
        count <= 0xffff_ffff ==> back == count,
        count > 0xffff_ffff ==> back == 0xffff_ffff,
        <u32 as Counter>::limit() == 0xffff_ffff,
        counter.value() == back,
{
}

/// A counter of any width gives back a count that its width holds, and the limit of the
/// width in place of a larger one.
pub proof fn law_counts_are_held_up_to_the_limit<C: Counter>(count: u64, counter: C, back: u64)
    requires
        call_ensures(C::from_u64, (count,), counter),
        call_ensures(C::as_u64, (counter,), back),
    ensures
        count <= C::limit() ==> back == count,
        count > C::limit() ==> back == C::limit(),
{
}

/// Item and probe are told apart by their views alone.
pub proof fn law_keys_are_told_by_their_views<K: Lookup<Q>, Q>(item: &K, probe: &Q, same: bool) where
    Q: SipHash + View<V = <K as View>::V> + ?Sized,

    requires
        call_ensures(K::same_key, (item, probe), same),
    ensures
        same <==> item@ == probe@,
{
}

} // verus!
