//! Numbers, `bool`, `char`, arrays and tuples as keys.
//!
//! Each feeds the bytes that its [`std::hash::Hash`] gives a hasher on a 64-bit
//! little-endian machine, whatever the machine: numbers least significant byte
//! first, an array its length and then its elements, a tuple its fields in order.
//! Tuples of more than six fields nest: where the brackets stand does not change
//! what is fed.
use crate::bytes::{bytes_equal, law_le_bytes_add_up, le_bytes, to_le_bytes};
use crate::sip::{bytes_stream, sip13, sip13_stream, SipHash};
use crate::traits::Lookup;
use vstd::prelude::*;

verus! {

/// Appends the first `n` of the eight bytes of `x`.
fn feed_le(x: u64, n: usize, out: &mut Vec<u8>)
    requires
        n <= 8,
    ensures
        final(out)@ == old(out)@ + le_bytes(x).take(n as int),
{
    let bytes = to_le_bytes(x);
    let all: &[u8] = &bytes;
    out.extend_from_slice(&all[0..n]);
}

/// The hash of the first `n` of the eight bytes of `x`.
fn hash_le(k0: u64, k1: u64, x: u64, n: usize) -> (hash: u64)
    requires
        n <= 8,
    ensures
        hash == sip13(k0, k1, le_bytes(x).take(n as int)),
{
    let bytes = to_le_bytes(x);
    let all: &[u8] = &bytes;
    sip13_stream(k0, k1, &all[0..n])
}

/// A key whose view is the value itself.
pub trait Plain: Lookup<Self> + View<V = Self> + Copy {
    /// The view is the value.
    proof fn view_is_self(self)
        ensures
            self@ == self,
    ;
}

impl SipHash for u8 {
    open spec fn stream(&self) -> Seq<u8> {
        seq![*self]
    }

    fn feed(&self, out: &mut Vec<u8>) {
        out.push(*self);
    }
}

impl Lookup<u8> for u8 {
    fn same_key(&self, probe: &u8) -> (same: bool) {
        *self == *probe
    }

    proof fn same_key_same_stream(&self, probe: &u8) {
    }
}

impl Plain for u8 {
    proof fn view_is_self(self) {
    }
}

impl SipHash for u16 {
    open spec fn stream(&self) -> Seq<u8> {
        le_bytes(*self as u64).take(2)
    }

    fn feed(&self, out: &mut Vec<u8>) {
        feed_le(*self as u64, 2, out);
    }

    fn sip_hash(&self, k0: u64, k1: u64) -> (hash: u64) {
        hash_le(k0, k1, *self as u64, 2)
    }
}

impl Lookup<u16> for u16 {
    fn same_key(&self, probe: &u16) -> (same: bool) {
        *self == *probe
    }

    proof fn same_key_same_stream(&self, probe: &u16) {
    }
}

impl Plain for u16 {
    proof fn view_is_self(self) {
    }
}

impl SipHash for u32 {
    open spec fn stream(&self) -> Seq<u8> {
        le_bytes(*self as u64).take(4)
    }

    fn feed(&self, out: &mut Vec<u8>) {
        feed_le(*self as u64, 4, out);
    }

    fn sip_hash(&self, k0: u64, k1: u64) -> (hash: u64) {
        hash_le(k0, k1, *self as u64, 4)
    }
}

impl Lookup<u32> for u32 {
    fn same_key(&self, probe: &u32) -> (same: bool) {
        *self == *probe
    }

    proof fn same_key_same_stream(&self, probe: &u32) {
    }
}

impl Plain for u32 {
    proof fn view_is_self(self) {
    }
}

impl Lookup<u64> for u64 {
    fn same_key(&self, probe: &u64) -> (same: bool) {
        *self == *probe
    }

    proof fn same_key_same_stream(&self, probe: &u64) {
    }
}

impl Plain for u64 {
    proof fn view_is_self(self) {
    }
}

impl SipHash for u128 {
    open spec fn stream(&self) -> Seq<u8> {
        le_bytes(*self as u64) + le_bytes((*self >> 64u128) as u64)
    }

    fn feed(&self, out: &mut Vec<u8>) {
        (*self as u64).feed(out);
        ((*self >> 64u128) as u64).feed(out);
        assert(out@ =~= old(out)@ + self.stream());
    }
}

impl Lookup<u128> for u128 {
    fn same_key(&self, probe: &u128) -> (same: bool) {
        *self == *probe
    }

    proof fn same_key_same_stream(&self, probe: &u128) {
    }
}

impl Plain for u128 {
    proof fn view_is_self(self) {
    }
}

impl SipHash for usize {
    open spec fn stream(&self) -> Seq<u8> {
        (*self as u64).stream()
    }

    fn feed(&self, out: &mut Vec<u8>) {
        (*self as u64).feed(out);
    }

    fn sip_hash(&self, k0: u64, k1: u64) -> (hash: u64) {
        (*self as u64).sip_hash(k0, k1)
    }
}

impl Lookup<usize> for usize {
    fn same_key(&self, probe: &usize) -> (same: bool) {
        *self == *probe
    }

    proof fn same_key_same_stream(&self, probe: &usize) {
    }
}

impl Plain for usize {
    proof fn view_is_self(self) {
    }
}

impl SipHash for i8 {
    open spec fn stream(&self) -> Seq<u8> {
        (*self as u8).stream()
    }

    fn feed(&self, out: &mut Vec<u8>) {
        (*self as u8).feed(out);
    }

    fn sip_hash(&self, k0: u64, k1: u64) -> (hash: u64) {
        (*self as u8).sip_hash(k0, k1)
    }
}

impl Lookup<i8> for i8 {
    fn same_key(&self, probe: &i8) -> (same: bool) {
        *self == *probe
    }

    proof fn same_key_same_stream(&self, probe: &i8) {
    }
}

impl Plain for i8 {
    proof fn view_is_self(self) {
    }
}

impl SipHash for i16 {
    open spec fn stream(&self) -> Seq<u8> {
        (*self as u16).stream()
    }

    fn feed(&self, out: &mut Vec<u8>) {
        (*self as u16).feed(out);
    }

    fn sip_hash(&self, k0: u64, k1: u64) -> (hash: u64) {
        (*self as u16).sip_hash(k0, k1)
    }
}

impl Lookup<i16> for i16 {
    fn same_key(&self, probe: &i16) -> (same: bool) {
        *self == *probe
    }

    proof fn same_key_same_stream(&self, probe: &i16) {
    }
}

impl Plain for i16 {
    proof fn view_is_self(self) {
    }
}

impl SipHash for i32 {
    open spec fn stream(&self) -> Seq<u8> {
        (*self as u32).stream()
    }

    fn feed(&self, out: &mut Vec<u8>) {
        (*self as u32).feed(out);
    }

    fn sip_hash(&self, k0: u64, k1: u64) -> (hash: u64) {
        (*self as u32).sip_hash(k0, k1)
    }
}

impl Lookup<i32> for i32 {
    fn same_key(&self, probe: &i32) -> (same: bool) {
        *self == *probe
    }

    proof fn same_key_same_stream(&self, probe: &i32) {
    }
}

impl Plain for i32 {
    proof fn view_is_self(self) {
    }
}

impl SipHash for i64 {
    open spec fn stream(&self) -> Seq<u8> {
        (*self as u64).stream()
    }

    fn feed(&self, out: &mut Vec<u8>) {
        (*self as u64).feed(out);
    }

    fn sip_hash(&self, k0: u64, k1: u64) -> (hash: u64) {
        (*self as u64).sip_hash(k0, k1)
    }
}

impl Lookup<i64> for i64 {
    fn same_key(&self, probe: &i64) -> (same: bool) {
        *self == *probe
    }

    proof fn same_key_same_stream(&self, probe: &i64) {
    }
}

impl Plain for i64 {
    proof fn view_is_self(self) {
    }
}

impl SipHash for i128 {
    open spec fn stream(&self) -> Seq<u8> {
        (*self as u128).stream()
    }

    fn feed(&self, out: &mut Vec<u8>) {
        (*self as u128).feed(out);
    }

    fn sip_hash(&self, k0: u64, k1: u64) -> (hash: u64) {
        (*self as u128).sip_hash(k0, k1)
    }
}

impl Lookup<i128> for i128 {
    fn same_key(&self, probe: &i128) -> (same: bool) {
        *self == *probe
    }

    proof fn same_key_same_stream(&self, probe: &i128) {
    }
}

impl Plain for i128 {
    proof fn view_is_self(self) {
    }
}

impl SipHash for isize {
    open spec fn stream(&self) -> Seq<u8> {
        (*self as i64).stream()
    }

    fn feed(&self, out: &mut Vec<u8>) {
        (*self as i64).feed(out);
    }

    fn sip_hash(&self, k0: u64, k1: u64) -> (hash: u64) {
        (*self as i64).sip_hash(k0, k1)
    }
}

impl Lookup<isize> for isize {
    fn same_key(&self, probe: &isize) -> (same: bool) {
        *self == *probe
    }

    proof fn same_key_same_stream(&self, probe: &isize) {
    }
}

impl Plain for isize {
    proof fn view_is_self(self) {
    }
}

impl SipHash for bool {
    open spec fn stream(&self) -> Seq<u8> {
        seq![if *self {
            1u8
        } else {
            0u8
        }]
    }

    fn feed(&self, out: &mut Vec<u8>) {
        out.push(if *self {
            1
        } else {
            0
        });
    }
}

impl Lookup<bool> for bool {
    fn same_key(&self, probe: &bool) -> (same: bool) {
        *self == *probe
    }

    proof fn same_key_same_stream(&self, probe: &bool) {
    }
}

impl Plain for bool {
    proof fn view_is_self(self) {
    }
}

impl SipHash for char {
    open spec fn stream(&self) -> Seq<u8> {
        (*self as u32).stream()
    }

    fn feed(&self, out: &mut Vec<u8>) {
        (*self as u32).feed(out);
    }

    fn sip_hash(&self, k0: u64, k1: u64) -> (hash: u64) {
        (*self as u32).sip_hash(k0, k1)
    }
}

impl Lookup<char> for char {
    fn same_key(&self, probe: &char) -> (same: bool) {
        *self == *probe
    }

    proof fn same_key_same_stream(&self, probe: &char) {
    }
}

impl Plain for char {
    proof fn view_is_self(self) {
    }
}

impl SipHash for () {
    open spec fn stream(&self) -> Seq<u8> {
        Seq::empty()
    }

    fn feed(&self, out: &mut Vec<u8>) {
        assert(out@ + self.stream() =~= out@);
    }
}

impl Lookup<()> for () {
    fn same_key(&self, probe: &()) -> (same: bool) {
        true
    }

    proof fn same_key_same_stream(&self, probe: &()) {
    }
}

/// What the elements of a sequence feed, one after the other.
pub open spec fn elements_stream<K: SipHash>(s: Seq<K>) -> Seq<u8>
    decreases s.len(),
{
    if s.len() == 0 {
        Seq::empty()
    } else {
        elements_stream(s.drop_last()) + s.last().stream()
    }
}

impl<K: Plain, const N: usize> SipHash for [K; N] {
    open spec fn stream(&self) -> Seq<u8> {
        le_bytes(N as u64) + elements_stream(self@)
    }

    fn feed(&self, out: &mut Vec<u8>) {
        (N as u64).feed(out);
        let ghost start = out@;
        let mut i: usize = 0;
        assert(start + elements_stream(self@.take(0)) =~= start);
        while i < N
            invariant
                i <= N == self@.len(),
                out@ == start + elements_stream(self@.take(i as int)),
            decreases N - i,
        {
            self[i].feed(out);
            proof {
                let next = self@.take(i + 1);
                assert(next.drop_last() =~= self@.take(i as int));
                assert(start + elements_stream(next) =~= start + elements_stream(next.drop_last())
                    + next.last().stream());
            }
            i = i + 1;
        }
        assert(self@.take(N as int) =~= self@);
        assert(out@ =~= old(out)@ + self.stream());
    }
}

impl<K: Plain, const N: usize> Lookup<[K; N]> for [K; N] {
    fn same_key(&self, probe: &[K; N]) -> (same: bool) {
        let mut i: usize = 0;
        while i < N
            invariant
                i <= N == self@.len() == probe@.len(),
                forall|j: int| 0 <= j < i ==> self@[j] == probe@[j],
            decreases N - i,
        {
            proof {
                self@[i as int].view_is_self();
                probe@[i as int].view_is_self();
            }
            if !self[i].same_key(&probe[i]) {
                return false;
            }
            i = i + 1;
        }
        assert(self@ =~= probe@);
        true
    }

    proof fn same_key_same_stream(&self, probe: &[K; N]) {
    }
}

/// Bytes feed themselves.
proof fn lemma_elements_of_bytes(bytes: Seq<u8>)
    ensures
        elements_stream(bytes) == bytes,
    decreases bytes.len(),
{
    if bytes.len() > 0 {
        lemma_elements_of_bytes(bytes.drop_last());
    }
    assert(elements_stream(bytes) =~= bytes);
}

impl<const N: usize> Lookup<[u8]> for [u8; N] {
    fn same_key(&self, probe: &[u8]) -> (same: bool) {
        bytes_equal(self, probe)
    }

    proof fn same_key_same_stream(&self, probe: &[u8]) {
        lemma_elements_of_bytes(self@);
        assert(self@.len() == N);
        assert(probe.stream() == bytes_stream(probe@));
    }
}

impl<A: SipHash> SipHash for (A,) {
    open spec fn stream(&self) -> Seq<u8> {
        self.0.stream()
    }

    fn feed(&self, out: &mut Vec<u8>) {
        self.0.feed(out);
    }
}

impl<A: Lookup<A>> Lookup<(A,)> for (A,) {
    fn same_key(&self, probe: &(A,)) -> (same: bool) {
        self.0.same_key(&probe.0)
    }

    proof fn same_key_same_stream(&self, probe: &(A,)) {
        self.0.same_key_same_stream(&probe.0);
    }
}

impl<A: SipHash, B: SipHash> SipHash for (A, B) {
    open spec fn stream(&self) -> Seq<u8> {
        self.0.stream() + self.1.stream()
    }

    fn feed(&self, out: &mut Vec<u8>) {
        self.0.feed(out);
        self.1.feed(out);
        assert(out@ =~= old(out)@ + self.stream());
    }
}

impl<A: Lookup<A>, B: Lookup<B>> Lookup<(A, B)> for (A, B) {
    fn same_key(&self, probe: &(A, B)) -> (same: bool) {
        self.0.same_key(&probe.0)
            && self.1.same_key(&probe.1)
    }

    proof fn same_key_same_stream(&self, probe: &(A, B)) {
        self.0.same_key_same_stream(&probe.0);
        self.1.same_key_same_stream(&probe.1);
    }
}

impl<A: SipHash, B: SipHash, C: SipHash> SipHash for (A, B, C) {
    open spec fn stream(&self) -> Seq<u8> {
        self.0.stream() + self.1.stream() + self.2.stream()
    }

    fn feed(&self, out: &mut Vec<u8>) {
        self.0.feed(out);
        self.1.feed(out);
        self.2.feed(out);
        assert(out@ =~= old(out)@ + self.stream());
    }
}

impl<A: Lookup<A>, B: Lookup<B>, C: Lookup<C>> Lookup<(A, B, C)> for (A, B, C) {
    fn same_key(&self, probe: &(A, B, C)) -> (same: bool) {
        self.0.same_key(&probe.0)
            && self.1.same_key(&probe.1)
            && self.2.same_key(&probe.2)
    }

    proof fn same_key_same_stream(&self, probe: &(A, B, C)) {
        self.0.same_key_same_stream(&probe.0);
        self.1.same_key_same_stream(&probe.1);
        self.2.same_key_same_stream(&probe.2);
    }
}

impl<A: SipHash, B: SipHash, C: SipHash, D: SipHash> SipHash for (A, B, C, D) {
    open spec fn stream(&self) -> Seq<u8> {
        self.0.stream() + self.1.stream() + self.2.stream() + self.3.stream()
    }

    fn feed(&self, out: &mut Vec<u8>) {
        self.0.feed(out);
        self.1.feed(out);
        self.2.feed(out);
        self.3.feed(out);
        assert(out@ =~= old(out)@ + self.stream());
    }
}

impl<A: Lookup<A>, B: Lookup<B>, C: Lookup<C>, D: Lookup<D>> Lookup<(A, B, C, D)> for (A, B, C, D) {
    fn same_key(&self, probe: &(A, B, C, D)) -> (same: bool) {
        self.0.same_key(&probe.0)
            && self.1.same_key(&probe.1)
            && self.2.same_key(&probe.2)
            && self.3.same_key(&probe.3)
    }

    proof fn same_key_same_stream(&self, probe: &(A, B, C, D)) {
        self.0.same_key_same_stream(&probe.0);
        self.1.same_key_same_stream(&probe.1);
        self.2.same_key_same_stream(&probe.2);
        self.3.same_key_same_stream(&probe.3);
    }
}

impl<A: SipHash, B: SipHash, C: SipHash, D: SipHash, E: SipHash> SipHash for (A, B, C, D, E) {
    open spec fn stream(&self) -> Seq<u8> {
        self.0.stream() + self.1.stream() + self.2.stream() + self.3.stream() + self.4.stream()
    }

    fn feed(&self, out: &mut Vec<u8>) {
        self.0.feed(out);
        self.1.feed(out);
        self.2.feed(out);
        self.3.feed(out);
        self.4.feed(out);
        assert(out@ =~= old(out)@ + self.stream());
    }
}

impl<A: Lookup<A>, B: Lookup<B>, C: Lookup<C>, D: Lookup<D>, E: Lookup<E>> Lookup<(A, B, C, D, E)> for (A, B, C, D, E) {
    fn same_key(&self, probe: &(A, B, C, D, E)) -> (same: bool) {
        self.0.same_key(&probe.0)
            && self.1.same_key(&probe.1)
            && self.2.same_key(&probe.2)
            && self.3.same_key(&probe.3)
            && self.4.same_key(&probe.4)
    }

    proof fn same_key_same_stream(&self, probe: &(A, B, C, D, E)) {
        self.0.same_key_same_stream(&probe.0);
        self.1.same_key_same_stream(&probe.1);
        self.2.same_key_same_stream(&probe.2);
        self.3.same_key_same_stream(&probe.3);
        self.4.same_key_same_stream(&probe.4);
    }
}

impl<A: SipHash, B: SipHash, C: SipHash, D: SipHash, E: SipHash, F: SipHash> SipHash for (A, B, C, D, E, F) {
    open spec fn stream(&self) -> Seq<u8> {
        self.0.stream() + self.1.stream() + self.2.stream() + self.3.stream() + self.4.stream() + self.5.stream()
    }

    fn feed(&self, out: &mut Vec<u8>) {
        self.0.feed(out);
        self.1.feed(out);
        self.2.feed(out);
        self.3.feed(out);
        self.4.feed(out);
        self.5.feed(out);
        assert(out@ =~= old(out)@ + self.stream());
    }
}

impl<A: Lookup<A>, B: Lookup<B>, C: Lookup<C>, D: Lookup<D>, E: Lookup<E>, F: Lookup<F>> Lookup<(A, B, C, D, E, F)> for (A, B, C, D, E, F) {
    fn same_key(&self, probe: &(A, B, C, D, E, F)) -> (same: bool) {
        self.0.same_key(&probe.0)
            && self.1.same_key(&probe.1)
            && self.2.same_key(&probe.2)
            && self.3.same_key(&probe.3)
            && self.4.same_key(&probe.4)
            && self.5.same_key(&probe.5)
    }

    proof fn same_key_same_stream(&self, probe: &(A, B, C, D, E, F)) {
        self.0.same_key_same_stream(&probe.0);
        self.1.same_key_same_stream(&probe.1);
        self.2.same_key_same_stream(&probe.2);
        self.3.same_key_same_stream(&probe.3);
        self.4.same_key_same_stream(&probe.4);
        self.5.same_key_same_stream(&probe.5);
    }
}

/// Unsigned numbers feed as many bytes as they have, and `usize` eight: each byte is worth
/// 256 times the one before, and they add up to the number.
pub proof fn law_unsigned_numbers_feed_their_bytes(a: u8, b: u16, c: u32, d: u128, e: usize)
    ensures
        a.stream() == seq![a],
        ({
            let s = b.stream();
            s.len() == 2 && b == s[0] + 0x100 * s[1]
        }),
        ({
            let s = c.stream();
            s.len() == 4 && c == s[0] + 0x100 * s[1] + 0x1_0000 * s[2] + 0x100_0000 * s[3]
        }),
        ({
            let s = d.stream();
            s.len() == 16 && d == s[0] + 0x100 * s[1] + 0x1_0000 * s[2] + 0x100_0000 * s[3] + 0x1_0000_0000 * s[4] + 0x100_0000_0000 * s[5] + 0x1_0000_0000_0000 * s[6] + 0x100_0000_0000_0000 * s[7] + 0x1_0000_0000_0000_0000 * s[8] + 0x100_0000_0000_0000_0000 * s[9] + 0x1_0000_0000_0000_0000_0000 * s[10] + 0x100_0000_0000_0000_0000_0000 * s[11] + 0x1_0000_0000_0000_0000_0000_0000 * s[12] + 0x100_0000_0000_0000_0000_0000_0000 * s[13] + 0x1_0000_0000_0000_0000_0000_0000_0000 * s[14] + 0x100_0000_0000_0000_0000_0000_0000_0000 * s[15]
        }),
        ({
            let s = e.stream();
            s.len() == 8 && e == s[0] + 0x100 * s[1] + 0x1_0000 * s[2] + 0x100_0000 * s[3] + 0x1_0000_0000 * s[4] + 0x100_0000_0000 * s[5] + 0x1_0000_0000_0000 * s[6] + 0x100_0000_0000_0000 * s[7]
        }),
{
    law_le_bytes_add_up(b as u64);
    law_le_bytes_add_up(c as u64);
    law_le_bytes_add_up(e as u64);
    let low = d as u64;
    let high = (d >> 64u128) as u64;
    law_le_bytes_add_up(low);
    law_le_bytes_add_up(high);
    assert(d == (d as u64) + 0x1_0000_0000_0000_0000 * ((d >> 64u128) as u64)) by (bit_vector);
    assert forall|i: int| 0 <= i < 8 implies #[trigger] d.stream()[i] == le_bytes(low)[i]
        && d.stream()[i + 8] == le_bytes(high)[i] by {}
    assert(d.stream()[8] == le_bytes(high)[0]);
    assert(d.stream()[9] == le_bytes(high)[1]);
    assert(d.stream()[10] == le_bytes(high)[2]);
    assert(d.stream()[11] == le_bytes(high)[3]);
    assert(d.stream()[12] == le_bytes(high)[4]);
    assert(d.stream()[13] == le_bytes(high)[5]);
    assert(d.stream()[14] == le_bytes(high)[6]);
    assert(d.stream()[15] == le_bytes(high)[7]);
}

/// A signed number feeds what the unsigned number of its width feeds that is equal to it,
/// or larger by the number of values of the width where it is negative; an `isize` that
/// of 64 bits.
pub proof fn law_signed_numbers_feed_their_complement(
    a: i8,
    b: i16,
    c: i32,
    d: i64,
    e: i128,
    f: isize,
    ua: u8,
    ub: u16,
    uc: u32,
    ud: u64,
    ue: u128,
    uf: u64,
)
    requires
        ua == a || ua == a + 0x100,
        ub == b || ub == b + 0x1_0000,
        uc == c || uc == c + 0x1_0000_0000,
        ud == d || ud == d + 0x1_0000_0000_0000_0000,
        ue == e || ue == e + 0x1_0000_0000_0000_0000_0000_0000_0000_0000,
        uf == f || uf == f + 0x1_0000_0000_0000_0000,
    ensures
        a.stream() == ua.stream(),
        b.stream() == ub.stream(),
        c.stream() == uc.stream(),
        d.stream() == ud.stream(),
        e.stream() == ue.stream(),
        f.stream() == uf.stream(),
{
    assert((a as u8) == a || (a as u8) == a + 0x100) by (bit_vector);
    assert((b as u16) == b || (b as u16) == b + 0x1_0000) by (bit_vector);
    assert((c as u32) == c || (c as u32) == c + 0x1_0000_0000) by (bit_vector);
    assert((d as u64) == d || (d as u64) == d + 0x1_0000_0000_0000_0000) by (bit_vector);
    assert((e as u128) == e || (e as u128) == e + 0x1_0000_0000_0000_0000_0000_0000_0000_0000)
        by (bit_vector);
    let g = f as i64;
    assert(g == f);
    assert((g as u64) == g || (g as u64) == g + 0x1_0000_0000_0000_0000) by (bit_vector);
}

/// A truth value feeds one byte, a letter the four bytes of its code point, and nothing
/// feeds nothing.
pub proof fn law_flags_and_letters_feed_their_bytes(flag: bool, letter: char, code: u32)
    requires
        code == letter as u32,
    ensures
        flag ==> flag.stream() == seq![1u8],
        !flag ==> flag.stream() == seq![0u8],
        letter.stream() == code.stream(),
        ().stream() == Seq::<u8>::empty(),
{
}

/// An array feeds its length, as eight bytes that add up to it, and then what its
/// elements feed, one after the other.
pub proof fn law_arrays_feed_their_length_and_elements<K: Plain, const N: usize>(array: [K; N])
    ensures
        ({
            let s = array.stream();
            &&& s.len() >= 8
            &&& N == s[0] + 0x100 * s[1] + 0x1_0000 * s[2] + 0x100_0000 * s[3] + 0x1_0000_0000 * s[4] + 0x100_0000_0000 * s[5] + 0x1_0000_0000_0000 * s[6] + 0x100_0000_0000_0000 * s[7]
            &&& s.skip(8) == array@.map_values(|k: K| k.stream()).flatten()
        }),
{
    law_le_bytes_add_up(N as u64);
    lemma_elements_flatten(array@);
    let s = array.stream();
    assert(s.skip(8) =~= elements_stream(array@));
}

/// What elements feed, as one sequence.
proof fn lemma_elements_flatten<K: SipHash>(s: Seq<K>)
    ensures
        elements_stream(s) == s.map_values(|k: K| k.stream()).flatten(),
    decreases s.len(),
{
    let streams = s.map_values(|k: K| k.stream());
    streams.lemma_flatten_and_flatten_alt_are_equivalent();
    if s.len() > 0 {
        lemma_elements_flatten(s.drop_last());
        let front = s.drop_last().map_values(|k: K| k.stream());
        front.lemma_flatten_and_flatten_alt_are_equivalent();
        assert(streams.drop_last() =~= front);
        assert(streams.last() == s.last().stream());
    }
}

/// A tuple feeds what its fields feed, in order.
pub proof fn law_tuples_feed_their_fields<A: SipHash, B: SipHash, C: SipHash, D: SipHash, E: SipHash, F: SipHash>(
    a: A,
    b: B,
    c: C,
    d: D,
    e: E,
    f: F,
)
    ensures
        (a,).stream() == a.stream(),
        (a, b).stream() == a.stream() + b.stream(),
        (a, b, c).stream() == a.stream() + b.stream() + c.stream(),
        (a, b, c, d).stream() == a.stream() + b.stream() + c.stream() + d.stream(),
        (a, b, c, d, e).stream() == a.stream() + b.stream() + c.stream() + d.stream() + e.stream(),
        (a, b, c, d, e, f).stream() == a.stream() + b.stream() + c.stream() + d.stream()
            + e.stream() + f.stream(),
{
}

} // verus!
