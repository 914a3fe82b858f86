//! `SmallKey`: a 16-byte owned byte string that stores up to 15 bytes inline and
//! spills longer keys to the heap.
//!
//! The priority queue holds one key per tracked item. With `Box<[u8]>` every key
//! is a separate heap allocation (plus allocator rounding) reached through a
//! pointer. Most real keys (IDs, IPv4 addresses, short tokens) fit in 15 bytes, so
//! `SmallKey` keeps those in the slot itself: no allocation, no rounding, no
//! pointer chase on compare. A longer key is a pointer to its `Box<[u8]>`.
//!
//! An inline key is its 15 bytes and its length. A length takes 16 of the values of
//! its byte; one of the others tells that the bytes are on the heap, so that no byte
//! is spent on telling the two forms apart.
use crate::bytes::{bytes_compare, bytes_equal, bytes_ordering, feed_slice, feeds};
use crate::debug::{begin, begins, end, ends, write_field, writes};
use crate::sip::{bytes_stream, SipHash};
use crate::traits::{FromBorrowed, Lookup};
use crate::vectors::{into_vec, law_records_are_calls, trimmed, unboxed, unboxes_to};
use std::borrow::Borrow;
use std::cmp::Ordering;
use std::hash::{Hash, Hasher};
use vstd::prelude::*;

verus! {

/// Largest key stored without a heap allocation.
pub const INLINE_CAP: usize = 15;

/// The tag of a key whose bytes are on the heap.
const HEAP_TAG: u8 = 0xFF;

/// The length of an inline key.
enum InlineLen {
    L0,
    L1,
    L2,
    L3,
    L4,
    L5,
    L6,
    L7,
    L8,
    L9,
    L10,
    L11,
    L12,
    L13,
    L14,
    L15,
}

impl InlineLen {
    spec fn value(self) -> nat {
        match self {
            InlineLen::L0 => 0,
            InlineLen::L1 => 1,
            InlineLen::L2 => 2,
            InlineLen::L3 => 3,
            InlineLen::L4 => 4,
            InlineLen::L5 => 5,
            InlineLen::L6 => 6,
            InlineLen::L7 => 7,
            InlineLen::L8 => 8,
            InlineLen::L9 => 9,
            InlineLen::L10 => 10,
            InlineLen::L11 => 11,
            InlineLen::L12 => 12,
            InlineLen::L13 => 13,
            InlineLen::L14 => 14,
            InlineLen::L15 => 15,
        }
    }

    /// The length as a type of its own.
    fn of(len: usize) -> (inline: Self)
        requires
            len <= INLINE_CAP,
        ensures
            inline.value() == len,
    {
        match len {
            0 => InlineLen::L0,
            1 => InlineLen::L1,
            2 => InlineLen::L2,
            3 => InlineLen::L3,
            4 => InlineLen::L4,
            5 => InlineLen::L5,
            6 => InlineLen::L6,
            7 => InlineLen::L7,
            8 => InlineLen::L8,
            9 => InlineLen::L9,
            10 => InlineLen::L10,
            11 => InlineLen::L11,
            12 => InlineLen::L12,
            13 => InlineLen::L13,
            14 => InlineLen::L14,
            _ => InlineLen::L15,
        }
    }

    /// The length as a number.
    fn get(&self) -> (len: u8)
        ensures
            len == self.value(),
            len <= INLINE_CAP,
    {
        match self {
            InlineLen::L0 => 0,
            InlineLen::L1 => 1,
            InlineLen::L2 => 2,
            InlineLen::L3 => 3,
            InlineLen::L4 => 4,
            InlineLen::L5 => 5,
            InlineLen::L6 => 6,
            InlineLen::L7 => 7,
            InlineLen::L8 => 8,
            InlineLen::L9 => 9,
            InlineLen::L10 => 10,
            InlineLen::L11 => 11,
            InlineLen::L12 => 12,
            InlineLen::L13 => 13,
            InlineLen::L14 => 14,
            InlineLen::L15 => 15,
        }
    }
}

enum Repr {
    /// The first `len` bytes of `data`.
    Inline { data: [u8; INLINE_CAP], len: InlineLen },
    /// More bytes than fit inline.
    Heap { bytes: Box<Box<[u8]>> },
}

/// Owned byte key, 16 bytes, inline up to [`INLINE_CAP`] bytes. The view is its
/// bytes.
pub struct SmallKey {
    repr: Repr,
}

impl View for SmallKey {
    type V = Seq<u8>;

    closed spec fn view(&self) -> Seq<u8> {
        match self.repr {
            Repr::Inline { data, len } => data@.subrange(0, len.value() as int),
            Repr::Heap { bytes } => bytes@,
        }
    }
}

/// The bytes of a slice.
pub open spec fn bytes_of(slice: &[u8]) -> Seq<u8> {
    slice@
}

/// Whether a key of `len` bytes is kept on the heap.
pub open spec fn spills(len: nat) -> bool {
    len > INLINE_CAP
}

impl SmallKey {
    #[verifier::type_invariant]
    spec fn wf(self) -> bool {
        match self.repr {
            Repr::Inline { data, len } => true,
            Repr::Heap { bytes } => INLINE_CAP < bytes@.len() <= u32::MAX,
        }
    }

    /// Copies `bytes` into a new key, inline if it fits.
    pub fn new(bytes: &[u8]) -> (key: Self)
        requires
            bytes@.len() <= u32::MAX,
        ensures
            key@ == bytes@,
    {
        if bytes.len() <= INLINE_CAP {
            let mut data: [u8; INLINE_CAP] = [0u8; INLINE_CAP];
            let mut i: usize = 0;
            while i < bytes.len()
                invariant
                    i <= bytes@.len() <= INLINE_CAP,
                    forall|j: int| 0 <= j < i ==> data@[j] == bytes@[j],
                decreases bytes@.len() - i,
            {
                data[i] = bytes[i];
                i = i + 1;
            }
            let key = SmallKey { repr: Repr::Inline { data, len: InlineLen::of(bytes.len()) } };
            assert(key@ =~= bytes@);
            key
        } else {
            let mut copy: Vec<u8> = Vec::with_capacity(bytes.len());
            copy.extend_from_slice(bytes);
            assert(copy@ =~= bytes@);
            SmallKey { repr: Repr::Heap { bytes: Box::new(trimmed(copy)) } }
        }
    }

    /// The length of an inline key, a value that no inline key has for one on the
    /// heap.
    fn tag(&self) -> (tag: u8)
        ensures
            tag == (if spills(self@.len()) {
                HEAP_TAG as int
            } else {
                self@.len() as int
            }),
    {
        proof {
            use_type_invariant(self);
        }
        match &self.repr {
            Repr::Inline { data: _, len } => len.get(),
            Repr::Heap { bytes: _ } => HEAP_TAG,
        }
    }

    /// Whether the bytes live on the heap rather than inline.
    pub fn is_heap(&self) -> (heap: bool)
        ensures
            heap == spills(self@.len()),
    {
        self.tag() == HEAP_TAG
    }

    /// Heap bytes this key owns beyond its 16 inline bytes: 0 when inline, the key
    /// length when spilled. This is what a memory accountant should charge per key
    /// on top of `size_of::<SmallKey>()`. The pointer and length that lead to spilled
    /// bytes stand in a block of their own and are not charged, nor is what the
    /// allocator adds in rounding.
    pub fn heap_bytes(&self) -> (bytes: usize)
        ensures
            bytes == (if spills(self@.len()) {
                self@.len()
            } else {
                0
            }),
    {
        proof {
            use_type_invariant(self);
        }
        match &self.repr {
            Repr::Inline { data: _, len: _ } => 0,
            Repr::Heap { bytes } => bytes.len(),
        }
    }

    /// Heap bytes a key of `len` bytes would own, without constructing it.
    pub fn heap_bytes_for_len(len: usize) -> (bytes: usize)
        ensures
            bytes == (if spills(len as nat) {
                len
            } else {
                0
            }),
    {
        if len <= INLINE_CAP {
            0
        } else {
            len
        }
    }

    /// The bytes of the key, of which there are never more than `u32::MAX`.
    pub fn as_slice(&self) -> (bytes: &[u8])
        ensures
            bytes@ == self@,
            bytes@.len() <= u32::MAX,
    {
        proof {
            use_type_invariant(self);
        }
        match &self.repr {
            Repr::Inline { data, len } => {
                let all: &[u8] = data;
                &all[0..len.get() as usize]
            },
            Repr::Heap { bytes } => &***bytes,
        }
    }

    /// `vec` is the block of the key's bytes, made a vector in the same allocation.
    pub closed spec fn hands_over(self, vec: Vec<u8>) -> bool {
        match self.repr {
            Repr::Inline { data, len } => false,
            Repr::Heap { bytes } => unboxes_to(*bytes, vec),
        }
    }

    /// Consumes the key, returning its bytes. A heap key hands over its existing
    /// allocation; an inline key copies.
    pub fn into_vec(self) -> (bytes: Vec<u8>)
        ensures
            bytes@ == self@,
            spills(self@.len()) ==> self.hands_over(bytes),
    {
        proof {
            use_type_invariant(&self);
        }
        match self.repr {
            Repr::Inline { data, len } => {
                let all: &[u8] = &data;
                let end: usize = len.get() as usize;
                let mut copy: Vec<u8> = Vec::with_capacity(end);
                copy.extend_from_slice(&all[0..end]);
                assert(copy@ =~= self@);
                copy
            },
            Repr::Heap { bytes } => unboxed(*bytes),
        }
    }

    /// How the key stands to another: the order of their bytes.
    pub fn cmp(&self, other: &Self) -> (order: Ordering)
        ensures
            order == bytes_ordering(self@, other@),
    {
        bytes_compare(self.as_slice(), other.as_slice())
    }
}

impl std::fmt::Debug for SmallKey {
    /// Shows the key's bytes, and whether they are on the heap.
    fn fmt(&self, f: &mut std::fmt::Formatter<'_>) -> (result: std::fmt::Result)
        ensures
            exists|
                g: &mut std::fmt::Formatter<'_>,
                a: &mut std::fmt::DebugStruct<'_, '_>,
                b: &mut std::fmt::DebugStruct<'_, '_>,
                c: &mut std::fmt::DebugStruct<'_, '_>,
                bytes: &[u8],
                heap: bool,
            |
                {
                    &&& *g == *old(f)
                    &&& *final(g) == *final(f)
                    &&& #[trigger] begins(g, "SmallKey", *a)
                    &&& bytes@ == self@
                    &&& #[trigger] writes(a, "bytes", &bytes)
                    &&& *b == *final(a)
                    &&& heap == spills(self@.len())
                    &&& #[trigger] writes(b, "heap", &heap)
                    &&& *c == *final(b)
                    &&& #[trigger] ends(c, result)
                },
    {
        let mut out: std::fmt::DebugStruct<'_, '_> = begin(f, "SmallKey");
        write_field(&mut out, "bytes", &self.as_slice());
        write_field(&mut out, "heap", &self.is_heap());
        end(&mut out)
    }
}

impl Clone for SmallKey {
    fn clone(&self) -> (key: Self)
        ensures
            key@ == self@,
    {
        SmallKey::new(self.as_slice())
    }
}

impl PartialEq for SmallKey {
    fn eq(&self, other: &Self) -> (same: bool) {
        bytes_equal(self.as_slice(), other.as_slice())
    }
}

impl vstd::std_specs::cmp::PartialEqSpecImpl for SmallKey {
    open spec fn obeys_eq_spec() -> bool {
        true
    }

    open spec fn eq_spec(&self, other: &Self) -> bool {
        self@ == other@
    }
}

impl Eq for SmallKey {

}

impl PartialOrd for SmallKey {
    fn partial_cmp(&self, other: &Self) -> (order: Option<Ordering>) {
        Some(self.cmp(other))
    }
}

impl vstd::std_specs::cmp::PartialOrdSpecImpl for SmallKey {
    open spec fn obeys_partial_cmp_spec() -> bool {
        true
    }

    open spec fn partial_cmp_spec(&self, other: &Self) -> Option<Ordering> {
        Some(bytes_ordering(self@, other@))
    }
}

/// Hashes exactly like `[u8]` (and therefore like `Vec<u8>` / `Box<[u8]>`), so a
/// `&[u8]` probe finds a stored `SmallKey` in a lookup table.
impl Hash for SmallKey {
    fn hash<H: Hasher>(&self, state: &mut H)
        ensures
            exists|slice: &[u8], fed: &mut H| #[trigger]
                feeds(slice, fed) && slice@ == self@ && *fed == *old(state) && *final(fed)
                    == *final(state),
    {
        feed_slice(self.as_slice(), state)
    }
}

impl Borrow<[u8]> for SmallKey {
    fn borrow(&self) -> (bytes: &[u8])
        ensures
            bytes_of(bytes) == self@,
    {
        self.as_slice()
    }
}

impl AsRef<[u8]> for SmallKey {
    fn as_ref(&self) -> (bytes: &[u8])
        ensures
            bytes@ == self@,
    {
        self.as_slice()
    }
}

impl FromBorrowed<[u8]> for SmallKey {
    open spec fn fits(borrowed: &[u8]) -> bool {
        borrowed@.len() <= u32::MAX
    }

    fn from_borrowed(borrowed: &[u8]) -> (owned: Self) {
        SmallKey::new(borrowed)
    }
}

impl SipHash for SmallKey {
    open spec fn stream(&self) -> Seq<u8> {
        bytes_stream(self@)
    }

    fn feed(&self, out: &mut Vec<u8>) {
        self.as_slice().feed(out);
    }

    fn sip_hash(&self, k0: u64, k1: u64) -> (hash: u64) {
        self.as_slice().sip_hash(k0, k1)
    }
}

impl Lookup<[u8]> for SmallKey {
    fn same_key(&self, probe: &[u8]) -> (same: bool) {
        bytes_equal(self.as_slice(), probe)
    }

    proof fn same_key_same_stream(&self, probe: &[u8]) {
    }
}

impl Lookup<SmallKey> for SmallKey {
    fn same_key(&self, probe: &SmallKey) -> (same: bool) {
        bytes_equal(self.as_slice(), probe.as_slice())
    }

    proof fn same_key_same_stream(&self, probe: &SmallKey) {
    }
}

/// A key is hashed as its bytes are, whichever type holds them, so that a slice
/// finds a stored key.
pub proof fn law_hashes_like_its_bytes(
    key: SmallKey,
    slice: &[u8],
    vec: Vec<u8>,
    boxed: Box<[u8]>,
)
    requires
        key@ == slice@,
        key@ == vec@,
        key@ == boxed@,
    ensures
        key.stream() == slice.stream(),
        key.stream() == vec.stream(),
        key.stream() == boxed.stream(),
{
}

/// Every byte string of up to `u32::MAX` bytes can be made a key, and comes out of it
/// again as it went in, whichever way it is read and however often the key is copied.
pub proof fn law_keys_hold_their_bytes(
    bytes: &[u8],
    key: SmallKey,
    copy: SmallKey,
    borrowed: SmallKey,
    slice: &[u8],
    copy_slice: &[u8],
    borrowed_slice: &[u8],
    vec: Vec<u8>,
)
    requires
        bytes@.len() <= 0xffff_ffff,
        call_ensures(SmallKey::new, (bytes,), key),
        call_ensures(SmallKey::clone, (&key,), copy),
        call_ensures(SmallKey::from_borrowed, (bytes,), borrowed),
        call_ensures(SmallKey::as_slice, (&key,), slice),
        call_ensures(SmallKey::as_slice, (&copy,), copy_slice),
        call_ensures(SmallKey::as_slice, (&borrowed,), borrowed_slice),
        call_ensures(SmallKey::into_vec, (key,), vec),
    ensures
        call_requires(SmallKey::new, (bytes,)),
        call_requires(SmallKey::from_borrowed, (bytes,)),
        slice@ == bytes@,
        copy_slice@ == bytes@,
        borrowed_slice@ == bytes@,
        vec@ == bytes@,
{
}

/// A key of more than 15 bytes is on the heap and owns as many bytes there; a shorter one
/// is not and owns none.
pub proof fn law_keys_spill_beyond_fifteen_bytes(
    bytes: &[u8],
    key: SmallKey,
    heap: bool,
    owned: usize,
    len: usize,
    owned_for_len: usize,
)
    requires
        call_ensures(SmallKey::new, (bytes,), key),
        call_ensures(SmallKey::is_heap, (&key,), heap),
        call_ensures(SmallKey::heap_bytes, (&key,), owned),
        call_ensures(SmallKey::heap_bytes_for_len, (len,), owned_for_len),
    ensures
        heap <==> bytes@.len() > 15,
        bytes@.len() > 15 ==> owned == bytes@.len(),
        bytes@.len() <= 15 ==> owned == 0,
        len > 15 ==> owned_for_len == len,
        len <= 15 ==> owned_for_len == 0,
        INLINE_CAP == 15,
{
}

/// Keys are equal if their bytes are, and ordered as these are.
pub proof fn law_keys_are_compared_as_their_bytes(
    bytes: &[u8],
    other_bytes: &[u8],
    key: SmallKey,
    other: SmallKey,
    same: bool,
    order: Ordering,
    partial: Option<Ordering>,
)
    requires
        call_ensures(SmallKey::new, (bytes,), key),
        call_ensures(SmallKey::new, (other_bytes,), other),
        call_ensures(SmallKey::eq, (&key, &other), same),
        call_ensures(SmallKey::cmp, (&key, &other), order),
        call_ensures(SmallKey::partial_cmp, (&key, &other), partial),
    ensures
        same <==> bytes@ == other_bytes@,
        order == bytes_ordering(bytes@, other_bytes@),
        partial == Some(order),
{
}

/// A key feeds what a slice of its bytes feeds, and its clones stand for the same key.
pub proof fn law_keys_feed_as_their_bytes(key: SmallKey, copy: SmallKey, slice: &[u8])
    requires
        call_ensures(SmallKey::clone, (&key,), copy),
        slice@ == key@,
    ensures
        key.stream() == slice.stream(),
        copy@ == key@,
        copy.stream() == slice.stream(),
{
}

/// The bytes of a key that is on the heap are handed over as they stand there.
pub(crate) proof fn law_spilled_keys_hand_their_block_over(
    bytes: &[u8],
    key: SmallKey,
    vec: Vec<u8>,
)
    requires
        bytes@.len() > 15,
        call_ensures(SmallKey::new, (bytes,), key),
        call_ensures(SmallKey::into_vec, (key,), vec),
    ensures
        exists|block: Box<[u8]>| #[trigger]
            call_ensures(into_vec::<u8>, (block,), vec) && block@ == bytes@,
{
    match key.repr {
        Repr::Inline { data, len } => {},
        Repr::Heap { bytes: block } => {
            law_records_are_calls(vec, arbitrary::<&mut Vec<u8>>(), *block, 0u8, 0);
            assert(call_ensures(into_vec::<u8>, (*block,), vec));
        },
    }
}

} // verus!
