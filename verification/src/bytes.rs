//! Byte strings: equality, order and little-endian numbers.
use crate::calls::outcome_of_two;
use std::cmp::Ordering;
use std::hash::{Hash, Hasher};
use vstd::prelude::*;

verus! {

/// The eight bytes of `x`, least significant first.
pub open spec fn le_bytes(x: u64) -> Seq<u8> {
    Seq::new(8, |i: int| ((x >> ((8 * i) as u64)) & 0xff) as u8)
}

/// The eight bytes of `x`, least significant first.
pub fn to_le_bytes(x: u64) -> (bytes: [u8; 8])
    ensures
        bytes@ == le_bytes(x),
{
    let bytes: [u8; 8] = [
        (x & 0xff) as u8,
        ((x >> 8u64) & 0xff) as u8,
        ((x >> 16u64) & 0xff) as u8,
        ((x >> 24u64) & 0xff) as u8,
        ((x >> 32u64) & 0xff) as u8,
        ((x >> 40u64) & 0xff) as u8,
        ((x >> 48u64) & 0xff) as u8,
        ((x >> 56u64) & 0xff) as u8,
    ];
    assert(x >> 0u64 == x) by (bit_vector);
    assert(bytes@ =~= le_bytes(x));
    bytes
}

/// Whether two byte strings hold the same bytes.
pub fn bytes_equal(a: &[u8], b: &[u8]) -> (same: bool)
    ensures
        same == (a@ == b@),
{
    if a.len() != b.len() {
        return false;
    }
    let mut i: usize = 0;
    while i < a.len()
        invariant
            i <= a.len() == b.len(),
            forall|j: int| 0 <= j < i ==> a[j] == b[j],
        decreases a.len() - i,
    {
        if a[i] != b[i] {
            return false;
        }
        i = i + 1;
    }
    assert(a@ =~= b@);
    true
}

/// The [`Hash`] of a byte slice feeds the slice to a hasher. Nothing is said of
/// what the hasher makes of it.
#[verifier::external_body]
fn hash_slice<H: Hasher>(bytes: &[u8], state: &mut H) {
    bytes.hash(state);
}

/// The [`Hash`] of `slice` feeds the hasher behind `state`.
pub closed spec fn feeds<H: Hasher>(slice: &[u8], state: &mut H) -> bool {
    call_ensures(hash_slice::<H>, (slice, state), ())
}

/// Feeds a hasher as the [`Hash`] of a byte slice does.
pub(crate) fn feed_slice<H: Hasher>(bytes: &[u8], state: &mut H)
    ensures
        exists|slice: &[u8], fed: &mut H| #[trigger]
            feeds(slice, fed) && slice@ == bytes@ && *fed == *old(state) && *final(fed)
                == *final(state),
{
    outcome_of_two(hash_slice::<H>, bytes, state);
    proof {
        let fed = choose|fed: &mut H| #[trigger]
            call_ensures(hash_slice::<H>, (bytes, fed), ()) && *fed == *old(state) && *final(fed)
                == *state;
        assert(feeds(bytes, fed));
    }
}

/// Dictionary order: at the first place where the two differ, `a` has ended or
/// holds the smaller byte.
pub open spec fn bytes_before(a: Seq<u8>, b: Seq<u8>) -> bool {
    exists|n: int| #[trigger] first_difference(a, b, n) && n < b.len() && (n == a.len() || a[n] < b[n])
}

/// The strings agree before `n` and not at `n`, where at least one goes on.
pub open spec fn first_difference(a: Seq<u8>, b: Seq<u8>, n: int) -> bool {
    &&& 0 <= n <= a.len()
    &&& n <= b.len()
    &&& n < a.len() || n < b.len()
    &&& forall|j: int| 0 <= j < n ==> a[j] == b[j]
    &&& n < a.len() && n < b.len() ==> a[n] != b[n]
}

/// How `a` stands to `b` in dictionary order.
pub open spec fn bytes_ordering(a: Seq<u8>, b: Seq<u8>) -> Ordering {
    if a == b {
        Ordering::Equal
    } else if bytes_before(a, b) {
        Ordering::Less
    } else {
        Ordering::Greater
    }
}

/// Where two byte strings first differ; the common length where they do not.
fn mismatch(a: &[u8], b: &[u8]) -> (n: usize)
    ensures
        n <= a@.len(),
        n <= b@.len(),
        a@ == b@ ==> n == a@.len(),
        a@ != b@ ==> first_difference(a@, b@, n as int),
        forall|m: int| #[trigger] first_difference(a@, b@, m) ==> m == n,
{
    let mut i: usize = 0;
    while i < a.len() && i < b.len() && a[i] == b[i]
        invariant
            i <= a.len(),
            i <= b.len(),
            forall|j: int| 0 <= j < i ==> a[j] == b[j],
        decreases a.len() - i,
    {
        i = i + 1;
    }
    proof {
        if i == a.len() && i == b.len() {
            assert(a@ =~= b@);
        } else {
            lemma_difference_unique(a@, b@, i as int);
        }
    }
    i
}

/// How `a` stands to `b` in dictionary order.
pub fn bytes_compare(a: &[u8], b: &[u8]) -> (order: Ordering)
    ensures
        order == bytes_ordering(a@, b@),
{
    let n: usize = mismatch(a, b);
    if n == b.len() {
        if n == a.len() {
            assert(a@ =~= b@);
            Ordering::Equal
        } else {
            Ordering::Greater
        }
    } else if n == a.len() || a[n] < b[n] {
        Ordering::Less
    } else {
        Ordering::Greater
    }
}

/// Two strings first differ in one place only.
proof fn lemma_difference_unique(a: Seq<u8>, b: Seq<u8>, n: int)
    requires
        first_difference(a, b, n),
    ensures
        a != b,
        forall|m: int| #[trigger] first_difference(a, b, m) ==> m == n,
{
    assert forall|m: int| #[trigger] first_difference(a, b, m) implies m == n by {
        if m < n {
            assert(a[m] == b[m]);
        } else if n < m {
            assert(a[n] == b[n]);
        }
    }
}

/// Two different strings differ first somewhere at or after `from`, where all
/// before `from` agrees.
proof fn lemma_difference_exists(a: Seq<u8>, b: Seq<u8>, from: int) -> (n: int)
    requires
        a != b,
        0 <= from <= a.len(),
        from <= b.len(),
        forall|j: int| 0 <= j < from ==> a[j] == b[j],
    ensures
        first_difference(a, b, n),
    decreases a.len() - from,
{
    if from < a.len() && from < b.len() && a[from] == b[from] {
        lemma_difference_exists(a, b, from + 1)
    } else {
        if from == a.len() && from == b.len() {
            assert(a =~= b);
        }
        from
    }
}

/// Dictionary order is a strict total order: no string comes before itself, of
/// two different strings exactly one comes first, and the relation carries over
/// a string in the middle.
pub proof fn law_dictionary_order_is_total(a: Seq<u8>, b: Seq<u8>, c: Seq<u8>)
    ensures
        !bytes_before(a, a),
        a != b ==> (bytes_before(a, b) <==> !bytes_before(b, a)),
        bytes_before(a, b) && bytes_before(b, c) ==> bytes_before(a, c),
{
    if a != b {
        let n = lemma_difference_exists(a, b, 0);
        lemma_difference_unique(a, b, n);
        assert(first_difference(b, a, n));
        lemma_difference_unique(b, a, n);
    }
    if bytes_before(a, b) && bytes_before(b, c) {
        let m = choose|n: int| #[trigger]
            first_difference(a, b, n) && n < b.len() && (n == a.len() || a[n] < b[n]);
        let n = choose|n: int| #[trigger]
            first_difference(b, c, n) && n < c.len() && (n == b.len() || b[n] < c[n]);
        let k = if m < n { m } else { n };
        assert forall|j: int| 0 <= j < k implies a[j] == c[j] by {
            assert(a[j] == b[j]);
            assert(b[j] == c[j]);
        }
        if m < n {
            assert(b[m] == c[m]);
        } else if n < m {
            assert(a[n] == b[n]);
        }
        assert(first_difference(a, c, k));
    }
}

/// The eight bytes of a number, each worth 256 times the one before, add up to it.
pub proof fn law_le_bytes_add_up(x: u64)
    ensures
        le_bytes(x).len() == 8,
        x == le_bytes(x)[0] + 0x100 * le_bytes(x)[1] + 0x1_0000 * le_bytes(x)[2] + 0x100_0000
            * le_bytes(x)[3] + 0x1_0000_0000 * le_bytes(x)[4] + 0x100_0000_0000 * le_bytes(x)[5]
            + 0x1_0000_0000_0000 * le_bytes(x)[6] + 0x100_0000_0000_0000 * le_bytes(x)[7],
{
    assert(x >> 0u64 == x) by (bit_vector);
    assert(x == ((x & 0xff) as u8) + 0x100 * (((x >> 8u64) & 0xff) as u8) + 0x1_0000 * (((x
        >> 16u64) & 0xff) as u8) + 0x100_0000 * (((x >> 24u64) & 0xff) as u8) + 0x1_0000_0000 * (((x
        >> 32u64) & 0xff) as u8) + 0x100_0000_0000 * (((x >> 40u64) & 0xff) as u8)
        + 0x1_0000_0000_0000 * (((x >> 48u64) & 0xff) as u8) + 0x100_0000_0000_0000 * (((x >> 56u64)
        & 0xff) as u8)) by (bit_vector);
}

/// The bytes that come of a number add up to it.
pub proof fn law_to_le_bytes_adds_up(x: u64, bytes: [u8; 8])
    requires
        call_ensures(to_le_bytes, (x,), bytes),
    ensures
        x == bytes@[0] + 0x100 * bytes@[1] + 0x1_0000 * bytes@[2] + 0x100_0000 * bytes@[3]
            + 0x1_0000_0000 * bytes@[4] + 0x100_0000_0000 * bytes@[5] + 0x1_0000_0000_0000
            * bytes@[6] + 0x100_0000_0000_0000 * bytes@[7],
{
    law_le_bytes_add_up(x);
}

/// Two byte strings are the same if they hold the same bytes, all of them.
pub proof fn law_bytes_are_compared_whole(a: &[u8], b: &[u8], same: bool)
    requires
        call_ensures(bytes_equal, (a, b), same),
    ensures
        same <==> a@.len() == b@.len() && forall|i: int|
            0 <= i < a@.len() ==> #[trigger] a@[i] == b@[i],
{
    if forall|i: int| 0 <= i < a@.len() ==> #[trigger] a@[i] == b@[i] {
        if a@.len() == b@.len() {
            assert(a@ =~= b@);
        }
    }
}

/// Dictionary order: behind a common beginning the smaller byte decides, whatever
/// follows; a string comes before every longer one that begins with it; and a string is
/// equal to itself alone.
pub proof fn law_dictionary_order(
    beginning: Seq<u8>,
    x: u8,
    y: u8,
    rest: Seq<u8>,
    other_rest: Seq<u8>,
)
    requires
        x < y,
    ensures
        bytes_ordering(beginning + seq![x] + rest, beginning + seq![y] + other_rest)
            == Ordering::Less,
        bytes_ordering(beginning + seq![y] + rest, beginning + seq![x] + other_rest)
            == Ordering::Greater,
        bytes_ordering(beginning, beginning + seq![x] + rest) == Ordering::Less,
        bytes_ordering(beginning + seq![x] + rest, beginning) == Ordering::Greater,
        bytes_ordering(beginning, beginning) == Ordering::Equal,
        rest != other_rest ==> bytes_ordering(rest, other_rest) != Ordering::Equal,
{
    let a = beginning + seq![x] + rest;
    let n: int = a.len() - rest.len() - 1;
    let b = beginning + seq![y] + other_rest;
    let c = beginning + seq![y] + rest;
    let d = beginning + seq![x] + other_rest;
    assert(first_difference(a, b, n));
    lemma_difference_unique(a, b, n);
    assert(first_difference(c, d, n));
    lemma_difference_unique(c, d, n);
    assert(first_difference(beginning, a, n));
    lemma_difference_unique(beginning, a, n);
    assert(first_difference(a, beginning, n));
    lemma_difference_unique(a, beginning, n);
}

/// Two byte strings are equal, or one comes first, as the order says.
pub proof fn law_compare_follows_the_order(a: &[u8], b: &[u8], order: Ordering)
    requires
        call_ensures(bytes_compare, (a, b), order),
    ensures
        order == Ordering::Equal <==> a@ == b@,
        order == bytes_ordering(a@, b@),
{
    if a@ != b@ {
        let n = lemma_difference_exists(a@, b@, 0);
    }
}

/// What feeds a hasher is the [`Hash`] of a slice of the bytes, all of them, and of
/// nothing else.
proof fn law_feeding_is_a_call<H: Hasher>(bytes: &[u8], state: &mut H)
    requires
        call_ensures(feed_slice::<H>, (bytes, state), ()),
    ensures
        exists|slice: &[u8], fed: &mut H| #[trigger]
            call_ensures(hash_slice::<H>, (slice, fed), ()) && slice@ == bytes@ && *fed
                == *old(state) && *final(fed) == *final(state),
        forall|slice: &[u8], fed: &mut H| #[trigger]
            feeds(slice, fed) ==> call_ensures(hash_slice::<H>, (slice, fed), ()),
{
    let (slice, fed) = choose|slice: &[u8], fed: &mut H| #[trigger]
        feeds(slice, fed) && slice@ == bytes@ && *fed == *old(state) && *final(fed)
            == *final(state);
    assert(call_ensures(hash_slice::<H>, (slice, fed), ()));
}

} // verus!
