//! Vectors: their allocation, and sorting by rank.
use crate::calls::{outcome_of, outcome_of_two};
use crate::heap_order::rank_less;
use vstd::layout::size_of;
use vstd::prelude::*;

verus! {

/// [`Vec::capacity`]: how many elements the vector has room for, at least those
/// that it holds, and no more bytes of them than an allocation may have. How many
/// in between is up to the allocator, and is not said.
#[verifier::external_body]
pub(crate) fn vec_capacity<E>(vec: &Vec<E>) -> (capacity: usize)
    ensures
        capacity >= vec@.len(),
        capacity * size_of::<E>() <= isize::MAX,
{
    vec.capacity()
}

/// `room` is what the vector says it has room for.
pub closed spec fn has_room_for<E>(vec: Vec<E>, room: usize) -> bool {
    call_ensures(vec_capacity::<E>, (&vec,), room)
}

/// How many elements the vector has room for.
pub(crate) fn room_of<E>(vec: &Vec<E>) -> (room: usize)
    ensures
        room >= vec@.len(),
        room * size_of::<E>() <= isize::MAX,
        has_room_for(*vec, room),
{
    outcome_of(vec_capacity::<E>, vec)
}

/// [`Vec::reserve_exact`] makes room and keeps the elements. It panics where the
/// room would be larger than an allocation may be. How much room the allocator
/// gives is not said.
#[verifier::external_body]
pub(crate) fn reserve_exact<E>(vec: &mut Vec<E>, additional: usize)
    requires
        old(vec)@.len() + additional <= usize::MAX,
        (old(vec)@.len() + additional) * size_of::<E>() <= isize::MAX,
    ensures
        final(vec)@ == old(vec)@,
{
    vec.reserve_exact(additional);
}

/// Exactly `additional` more elements are reserved in the vector behind `vec`.
pub closed spec fn reserves<E>(vec: &mut Vec<E>, additional: usize) -> bool {
    call_ensures(reserve_exact::<E>, (vec, additional), ())
}

/// [`Vec::into_boxed_slice`] keeps the elements and gives up spare room.
#[verifier::external_body]
pub(crate) fn into_boxed_slice<E>(vec: Vec<E>) -> (slice: Box<[E]>)
    ensures
        slice@ == vec@,
{
    vec.into_boxed_slice()
}

/// `slice` is the vector without its spare room.
pub closed spec fn trims_to<E>(vec: Vec<E>, slice: Box<[E]>) -> bool {
    call_ensures(into_boxed_slice::<E>, (vec,), slice)
}

/// Gives up the spare room of a vector.
pub(crate) fn trimmed<E>(vec: Vec<E>) -> (slice: Box<[E]>)
    ensures
        slice@ == vec@,
        trims_to(vec, slice),
{
    outcome_of(into_boxed_slice::<E>, vec)
}

/// [`slice::into_vec`] keeps the elements and their allocation.
#[verifier::external_body]
pub(crate) fn into_vec<E>(slice: Box<[E]>) -> (vec: Vec<E>)
    ensures
        vec@ == slice@,
{
    slice.into_vec()
}

/// `vec` is the slice as a vector, in the same allocation.
pub closed spec fn unboxes_to<E>(slice: Box<[E]>, vec: Vec<E>) -> bool {
    call_ensures(into_vec::<E>, (slice,), vec)
}

/// Makes a vector of a slice.
pub(crate) fn unboxed<E>(slice: Box<[E]>) -> (vec: Vec<E>)
    ensures
        vec@ == slice@,
        unboxes_to(slice, vec),
{
    outcome_of(into_vec::<E>, slice)
}

/// `vec` was made with room for `capacity` elements.
pub closed spec fn made_for<E>(vec: Vec<E>, capacity: usize) -> bool {
    call_ensures(Vec::<E>::with_capacity, (capacity,), vec)
}

/// Makes an empty vector with room for `capacity` elements.
pub(crate) fn vec_for<E>(capacity: usize) -> (vec: Vec<E>)
    requires
        capacity * size_of::<E>() <= isize::MAX,
    ensures
        vec@ == Seq::<E>::empty(),
        made_for(vec, capacity),
{
    outcome_of(Vec::<E>::with_capacity, capacity)
}

/// `rank` gave `x` a rank that does not come after the one that it gave `y`.
pub open spec fn in_rank_order<E, F: Fn(&E) -> (u64, u64)>(rank: F, x: E, y: E) -> bool {
    exists|a: (u64, u64), b: (u64, u64)|
        {
            &&& #[trigger] call_ensures(rank, (&x,), a)
            &&& #[trigger] call_ensures(rank, (&y,), b)
            &&& !rank_less(b, a)
        }
}

/// [`slice::sort_unstable_by_key`] puts the elements in ascending order of the key
/// that `rank` gives them; pairs of numbers are ordered by the first number, then
/// by the second. Elements of equal rank come in any order.
#[verifier::external_body]
pub(crate) fn sort_by_rank<E, F: Fn(&E) -> (u64, u64)>(items: &mut Vec<E>, rank: F)
    requires
        forall|e: E| call_requires(rank, (&e,)),
        forall|e: E, a: (u64, u64), b: (u64, u64)|
            #[trigger] call_ensures(rank, (&e,), a) && #[trigger] call_ensures(rank, (&e,), b)
                ==> a == b,
    ensures
        final(items)@.to_multiset() == old(items)@.to_multiset(),
        forall|i: int, j: int|
            0 <= i < j < final(items)@.len() ==> in_rank_order(
                rank,
                #[trigger] final(items)@[i],
                #[trigger] final(items)@[j],
            ),
{
    items.sort_unstable_by_key(rank);
}

/// Whether a buffer of `n` elements is no larger than an allocation may be.
pub(crate) fn fits<E>(n: usize) -> (b: bool)
    ensures
        b == (n * size_of::<E>() <= isize::MAX),
{
    let each: usize = core::mem::size_of::<E>();
    assert(n * each <= u128::MAX) by (nonlinear_arith)
        requires
            0 <= n <= 0xffff_ffff_ffff_ffff,
            0 <= each <= 0xffff_ffff_ffff_ffff,
    ;
    let total: u128 = (n as u128) * (each as u128);
    total <= isize::MAX as u128
}

/// Brings the room of a vector back to `capacity` elements, so that it stays a
/// known constant for memory tracking.
pub(crate) fn restore_capacity<E>(vec: &mut Vec<E>, capacity: usize)
    requires
        old(vec)@.len() <= capacity,
        capacity * size_of::<E>() <= isize::MAX,
    ensures
        final(vec)@ == old(vec)@,
        exists|room: usize| #[trigger]
            has_room_for(*old(vec), room) && if room < capacity {
                exists|v: &mut Vec<E>| #[trigger]
                    reserves(v, (capacity - old(vec)@.len()) as usize) && *v == *old(vec)
                        && *final(v) == *final(vec)
            } else {
                *final(vec) == *old(vec)
            },
{
    let room: usize = room_of(vec);
    assert(has_room_for(*old(vec), room));
    if room < capacity {
        let more: usize = capacity - vec.len();
        outcome_of_two(reserve_exact::<E>, vec, more);
        proof {
            let v = choose|v: &mut Vec<E>| #[trigger]
                call_ensures(reserve_exact::<E>, (v, more), ()) && *v == *old(vec) && *final(v)
                    == *vec;
            assert(reserves(v, more));
        }
    }
}

/// The room of the vector behind `vec` is brought back to `capacity` elements.
pub closed spec fn restores<E>(vec: &mut Vec<E>, capacity: usize) -> bool {
    call_ensures(restore_capacity::<E>, (vec, capacity), ())
}

/// Brings the room of a vector back to `capacity` elements, and says so.
pub(crate) fn restore_room<E>(vec: &mut Vec<E>, capacity: usize)
    requires
        old(vec)@.len() <= capacity,
        capacity * size_of::<E>() <= isize::MAX,
    ensures
        final(vec)@ == old(vec)@,
        exists|v: &mut Vec<E>| #[trigger]
            restores(v, capacity) && *v == *old(vec) && *final(v) == *final(vec),
{
    outcome_of_two(restore_capacity::<E>, vec, capacity);
    proof {
        let v = choose|v: &mut Vec<E>| #[trigger]
            call_ensures(restore_capacity::<E>, (v, capacity), ()) && *v == *old(vec) && *final(v)
                == *vec;
        assert(restores(v, capacity));
    }
}

/// `element` is pushed onto the vector behind `vec`.
pub closed spec fn pushes<E>(vec: &mut Vec<E>, element: E) -> bool {
    call_ensures(Vec::<E>::push, (vec, element), ())
}

/// Pushes an element onto a vector, and says so.
pub(crate) fn push_onto<E>(vec: &mut Vec<E>, element: E)
    ensures
        final(vec)@ == old(vec)@.push(element),
        exists|v: &mut Vec<E>| #[trigger]
            pushes(v, element) && *v == *old(vec) && *final(v) == *final(vec),
{
    outcome_of_two(Vec::<E>::push, vec, element);
    proof {
        let v = choose|v: &mut Vec<E>| #[trigger]
            call_ensures(Vec::<E>::push, (v, element), ()) && *v == *old(vec) && *final(v) == *vec;
        assert(pushes(v, element));
    }
}

/// What a vector has room for is what it answered.
pub(crate) proof fn law_room_is_what_the_vector_says<E>(vec: Vec<E>, room: usize)
    ensures
        has_room_for(vec, room) ==> call_ensures(vec_capacity::<E>, (&vec,), room),
        call_ensures(room_of::<E>, (&vec,), room) ==> call_ensures(
            vec_capacity::<E>,
            (&vec,),
            room,
        ),
{
}

/// What is said to be reserved, trimmed, unboxed, made or pushed came of the call that
/// does it.
pub(crate) proof fn law_records_are_calls<E>(
    vec: Vec<E>,
    behind: &mut Vec<E>,
    slice: Box<[E]>,
    element: E,
    n: usize,
)
    ensures
        reserves(behind, n) ==> call_ensures(reserve_exact::<E>, (behind, n), ()),
        trims_to(vec, slice) ==> call_ensures(into_boxed_slice::<E>, (vec,), slice),
        unboxes_to(slice, vec) ==> call_ensures(into_vec::<E>, (slice,), vec),
        made_for(vec, n) ==> call_ensures(Vec::<E>::with_capacity, (n,), vec),
        restores(behind, n) ==> call_ensures(restore_capacity::<E>, (behind, n), ()),
        pushes(behind, element) ==> call_ensures(Vec::<E>::push, (behind, element), ()),
{
}

/// Bringing back room keeps the elements. Where the vector says that it has room for
/// fewer elements than asked for, those that it lacks are reserved; where it has, it is
/// left as it is.
pub(crate) proof fn law_room_is_brought_back<E>(vec: &mut Vec<E>, capacity: usize)
    requires
        call_ensures(restore_capacity::<E>, (vec, capacity), ()),
    ensures
        final(vec)@ == old(vec)@,
        exists|room: usize|
            {
                &&& #[trigger] call_ensures(vec_capacity::<E>, (old(vec),), room)
                &&& room >= capacity ==> *final(vec) == *old(vec)
                &&& room < capacity ==> exists|v: &mut Vec<E>, more: usize|
                    {
                        &&& #[trigger] call_ensures(reserve_exact::<E>, (v, more), ())
                        &&& more == capacity - old(vec)@.len()
                        &&& *v == *old(vec)
                        &&& *final(v) == *final(vec)
                    }
            },
{
    let room = choose|room: usize| #[trigger]
        has_room_for(*old(vec), room) && if room < capacity {
            exists|v: &mut Vec<E>| #[trigger]
                reserves(v, (capacity - old(vec)@.len()) as usize) && *v == *old(vec) && *final(v)
                    == *final(vec)
        } else {
            *final(vec) == *old(vec)
        };
    assert(call_ensures(vec_capacity::<E>, (old(vec),), room));
    assert(room >= old(vec)@.len());
    if room < capacity {
        let more = (capacity - old(vec)@.len()) as usize;
        let v = choose|v: &mut Vec<E>| #[trigger]
            reserves(v, more) && *v == *old(vec) && *final(v) == *final(vec);
        assert(call_ensures(reserve_exact::<E>, (v, more), ()));
    }
}

/// A buffer fits if it takes no more bytes than an allocation may have.
pub(crate) proof fn law_buffers_fit_by_their_bytes<E>(n: usize, b: bool)
    requires
        call_ensures(fits::<E>, (n,), b),
    ensures
        b <==> n * size_of::<E>() <= isize::MAX,
{
}

} // verus!
