//! Moving large buffers to another place in memory.
use crate::calls::outcome_of_two;
use crate::vectors::{
    into_boxed_slice, into_vec, law_records_are_calls, trimmed, trims_to, unboxed, unboxes_to,
};
use vstd::layout::size_of;
use vstd::prelude::*;

verus! {

/// Moves a large allocation elsewhere, for defragmentation. Implemented by the
/// owner of the memory.
pub trait Reallocator: Sized {
    /// Whether `after` is what becomes of `before` when it moves one block of `len`
    /// elements of `size` bytes each. An owner that keeps no account of its moves
    /// says nothing here.
    open spec fn moves(before: Self, after: Self, len: nat, size: nat) -> bool {
        true
    }

    /// Hands back a block with the same elements; only its place may differ.
    fn relocate<E>(&mut self, block: Box<[E]>) -> (moved: Box<[E]>)
        ensures
            moved@ == block@,
            Self::moves(*old(self), *final(self), block@.len(), size_of::<E>()),
    ;
}

/// Relocates the backing allocation of `vec` through `reallocator`, in place.
/// Trimmed to a boxed slice first to drop spare capacity, so that one block of
/// exactly the elements goes through it.
pub fn realloc_vec<E, R: Reallocator>(vec: &mut Vec<E>, reallocator: &mut R)
    ensures
        final(vec)@ == old(vec)@,
        R::moves(*old(reallocator), *final(reallocator), old(vec)@.len(), size_of::<E>()),
        exists|block: Box<[E]>, moved: Box<[E]>, r: &mut R|
            {
                &&& #[trigger] trims_to(*old(vec), block)
                &&& #[trigger] relocates(r, block, moved)
                &&& *r == *old(reallocator)
                &&& *final(r) == *final(reallocator)
                &&& #[trigger] unboxes_to(moved, *final(vec))
            },
{
    let mut taken: Vec<E> = Vec::new();
    std::mem::swap(vec, &mut taken);
    let boxed = trimmed(taken);
    let moved = outcome_of_two(R::relocate::<E>, reallocator, boxed);
    proof {
        let r = choose|r: &mut R| #[trigger]
            call_ensures(R::relocate::<E>, (r, boxed), moved) && *r == *old(reallocator)
                && *final(r) == *reallocator;
        assert(relocates(r, boxed, moved));
    }
    *vec = unboxed(moved);
}

/// `moved` is what the owner behind `reallocator` hands back for `block`.
pub open spec fn relocates<E, R: Reallocator>(
    reallocator: &mut R,
    block: Box<[E]>,
    moved: Box<[E]>,
) -> bool {
    call_ensures(R::relocate::<E>, (reallocator, block), moved)
}

/// What goes through a reallocator is the vector without its spare room, and what comes
/// back from it is the vector afterwards, with the same elements.
pub(crate) proof fn law_vectors_go_through_the_reallocator<E, R: Reallocator>(
    vec: &mut Vec<E>,
    reallocator: &mut R,
)
    requires
        call_ensures(realloc_vec::<E, R>, (vec, reallocator), ()),
    ensures
        final(vec)@ == old(vec)@,
        exists|block: Box<[E]>, moved: Box<[E]>, r: &mut R|
            {
                &&& #[trigger] call_ensures(into_boxed_slice::<E>, (*old(vec),), block)
                &&& #[trigger] call_ensures(R::relocate::<E>, (r, block), moved)
                &&& *r == *old(reallocator)
                &&& *final(r) == *final(reallocator)
                &&& #[trigger] call_ensures(into_vec::<E>, (moved,), *final(vec))
            },
{
    let (block, moved, r) = choose|block: Box<[E]>, moved: Box<[E]>, r: &mut R|
        {
            &&& #[trigger] trims_to(*old(vec), block)
            &&& #[trigger] relocates(r, block, moved)
            &&& *r == *old(reallocator)
            &&& *final(r) == *final(reallocator)
            &&& #[trigger] unboxes_to(moved, *final(vec))
        };
    let element = arbitrary::<E>();
    law_records_are_calls(*old(vec), old(vec), block, element, 0);
    law_records_are_calls(*final(vec), old(vec), moved, element, 0);
    assert(call_ensures(R::relocate::<E>, (r, block), moved));
}

} // verus!
