//! The scratch region of a read: lists of requests that live in an arena
//! and go with it when the arena is reset.

use vstd::prelude::*;
use bumpalo::collections::Vec as BumpVec;
use bumpalo::Bump;
use crate::phys_mem::PhysicalReadData;

verus! {

/// `bumpalo::Bump`, an arena. Nothing is known of what it holds.
#[verifier::external_type_specification]
#[verifier::external_body]
pub struct ExBump<const MIN_ALIGN: usize>(Bump<MIN_ALIGN>);

/// `bumpalo::collections::Vec`, a vector whose items lie in an arena.
#[verifier::external_type_specification]
#[verifier::external_body]
#[verifier::reject_recursive_types(T)]
pub struct ExBumpVec<'bump, T>(BumpVec<'bump, T>);

/// The requests that a list in the arena holds, in order: what the slice
/// of `Vec::as_slice` would show.
pub uninterp spec fn scratch_items(list: &BumpVec<'_, PhysicalReadData>) -> Seq<PhysicalReadData>;

/// An arena without allocations, from `Bump::new`.
#[verifier::external_body]
pub(crate) fn arena_new() -> (arena: Bump) {
    Bump::new()
}

/// Gives up everything that was allocated in the arena, with
/// `Bump::reset`. No list can be alive then: each borrows the arena.
#[verifier::external_body]
pub(crate) fn arena_reset(arena: &mut Bump) {
    arena.reset()
}

/// An empty list in the arena, from `Vec::new_in`.
#[verifier::external_body]
pub(crate) fn scratch_new<'bump>(arena: &'bump Bump) -> (list: BumpVec<'bump, PhysicalReadData>)
    ensures
        scratch_items(&list) == Seq::<PhysicalReadData>::empty(),
{
    BumpVec::new_in(arena)
}

/// Appends `item` to the list, with `Vec::push`. As with a vector of
/// the standard library, the call does not return where memory runs out.
#[verifier::external_body]
pub(crate) fn scratch_push<'bump>(list: &mut BumpVec<'bump, PhysicalReadData>, item: PhysicalReadData)
    ensures
        scratch_items(final(list)) == scratch_items(old(list)).push(item),
{
    list.push(item)
}

/// The items of the list as a slice that can be written, from
/// `Vec::as_mut_slice`: the list holds what the slice holds in the end.
#[verifier::external_body]
pub(crate) fn scratch_slice_mut<'a, 'bump>(list: &'a mut BumpVec<'bump, PhysicalReadData>) -> (items:
    &'a mut [PhysicalReadData])
    ensures
        items@ == scratch_items(old(list)),
        scratch_items(final(list)) == final(items)@,
{
    list.as_mut_slice()
}

} // verus!
