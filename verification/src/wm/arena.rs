//! The slot arena that holds the nodes of a subset tree.

use vstd::prelude::*;

use crate::wm::subset::SubsetEntry;
use vec_arena::Arena;

verus! {

/// `vec_arena::Arena`, known by name only: what an arena holds is told by
/// `arena_entries`.
#[verifier::external_type_specification]
#[verifier::external_body]
#[verifier::reject_recursive_types(T)]
pub struct ExArena<T>(Arena<T>);

/// The occupied slots of an arena: slot number to the node stored there.
pub uninterp spec fn arena_entries(arena: Arena<SubsetEntry>) -> Map<usize, SubsetEntry>;

/// `Arena::new`: a fresh arena has no occupied slot.
#[verifier::external_body]
pub(crate) fn arena_new() -> (fresh: Arena<SubsetEntry>)
    ensures
        arena_entries(fresh).dom() == Set::<usize>::empty(),
{
    Arena::new()
}

/// `Arena::insert`: the node is stored in a slot that was vacant, every other
/// slot is untouched, and the slot's number is returned.
#[verifier::external_body]
pub(crate) fn arena_insert(arena: &mut Arena<SubsetEntry>, entry: SubsetEntry) -> (slot: usize)
    ensures
        !arena_entries(*old(arena)).dom().contains(slot),
        arena_entries(*final(arena)) == arena_entries(*old(arena)).insert(slot, entry),
{
    arena.insert(entry)
}

/// `Arena::remove`: an occupied slot becomes vacant and its node is handed
/// out; a vacant or out-of-range slot yields `None` and changes nothing.
#[verifier::external_body]
pub(crate) fn arena_remove(arena: &mut Arena<SubsetEntry>, slot: usize) -> (entry: Option<SubsetEntry>)
    ensures
        arena_entries(*final(arena)) == arena_entries(*old(arena)).remove(slot),
        entry == (if arena_entries(*old(arena)).dom().contains(slot) {
            Some(arena_entries(*old(arena))[slot])
        } else {
            None
        }),
{
    arena.remove(slot)
}

/// `Arena::get`: the node in an occupied slot, `None` for any other slot.
#[verifier::external_body]
pub(crate) fn arena_get(arena: &Arena<SubsetEntry>, slot: usize) -> (entry: Option<&SubsetEntry>)
    ensures
        entry == (if arena_entries(*arena).dom().contains(slot) {
            Some(&arena_entries(*arena)[slot])
        } else {
            None
        }),
{
    arena.get(slot)
}

/// `Arena::get_mut`: a mutable borrow of the node in an occupied slot; what
/// the borrow holds when it ends is what the slot holds afterwards.
#[verifier::external_body]
pub(crate) fn arena_get_mut(arena: &mut Arena<SubsetEntry>, slot: usize) -> (entry: Option<&mut SubsetEntry>)
    ensures
        match entry {
            Some(e) => arena_entries(*old(arena)).dom().contains(slot)
                && *e == arena_entries(*old(arena))[slot]
                && arena_entries(*final(arena)) == arena_entries(*old(arena)).insert(slot, *final(e)),
            None => !arena_entries(*old(arena)).dom().contains(slot)
                && arena_entries(*final(arena)) == arena_entries(*old(arena)),
        },
{
    arena.get_mut(slot)
}

/// `Arena::iter`: the numbers of the occupied slots, each once.
#[verifier::external_body]
pub(crate) fn arena_slots(arena: &Arena<SubsetEntry>) -> (slots: Vec<usize>)
    ensures
        slots@.no_duplicates(),
        forall|slot: usize| slots@.contains(slot) <==> arena_entries(*arena).dom().contains(slot),
{
    arena.iter().map(|(slot, _)| slot).collect()
}

} // verus!
