//! The fixed-capacity vectors of `arrayvec` that hold cards and groups.
use vstd::prelude::*;

use arrayvec::ArrayVec;

use crate::card::Card;
use crate::partition::Group;
use crate::MAX_DECOMP_COUNT;
use crate::MAX_HAND_SIZE;

verus! {

#[verifier::external_type_specification]
#[verifier::external_body]
#[verifier::reject_recursive_types(T)]
pub struct ExArrayVec<T, const CAP: usize>(ArrayVec<T, CAP>);

/// The cards held by a card vector, in order.
pub uninterp spec fn cards_of(v: ArrayVec<Card, MAX_HAND_SIZE>) -> Seq<Card>;

/// Relies on `ArrayVec::new`: an empty vector.
#[verifier::external_body]
pub(crate) fn cards_new() -> (r: ArrayVec<Card, MAX_HAND_SIZE>)
    ensures
        cards_of(r) == Seq::<Card>::empty(),
{
    ArrayVec::new()
}

/// Relies on `ArrayVec::len`: the number of elements, never above the
/// capacity.
#[verifier::external_body]
pub(crate) fn cards_len(v: &ArrayVec<Card, MAX_HAND_SIZE>) -> (r: usize)
    ensures
        r == cards_of(*v).len(),
        r <= MAX_HAND_SIZE,
{
    v.len()
}

/// Relies on indexing through `ArrayVec`'s slice: the element at `i`.
#[verifier::external_body]
pub(crate) fn cards_get(v: &ArrayVec<Card, MAX_HAND_SIZE>, i: usize) -> (r: Card)
    requires
        i < cards_of(*v).len(),
    ensures
        r == cards_of(*v)[i as int],
{
    v[i]
}

/// Relies on `ArrayVec::try_push`: appends when there is room, else fails
/// and leaves the vector as it was.
#[verifier::external_body]
pub(crate) fn cards_try_push(v: &mut ArrayVec<Card, MAX_HAND_SIZE>, c: Card) -> (r: bool)
    ensures
        r == (cards_of(*old(v)).len() < MAX_HAND_SIZE),
        r ==> cards_of(*final(v)) == cards_of(*old(v)).push(c),
        !r ==> cards_of(*final(v)) == cards_of(*old(v)),
    no_unwind
{
    v.try_push(c).is_ok()
}

/// Relies on `ArrayVec::remove`: takes out the element at `i` and shifts
/// the later ones down, keeping their order.
#[verifier::external_body]
pub(crate) fn cards_remove(v: &mut ArrayVec<Card, MAX_HAND_SIZE>, i: usize) -> (r: Card)
    requires
        i < cards_of(*old(v)).len(),
    ensures
        r == cards_of(*old(v))[i as int],
        cards_of(*final(v)) == cards_of(*old(v)).remove(i as int),
    no_unwind
{
    v.remove(i)
}

/// Relies on `slice::sort_unstable_by_key` on `ArrayVec`'s slice, keyed by
/// the canonical card index: the same cards, ascending by index.
#[verifier::external_body]
pub(crate) fn cards_sort_by_index(v: &mut ArrayVec<Card, MAX_HAND_SIZE>)
    requires
        forall|i: int| 0 <= i < cards_of(*old(v)).len() ==> (#[trigger] cards_of(*old(v))[i]).wf(),
    ensures
        cards_of(*final(v)).to_multiset() == cards_of(*old(v)).to_multiset(),
        cards_of(*final(v)).len() == cards_of(*old(v)).len(),
        forall|i: int, j: int|
            0 <= i < j < cards_of(*final(v)).len() ==> (#[trigger] cards_of(*final(v))[i]).index()
                <= (#[trigger] cards_of(*final(v))[j]).index(),
    no_unwind
{
    v.sort_unstable_by_key(|c| c.to_index());
}

/// The groups held by a group vector, in order.
pub uninterp spec fn groups_of(v: ArrayVec<Group, MAX_DECOMP_COUNT>) -> Seq<Group>;

/// Relies on `ArrayVec::new`: an empty vector.
#[verifier::external_body]
pub(crate) fn groups_new() -> (r: ArrayVec<Group, MAX_DECOMP_COUNT>)
    ensures
        groups_of(r) == Seq::<Group>::empty(),
{
    ArrayVec::new()
}

/// Relies on `ArrayVec::len`: the number of elements, never above the
/// capacity.
#[verifier::external_body]
pub(crate) fn groups_len(v: &ArrayVec<Group, MAX_DECOMP_COUNT>) -> (r: usize)
    ensures
        r == groups_of(*v).len(),
        r <= MAX_DECOMP_COUNT,
{
    v.len()
}

/// Relies on indexing through `ArrayVec`'s slice: the element at `i`.
#[verifier::external_body]
pub(crate) fn groups_get(v: &ArrayVec<Group, MAX_DECOMP_COUNT>, i: usize) -> (r: &Group)
    requires
        i < groups_of(*v).len(),
    ensures
        *r == groups_of(*v)[i as int],
{
    &v[i]
}

/// Relies on mutable indexing through `ArrayVec`'s slice: the element at
/// `i`, which the caller may change in place.
#[verifier::external_body]
pub(crate) fn groups_get_mut(v: &mut ArrayVec<Group, MAX_DECOMP_COUNT>, i: usize) -> (r: &mut Group)
    requires
        i < groups_of(*old(v)).len(),
    ensures
        *r == groups_of(*old(v))[i as int],
        groups_of(*final(v)) == groups_of(*old(v)).update(i as int, *final(r)),
{
    &mut v[i]
}

/// Relies on `ArrayVec::try_push`: appends when there is room, else fails
/// and leaves the vector as it was.
#[verifier::external_body]
pub(crate) fn groups_try_push(v: &mut ArrayVec<Group, MAX_DECOMP_COUNT>, g: Group) -> (r: bool)
    ensures
        r == (groups_of(*old(v)).len() < MAX_DECOMP_COUNT),
        r ==> groups_of(*final(v)) == groups_of(*old(v)).push(g),
        !r ==> groups_of(*final(v)) == groups_of(*old(v)),
{
    v.try_push(g).is_ok()
}

/// Relies on `ArrayVec::insert`: puts `g` at position `i` and shifts the
/// later elements up; it panics past the length or on a full vector.
#[verifier::external_body]
pub(crate) fn groups_insert(v: &mut ArrayVec<Group, MAX_DECOMP_COUNT>, i: usize, g: Group)
    requires
        i <= groups_of(*old(v)).len(),
        groups_of(*old(v)).len() < MAX_DECOMP_COUNT,
    ensures
        groups_of(*final(v)) == groups_of(*old(v)).insert(i as int, g),
{
    v.insert(i, g)
}

/// Relies on `ArrayVec::remove`: takes out the element at `i` and shifts
/// the later ones down, keeping their order.
#[verifier::external_body]
pub(crate) fn groups_remove(v: &mut ArrayVec<Group, MAX_DECOMP_COUNT>, i: usize) -> (r: Group)
    requires
        i < groups_of(*old(v)).len(),
    ensures
        r == groups_of(*old(v))[i as int],
        groups_of(*final(v)) == groups_of(*old(v)).remove(i as int),
{
    v.remove(i)
}

} // verus!
