use vstd::prelude::*;
use smallvec::SmallVec;

verus! {

/// Variable IDs still active in an equation: a `smallvec` list with inline
/// room for eight, hidden from Verus and described by [`active_items`].
#[verifier::external_body]
pub struct ActiveVarIds {
    items: SmallVec<[usize; 8]>,
}

/// Equation indices adjacent to a variable: a `smallvec` list with inline
/// room for four, hidden from Verus and described by [`adjacent_items`].
#[verifier::external_body]
pub struct VarAdjacentList {
    items: SmallVec<[usize; 4]>,
}

/// Contents of an [`ActiveVarIds`], in order.
pub uninterp spec fn active_items(v: ActiveVarIds) -> Seq<usize>;

/// Contents of a [`VarAdjacentList`], in order.
pub uninterp spec fn adjacent_items(v: VarAdjacentList) -> Seq<usize>;

/// `SmallVec::new`: an empty list.
#[verifier::external_body]
pub(crate) fn active_new() -> (r: ActiveVarIds)
    ensures
        active_items(r) == Seq::<usize>::empty(),
{
    ActiveVarIds { items: SmallVec::new() }
}

/// `SmallVec::push`: appends `x` (the crate panics when the length would overflow).
#[verifier::external_body]
pub(crate) fn active_push(v: &mut ActiveVarIds, x: usize)
    requires
        active_items(*old(v)).len() < usize::MAX,
    ensures
        active_items(*final(v)) == active_items(*old(v)).push(x),
{
    v.items.push(x);
}

/// `SmallVec::pop`: removes and returns the last item, `None` when empty.
#[verifier::external_body]
pub(crate) fn active_pop(v: &mut ActiveVarIds) -> (r: Option<usize>)
    ensures
        active_items(*old(v)).len() == 0 ==> r is None && active_items(*final(v)) == active_items(*old(v)),
        active_items(*old(v)).len() > 0 ==> r == Some(active_items(*old(v)).last())
            && active_items(*final(v)) == active_items(*old(v)).drop_last(),
{
    v.items.pop()
}

/// `SmallVec::swap_remove`: removes the item at `index`, moving the last item into its place.
#[verifier::external_body]
pub(crate) fn active_swap_remove(v: &mut ActiveVarIds, index: usize) -> (r: usize)
    requires
        index < active_items(*old(v)).len(),
    ensures
        r == active_items(*old(v))[index as int],
        active_items(*final(v)) == active_items(*old(v)).update(
            index as int,
            active_items(*old(v)).last(),
        ).drop_last(),
{
    v.items.swap_remove(index)
}

/// `SmallVec::len`.
#[verifier::external_body]
pub(crate) fn active_len(v: &ActiveVarIds) -> (r: usize)
    ensures
        r == active_items(*v).len(),
{
    v.items.len()
}

/// Indexing: the item at `i`.
#[verifier::external_body]
pub(crate) fn active_get(v: &ActiveVarIds, i: usize) -> (r: usize)
    requires
        i < active_items(*v).len(),
    ensures
        r == active_items(*v)[i as int],
{
    v.items[i]
}

/// `SmallVec::from_vec` (the `From<Vec<_>>` conversion): the same items.
#[verifier::external_body]
pub(crate) fn active_from_vec(items: Vec<usize>) -> (r: ActiveVarIds)
    ensures
        active_items(r) == items@,
{
    ActiveVarIds { items: SmallVec::from_vec(items) }
}

/// `SmallVec::new`: an empty list.
#[verifier::external_body]
pub(crate) fn adjacent_new() -> (r: VarAdjacentList)
    ensures
        adjacent_items(r) == Seq::<usize>::empty(),
{
    VarAdjacentList { items: SmallVec::new() }
}

/// `SmallVec::push`: appends `x` (the crate panics when the length would overflow).
#[verifier::external_body]
pub(crate) fn adjacent_push(v: &mut VarAdjacentList, x: usize)
    requires
        adjacent_items(*old(v)).len() < usize::MAX,
    ensures
        adjacent_items(*final(v)) == adjacent_items(*old(v)).push(x),
{
    v.items.push(x);
}

/// `SmallVec::len`.
#[verifier::external_body]
pub(crate) fn adjacent_len(v: &VarAdjacentList) -> (r: usize)
    ensures
        r == adjacent_items(*v).len(),
{
    v.items.len()
}

/// Indexing: the item at `i`.
#[verifier::external_body]
pub(crate) fn adjacent_get(v: &VarAdjacentList, i: usize) -> (r: usize)
    requires
        i < adjacent_items(*v).len(),
    ensures
        r == adjacent_items(*v)[i as int],
{
    v.items[i]
}

} // verus!
