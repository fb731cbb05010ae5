//! Fixed-capacity node storage, held in `arrayvec::ArrayVec`.
//!
//! Each function here is one call into `ArrayVec` (or the slice it derefs to),
//! stated over the sequence of items that the array holds.
use arrayvec::ArrayVec;
use vstd::prelude::*;

verus! {

#[verifier::external_type_specification]
#[verifier::external_body]
#[verifier::reject_recursive_types(T)]
pub struct ExArrayVec<T, const CAP: usize>(ArrayVec<T, CAP>);

/// Byte budget of one node.
pub const NODE_SIZE: usize = 256;

/// Bytes of each node spent outside its arrays.
pub const NODE_OVERHEAD: usize = 32;

/// Bytes of a key.
pub const KEY_SIZE: usize = 16;

/// Bytes of a value.
pub const VALUE_SIZE: usize = 1;

/// Bytes of a reference to a child.
pub const CHILD_REF_SIZE: usize = 16;

/// Entries that fit in a leaf.
pub const LEAF_CAP: usize = (NODE_SIZE - NODE_OVERHEAD) / (KEY_SIZE + VALUE_SIZE);

/// Children that fit in an internal node.
pub const CHILD_CAP: usize = (NODE_SIZE - NODE_OVERHEAD) / (CHILD_REF_SIZE + KEY_SIZE);

/// Pivots of an internal node: one fewer than its children.
pub const PIVOT_CAP: usize = (NODE_SIZE - NODE_OVERHEAD) / (CHILD_REF_SIZE + KEY_SIZE) - 1;

/// The capacities that the byte budget gives.
pub proof fn lemma_caps()
    ensures
        LEAF_CAP == 13,
        CHILD_CAP == 7,
        PIVOT_CAP == 6,
{
    assert((NODE_SIZE - NODE_OVERHEAD) / (KEY_SIZE + VALUE_SIZE) == 13) by (nonlinear_arith);
    assert((NODE_SIZE - NODE_OVERHEAD) / (CHILD_REF_SIZE + KEY_SIZE) == 7) by (nonlinear_arith);
}

/// A leaf's (key, value) entries.
pub type LeafSlots = ArrayVec<(u128, u8), LEAF_CAP>;

/// An internal node's pivots.
pub type PivotSlots = ArrayVec<u128, PIVOT_CAP>;

/// The entries that a leaf's array holds, in order.
pub uninterp spec fn leaf_items(v: LeafSlots) -> Seq<(u128, u8)>;

/// Relies on ArrayVec::new: an empty array.
#[verifier::external_body]
pub(crate) fn leaf_new() -> (r: LeafSlots)
    ensures
        leaf_items(r).len() == 0,
{
    ArrayVec::new()
}

/// Relies on ArrayVec::len: the number of items held.
#[verifier::external_body]
pub(crate) fn leaf_len(v: &LeafSlots) -> (r: usize)
    ensures
        r == leaf_items(*v).len(),
{
    v.len()
}

/// Relies on indexing the slice behind the array: item `i`.
#[verifier::external_body]
pub(crate) fn leaf_get(v: &LeafSlots, i: usize) -> (r: (u128, u8))
    requires
        i < leaf_items(*v).len(),
    ensures
        r == leaf_items(*v)[i as int],
{
    v[i]
}

/// Relies on assigning through the slice behind the array: item `i` replaced.
#[verifier::external_body]
pub(crate) fn leaf_set(v: &mut LeafSlots, i: usize, x: (u128, u8))
    requires
        i < leaf_items(*old(v)).len(),
    ensures
        leaf_items(*final(v)) == leaf_items(*old(v)).update(i as int, x),
{
    v[i] = x;
}

/// Relies on ArrayVec::insert: `x` put at `i`, later items shifted up.
#[verifier::external_body]
pub(crate) fn leaf_insert(v: &mut LeafSlots, i: usize, x: (u128, u8))
    requires
        i <= leaf_items(*old(v)).len(),
        leaf_items(*old(v)).len() < LEAF_CAP,
    ensures
        leaf_items(*final(v)) == leaf_items(*old(v)).insert(i as int, x),
{
    v.insert(i, x);
}

/// Relies on ArrayVec::push: `x` appended.
#[verifier::external_body]
pub(crate) fn leaf_push(v: &mut LeafSlots, x: (u128, u8))
    requires
        leaf_items(*old(v)).len() < LEAF_CAP,
    ensures
        leaf_items(*final(v)) == leaf_items(*old(v)).push(x),
{
    v.push(x);
}

/// Relies on ArrayVec::remove: item `i` taken out, later items shifted down.
#[verifier::external_body]
pub(crate) fn leaf_remove(v: &mut LeafSlots, i: usize) -> (r: (u128, u8))
    requires
        i < leaf_items(*old(v)).len(),
    ensures
        r == leaf_items(*old(v))[i as int],
        leaf_items(*final(v)) == leaf_items(*old(v)).remove(i as int),
{
    v.remove(i)
}

/// Relies on ArrayVec::truncate: the first `n` items kept.
#[verifier::external_body]
pub(crate) fn leaf_truncate(v: &mut LeafSlots, n: usize)
    requires
        n <= leaf_items(*old(v)).len(),
    ensures
        leaf_items(*final(v)) == leaf_items(*old(v)).subrange(0, n as int),
{
    v.truncate(n);
}

/// The pivots that an internal node's array holds, in order.
pub uninterp spec fn pivot_items(v: PivotSlots) -> Seq<u128>;

/// Relies on ArrayVec::new: an empty array.
#[verifier::external_body]
pub(crate) fn pivot_new() -> (r: PivotSlots)
    ensures
        pivot_items(r).len() == 0,
{
    ArrayVec::new()
}

/// Relies on ArrayVec::len: the number of items held.
#[verifier::external_body]
pub(crate) fn pivot_len(v: &PivotSlots) -> (r: usize)
    ensures
        r == pivot_items(*v).len(),
{
    v.len()
}

/// Relies on indexing the slice behind the array: item `i`.
#[verifier::external_body]
pub(crate) fn pivot_get(v: &PivotSlots, i: usize) -> (r: u128)
    requires
        i < pivot_items(*v).len(),
    ensures
        r == pivot_items(*v)[i as int],
{
    v[i]
}

/// Relies on assigning through the slice behind the array: item `i` replaced.
#[verifier::external_body]
pub(crate) fn pivot_set(v: &mut PivotSlots, i: usize, x: u128)
    requires
        i < pivot_items(*old(v)).len(),
    ensures
        pivot_items(*final(v)) == pivot_items(*old(v)).update(i as int, x),
{
    v[i] = x;
}

/// Relies on ArrayVec::insert: `x` put at `i`, later items shifted up.
#[verifier::external_body]
pub(crate) fn pivot_insert(v: &mut PivotSlots, i: usize, x: u128)
    requires
        i <= pivot_items(*old(v)).len(),
        pivot_items(*old(v)).len() < PIVOT_CAP,
    ensures
        pivot_items(*final(v)) == pivot_items(*old(v)).insert(i as int, x),
{
    v.insert(i, x);
}

/// Relies on ArrayVec::push: `x` appended.
#[verifier::external_body]
pub(crate) fn pivot_push(v: &mut PivotSlots, x: u128)
    requires
        pivot_items(*old(v)).len() < PIVOT_CAP,
    ensures
        pivot_items(*final(v)) == pivot_items(*old(v)).push(x),
{
    v.push(x);
}

/// Relies on ArrayVec::remove: item `i` taken out, later items shifted down.
#[verifier::external_body]
pub(crate) fn pivot_remove(v: &mut PivotSlots, i: usize) -> (r: u128)
    requires
        i < pivot_items(*old(v)).len(),
    ensures
        r == pivot_items(*old(v))[i as int],
        pivot_items(*final(v)) == pivot_items(*old(v)).remove(i as int),
{
    v.remove(i)
}

/// Relies on ArrayVec::truncate: the first `n` items kept.
#[verifier::external_body]
pub(crate) fn pivot_truncate(v: &mut PivotSlots, n: usize)
    requires
        n <= pivot_items(*old(v)).len(),
    ensures
        pivot_items(*final(v)) == pivot_items(*old(v)).subrange(0, n as int),
{
    v.truncate(n);
}

} // verus!
