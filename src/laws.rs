//! Properties of the tree that span several operations, stated over the map
//! that `BTree` presents as its view and proved from the operations' contracts.
use crate::btree::{lemma_route_is, route, sorted};
use vstd::prelude::*;

verus! {

/// The map after inserting `ks[i] -> vs[i]` into `m`, in order of `i`.
pub open spec fn inserted(m: Map<u128, u8>, ks: Seq<u128>, vs: Seq<u8>) -> Map<u128, u8>
    decreases ks.len(),
{
    if ks.len() == 0 || vs.len() < ks.len() {
        m
    } else {
        inserted(m, ks.drop_last(), vs.subrange(0, ks.len() - 1)).insert(
            ks.last(),
            vs[ks.len() - 1],
        )
    }
}

/// One operation on the tree: `(true, k, v)` inserts `v` under `k`,
/// `(false, k, _)` deletes `k`.
pub open spec fn applied(m: Map<u128, u8>, ops: Seq<(bool, u128, u8)>) -> Map<u128, u8>
    decreases ops.len(),
{
    if ops.len() == 0 {
        m
    } else {
        let prev = applied(m, ops.drop_last());
        let op = ops.last();
        if op.0 {
            prev.insert(op.1, op.2)
        } else {
            prev.remove(op.1)
        }
    }
}

/// Inserting distinct keys into an empty tree leaves as many keys as were
/// inserted, so `total_len` counts them.
pub proof fn law_size_after_distinct_inserts(ks: Seq<u128>, vs: Seq<u8>)
    requires
        ks.no_duplicates(),
        vs.len() == ks.len(),
    ensures
        inserted(Map::empty(), ks, vs).dom().finite(),
        inserted(Map::empty(), ks, vs).len() == ks.len(),
        forall|k: u128| inserted(Map::empty(), ks, vs).contains_key(k) <==> ks.contains(k),
    decreases ks.len(),
{
    if ks.len() > 0 {
        let ks2 = ks.drop_last();
        let vs2 = vs.subrange(0, ks.len() - 1);
        assert forall|a: int, b: int| 0 <= a < b < ks2.len() implies ks2[a] != ks2[b] by {
            assert(ks2[a] == ks[a] && ks2[b] == ks[b]);
        }
        law_size_after_distinct_inserts(ks2, vs2);
        let m = inserted(Map::empty(), ks2, vs2);
        assert(!ks2.contains(ks.last())) by {
            if ks2.contains(ks.last()) {
                let j = choose|j: int| 0 <= j < ks2.len() && ks2[j] == ks.last();
                assert(ks[j] == ks[ks.len() - 1]);
            }
        }
        assert forall|k: u128| inserted(Map::empty(), ks, vs).contains_key(k) <==> ks.contains(k) by {
            if ks.contains(k) && k != ks.last() {
                let j = choose|j: int| 0 <= j < ks.len() && ks[j] == k;
                assert(ks2[j] == k);
            }
            if ks2.contains(k) {
                let j = choose|j: int| 0 <= j < ks2.len() && ks2[j] == k;
                assert(ks[j] == k);
            }
            if k == ks.last() {
                assert(ks[ks.len() - 1] == k);
            }
        }
        assert(m.dom().insert(ks.last()) =~= inserted(Map::empty(), ks, vs).dom());
    } else {
        assert(inserted(Map::empty(), ks, vs).dom() =~= Set::<u128>::empty());
    }
}

/// A key that was inserted and not deleted afterwards is found with the
/// value of its last insert.
pub proof fn law_round_trip(m: Map<u128, u8>, ops: Seq<(bool, u128, u8)>, i: int)
    requires
        0 <= i < ops.len(),
        ops[i].0,
        forall|j: int| i < j < ops.len() ==> (#[trigger] ops[j]).1 != ops[i].1,
    ensures
        applied(m, ops).contains_key(ops[i].1),
        applied(m, ops)[ops[i].1] == ops[i].2,
    decreases ops.len(),
{
    if i < ops.len() - 1 {
        let prev = ops.drop_last();
        assert forall|j: int| i < j < prev.len() implies (#[trigger] prev[j]).1 != prev[i].1 by {
            assert(prev[j] == ops[j]);
        }
        law_round_trip(m, prev, i);
        assert(ops.last().1 != ops[i].1);
    }
}

/// After a delete of `k` the key is gone; a delete of a key that is not there
/// leaves the tree as it was.
pub proof fn law_delete(m: Map<u128, u8>, k: u128)
    ensures
        !m.remove(k).contains_key(k),
        !m.contains_key(k) ==> m.remove(k) == m,
{
    if !m.contains_key(k) {
        assert(m.remove(k) =~= m);
    }
}

/// A key equal to a pivot goes to the child on the pivot's right.
pub proof fn law_pivot_routes_right(p: Seq<u128>, i: int)
    requires
        sorted(p),
        0 <= i < p.len(),
    ensures
        route(p, p[i]) == i + 1,
{
    if i + 1 < p.len() {
        assert(p[i] < p[i + 1]);
    }
    lemma_route_is(p, p[i], i + 1);
}

/// Inserting one key twice keeps one entry, with the second value, and the
/// second insert does not change the number of keys.
pub proof fn law_overwrite(m: Map<u128, u8>, k: u128, v1: u8, v2: u8)
    requires
        m.dom().finite(),
    ensures
        m.insert(k, v1).insert(k, v2) == m.insert(k, v2),
        m.insert(k, v1).insert(k, v2).dom() == m.insert(k, v1).dom(),
        m.insert(k, v1).insert(k, v2)[k] == v2,
        m.insert(k, v1).insert(k, v2).len() == m.insert(k, v1).len(),
{
    assert(m.insert(k, v1).insert(k, v2) =~= m.insert(k, v2));
    assert(m.insert(k, v1).dom().insert(k) =~= m.insert(k, v1).dom());
}

} // verus!
