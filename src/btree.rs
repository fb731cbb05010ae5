//! An in-memory B-tree from `u128` keys to `u8` values, with fixed-capacity
//! nodes, splitting on the way down for inserts and repairing emptied
//! children on the way back up for deletes.
use crate::slots::{
    leaf_get, leaf_insert, leaf_items, leaf_len, leaf_new, leaf_push, leaf_remove, leaf_set,
    leaf_truncate, lemma_caps, pivot_get, pivot_insert, pivot_items, pivot_len, pivot_new, pivot_push,
    pivot_remove, pivot_set, pivot_truncate, LeafSlots, PivotSlots, LEAF_CAP, PIVOT_CAP,
};
use vstd::prelude::*;

verus! {

/// A key: one 128-bit word, ordered by that word.
pub type Key = [u128; 1];

/// The payload stored under a key.
pub type Value = u8;

/// Keys strictly ascending.
pub open spec fn sorted(s: Seq<u128>) -> bool {
    forall|i: int, j: int| 0 <= i < j < s.len() ==> s[i] < s[j]
}

/// Entries whose keys are strictly ascending.
pub open spec fn entries_sorted(s: Seq<(u128, u8)>) -> bool {
    forall|i: int, j: int| 0 <= i < j < s.len() ==> s[i].0 < s[j].0
}

/// The value that a list of entries holds under `k`.
pub open spec fn entries_lookup(s: Seq<(u128, u8)>, k: u128) -> Option<u8> {
    if exists|i: int| 0 <= i < s.len() && s[i].0 == k {
        Some(s[choose|i: int| 0 <= i < s.len() && s[i].0 == k].1)
    } else {
        None
    }
}

/// The child that a search for `k` enters: the number of leading pivots `<= k`,
/// so that a key equal to a pivot goes to the child on its right.
pub open spec fn route(p: Seq<u128>, k: u128) -> nat
    decreases p.len(),
{
    if p.len() == 0 || k < p[0] {
        0
    } else {
        1 + route(p.drop_first(), k)
    }
}

/// Lower bound of the keys of child `i` under pivots `p` in a node bounded below by `lo`.
pub open spec fn lo_of(p: Seq<u128>, i: int, lo: int) -> int {
    if i == 0 {
        lo
    } else {
        p[i - 1] as int
    }
}

/// Upper bound (exclusive) of the keys of child `i` under pivots `p` in a node bounded by `hi`.
pub open spec fn hi_of(p: Seq<u128>, i: int, hi: int) -> int {
    if i == p.len() {
        hi
    } else {
        p[i] as int
    }
}

/// A leaf: its entries, sorted by key.
pub struct LeafNode {
    entries: LeafSlots,
}

/// An internal node: pivots, and one more child than pivots.
pub struct InternalNode {
    pivots: PivotSlots,
    // A `Vec`, bounded by the node invariant: Verus refuses a node type that
    // recurses through `ArrayVec` ("non-positive position").
    children: Vec<Node>,
}

/// A node of the tree.
pub enum Node {
    Leaf(LeafNode),
    Internal(InternalNode),
}

/// The tree: one root node, a leaf or an internal node.
pub struct BTree {
    root: Node,
}

impl LeafNode {
    pub closed spec fn items(&self) -> Seq<(u128, u8)> {
        leaf_items(self.entries)
    }

    pub closed spec fn wf(&self, lo: int, hi: int) -> bool {
        let s = self.items();
        &&& s.len() <= LEAF_CAP
        &&& entries_sorted(s)
        &&& forall|i: int| 0 <= i < s.len() ==> lo <= #[trigger] s[i].0 < hi
    }
}

impl InternalNode {
    pub closed spec fn pivs(&self) -> Seq<u128> {
        pivot_items(self.pivots)
    }

    pub closed spec fn kids(&self) -> Seq<Node> {
        self.children@
    }
}

impl Node {
    /// The value that the subtree holds under `k`, found by following the pivots.
    pub closed spec fn lookup(&self, k: u128) -> Option<u8>
        decreases self,
    {
        match self {
            Node::Leaf(l) => entries_lookup(l.items(), k),
            Node::Internal(n) => {
                let i = route(n.pivs(), k) as int;
                if i < n.children@.len() {
                    n.children@[i].lookup(k)
                } else {
                    None
                }
            },
        }
    }

    /// The subtree is well formed and its keys lie in `[lo, hi)`; pivots lie
    /// strictly above `lo`.
    pub closed spec fn wf(&self, lo: int, hi: int) -> bool
        decreases self,
    {
        match self {
            Node::Leaf(l) => l.wf(lo, hi),
            Node::Internal(n) => {
                let p = n.pivs();
                let c = n.children@;
                &&& p.len() <= PIVOT_CAP
                &&& c.len() == p.len() + 1
                &&& sorted(p)
                &&& forall|i: int| 0 <= i < p.len() ==> lo < #[trigger] p[i] < hi
                &&& forall|i: int|
                    0 <= i < c.len() ==> (#[trigger] c[i]).wf(lo_of(p, i, lo), hi_of(p, i, hi))
            },
        }
    }

    /// Every path from this node down has fewer than `h` nodes.
    pub closed spec fn below(&self, h: nat) -> bool
        decreases h,
    {
        if h == 0 {
            false
        } else {
            match self {
                Node::Leaf(_) => true,
                Node::Internal(n) => forall|i: int|
                    0 <= i < n.children@.len() ==> (#[trigger] n.children@[i]).below(
                        (h - 1) as nat,
                    ),
            }
        }
    }

    /// The keys that the subtree holds.
    pub closed spec fn keys(&self) -> Set<u128> {
        Set::new(|k: u128| self.lookup(k) is Some)
    }

    /// Entries in a leaf, pivots in an internal node.
    pub closed spec fn len_spec(&self) -> nat {
        match self {
            Node::Leaf(l) => l.items().len(),
            Node::Internal(n) => n.pivs().len(),
        }
    }

    pub closed spec fn full_spec(&self) -> bool {
        match self {
            Node::Leaf(l) => l.items().len() == LEAF_CAP,
            Node::Internal(n) => n.pivs().len() == PIVOT_CAP,
        }
    }
}

/// What a leaf finds under `k`: the value of its entry with that key.
pub proof fn lemma_lookup_leaf(l: LeafNode, k: u128)
    ensures
        Node::Leaf(l).lookup(k) == entries_lookup(l.items(), k),
{
}

/// What an internal node finds under `k`: what child `route(pivots, k)` finds.
pub proof fn lemma_lookup_internal(n: InternalNode, k: u128)
    ensures
        Node::Internal(n).lookup(k) == if route(n.pivs(), k) < n.kids().len() {
            n.kids()[route(n.pivs(), k) as int].lookup(k)
        } else {
            None
        },
{
}

/// In a well-formed internal node a key equal to pivot `p` is found in
/// child `p + 1`, the child right of the pivot.
pub proof fn lemma_lookup_pivot(n: InternalNode, lo: int, hi: int, p: int)
    requires
        Node::Internal(n).wf(lo, hi),
        0 <= p < n.pivs().len(),
    ensures
        Node::Internal(n).lookup(n.pivs()[p]) == n.kids()[p + 1].lookup(n.pivs()[p]),
{
    let ps = n.pivs();
    if p + 1 < ps.len() {
        assert(ps[p] < ps[p + 1]);
    }
    lemma_route_is(ps, ps[p], p + 1);
}

/// What `route` counts: the pivots before it are `<= k`, those from it on are `> k`.
proof fn lemma_route(p: Seq<u128>, k: u128)
    requires
        sorted(p),
    ensures
        route(p, k) <= p.len(),
        forall|j: int| 0 <= j < route(p, k) ==> p[j] <= k,
        forall|j: int| route(p, k) <= j < p.len() ==> k < p[j],
    decreases p.len(),
{
    if p.len() > 0 && k >= p[0] {
        lemma_route(p.drop_first(), k);
        assert forall|j: int| 0 <= j < route(p, k) implies p[j] <= k by {
            if j > 0 {
                assert(p[j] == p.drop_first()[j - 1]);
            }
        }
        assert forall|j: int| route(p, k) <= j < p.len() implies k < p[j] by {
            assert(p[j] == p.drop_first()[j - 1]);
        }
    }
}

/// `route` is the one index that separates the pivots `<= k` from those `> k`.
pub proof fn lemma_route_is(p: Seq<u128>, k: u128, i: int)
    requires
        sorted(p),
        0 <= i <= p.len(),
        i == 0 || p[i - 1] <= k,
        i == p.len() || k < p[i],
    ensures
        route(p, k) == i,
{
    lemma_route(p, k);
    let r = route(p, k) as int;
    if r < i {
        assert(p[r] <= p[i - 1]);
    }
    if r > i {
        assert(p[i] <= k);
    }
}

/// The entry whose key is `s[i].0` is the one found.
proof fn lemma_entries_at(s: Seq<(u128, u8)>, i: int)
    requires
        entries_sorted(s),
        0 <= i < s.len(),
    ensures
        entries_lookup(s, s[i].0) == Some(s[i].1),
{
    let k = s[i].0;
    assert(exists|j: int| 0 <= j < s.len() && s[j].0 == k);
    let j = choose|j: int| 0 <= j < s.len() && s[j].0 == k;
    if j < i {
        assert(s[j].0 < s[i].0);
    }
    if j > i {
        assert(s[i].0 < s[j].0);
    }
}

/// Cutting sorted entries to a range that holds every entry with key `k`
/// (if there is one) keeps what is found under `k`.
proof fn lemma_entries_sub(s: Seq<(u128, u8)>, a: int, b: int, k: u128)
    requires
        entries_sorted(s),
        0 <= a <= b <= s.len(),
        forall|i: int| 0 <= i < s.len() && s[i].0 == k ==> a <= i < b,
    ensures
        entries_sorted(s.subrange(a, b)),
        entries_lookup(s.subrange(a, b), k) == entries_lookup(s, k),
{
    let t = s.subrange(a, b);
    assert forall|i: int, j: int| 0 <= i < j < t.len() implies t[i].0 < t[j].0 by {
        assert(t[i] == s[a + i] && t[j] == s[a + j]);
    }
    if exists|i: int| 0 <= i < s.len() && s[i].0 == k {
        let i = choose|i: int| 0 <= i < s.len() && s[i].0 == k;
        lemma_entries_at(s, i);
        assert(t[i - a] == s[i]);
        lemma_entries_at(t, i - a);
    } else {
        if exists|j: int| 0 <= j < t.len() && t[j].0 == k {
            let j = choose|j: int| 0 <= j < t.len() && t[j].0 == k;
            assert(s[j + a] == t[j]);
        }
    }
}

/// Writing a new value over entry `i`.
proof fn lemma_entries_update(s: Seq<(u128, u8)>, i: int, v: u8)
    requires
        entries_sorted(s),
        0 <= i < s.len(),
    ensures
        entries_sorted(s.update(i, (s[i].0, v))),
        forall|k: u128|
            #[trigger] entries_lookup(s.update(i, (s[i].0, v)), k) == if k == s[i].0 {
                Some(v)
            } else {
                entries_lookup(s, k)
            },
{
    let t = s.update(i, (s[i].0, v));
    assert forall|a: int, b: int| 0 <= a < b < t.len() implies t[a].0 < t[b].0 by {
        assert(s[a].0 < s[b].0);
    }
    assert forall|k: u128| #[trigger] entries_lookup(t, k) == if k == s[i].0 {
        Some(v)
    } else {
        entries_lookup(s, k)
    } by {
        if k == s[i].0 {
            lemma_entries_at(t, i);
        } else if exists|j: int| 0 <= j < s.len() && s[j].0 == k {
            let j = choose|j: int| 0 <= j < s.len() && s[j].0 == k;
            lemma_entries_at(s, j);
            lemma_entries_at(t, j);
        } else {
            if exists|j: int| 0 <= j < t.len() && t[j].0 == k {
                let j = choose|j: int| 0 <= j < t.len() && t[j].0 == k;
                assert(s[j].0 == k);
            }
        }
    }
}

/// Putting a new entry at its place `i` in the order.
proof fn lemma_entries_insert(s: Seq<(u128, u8)>, i: int, e: (u128, u8))
    requires
        entries_sorted(s),
        0 <= i <= s.len(),
        forall|j: int| 0 <= j < i ==> s[j].0 < e.0,
        forall|j: int| i <= j < s.len() ==> e.0 < s[j].0,
    ensures
        entries_sorted(s.insert(i, e)),
        forall|k: u128|
            #[trigger] entries_lookup(s.insert(i, e), k) == if k == e.0 {
                Some(e.1)
            } else {
                entries_lookup(s, k)
            },
{
    let t = s.insert(i, e);
    assert forall|a: int, b: int| 0 <= a < b < t.len() implies t[a].0 < t[b].0 by {
        if b < i {
            assert(s[a].0 < s[b].0);
        } else if b == i {
        } else if a < i {
            assert(t[b] == s[b - 1]);
        } else if a == i {
            assert(t[b] == s[b - 1]);
        } else {
            assert(s[a - 1].0 < s[b - 1].0);
        }
    }
    assert forall|k: u128| #[trigger] entries_lookup(t, k) == if k == e.0 {
        Some(e.1)
    } else {
        entries_lookup(s, k)
    } by {
        if k == e.0 {
            lemma_entries_at(t, i);
        } else if exists|j: int| 0 <= j < s.len() && s[j].0 == k {
            let j = choose|j: int| 0 <= j < s.len() && s[j].0 == k;
            lemma_entries_at(s, j);
            if j < i {
                lemma_entries_at(t, j);
            } else {
                assert(t[j + 1] == s[j]);
                lemma_entries_at(t, j + 1);
            }
        } else {
            if exists|j: int| 0 <= j < t.len() && t[j].0 == k {
                let j = choose|j: int| 0 <= j < t.len() && t[j].0 == k;
                if j < i {
                    assert(s[j].0 == k);
                } else if j > i {
                    assert(s[j - 1].0 == k);
                }
            }
        }
    }
}

/// Taking entry `i` out.
proof fn lemma_entries_remove(s: Seq<(u128, u8)>, i: int)
    requires
        entries_sorted(s),
        0 <= i < s.len(),
    ensures
        entries_sorted(s.remove(i)),
        forall|k: u128|
            #[trigger] entries_lookup(s.remove(i), k) == if k == s[i].0 {
                None
            } else {
                entries_lookup(s, k)
            },
{
    let t = s.remove(i);
    assert forall|a: int, b: int| 0 <= a < b < t.len() implies t[a].0 < t[b].0 by {
        if b < i {
            assert(s[a].0 < s[b].0);
        } else if a < i {
            assert(s[a].0 < s[b + 1].0);
        } else {
            assert(s[a + 1].0 < s[b + 1].0);
        }
    }
    assert forall|k: u128| #[trigger] entries_lookup(t, k) == if k == s[i].0 {
        None
    } else {
        entries_lookup(s, k)
    } by {
        if exists|j: int| 0 <= j < t.len() && t[j].0 == k {
            let j = choose|j: int| 0 <= j < t.len() && t[j].0 == k;
            if j < i {
                assert(s[j] == t[j]);
                assert(s[j].0 < s[i].0);
                lemma_entries_at(s, j);
            } else {
                assert(s[j + 1] == t[j]);
                assert(s[i].0 < s[j + 1].0);
                lemma_entries_at(s, j + 1);
            }
            lemma_entries_at(t, j);
        } else if k != s[i].0 {
            if exists|j: int| 0 <= j < s.len() && s[j].0 == k {
                let j = choose|j: int| 0 <= j < s.len() && s[j].0 == k;
                if j < i {
                    assert(t[j] == s[j]);
                } else {
                    assert(t[j - 1] == s[j]);
                }
            }
        }
    }
}

/// A key outside a subtree's bounds is not in it.
proof fn lemma_outside(n: Node, lo: int, hi: int, k: u128)
    requires
        n.wf(lo, hi),
        k < lo || k >= hi,
    ensures
        n.lookup(k) is None,
    decreases n,
{
    match n {
        Node::Leaf(l) => {
            let s = l.items();
            if exists|i: int| 0 <= i < s.len() && s[i].0 == k {
                let i = choose|i: int| 0 <= i < s.len() && s[i].0 == k;
                assert(lo <= s[i].0 < hi);
            }
        },
        Node::Internal(m) => {
            let p = m.pivs();
            let c = m.children@;
            lemma_route(p, k);
            let i = route(p, k) as int;
            if k < lo {
                if p.len() > 0 {
                    assert(lo < p[0]);
                }
                assert(i == 0);
            } else {
                if i < p.len() {
                    assert(p[i] < hi);
                }
                assert(i == p.len());
            }
            assert(c[i].wf(lo_of(p, i, lo), hi_of(p, i, hi)));
            lemma_outside(c[i], lo_of(p, i, lo), hi_of(p, i, hi), k);
        },
    }
}

/// Bounds may always be widened.
proof fn lemma_widen(n: Node, lo: int, hi: int, lo2: int, hi2: int)
    requires
        n.wf(lo, hi),
        lo2 <= lo,
        hi <= hi2,
    ensures
        n.wf(lo2, hi2),
    decreases n,
{
    match n {
        Node::Leaf(l) => {},
        Node::Internal(m) => {
            let p = m.pivs();
            let c = m.children@;
            assert forall|i: int| 0 <= i < c.len() implies (#[trigger] c[i]).wf(
                lo_of(p, i, lo2),
                hi_of(p, i, hi2),
            ) by {
                assert(c[i].wf(lo_of(p, i, lo), hi_of(p, i, hi)));
                lemma_widen(c[i], lo_of(p, i, lo), hi_of(p, i, hi), lo_of(p, i, lo2), hi_of(p, i, hi2));
            }
        },
    }
}

impl LeafNode {
    /// Binary search of the entries for `key`: `Ok` with its position, or `Err`
    /// with the position where it would go.
    fn search(&self, key: u128) -> (r: Result<usize, usize>)
        requires
            entries_sorted(self.items()),
        ensures
            match r {
                Ok(i) => i < self.items().len() && self.items()[i as int].0 == key,
                Err(i) => {
                    &&& i <= self.items().len()
                    &&& forall|j: int| 0 <= j < i ==> self.items()[j].0 < key
                    &&& forall|j: int| i <= j < self.items().len() ==> key < self.items()[j].0
                },
            },
    {
        let mut lo: usize = 0;
        let mut hi: usize = leaf_len(&self.entries);
        while lo < hi
            invariant
                entries_sorted(self.items()),
                lo <= hi <= self.items().len(),
                forall|j: int| 0 <= j < lo ==> self.items()[j].0 < key,
                forall|j: int| hi <= j < self.items().len() ==> key < self.items()[j].0,
            decreases hi - lo,
        {
            let mid = lo + (hi - lo) / 2;
            let e = leaf_get(&self.entries, mid);
            if e.0 == key {
                return Ok(mid);
            } else if e.0 < key {
                lo = mid + 1;
            } else {
                hi = mid;
            }
        }
        Err(lo)
    }

    /// The value under `key`, if any.
    pub fn get(&self, key: u128) -> (r: Option<u8>)
        requires
            entries_sorted(self.items()),
        ensures
            r == entries_lookup(self.items(), key),
    {
        match self.search(key) {
            Ok(i) => {
                proof {
                    lemma_entries_at(self.items(), i as int);
                }
                Some(leaf_get(&self.entries, i).1)
            },
            Err(_) => None,
        }
    }
}

impl LeafNode {
    /// An empty leaf.
    pub fn new() -> (r: LeafNode)
        ensures
            r.items().len() == 0,
    {
        LeafNode { entries: leaf_new() }
    }

    /// A leaf holding `keys[i] -> values[i]`; the keys must be strictly ascending.
    pub fn new_from(keys: &[u128], values: &[u8]) -> (r: LeafNode)
        requires
            keys@.len() == values@.len(),
            keys@.len() <= LEAF_CAP,
            sorted(keys@),
        ensures
            r.items().len() == keys@.len(),
            forall|i: int| 0 <= i < keys@.len() ==> #[trigger] r.items()[i] == (keys@[i], values@[i]),
            entries_sorted(r.items()),
    {
        let mut r = LeafNode::new();
        let mut i: usize = 0;
        while i < keys.len()
            invariant
                keys@.len() == values@.len(),
                keys@.len() <= LEAF_CAP,
                i <= keys@.len(),
                r.items().len() == i,
                forall|j: int| 0 <= j < i ==> #[trigger] r.items()[j] == (keys@[j], values@[j]),
            decreases keys@.len() - i,
        {
            leaf_push(&mut r.entries, (keys[i], values[i]));
            i = i + 1;
        }
        r
    }

    /// Keeps the lower half of the entries and returns the upper half, whose
    /// first key separates the two.
    fn split(&mut self) -> (r: (u128, LeafNode))
        requires
            old(self).items().len() >= 2,
            old(self).items().len() <= LEAF_CAP,
        ensures
            ({
                let s = old(self).items();
                let mid = s.len() / 2;
                &&& final(self).items() == s.subrange(0, mid as int)
                &&& r.1.items() == s.subrange(mid as int, s.len() as int)
                &&& r.0 == s[mid as int].0
            }),
    {
        let len = leaf_len(&self.entries);
        let mid = len / 2;
        let mut right = LeafNode::new();
        let mut i: usize = mid;
        while i < len
            invariant
                mid <= i <= len,
                len == self.items().len(),
                len <= LEAF_CAP,
                mid == len / 2,
                right.items() == self.items().subrange(mid as int, i as int),
            decreases len - i,
        {
            let e = leaf_get(&self.entries, i);
            leaf_push(&mut right.entries, e);
            i = i + 1;
            assert(right.items() =~= self.items().subrange(mid as int, i as int));
        }
        let pivot = leaf_get(&self.entries, mid).0;
        leaf_truncate(&mut self.entries, mid);
        (pivot, right)
    }
}

impl LeafNode {
    /// Stores `val` under `key`, over the old value if the key is there.
    fn insert(&mut self, key: u128, val: u8, Ghost(lo): Ghost<int>, Ghost(hi): Ghost<int>)
        requires
            old(self).wf(lo, hi),
            old(self).items().len() < LEAF_CAP || entries_lookup(old(self).items(), key) is Some,
            lo <= key < hi,
        ensures
            final(self).wf(lo, hi),
            forall|k: u128|
                #[trigger] entries_lookup(final(self).items(), k) == if k == key {
                    Some(val)
                } else {
                    entries_lookup(old(self).items(), k)
                },
            final(self).items().len() == old(self).items().len() + if entries_lookup(
                old(self).items(),
                key,
            ) is Some {
                0int
            } else {
                1int
            },
    {
        let ghost s = self.items();
        match self.search(key) {
            Ok(i) => {
                leaf_set(&mut self.entries, i, (key, val));
                proof {
                    lemma_entries_at(s, i as int);
                    lemma_entries_update(s, i as int, val);
                    assert forall|j: int| 0 <= j < self.items().len() implies lo
                        <= #[trigger] self.items()[j].0 < hi by {
                        assert(self.items()[j].0 == s[j].0);
                    }
                }
            },
            Err(i) => {
                proof {
                    if exists|j: int| 0 <= j < s.len() && s[j].0 == key {
                        let j = choose|j: int| 0 <= j < s.len() && s[j].0 == key;
                        assert(s[j].0 == key);
                    }
                }
                leaf_insert(&mut self.entries, i, (key, val));
                proof {
                    lemma_entries_insert(s, i as int, (key, val));
                    assert forall|j: int| 0 <= j < self.items().len() implies lo
                        <= #[trigger] self.items()[j].0 < hi by {
                        if j < i {
                            assert(self.items()[j] == s[j]);
                        } else if j > i {
                            assert(self.items()[j] == s[j - 1]);
                        }
                    }
                }
            },
        }
    }

    /// Takes `key` out; true when it was there.
    fn delete(&mut self, key: u128, Ghost(lo): Ghost<int>, Ghost(hi): Ghost<int>) -> (r: bool)
        requires
            old(self).wf(lo, hi),
        ensures
            final(self).wf(lo, hi),
            r == entries_lookup(old(self).items(), key) is Some,
            !r ==> final(self).items() == old(self).items(),
            forall|k: u128|
                #[trigger] entries_lookup(final(self).items(), k) == if k == key {
                    None
                } else {
                    entries_lookup(old(self).items(), k)
                },
    {
        let ghost s = self.items();
        match self.search(key) {
            Ok(i) => {
                leaf_remove(&mut self.entries, i);
                proof {
                    lemma_entries_at(s, i as int);
                    lemma_entries_remove(s, i as int);
                    assert forall|j: int| 0 <= j < self.items().len() implies lo
                        <= #[trigger] self.items()[j].0 < hi by {
                        if j < i {
                            assert(self.items()[j] == s[j]);
                        } else {
                            assert(self.items()[j] == s[j + 1]);
                        }
                    }
                }
                true
            },
            Err(i) => {
                proof {
                    if exists|j: int| 0 <= j < s.len() && s[j].0 == key {
                        let j = choose|j: int| 0 <= j < s.len() && s[j].0 == key;
                        assert(s[j].0 == key);
                    }
                }
                false
            },
        }
    }
}

impl InternalNode {
    /// An internal node with no pivots and no children, to be filled.
    pub fn new() -> (r: InternalNode)
        ensures
            r.pivs().len() == 0,
            r.kids().len() == 0,
    {
        InternalNode { pivots: pivot_new(), children: Vec::new() }
    }

    /// A node with the given pivots and children, one more child than pivots.
    pub fn new_from(pivots: &[u128], children: Vec<Node>) -> (r: InternalNode)
        requires
            pivots@.len() <= PIVOT_CAP,
            children@.len() == pivots@.len() + 1,
        ensures
            r.pivs() == pivots@,
            r.kids() == children@,
    {
        let mut p = pivot_new();
        let mut i: usize = 0;
        while i < pivots.len()
            invariant
                pivots@.len() <= PIVOT_CAP,
                i <= pivots@.len(),
                pivot_items(p) == pivots@.subrange(0, i as int),
            decreases pivots@.len() - i,
        {
            pivot_push(&mut p, pivots[i]);
            i = i + 1;
            assert(pivot_items(p) =~= pivots@.subrange(0, i as int));
        }
        assert(pivots@.subrange(0, pivots@.len() as int) =~= pivots@);
        InternalNode { pivots: p, children }
    }

    /// A node over two children separated by `key`.
    pub fn new_with_key(key: u128, left: Node, right: Node) -> (r: InternalNode)
        ensures
            r.pivs() == seq![key],
            r.kids() == seq![left, right],
    {
        let mut node = InternalNode::new();
        proof {
            lemma_caps();
        }
        pivot_push(&mut node.pivots, key);
        node.children.push(left);
        node.children.push(right);
        proof {
            assert(node.pivs() =~= seq![key]);
            assert(node.kids() =~= seq![left, right]);
        }
        node
    }

    /// Keeps the pivots before the middle one and the children left of it,
    /// returns the middle pivot and a node with the rest.
    fn split(&mut self) -> (r: (u128, InternalNode))
        requires
            old(self).pivs().len() >= 1,
            old(self).pivs().len() <= PIVOT_CAP,
            old(self).kids().len() == old(self).pivs().len() + 1,
        ensures
            ({
                let p = old(self).pivs();
                let c = old(self).kids();
                let mid = (p.len() / 2) as int;
                &&& final(self).pivs() == p.subrange(0, mid)
                &&& final(self).kids() == c.subrange(0, mid + 1)
                &&& r.1.pivs() == p.subrange(mid + 1, p.len() as int)
                &&& r.1.kids() == c.subrange(mid + 1, c.len() as int)
                &&& r.0 == p[mid]
            }),
    {
        let len = pivot_len(&self.pivots);
        let mid = len / 2;
        let mut right_pivots = pivot_new();
        let mut i: usize = mid + 1;
        while i < len
            invariant
                mid + 1 <= i <= len,
                len == self.pivs().len(),
                len <= PIVOT_CAP,
                mid == len / 2,
                pivot_items(right_pivots) == self.pivs().subrange(mid + 1, i as int),
            decreases len - i,
        {
            let x = pivot_get(&self.pivots, i);
            pivot_push(&mut right_pivots, x);
            i = i + 1;
            assert(pivot_items(right_pivots) =~= self.pivs().subrange(mid + 1, i as int));
        }
        let pivot = pivot_get(&self.pivots, mid);
        pivot_truncate(&mut self.pivots, mid);
        let right_children = self.children.split_off(mid + 1);
        (pivot, InternalNode { pivots: right_pivots, children: right_children })
    }

    /// The child that a search for `key` enters; a key equal to a pivot goes right.
    fn route_index(&self, key: u128) -> (r: usize)
        requires
            sorted(self.pivs()),
        ensures
            r == route(self.pivs(), key),
    {
        let mut lo: usize = 0;
        let mut hi: usize = pivot_len(&self.pivots);
        while lo < hi
            invariant
                sorted(self.pivs()),
                lo <= hi <= self.pivs().len(),
                forall|j: int| 0 <= j < lo ==> self.pivs()[j] <= key,
                forall|j: int| hi <= j < self.pivs().len() ==> key < self.pivs()[j],
            decreases hi - lo,
        {
            let mid = lo + (hi - lo) / 2;
            let p = pivot_get(&self.pivots, mid);
            if p <= key {
                lo = mid + 1;
            } else {
                hi = mid;
            }
        }
        proof {
            lemma_route_is(self.pivs(), key, lo as int);
        }
        lo
    }
}

impl Node {
    /// The value under `key`, if any.
    pub fn get(&self, key: u128, Ghost(lo): Ghost<int>, Ghost(hi): Ghost<int>) -> (r: Option<u8>)
        requires
            self.wf(lo, hi),
        ensures
            r == self.lookup(key),
        decreases self,
    {
        match self {
            Node::Leaf(l) => l.get(key),
            Node::Internal(n) => {
                let i = n.route_index(key);
                proof {
                    lemma_route(n.pivs(), key);
                    assert(n.children@[i as int].wf(
                        lo_of(n.pivs(), i as int, lo),
                        hi_of(n.pivs(), i as int, hi),
                    ));
                }
                n.children[i].get(
                    key,
                    Ghost(lo_of(n.pivs(), i as int, lo)),
                    Ghost(hi_of(n.pivs(), i as int, hi)),
                )
            },
        }
    }
}

impl Node {
    /// Splits a node of at least two entries (leaf) or pivots (internal) in
    /// half: `self` keeps the lower half, the returned node holds the upper
    /// half, and the returned key separates them.
    pub fn split(&mut self, Ghost(lo): Ghost<int>, Ghost(hi): Ghost<int>) -> (r: (u128, Node))
        requires
            old(self).wf(lo, hi),
            old(self).len_spec() >= 2,
        ensures
            lo < r.0 < hi,
            final(self).wf(lo, r.0 as int),
            r.1.wf(r.0 as int, hi),
            forall|k: u128|
                #[trigger] old(self).lookup(k) == if k < r.0 {
                    final(self).lookup(k)
                } else {
                    r.1.lookup(k)
                },
            1 <= final(self).len_spec() < old(self).len_spec(),
            r.1.len_spec() < old(self).len_spec(),
            !final(self).full_spec(),
            !r.1.full_spec(),
            forall|h: nat|
                #[trigger] old(self).below(h) ==> final(self).below(h) && r.1.below(h),
    {
        match self {
            Node::Leaf(l) => {
                let ghost s = l.items();
                let (pivot, right) = l.split();
                proof {
                    let mid = s.len() / 2;
                    assert(s[0].0 < s[mid as int].0);
                    assert forall|k: u128| #[trigger] entries_lookup(s, k) == if k < pivot {
                        entries_lookup(l.items(), k)
                    } else {
                        entries_lookup(right.items(), k)
                    } by {
                        if k < pivot {
                            assert forall|i: int| 0 <= i < s.len() && s[i].0 == k implies 0 <= i
                                < mid by {
                                if i >= mid {
                                    assert(s[mid as int].0 <= s[i].0);
                                }
                            }
                            lemma_entries_sub(s, 0, mid as int, k);
                        } else {
                            assert forall|i: int| 0 <= i < s.len() && s[i].0 == k implies mid <= i
                                < s.len() by {
                                if i < mid {
                                    assert(s[i].0 < s[mid as int].0);
                                }
                            }
                            lemma_entries_sub(s, mid as int, s.len() as int, k);
                        }
                    }
                    assert forall|i: int| 0 <= i < s.len() && #[trigger] s[i].0 == s[0].0 implies 0 <= i
                        < mid by {
                        if i > 0 {
                            assert(s[0].0 < s[i].0);
                        }
                    }
                    lemma_entries_sub(s, 0, mid as int, s[0].0);
                    assert forall|i: int| 0 <= i < s.len() && s[i].0 == pivot implies mid <= i
                        < s.len() by {
                        if i < mid {
                            assert(s[i].0 < s[mid as int].0);
                        }
                    }
                    lemma_entries_sub(s, mid as int, s.len() as int, pivot);
                    assert forall|i: int| 0 <= i < l.items().len() implies lo <= #[trigger] l.items()[i].0
                        < pivot by {
                        assert(l.items()[i] == s[i]);
                    }
                    assert forall|i: int| 0 <= i < right.items().len() implies pivot
                        <= #[trigger] right.items()[i].0 < hi by {
                        assert(right.items()[i] == s[mid + i]);
                    }
                }
                (pivot, Node::Leaf(right))
            },
            Node::Internal(n) => {
                let ghost p = n.pivs();
                let ghost c = n.kids();
                let (pivot, right) = n.split();
                proof {
                    let mid = (p.len() / 2) as int;
                    let lp = n.pivs();
                    let rp = right.pivs();
                    assert forall|k: u128| #[trigger] Node::Internal(old(self)->Internal_0).lookup(k)
                        == if k < pivot {
                        Node::Internal(*n).lookup(k)
                    } else {
                        Node::Internal(right).lookup(k)
                    } by {
                        lemma_route(p, k);
                        let i = route(p, k) as int;
                        if k < pivot {
                            if i > mid {
                                assert(p[mid] <= k);
                            }
                            lemma_route_is(lp, k, i);
                            assert(n.kids()[i] == c[i]);
                        } else {
                            if i <= mid {
                                assert(k < p[mid]);
                            }
                            lemma_route_is(rp, k, i - mid - 1);
                            assert(right.kids()[i - mid - 1] == c[i]);
                        }
                    }
                    assert forall|j: int| 0 <= j < n.kids().len() implies (#[trigger] n.kids()[j]).wf(
                        lo_of(lp, j, lo),
                        hi_of(lp, j, pivot as int),
                    ) by {
                        assert(n.kids()[j] == c[j]);
                        assert(c[j].wf(lo_of(p, j, lo), hi_of(p, j, hi)));
                    }
                    assert forall|j: int| 0 <= j < right.kids().len() implies (
                    #[trigger] right.kids()[j]).wf(
                        lo_of(rp, j, pivot as int),
                        hi_of(rp, j, hi),
                    ) by {
                        assert(right.kids()[j] == c[mid + 1 + j]);
                        assert(c[mid + 1 + j].wf(
                            lo_of(p, mid + 1 + j, lo),
                            hi_of(p, mid + 1 + j, hi),
                        ));
                    }
                    assert forall|j: int| 0 <= j < lp.len() implies lo < #[trigger] lp[j] < pivot by {
                        assert(lp[j] == p[j]);
                    }
                    assert forall|j: int| 0 <= j < rp.len() implies pivot < #[trigger] rp[j] < hi by {
                        assert(rp[j] == p[mid + 1 + j]);
                    }
                    assert forall|h: nat| #[trigger] Node::Internal(
                        old(self)->Internal_0,
                    ).below(h) implies Node::Internal(*n).below(h) && Node::Internal(
                        right,
                    ).below(h) by {
                        assert forall|j: int| 0 <= j < n.kids().len() implies (
                        #[trigger] n.kids()[j]).below((h - 1) as nat) by {
                            assert(n.kids()[j] == c[j]);
                        }
                        assert forall|j: int| 0 <= j < right.kids().len() implies (
                        #[trigger] right.kids()[j]).below((h - 1) as nat) by {
                            assert(right.kids()[j] == c[mid + 1 + j]);
                        }
                    }
                }
                (pivot, Node::Internal(right))
            },
        }
    }
}

impl Node {
    /// Entries in a leaf, pivots in an internal node.
    pub fn len(&self) -> (r: usize)
        ensures
            r == self.len_spec(),
    {
        match self {
            Node::Leaf(l) => leaf_len(&l.entries),
            Node::Internal(n) => pivot_len(&n.pivots),
        }
    }

    /// The node's own array is at capacity.
    pub fn is_full(&self) -> (r: bool)
        ensures
            r == self.full_spec(),
    {
        proof {
            lemma_caps();
        }
        match self {
            Node::Leaf(l) => leaf_len(&l.entries) == LEAF_CAP,
            Node::Internal(n) => pivot_len(&n.pivots) == PIVOT_CAP,
        }
    }

    /// The node's own array is empty (an internal node may still have one child).
    pub fn is_empty(&self) -> (r: bool)
        ensures
            r == (self.len_spec() == 0),
    {
        self.len() == 0
    }
}

/// `n` is `o` after `try_split(i)`: when child `i` of `o` was full, it was
/// split into the halves now at `i` and `i + 1`, with the key separating them
/// put at pivot `i`; otherwise nothing changed.
pub open spec fn split_child_rel(o: InternalNode, n: InternalNode, i: int) -> bool {
    if o.kids()[i].full_spec() {
        let q = n.pivs()[i];
        &&& n.pivs() == o.pivs().insert(i, q)
        &&& n.kids() == o.kids().update(i, n.kids()[i]).insert(i + 1, n.kids()[i + 1])
        &&& forall|k: u128|
            #[trigger] o.kids()[i].lookup(k) == if k < q {
                n.kids()[i].lookup(k)
            } else {
                n.kids()[i + 1].lookup(k)
            }
    } else {
        n == o
    }
}

/// The child that a key routed to child `i` of `o` enters in `n`: `i`, or
/// when child `i` was split, `i + 1` for a key at or above the new pivot.
pub open spec fn split_child_route(o: InternalNode, n: InternalNode, i: int, k: u128) -> int {
    if o.kids()[i].full_spec() && k >= n.pivs()[i] {
        i + 1
    } else {
        i
    }
}

impl InternalNode {
    /// Splits child `idx` first if it is full, putting the separating key at
    /// pivot `idx` and the upper half at child `idx + 1`.
    pub fn try_split(&mut self, idx: usize, Ghost(lo): Ghost<int>, Ghost(hi): Ghost<int>)
        requires
            Node::Internal(*old(self)).wf(lo, hi),
            old(self).pivs().len() < PIVOT_CAP,
            idx < old(self).kids().len(),
        ensures
            Node::Internal(*final(self)).wf(lo, hi),
            forall|k: u128|
                #[trigger] Node::Internal(*final(self)).lookup(k) == Node::Internal(
                    *old(self),
                ).lookup(k),
            forall|k: u128|
                route(old(self).pivs(), k) == idx ==> !(#[trigger] final(self).kids()[route(
                    final(self).pivs(),
                    k,
                ) as int]).full_spec(),
            final(self).pivs().len() <= old(self).pivs().len() + 1,
            forall|h: nat|
                #[trigger] Node::Internal(*old(self)).below(h) ==> Node::Internal(
                    *final(self),
                ).below(h),
            split_child_rel(*old(self), *final(self), idx as int),
            forall|k: u128|
                route(old(self).pivs(), k) == idx ==> #[trigger] route(final(self).pivs(), k)
                    == split_child_route(*old(self), *final(self), idx as int, k),
    {
        let ghost p = self.pivs();
        let ghost c = self.kids();
        proof {
            lemma_caps();
            assert(c[idx as int].wf(lo_of(p, idx as int, lo), hi_of(p, idx as int, hi)));
        }
        if self.children[idx].is_full() {
            let ghost clo = lo_of(p, idx as int, lo);
            let ghost chi = hi_of(p, idx as int, hi);
            let (pivot, right) = self.children[idx].split(Ghost(clo), Ghost(chi));
            let ghost left = self.children@[idx as int];
            pivot_insert(&mut self.pivots, idx, pivot);
            self.children.insert(idx + 1, right);
            proof {
                assert(self.pivs() == p.insert(idx as int, pivot));
                assert(self.kids() == c.update(idx as int, left).insert(idx + 1, right));
                lemma_split_child_wf(*old(self), *self, idx as int, pivot, left, right, lo, hi);
                lemma_split_child_lookup(*old(self), *self, idx as int, pivot, left, right, lo, hi);
                lemma_split_child_route(*old(self), *self, idx as int, pivot, left, right);
                lemma_split_child_below(*old(self), *self, idx as int, left, right);
                assert(self.kids()[idx as int] == left && self.kids()[idx + 1] == right);
                assert(self.pivs()[idx as int] == pivot);
            }
        } else {
            proof {
                assert forall|k: u128| route(p, k) == idx implies #[trigger] route(self.pivs(), k)
                    == split_child_route(*old(self), *self, idx as int, k) by {}
            }
        }
    }
}

/// After child `idx` of `o` split into `left`, `pivot`, `right`, the node is well formed.
#[verifier::spinoff_prover]
#[verifier::rlimit(60)]
proof fn lemma_split_child_wf(
    o: InternalNode,
    n: InternalNode,
    idx: int,
    pivot: u128,
    left: Node,
    right: Node,
    lo: int,
    hi: int,
)
    requires
        Node::Internal(o).wf(lo, hi),
        o.pivs().len() < PIVOT_CAP,
        0 <= idx < o.kids().len(),
        n.pivs() == o.pivs().insert(idx, pivot),
        n.kids() == o.kids().update(idx, left).insert(idx + 1, right),
        lo_of(o.pivs(), idx, lo) < pivot < hi_of(o.pivs(), idx, hi),
        left.wf(lo_of(o.pivs(), idx, lo), pivot as int),
        right.wf(pivot as int, hi_of(o.pivs(), idx, hi)),
    ensures
        Node::Internal(n).wf(lo, hi),
{
    let p = o.pivs();
    let c = o.kids();
    let pn = n.pivs();
    let cn = n.kids();
    assert(sorted(pn)) by {
        assert forall|a: int, b: int| 0 <= a < b < pn.len() implies pn[a] < pn[b] by {
            if b < idx {
            } else if b == idx {
                if a < idx {
                    assert(p[a] <= p[idx - 1]);
                }
            } else if a < idx {
                assert(pn[b] == p[b - 1]);
            } else if a == idx {
                assert(pn[b] == p[b - 1]);
                assert(p[idx] <= p[b - 1]);
            } else {
                assert(pn[a] == p[a - 1] && pn[b] == p[b - 1]);
            }
        }
    }
    assert forall|j: int| 0 <= j < pn.len() implies lo < #[trigger] pn[j] < hi by {
        if j < idx {
            assert(pn[j] == p[j]);
        } else if j > idx {
            assert(pn[j] == p[j - 1]);
        } else {
            if idx > 0 {
                assert(lo < p[idx - 1]);
            }
            if idx < p.len() {
                assert(p[idx] < hi);
            }
        }
    }
    assert forall|j: int| 0 <= j < cn.len() implies (#[trigger] cn[j]).wf(
        lo_of(pn, j, lo),
        hi_of(pn, j, hi),
    ) by {
        if j < idx {
            assert(cn[j] == c[j]);
            assert(c[j].wf(lo_of(p, j, lo), hi_of(p, j, hi)));
        } else if j > idx + 1 {
            assert(cn[j] == c[j - 1]);
            assert(c[j - 1].wf(lo_of(p, j - 1, lo), hi_of(p, j - 1, hi)));
            assert(pn[j - 1] == p[j - 2]);
            if j - 1 < p.len() {
                assert(pn[j] == p[j - 1]);
            }
        } else if j == idx + 1 {
            if idx + 1 < pn.len() {
                assert(pn[idx + 1] == p[idx]);
            }
        }
    }
}

/// After child `idx` of `o` split, every key is found where it was found before.
#[verifier::spinoff_prover]
#[verifier::rlimit(60)]
proof fn lemma_split_child_lookup(
    o: InternalNode,
    n: InternalNode,
    idx: int,
    pivot: u128,
    left: Node,
    right: Node,
    lo: int,
    hi: int,
)
    requires
        Node::Internal(o).wf(lo, hi),
        0 <= idx < o.kids().len(),
        n.pivs() == o.pivs().insert(idx, pivot),
        n.kids() == o.kids().update(idx, left).insert(idx + 1, right),
        lo_of(o.pivs(), idx, lo) < pivot < hi_of(o.pivs(), idx, hi),
        forall|k: u128|
            #[trigger] o.kids()[idx].lookup(k) == if k < pivot {
                left.lookup(k)
            } else {
                right.lookup(k)
            },
    ensures
        forall|k: u128| #[trigger] Node::Internal(n).lookup(k) == Node::Internal(o).lookup(k),
{
    let p = o.pivs();
    let c = o.kids();
    let pn = n.pivs();
    let cn = n.kids();
    assert forall|k: u128| #[trigger] Node::Internal(n).lookup(k) == Node::Internal(o).lookup(k) by {
        lemma_route(p, k);
        let i = route(p, k) as int;
        assert(sorted(pn)) by {
            assert forall|a: int, b: int| 0 <= a < b < pn.len() implies pn[a] < pn[b] by {
                if b < idx {
                } else if b == idx {
                    if a < idx {
                        assert(p[a] <= p[idx - 1]);
                    }
                } else if a < idx {
                    assert(pn[b] == p[b - 1]);
                } else if a == idx {
                    assert(pn[b] == p[b - 1]);
                    assert(p[idx] <= p[b - 1]);
                } else {
                    assert(pn[a] == p[a - 1] && pn[b] == p[b - 1]);
                }
            }
        }
        if i < idx {
            lemma_route_is(pn, k, i);
            assert(cn[i] == c[i]);
        } else if i > idx {
            assert(pn[i] == p[i - 1]);
            if i < p.len() {
                assert(pn[i + 1] == p[i]);
            }
            lemma_route_is(pn, k, i + 1);
            assert(cn[i + 1] == c[i]);
        } else if k < pivot {
            lemma_route_is(pn, k, i);
            assert(c[idx].lookup(k) == left.lookup(k));
        } else {
            if i < p.len() {
                assert(pn[i + 1] == p[i]);
            }
            lemma_route_is(pn, k, i + 1);
            assert(c[idx].lookup(k) == right.lookup(k));
        }
    }
}

/// After child `idx` of `o` split, a key that went to that child goes to a half that is not full.
proof fn lemma_split_child_route(
    o: InternalNode,
    n: InternalNode,
    idx: int,
    pivot: u128,
    left: Node,
    right: Node,
)
    requires
        sorted(o.pivs()),
        0 <= idx <= o.pivs().len(),
        sorted(n.pivs()),
        n.pivs() == o.pivs().insert(idx, pivot),
        n.kids() == o.kids().update(idx, left).insert(idx + 1, right),
        o.kids().len() == o.pivs().len() + 1,
        !left.full_spec(),
        !right.full_spec(),
    ensures
        forall|k: u128|
            route(o.pivs(), k) == idx ==> !(#[trigger] n.kids()[route(n.pivs(), k) as int]).full_spec(),
        forall|k: u128|
            route(o.pivs(), k) == idx ==> #[trigger] route(n.pivs(), k) == if k < pivot {
                idx
            } else {
                idx + 1
            },
{
    let p = o.pivs();
    let pn = n.pivs();
    assert forall|k: u128| route(p, k) == idx implies #[trigger] route(pn, k) == if k < pivot {
        idx
    } else {
        idx + 1
    } by {
        lemma_route(p, k);
        if k < pivot {
            lemma_route_is(pn, k, idx);
        } else {
            if idx < p.len() {
                assert(pn[idx + 1] == p[idx]);
            }
            lemma_route_is(pn, k, idx + 1);
        }
    }
    assert forall|k: u128| route(p, k) == idx implies !(#[trigger] n.kids()[route(
        pn,
        k,
    ) as int]).full_spec() by {
        lemma_route(p, k);
        if k < pivot {
            lemma_route_is(pn, k, idx);
        } else {
            if idx < p.len() {
                assert(pn[idx + 1] == p[idx]);
            }
            lemma_route_is(pn, k, idx + 1);
        }
    }
}

/// Splitting a child keeps the height bound.
proof fn lemma_split_child_below(o: InternalNode, n: InternalNode, idx: int, left: Node, right: Node)
    requires
        0 <= idx < o.kids().len(),
        n.kids() == o.kids().update(idx, left).insert(idx + 1, right),
        forall|h: nat| #[trigger] o.kids()[idx].below(h) ==> left.below(h) && right.below(h),
    ensures
        forall|h: nat| #[trigger] Node::Internal(o).below(h) ==> Node::Internal(n).below(h),
{
    let c = o.kids();
    let cn = n.kids();
    assert forall|h: nat| #[trigger] Node::Internal(o).below(h) implies Node::Internal(n).below(h) by {
        lemma_below_kids(o, h);
        assert(c[idx].below((h - 1) as nat));
        assert forall|j: int| 0 <= j < cn.len() implies (#[trigger] cn[j]).below((h - 1) as nat) by {
            if j < idx {
                assert(cn[j] == c[j]);
            } else if j > idx + 1 {
                assert(cn[j] == c[j - 1]);
            }
        }
    }
}

impl Node {
    /// Stores `val` under `key`, over the old value if the key is there.
    /// The node must not be full: a parent splits a full child before it
    /// descends into it.
    pub fn insert(
        &mut self,
        key: u128,
        val: u8,
        Ghost(lo): Ghost<int>,
        Ghost(hi): Ghost<int>,
        Ghost(h): Ghost<nat>,
    )
        requires
            old(self).wf(lo, hi),
            old(self).below(h),
            !old(self).full_spec(),
            lo <= key < hi,
        ensures
            final(self).wf(lo, hi),
            final(self).below(h),
            forall|k: u128|
                #[trigger] final(self).lookup(k) == if k == key {
                    Some(val)
                } else {
                    old(self).lookup(k)
                },
            *old(self) is Leaf ==> *final(self) is Leaf,
            *old(self) is Internal ==> {
                let o = old(self)->Internal_0;
                let i = route(o.pivs(), key) as int;
                &&& forall|p: int| 0 <= p < o.pivs().len() && o.pivs()[p] == key ==> i == p + 1
                &&& *final(self) is Internal
                &&& exists|m: InternalNode|
                    (#[trigger] split_child_rel(o, m, i)) && {
                        let n = final(self)->Internal_0;
                        let j = split_child_route(o, m, i, key);
                        &&& route(m.pivs(), key) == j
                        &&& n.pivs() == m.pivs()
                        &&& n.kids() == m.kids().update(j, n.kids()[j])
                    }
            },
        decreases h,
    {
        match self {
            Node::Leaf(l) => {
                proof {
                    lemma_caps();
                }
                l.insert(key, val, Ghost(lo), Ghost(hi));
            },
            Node::Internal(n) => {
                let ghost n0 = *n;
                let i = n.route_index(key);
                proof {
                    lemma_route(n.pivs(), key);
                    lemma_caps();
                }
                n.try_split(i, Ghost(lo), Ghost(hi));
                let ghost n1 = *n;
                let j = n.route_index(key);
                let ghost p = n.pivs();
                let ghost c = n.kids();
                proof {
                    lemma_route(p, key);
                    assert(c[j as int].wf(lo_of(p, j as int, lo), hi_of(p, j as int, hi)));
                    assert(!c[j as int].full_spec());
                    assert(Node::Internal(n1).below(h));
                    assert(c[j as int].below((h - 1) as nat));
                }
                n.children[j].insert(
                    key,
                    val,
                    Ghost(lo_of(p, j as int, lo)),
                    Ghost(hi_of(p, j as int, hi)),
                    Ghost((h - 1) as nat),
                );
                proof {
                    let cn = n.kids();
                    assert(cn == c.update(j as int, cn[j as int]));
                    let i0 = i as int;
                    assert(split_child_rel(n0, n1, i0));
                    assert(route(n1.pivs(), key) == split_child_route(n0, n1, i0, key));
                    assert(n.pivs() == n1.pivs());
                    assert forall|q: int| 0 <= q < n0.pivs().len() && n0.pivs()[q] == key implies i0
                        == q + 1 by {
                        if q + 1 < n0.pivs().len() {
                            assert(n0.pivs()[q] < n0.pivs()[q + 1]);
                        }
                        lemma_route_is(n0.pivs(), key, q + 1);
                    }
                    assert forall|m: int| 0 <= m < cn.len() implies (#[trigger] cn[m]).wf(
                        lo_of(p, m, lo),
                        hi_of(p, m, hi),
                    ) by {
                        if m != j {
                            assert(cn[m] == c[m]);
                        }
                    }
                    assert forall|m: int| 0 <= m < cn.len() implies (#[trigger] cn[m]).below(
                        (h - 1) as nat,
                    ) by {
                        if m != j {
                            assert(cn[m] == c[m]);
                        }
                    }
                    assert forall|k: u128| #[trigger] Node::Internal(*n).lookup(k) == if k == key {
                        Some(val)
                    } else {
                        Node::Internal(n1).lookup(k)
                    } by {
                        lemma_route(p, k);
                        let m = route(p, k) as int;
                        assert(Node::Internal(n1).lookup(k) == c[m].lookup(k));
                        assert(Node::Internal(*n).lookup(k) == cn[m].lookup(k));
                        if m != j {
                            assert(cn[m] == c[m]);
                            if k == key {
                                assert(m == j);
                            }
                        } else {
                            assert(cn[j as int].lookup(k) == if k == key {
                                Some(val)
                            } else {
                                c[j as int].lookup(k)
                            });
                        }
                    }
                    assert forall|k: u128| Node::Internal(n1).lookup(k) == #[trigger] Node::Internal(
                        n0,
                    ).lookup(k) by {}
                }
            },
        }
    }
}

/// Replacing child `i` by `x`, well formed over the same range and below
/// the same height, whose lookups differ from the old child's at most at `key`.
#[verifier::spinoff_prover]
proof fn lemma_child_replaced(
    o: InternalNode,
    n: InternalNode,
    i: int,
    x: Node,
    key: u128,
    lo: int,
    hi: int,
    h: nat,
)
    requires
        Node::Internal(o).wf(lo, hi),
        Node::Internal(o).below(h),
        0 <= i < o.kids().len(),
        route(o.pivs(), key) == i,
        n.pivs() == o.pivs(),
        n.kids() == o.kids().update(i, x),
        x.wf(lo_of(o.pivs(), i, lo), hi_of(o.pivs(), i, hi)),
        x.below((h - 1) as nat),
        forall|k: u128| k != key ==> #[trigger] x.lookup(k) == o.kids()[i].lookup(k),
    ensures
        Node::Internal(n).wf(lo, hi),
        Node::Internal(n).below(h),
        Node::Internal(n).lookup(key) == x.lookup(key),
        forall|k: u128| k != key ==> #[trigger] Node::Internal(n).lookup(k) == Node::Internal(o).lookup(k),
{
    let p = o.pivs();
    let c = o.kids();
    let c1 = n.kids();
    lemma_below_kids(o, h);
    assert forall|m: int| 0 <= m < c1.len() implies (#[trigger] c1[m]).wf(
        lo_of(p, m, lo),
        hi_of(p, m, hi),
    ) && c1[m].below((h - 1) as nat) by {
        if m != i {
            assert(c1[m] == c[m]);
        }
    }
    assert forall|k: u128| k != key implies #[trigger] Node::Internal(n).lookup(k) == Node::Internal(
        o,
    ).lookup(k) by {
        lemma_route(p, k);
        let m = route(p, k) as int;
        assert(Node::Internal(n).lookup(k) == c1[m].lookup(k));
        assert(Node::Internal(o).lookup(k) == c[m].lookup(k));
        if m != i {
            assert(c1[m] == c[m]);
        }
    }
    lemma_route(p, key);
    assert(Node::Internal(n).lookup(key) == c1[i].lookup(key));
}

/// A height bound holds for every larger bound too.
proof fn lemma_below_mono(n: Node, h: nat)
    requires
        n.below(h),
    ensures
        n.below(h + 1),
    decreases h,
{
    match n {
        Node::Leaf(_) => {},
        Node::Internal(m) => {
            assert forall|i: int| 0 <= i < m.children@.len() implies (
            #[trigger] m.children@[i]).below(h) by {
                assert(m.children@[i].below((h - 1) as nat));
                lemma_below_mono(m.children@[i], (h - 1) as nat);
            }
        },
    }
}

/// Unfolds the height bound of an internal node.
proof fn lemma_below_kids(o: InternalNode, h: nat)
    requires
        Node::Internal(o).below(h),
    ensures
        h > 0,
        forall|i: int| 0 <= i < o.kids().len() ==> (#[trigger] o.kids()[i]).below((h - 1) as nat),
{
    assert(h > 0);
    let nn = Node::Internal(o);
    assert(nn.below(h));
    assert(nn.below(h) == (match nn {
        Node::Leaf(_) => true,
        Node::Internal(m) => forall|i: int|
            0 <= i < m.children@.len() ==> (#[trigger] m.children@[i]).below((h - 1) as nat),
    }));
    assert(forall|i: int|
        0 <= i < o.kids().len() ==> (#[trigger] o.kids()[i]).below((h - 1) as nat));
}

/// Removing a child keeps the height bound.
proof fn lemma_drop_below(o: InternalNode, n: InternalNode, i: int)
    requires
        0 <= i < o.kids().len(),
        n.kids() == o.kids().remove(i),
    ensures
        forall|h: nat| #[trigger] Node::Internal(o).below(h) ==> Node::Internal(n).below(h),
{
    let c = o.kids();
    let cn = n.kids();
    assert forall|h: nat| #[trigger] Node::Internal(o).below(h) implies Node::Internal(n).below(h) by {
        lemma_below_kids(o, h);
        assert forall|j: int| 0 <= j < cn.len() implies (#[trigger] cn[j]).below((h - 1) as nat) by {
            if j >= i {
                assert(cn[j] == c[j + 1]);
            }
        }
    }
}

/// Pivots stay sorted when one is removed.
proof fn lemma_sorted_remove(p: Seq<u128>, i: int)
    requires
        sorted(p),
        0 <= i < p.len(),
    ensures
        sorted(p.remove(i)),
{
    let pn = p.remove(i);
    assert forall|a: int, b: int| 0 <= a < b < pn.len() implies pn[a] < pn[b] by {
        if a < i && b >= i {
            assert(pn[b] == p[b + 1]);
        } else if a >= i {
            assert(pn[a] == p[a + 1] && pn[b] == p[b + 1]);
        }
    }
}

/// An empty leaf holds no key.
proof fn lemma_empty_leaf(n: Node)
    requires
        n is Leaf,
        n.len_spec() == 0,
    ensures
        forall|k: u128| (#[trigger] n.lookup(k)) is None,
{
}

/// Removing an empty child `i` with the pivot on its left: its left neighbour
/// takes over its range.
#[verifier::spinoff_prover]
#[verifier::rlimit(60)]
proof fn lemma_drop_left(o: InternalNode, n: InternalNode, i: int, lo: int, hi: int)
    requires
        Node::Internal(o).wf(lo, hi),
        1 <= i < o.kids().len(),
        forall|k: u128| (#[trigger] o.kids()[i].lookup(k)) is None,
        n.pivs() == o.pivs().remove(i - 1),
        n.kids() == o.kids().remove(i),
    ensures
        Node::Internal(n).wf(lo, hi),
        forall|k: u128| #[trigger] Node::Internal(n).lookup(k) == Node::Internal(o).lookup(k),
        forall|h: nat| #[trigger] Node::Internal(o).below(h) ==> Node::Internal(n).below(h),
{
    let p = o.pivs();
    let c = o.kids();
    let pn = n.pivs();
    let cn = n.kids();
    lemma_sorted_remove(p, i - 1);
    assert forall|j: int| 0 <= j < pn.len() implies lo < #[trigger] pn[j] < hi by {
        if j >= i - 1 {
            assert(pn[j] == p[j + 1]);
        }
    }
    assert forall|j: int| 0 <= j < cn.len() implies (#[trigger] cn[j]).wf(
        lo_of(pn, j, lo),
        hi_of(pn, j, hi),
    ) by {
        if j < i - 1 {
            assert(c[j].wf(lo_of(p, j, lo), hi_of(p, j, hi)));
        } else if j == i - 1 {
            assert(c[j].wf(lo_of(p, j, lo), hi_of(p, j, hi)));
            if j < pn.len() {
                assert(pn[j] == p[j + 1]);
            }
            lemma_widen(c[j], lo_of(p, j, lo), hi_of(p, j, hi), lo_of(pn, j, lo), hi_of(pn, j, hi));
        } else {
            assert(cn[j] == c[j + 1]);
            assert(c[j + 1].wf(lo_of(p, j + 1, lo), hi_of(p, j + 1, hi)));
            assert(pn[j - 1] == p[j]);
            if j < pn.len() {
                assert(pn[j] == p[j + 1]);
            }
        }
    }
    lemma_drop_left_lookup(o, n, i, lo, hi);
    lemma_drop_below(o, n, i);
}

/// Lookups after removing an empty child `i` with the pivot on its left.
#[verifier::spinoff_prover]
#[verifier::rlimit(60)]
proof fn lemma_drop_left_lookup(o: InternalNode, n: InternalNode, i: int, lo: int, hi: int)
    requires
        Node::Internal(o).wf(lo, hi),
        1 <= i < o.kids().len(),
        forall|k: u128| (#[trigger] o.kids()[i].lookup(k)) is None,
        n.pivs() == o.pivs().remove(i - 1),
        n.kids() == o.kids().remove(i),
    ensures
        forall|k: u128| #[trigger] Node::Internal(n).lookup(k) == Node::Internal(o).lookup(k),
{
    let p = o.pivs();
    let c = o.kids();
    let pn = n.pivs();
    let cn = n.kids();
    lemma_sorted_remove(p, i - 1);
    assert forall|k: u128| #[trigger] Node::Internal(n).lookup(k) == Node::Internal(o).lookup(k) by {
        lemma_drop_left_at(o, n, i, lo, hi, k);
    }
}

/// The same, for one key.
#[verifier::spinoff_prover]
proof fn lemma_drop_left_at(o: InternalNode, n: InternalNode, i: int, lo: int, hi: int, k: u128)
    requires
        Node::Internal(o).wf(lo, hi),
        1 <= i < o.kids().len(),
        forall|x: u128| (#[trigger] o.kids()[i].lookup(x)) is None,
        n.pivs() == o.pivs().remove(i - 1),
        n.kids() == o.kids().remove(i),
    ensures
        Node::Internal(n).lookup(k) == Node::Internal(o).lookup(k),
{
    let p = o.pivs();
    let c = o.kids();
    let pn = n.pivs();
    let cn = n.kids();
    lemma_sorted_remove(p, i - 1);
    lemma_route(p, k);
    let m = route(p, k) as int;
    assert(Node::Internal(o).lookup(k) == c[m].lookup(k));
    lemma_route(pn, k);
    let m2 = route(pn, k) as int;
    assert(Node::Internal(n).lookup(k) == cn[m2].lookup(k));
    if m < i {
        if m < i - 1 {
            assert(pn[m] == p[m]);
        } else if m < pn.len() {
            assert(pn[m] == p[m + 1]);
        }
        if m > 0 {
            assert(pn[m - 1] == p[m - 1]);
        }
        lemma_route_is(pn, k, m);
        assert(cn[m] == c[m]);
    } else if m == i {
        if i >= 2 {
            assert(pn[i - 2] == p[i - 2]);
        }
        if i - 1 < pn.len() {
            assert(pn[i - 1] == p[i]);
        }
        lemma_route_is(pn, k, i - 1);
        assert(cn[i - 1] == c[i - 1]);
        assert(c[i - 1].wf(lo_of(p, i - 1, lo), hi_of(p, i - 1, hi)));
        lemma_outside(c[i - 1], lo_of(p, i - 1, lo), hi_of(p, i - 1, hi), k);
    } else {
        assert(pn[m - 2] == p[m - 1]);
        if m - 1 < pn.len() {
            assert(pn[m - 1] == p[m]);
        }
        lemma_route_is(pn, k, m - 1);
        assert(cn[m - 1] == c[m]);
    }
}

/// Removing an empty child `i` with the pivot on its right: its right
/// neighbour takes over its range.
#[verifier::spinoff_prover]
#[verifier::rlimit(60)]
proof fn lemma_drop_right(o: InternalNode, n: InternalNode, i: int, lo: int, hi: int)
    requires
        Node::Internal(o).wf(lo, hi),
        0 <= i < o.pivs().len(),
        forall|k: u128| (#[trigger] o.kids()[i].lookup(k)) is None,
        n.pivs() == o.pivs().remove(i),
        n.kids() == o.kids().remove(i),
    ensures
        Node::Internal(n).wf(lo, hi),
        forall|k: u128| #[trigger] Node::Internal(n).lookup(k) == Node::Internal(o).lookup(k),
        forall|h: nat| #[trigger] Node::Internal(o).below(h) ==> Node::Internal(n).below(h),
{
    let p = o.pivs();
    let c = o.kids();
    let pn = n.pivs();
    let cn = n.kids();
    lemma_sorted_remove(p, i);
    assert forall|j: int| 0 <= j < pn.len() implies lo < #[trigger] pn[j] < hi by {
        if j >= i {
            assert(pn[j] == p[j + 1]);
        }
    }
    assert forall|j: int| 0 <= j < cn.len() implies (#[trigger] cn[j]).wf(
        lo_of(pn, j, lo),
        hi_of(pn, j, hi),
    ) by {
        if j < i {
            assert(c[j].wf(lo_of(p, j, lo), hi_of(p, j, hi)));
        } else if j == i {
            assert(cn[j] == c[j + 1]);
            assert(c[j + 1].wf(lo_of(p, j + 1, lo), hi_of(p, j + 1, hi)));
            if j < pn.len() {
                assert(pn[j] == p[j + 1]);
            }
            lemma_widen(
                c[j + 1],
                lo_of(p, j + 1, lo),
                hi_of(p, j + 1, hi),
                lo_of(pn, j, lo),
                hi_of(pn, j, hi),
            );
        } else {
            assert(cn[j] == c[j + 1]);
            assert(c[j + 1].wf(lo_of(p, j + 1, lo), hi_of(p, j + 1, hi)));
            assert(pn[j - 1] == p[j]);
            if j < pn.len() {
                assert(pn[j] == p[j + 1]);
            }
        }
    }
    lemma_drop_right_lookup(o, n, i, lo, hi);
    lemma_drop_below(o, n, i);
}

/// Lookups after removing an empty child `i` with the pivot on its right.
#[verifier::spinoff_prover]
#[verifier::rlimit(60)]
proof fn lemma_drop_right_lookup(o: InternalNode, n: InternalNode, i: int, lo: int, hi: int)
    requires
        Node::Internal(o).wf(lo, hi),
        0 <= i < o.pivs().len(),
        forall|k: u128| (#[trigger] o.kids()[i].lookup(k)) is None,
        n.pivs() == o.pivs().remove(i),
        n.kids() == o.kids().remove(i),
    ensures
        forall|k: u128| #[trigger] Node::Internal(n).lookup(k) == Node::Internal(o).lookup(k),
{
    let p = o.pivs();
    let c = o.kids();
    let pn = n.pivs();
    let cn = n.kids();
    lemma_sorted_remove(p, i);
    assert forall|k: u128| #[trigger] Node::Internal(n).lookup(k) == Node::Internal(o).lookup(k) by {
        lemma_drop_right_at(o, n, i, lo, hi, k);
    }
}

/// The same, for one key.
#[verifier::spinoff_prover]
proof fn lemma_drop_right_at(o: InternalNode, n: InternalNode, i: int, lo: int, hi: int, k: u128)
    requires
        Node::Internal(o).wf(lo, hi),
        0 <= i < o.pivs().len(),
        forall|x: u128| (#[trigger] o.kids()[i].lookup(x)) is None,
        n.pivs() == o.pivs().remove(i),
        n.kids() == o.kids().remove(i),
    ensures
        Node::Internal(n).lookup(k) == Node::Internal(o).lookup(k),
{
    let p = o.pivs();
    let c = o.kids();
    let pn = n.pivs();
    let cn = n.kids();
    lemma_sorted_remove(p, i);
    lemma_route(p, k);
    let m = route(p, k) as int;
    assert(Node::Internal(o).lookup(k) == c[m].lookup(k));
    lemma_route(pn, k);
    let m2 = route(pn, k) as int;
    assert(Node::Internal(n).lookup(k) == cn[m2].lookup(k));
    if m < i {
        assert(pn[m] == p[m]);
        if m > 0 {
            assert(pn[m - 1] == p[m - 1]);
        }
        lemma_route_is(pn, k, m);
        assert(cn[m] == c[m]);
    } else if m == i {
        if i > 0 {
            assert(pn[i - 1] == p[i - 1]);
        }
        if i + 1 < p.len() {
            assert(pn[i] == p[i + 1]);
        }
        lemma_route_is(pn, k, i);
        assert(cn[i] == c[i + 1]);
        assert(c[i + 1].wf(lo_of(p, i + 1, lo), hi_of(p, i + 1, hi)));
        lemma_outside(c[i + 1], lo_of(p, i + 1, lo), hi_of(p, i + 1, hi), k);
    } else {
        if m - 1 < pn.len() {
            assert(pn[m - 1] == p[m]);
        }
        if m == i + 1 {
            if i > 0 {
                assert(pn[i - 1] == p[i - 1]);
            }
        } else {
            assert(pn[m - 2] == p[m - 1]);
        }
        lemma_route_is(pn, k, m - 1);
        assert(cn[m - 1] == c[m]);
    }
}

/// Putting the only grandchild `g` in the place of child `i`, an internal
/// node left without pivots.
#[verifier::spinoff_prover]
#[verifier::rlimit(60)]
proof fn lemma_promote(o: InternalNode, n: InternalNode, i: int, g: Node, lo: int, hi: int)
    requires
        Node::Internal(o).wf(lo, hi),
        0 <= i < o.kids().len(),
        o.kids()[i] is Internal,
        o.kids()[i]->Internal_0.pivs().len() == 0,
        o.kids()[i]->Internal_0.kids() == seq![g],
        n.pivs() == o.pivs(),
        n.kids() == o.kids().update(i, g),
    ensures
        Node::Internal(n).wf(lo, hi),
        forall|k: u128| #[trigger] Node::Internal(n).lookup(k) == Node::Internal(o).lookup(k),
        forall|h: nat| #[trigger] Node::Internal(o).below(h) ==> Node::Internal(n).below(h),
{
    let p = o.pivs();
    let c = o.kids();
    let cn = n.kids();
    let ci = c[i]->Internal_0;
    assert(c[i].wf(lo_of(p, i, lo), hi_of(p, i, hi)));
    assert(ci.kids()[0] == g);
    assert(g.wf(lo_of(ci.pivs(), 0, lo_of(p, i, lo)), hi_of(ci.pivs(), 0, hi_of(p, i, hi))));
    assert forall|j: int| 0 <= j < cn.len() implies (#[trigger] cn[j]).wf(
        lo_of(p, j, lo),
        hi_of(p, j, hi),
    ) by {
        assert(c[j].wf(lo_of(p, j, lo), hi_of(p, j, hi)));
    }
    assert forall|k: u128| #[trigger] Node::Internal(n).lookup(k) == Node::Internal(o).lookup(k) by {
        lemma_route(p, k);
        let m = route(p, k) as int;
        if m == i {
            assert(route(ci.pivs(), k) == 0);
            assert(c[i].lookup(k) == g.lookup(k));
        }
    }
    assert forall|h: nat| #[trigger] Node::Internal(o).below(h) implies Node::Internal(n).below(h) by {
        lemma_below_kids(o, h);
        assert(c[i].below((h - 1) as nat));
        lemma_below_kids(ci, (h - 1) as nat);
        assert(g.below((h - 2) as nat));
        lemma_below_mono(g, (h - 2) as nat);
        assert forall|j: int| 0 <= j < cn.len() implies (#[trigger] cn[j]).below((h - 1) as nat) by {
            if j != i {
                assert(cn[j] == c[j]);
            }
        }
    }
}

/// Raising pivot `i - 1` to `f`, the first key of the leaf on its right,
/// which lies above the old pivot.
#[verifier::spinoff_prover]
#[verifier::rlimit(60)]
proof fn lemma_refresh(o: InternalNode, n: InternalNode, i: int, f: u128, lo: int, hi: int)
    requires
        Node::Internal(o).wf(lo, hi),
        1 <= i < o.kids().len(),
        o.kids()[i] is Leaf,
        o.kids()[i]->Leaf_0.items().len() >= 1,
        f == o.kids()[i]->Leaf_0.items()[0].0,
        o.pivs()[i - 1] < f,
        n.pivs() == o.pivs().update(i - 1, f),
        n.kids() == o.kids(),
    ensures
        Node::Internal(n).wf(lo, hi),
        forall|k: u128| #[trigger] Node::Internal(n).lookup(k) == Node::Internal(o).lookup(k),
        forall|h: nat| #[trigger] Node::Internal(o).below(h) ==> Node::Internal(n).below(h),
{
    let p = o.pivs();
    let c = o.kids();
    let pn = n.pivs();
    let cn = n.kids();
    let items = c[i]->Leaf_0.items();
    assert(c[i].wf(lo_of(p, i, lo), hi_of(p, i, hi)));
    assert(f < hi_of(p, i, hi));
    assert forall|a: int, b: int| 0 <= a < b < pn.len() implies pn[a] < pn[b] by {
        if b == i - 1 {
            assert(p[a] < p[i - 1]);
        } else if a == i - 1 {
            assert(p[i] <= p[b]);
        }
    }
    assert forall|j: int| 0 <= j < cn.len() implies (#[trigger] cn[j]).wf(
        lo_of(pn, j, lo),
        hi_of(pn, j, hi),
    ) by {
        assert(c[j].wf(lo_of(p, j, lo), hi_of(p, j, hi)));
        if j == i - 1 {
            lemma_widen(c[j], lo_of(p, j, lo), hi_of(p, j, hi), lo_of(pn, j, lo), hi_of(pn, j, hi));
        } else if j == i {
            assert forall|x: int| 0 <= x < items.len() implies f <= #[trigger] items[x].0 by {
                if x > 0 {
                    assert(items[0].0 < items[x].0);
                }
            }
        }
    }
    assert forall|k: u128| #[trigger] Node::Internal(n).lookup(k) == Node::Internal(o).lookup(k) by {
        lemma_route(p, k);
        let m = route(p, k) as int;
        assert(Node::Internal(o).lookup(k) == c[m].lookup(k));
        if m < i - 1 {
            lemma_route_is(pn, k, m);
        } else if m == i - 1 {
            lemma_route_is(pn, k, m);
        } else if m == i {
            if k < f {
                lemma_route_is(pn, k, i - 1);
                assert(c[i - 1].wf(lo_of(p, i - 1, lo), hi_of(p, i - 1, hi)));
                lemma_outside(c[i - 1], lo_of(p, i - 1, lo), hi_of(p, i - 1, hi), k);
                if exists|x: int| 0 <= x < items.len() && items[x].0 == k {
                    let x = choose|x: int| 0 <= x < items.len() && items[x].0 == k;
                    if x > 0 {
                        assert(items[0].0 < items[x].0);
                    }
                }
            } else {
                lemma_route_is(pn, k, i);
            }
        } else {
            lemma_route_is(pn, k, m);
        }
    }
}

/// Filling the empty child `i` from its right sibling, split into `left`,
/// `q` and `right`: the halves take the two places and `q` the pivot between.
#[verifier::spinoff_prover]
#[verifier::rlimit(60)]
proof fn lemma_rebalance(
    o: InternalNode,
    n: InternalNode,
    i: int,
    q: u128,
    left: Node,
    right: Node,
    lo: int,
    hi: int,
)
    requires
        Node::Internal(o).wf(lo, hi),
        0 <= i < o.pivs().len(),
        forall|k: u128| (#[trigger] o.kids()[i].lookup(k)) is None,
        o.pivs()[i] < q < hi_of(o.pivs(), i + 1, hi),
        left.wf(o.pivs()[i] as int, q as int),
        right.wf(q as int, hi_of(o.pivs(), i + 1, hi)),
        forall|k: u128|
            #[trigger] o.kids()[i + 1].lookup(k) == if k < q {
                left.lookup(k)
            } else {
                right.lookup(k)
            },
        forall|h: nat| #[trigger] o.kids()[i + 1].below(h) ==> left.below(h) && right.below(h),
        n.pivs() == o.pivs().update(i, q),
        n.kids().len() == o.kids().len(),
        n.kids()[i] == left,
        n.kids()[i + 1] == right,
        forall|j: int| 0 <= j < o.kids().len() && j != i && j != i + 1 ==> n.kids()[j] == o.kids()[j],
    ensures
        Node::Internal(n).wf(lo, hi),
        forall|k: u128| #[trigger] Node::Internal(n).lookup(k) == Node::Internal(o).lookup(k),
        forall|h: nat| #[trigger] Node::Internal(o).below(h) ==> Node::Internal(n).below(h),
{
    let p = o.pivs();
    let c = o.kids();
    let pn = n.pivs();
    let cn = n.kids();
    assert forall|a: int, b: int| 0 <= a < b < pn.len() implies pn[a] < pn[b] by {
        if b == i {
            assert(p[a] < p[i]);
        } else if a == i {
            assert(p[i + 1] <= p[b]);
        }
    }
    assert forall|j: int| 0 <= j < cn.len() implies (#[trigger] cn[j]).wf(
        lo_of(pn, j, lo),
        hi_of(pn, j, hi),
    ) by {
        if j == i {
            lemma_widen(left, p[i] as int, q as int, lo_of(pn, j, lo), hi_of(pn, j, hi));
        } else if j == i + 1 {
        } else {
            assert(c[j].wf(lo_of(p, j, lo), hi_of(p, j, hi)));
        }
    }
    assert forall|k: u128| #[trigger] Node::Internal(n).lookup(k) == Node::Internal(o).lookup(k) by {
        lemma_route(p, k);
        let m = route(p, k) as int;
        assert(Node::Internal(o).lookup(k) == c[m].lookup(k));
        if m < i {
            lemma_route_is(pn, k, m);
        } else if m == i {
            lemma_route_is(pn, k, i);
            assert(c[i + 1].wf(lo_of(p, i + 1, lo), hi_of(p, i + 1, hi)));
            lemma_outside(c[i + 1], lo_of(p, i + 1, lo), hi_of(p, i + 1, hi), k);
            assert(c[i + 1].lookup(k) == left.lookup(k));
        } else if m == i + 1 {
            if k < q {
                lemma_route_is(pn, k, i);
            } else {
                lemma_route_is(pn, k, i + 1);
            }
            assert(c[i + 1].lookup(k) == if k < q {
                left.lookup(k)
            } else {
                right.lookup(k)
            });
        } else {
            lemma_route_is(pn, k, m);
        }
    }
    assert forall|h: nat| #[trigger] Node::Internal(o).below(h) implies Node::Internal(n).below(h) by {
        lemma_below_kids(o, h);
        assert(c[i + 1].below((h - 1) as nat));
        assert forall|j: int| 0 <= j < cn.len() implies (#[trigger] cn[j]).below((h - 1) as nat) by {
            if j != i && j != i + 1 {
                assert(cn[j] == c[j]);
            }
        }
    }
}

/// `n` is `o` after child `i` became `x` by a delete of a key that matched
/// pivot `i - 1` (`on_pivot`) or none, and, when a key was `deleted`, after
/// the repair that follows: an emptied internal child gives way to its only
/// child; an emptied leaf under a matched pivot is removed with that pivot;
/// an emptied leaf otherwise takes the lower half of a right sibling with
/// more than one entry (the sibling's split key becoming pivot `i`), or is
/// removed with the pivot on its right, or, being the last child, with the
/// pivot on its left; a leaf left non-empty under a matched pivot gives that
/// pivot its first key.
pub open spec fn delete_repair(
    o: InternalNode,
    x: Node,
    n: InternalNode,
    i: int,
    on_pivot: bool,
    deleted: bool,
) -> bool {
    let emptied = deleted && x.len_spec() == 0;
    if emptied && x is Internal {
        n.pivs() == o.pivs() && n.kids() == o.kids().update(i, x->Internal_0.kids()[0])
    } else if emptied && on_pivot {
        n.pivs() == o.pivs().remove(i - 1) && n.kids() == o.kids().remove(i)
    } else if emptied && i < o.pivs().len() && o.kids()[i + 1].len_spec() > 1 {
        let q = n.pivs()[i];
        &&& n.pivs() == o.pivs().update(i, q)
        &&& n.kids() == o.kids().update(i, n.kids()[i]).update(i + 1, n.kids()[i + 1])
        &&& forall|k: u128|
            #[trigger] o.kids()[i + 1].lookup(k) == if k < q {
                n.kids()[i].lookup(k)
            } else {
                n.kids()[i + 1].lookup(k)
            }
    } else if emptied && i < o.pivs().len() {
        n.pivs() == o.pivs().remove(i) && n.kids() == o.kids().remove(i)
    } else if emptied && i > 0 {
        n.pivs() == o.pivs().remove(i - 1) && n.kids() == o.kids().remove(i)
    } else if deleted && on_pivot && x is Leaf && x.len_spec() > 0 {
        n.pivs() == o.pivs().update(i - 1, x->Leaf_0.items()[0].0) && n.kids() == o.kids().update(
            i,
            x,
        )
    } else {
        n.pivs() == o.pivs() && n.kids() == o.kids().update(i, x)
    }
}

/// `x` finds what `c` finds, but nothing under `key`.
pub open spec fn lacks_only(x: Node, c: Node, key: u128) -> bool {
    forall|k: u128|
        #[trigger] x.lookup(k) == if k == key {
            None
        } else {
            c.lookup(k)
        }
}

impl Node {
    /// The first key of a leaf, or the first pivot of an internal node.
    pub fn get_first_key(&self) -> (r: u128)
        requires
            self.len_spec() >= 1,
        ensures
            match self {
                Node::Leaf(l) => r == l.items()[0].0,
                Node::Internal(n) => r == n.pivs()[0],
            },
    {
        match self {
            Node::Leaf(l) => leaf_get(&l.entries, 0).0,
            Node::Internal(n) => pivot_get(&n.pivots, 0),
        }
    }

    /// Takes out the child of an internal node that has exactly one; `None`
    /// for a leaf or a node with more children, which is then left as it was.
    pub fn pop_first_child(&mut self) -> (r: Option<Node>)
        ensures
            match *old(self) {
                Node::Internal(n) => n.kids().len() == 1 ==> {
                    &&& r == Some(n.kids()[0])
                    &&& *final(self) is Internal
                    &&& final(self)->Internal_0.kids().len() == 0
                    &&& final(self)->Internal_0.pivs() == n.pivs()
                },
                Node::Leaf(_) => true,
            },
            !(*old(self) is Internal && old(self)->Internal_0.kids().len() == 1) ==> r is None
                && *final(self) == *old(self),
    {
        match self {
            Node::Leaf(_) => None,
            Node::Internal(n) => {
                if n.children.len() == 1 {
                    n.children.pop()
                } else {
                    None
                }
            },
        }
    }

    /// Takes `key` out of the subtree; true when it was there. A child left
    /// empty is repaired on the way back: an internal child without pivots
    /// gives way to its only child; an empty leaf borrows the upper half of a
    /// right sibling with two entries or more, or else is removed with a
    /// pivot next to it.
    #[verifier::spinoff_prover]
    #[verifier::rlimit(60)]
    pub fn delete(
        &mut self,
        key: u128,
        Ghost(lo): Ghost<int>,
        Ghost(hi): Ghost<int>,
        Ghost(h): Ghost<nat>,
    ) -> (r: bool)
        requires
            old(self).wf(lo, hi),
            old(self).below(h),
        ensures
            final(self).wf(lo, hi),
            final(self).below(h),
            r == old(self).lookup(key) is Some,
            forall|k: u128|
                #[trigger] final(self).lookup(k) == if k == key {
                    None
                } else {
                    old(self).lookup(k)
                },
            *old(self) is Leaf ==> *final(self) is Leaf,
            *old(self) is Internal ==> {
                let o = old(self)->Internal_0;
                let i = route(o.pivs(), key) as int;
                let on_pivot = i > 0 && o.pivs()[i - 1] == key;
                &&& *final(self) is Internal
                &&& exists|x: Node|
                    #[trigger] lacks_only(x, o.kids()[i], key) && delete_repair(
                        o,
                        x,
                        final(self)->Internal_0,
                        i,
                        on_pivot,
                        r,
                    )
            },
        decreases h,
    {
        let ghost mut wx: Node = *self;
        let r = match self {
            Node::Leaf(l) => l.delete(key, Ghost(lo), Ghost(hi)),
            Node::Internal(n) => {
                let ghost n0 = *n;
                let ghost p = n.pivs();
                let ghost c = n.kids();
                let i = n.route_index(key);
                proof {
                    lemma_route(p, key);
                    lemma_below_kids(n0, h);
                    assert(c[i as int].wf(lo_of(p, i as int, lo), hi_of(p, i as int, hi)));
                }
                let on_pivot = i > 0 && pivot_get(&n.pivots, i - 1) == key;
                let deleted = n.children[i].delete(
                    key,
                    Ghost(lo_of(p, i as int, lo)),
                    Ghost(hi_of(p, i as int, hi)),
                    Ghost((h - 1) as nat),
                );
                let ghost n1 = *n;
                proof {
                    let x = n1.kids()[i as int];
                    assert(n1.kids() == c.update(i as int, x));
                    lemma_child_replaced(n0, n1, i as int, x, key, lo, hi, h);
                    assert(Node::Internal(n1).lookup(key) is None);
                    assert(Node::Internal(n0).lookup(key) == c[i as int].lookup(key));
                }
                let ghost x = n1.kids()[i as int];
                let ghost i0 = i as int;
                proof {
                    if on_pivot {
                        assert(p[i0 - 1] == key);
                    }
                }
                n.repair(i, on_pivot, deleted, Ghost(lo), Ghost(hi), Ghost(h));
                proof {
                    lemma_repair_same(n0, n1, x, *n, i0, on_pivot, deleted);
                    assert(forall|k: u128| #[trigger] x.lookup(k) == if k == key {
                        None
                    } else {
                        n0.kids()[i0].lookup(k)
                    });
                    assert(delete_repair(n0, x, *n, i0, on_pivot, deleted));
                    wx = x;
                }
                deleted
            },
        };
        proof {
            if *old(self) is Internal {
                let oi = old(self)->Internal_0;
                let i = route(oi.pivs(), key) as int;
                let on_pivot = i > 0 && oi.pivs()[i - 1] == key;
                assert(delete_repair(oi, wx, self->Internal_0, i, on_pivot, r));
                assert(forall|k: u128| #[trigger] wx.lookup(k) == if k == key {
                    None
                } else {
                    oi.kids()[i].lookup(k)
                });
                assert(lacks_only(wx, oi.kids()[i], key));
            }
        }
        r
    }
}

impl InternalNode {
    /// Repairs child `i` after a delete below it: what `delete_repair` states,
    /// with the key map unchanged.
    #[verifier::spinoff_prover]
    #[verifier::rlimit(60)]
    fn repair(
        &mut self,
        i: usize,
        on_pivot: bool,
        deleted: bool,
        Ghost(lo): Ghost<int>,
        Ghost(hi): Ghost<int>,
        Ghost(h): Ghost<nat>,
    )
        requires
            Node::Internal(*old(self)).wf(lo, hi),
            Node::Internal(*old(self)).below(h),
            i < old(self).kids().len(),
            on_pivot ==> i > 0 && (deleted ==> old(self).kids()[i as int].lookup(
                old(self).pivs()[i - 1],
            ) is None),
        ensures
            Node::Internal(*final(self)).wf(lo, hi),
            Node::Internal(*final(self)).below(h),
            forall|k: u128|
                #[trigger] Node::Internal(*final(self)).lookup(k) == Node::Internal(
                    *old(self),
                ).lookup(k),
            delete_repair(
                *old(self),
                old(self).kids()[i as int],
                *final(self),
                i as int,
                on_pivot,
                deleted,
            ),
    {
        let ghost o = *self;
        let ghost p = self.pivs();
        proof {
            lemma_below_kids(o, h);
            assert(o.kids()[i as int].wf(lo_of(p, i as int, lo), hi_of(p, i as int, hi)));
            assert(o.kids().update(i as int, o.kids()[i as int]) =~= o.kids());
        }
        let ghost x = self.kids()[i as int];
        let ghost i0 = i as int;
        if deleted && self.children[i].is_empty() {
            let ghost ci = self.children@[i as int];
            let g = self.children[i].pop_first_child();
            match g {
                Some(g) => {
                    self.children.set(i, g);
                    proof {
                        assert(ci->Internal_0.kids() =~= seq![g]);
                        assert(self.kids() =~= o.kids().update(i as int, g));
                        lemma_promote(o, *self, i as int, g, lo, hi);
                        assert(self.kids() =~= o.kids().update(i0, g));
                        assert(delete_repair(o, x, *self, i0, on_pivot, deleted));
                    }
                },
                None => {
                    proof {
                        assert(ci is Leaf);
                        lemma_empty_leaf(ci);
                        assert(self.children@ == o.children@);
                    }
                    let plen = pivot_len(&self.pivots);
                    if on_pivot {
                        pivot_remove(&mut self.pivots, i - 1);
                        self.children.remove(i);
                        proof {
                            lemma_drop_left(o, *self, i as int, lo, hi);
                            assert(self.kids() =~= o.kids().remove(i0));
                            assert(delete_repair(o, x, *self, i0, on_pivot, deleted));
                        }
                    } else if i < plen && self.children[i + 1].len() > 1 {
                        let ghost s = self.children@[i as int + 1];
                        let ghost slo = p[i as int] as int;
                        let ghost shi = hi_of(p, i as int + 1, hi);
                        proof {
                            assert(s.wf(lo_of(p, i + 1, lo), hi_of(p, i + 1, hi)));
                        }
                        let (q, right) = self.children[i + 1].split(Ghost(slo), Ghost(shi));
                        let ghost left = self.children@[i as int + 1];
                        pivot_set(&mut self.pivots, i, q);
                        self.children.remove(i);
                        self.children.insert(i + 1, right);
                        proof {
                            assert(self.kids()[i as int] == left);
                            assert(forall|j: int|
                                0 <= j < o.kids().len() && j != i && j != i + 1
                                    ==> self.kids()[j] == o.kids()[j]) by {
                                assert forall|j: int|
                                    0 <= j < o.kids().len() && j != i && j != i + 1
                                        implies self.kids()[j] == o.kids()[j] by {
                                    if j > i + 1 {
                                        assert(self.kids()[j] == o.kids()[j]);
                                    }
                                }
                            }
                            lemma_rebalance(o, *self, i as int, q, left, right, lo, hi);
                            assert(self.kids() =~= o.kids().update(i0, left).update(
                                i0 + 1,
                                right,
                            ));
                            assert(self.kids()[i0 + 1] == right);
                            assert(self.pivs()[i0] == q);
                            assert(delete_repair(o, x, *self, i0, on_pivot, deleted));
                        }
                    } else if i < plen {
                        pivot_remove(&mut self.pivots, i);
                        self.children.remove(i);
                        proof {
                            lemma_drop_right(o, *self, i as int, lo, hi);
                            assert(self.kids() =~= o.kids().remove(i0));
                            assert(delete_repair(o, x, *self, i0, on_pivot, deleted));
                        }
                    } else if i > 0 {
                        pivot_remove(&mut self.pivots, i - 1);
                        self.children.remove(i);
                        proof {
                            lemma_drop_left(o, *self, i as int, lo, hi);
                            assert(self.kids() =~= o.kids().remove(i0));
                            assert(delete_repair(o, x, *self, i0, on_pivot, deleted));
                        }
                    } else {
                        proof {
                            assert(delete_repair(o, x, *self, i0, on_pivot, deleted));
                        }
                    }
                },
            }
        } else if on_pivot && deleted {
            let first = match &self.children[i] {
                Node::Leaf(l) => Some(leaf_get(&l.entries, 0).0),
                Node::Internal(_) => None,
            };
            if let Some(f) = first {
                proof {
                    let items = o.kids()[i as int]->Leaf_0.items();
                    assert(o.kids()[i as int].wf(
                        lo_of(p, i as int, lo),
                        hi_of(p, i as int, hi),
                    ));
                    assert(items[0].0 >= p[i - 1]);
                    if items[0].0 == p[i - 1] {
                        lemma_entries_at(items, 0);
                        assert(o.kids()[i as int].lookup(p[i - 1]) == entries_lookup(
                            items,
                            p[i - 1],
                        ));
                    }
                }
                pivot_set(&mut self.pivots, i - 1, f);
                proof {
                    lemma_refresh(o, *self, i as int, f, lo, hi);
                    assert(delete_repair(o, x, *self, i0, on_pivot, deleted));
                }
            } else {
                proof {
                    assert(delete_repair(o, x, *self, i0, on_pivot, deleted));
                }
            }
        } else {
            proof {
                assert(delete_repair(o, x, *self, i0, on_pivot, deleted));
            }
        }
    }
}

/// The repair relation reads the same from the node before the child changed.
proof fn lemma_repair_same(
    o: InternalNode,
    m: InternalNode,
    x: Node,
    n: InternalNode,
    i: int,
    on_pivot: bool,
    deleted: bool,
)
    requires
        0 <= i < o.kids().len(),
        o.kids().len() == o.pivs().len() + 1,
        m.pivs() == o.pivs(),
        m.kids() == o.kids().update(i, x),
        delete_repair(m, x, n, i, on_pivot, deleted),
    ensures
        delete_repair(o, x, n, i, on_pivot, deleted),
{
    assert(m.kids().remove(i) =~= o.kids().remove(i));
    assert(m.kids().update(i, x) =~= o.kids().update(i, x));
    if x is Internal && x.len_spec() == 0 {
        assert(m.kids().update(i, x->Internal_0.kids()[0]) =~= o.kids().update(
            i,
            x->Internal_0.kids()[0],
        ));
    }
    if i + 1 < o.kids().len() {
        assert(m.kids()[i + 1] == o.kids()[i + 1]);
        assert(m.kids().update(i, n.kids()[i]).update(i + 1, n.kids()[i + 1]) =~= o.kids().update(
            i,
            n.kids()[i],
        ).update(i + 1, n.kids()[i + 1]));
        let emptied = deleted && x.len_spec() == 0;
        if emptied && !(x is Internal) && !on_pivot && i < o.pivs().len() && o.kids()[i
            + 1].len_spec() > 1 {
            let q = n.pivs()[i];
            assert forall|k: u128| #[trigger] o.kids()[i + 1].lookup(k) == if k < q {
                n.kids()[i].lookup(k)
            } else {
                n.kids()[i + 1].lookup(k)
            } by {
                assert(m.kids()[i + 1].lookup(k) == o.kids()[i + 1].lookup(k));
            }
        }
    }
}

/// The keys of an internal node that route to a child before `j`.
pub closed spec fn keys_before(o: InternalNode, j: int) -> Set<u128> {
    Set::new(|k: u128| Node::Internal(o).lookup(k) is Some && route(o.pivs(), k) < j)
}

/// The keys of child `j` are the keys of the node that route to it.
proof fn lemma_keys_step(o: InternalNode, j: int, lo: int, hi: int)
    requires
        Node::Internal(o).wf(lo, hi),
        0 <= j < o.kids().len(),
    ensures
        keys_before(o, j + 1) == keys_before(o, j) + o.kids()[j].keys(),
        keys_before(o, j).disjoint(o.kids()[j].keys()),
        o.kids()[j].keys().subset_of(Node::Internal(o).keys()),
{
    let p = o.pivs();
    let c = o.kids();
    assert(c[j].wf(lo_of(p, j, lo), hi_of(p, j, hi)));
    assert forall|k: u128| #[trigger] c[j].keys().contains(k) implies route(p, k) == j
        && Node::Internal(o).lookup(k) == c[j].lookup(k) by {
        if k < lo_of(p, j, lo) || k >= hi_of(p, j, hi) {
            lemma_outside(c[j], lo_of(p, j, lo), hi_of(p, j, hi), k);
        }
        lemma_route_is(p, k, j);
    }
    assert forall|k: u128| #[trigger] keys_before(o, j + 1).contains(k) == (keys_before(
        o,
        j,
    ).contains(k) || c[j].keys().contains(k)) by {
        lemma_route(p, k);
        let m = route(p, k) as int;
        assert(Node::Internal(o).lookup(k) == c[m].lookup(k));
    }
    assert(keys_before(o, j + 1) =~= keys_before(o, j) + c[j].keys());
}

/// A leaf holds as many keys as entries.
proof fn lemma_leaf_keys(l: LeafNode, lo: int, hi: int)
    requires
        l.wf(lo, hi),
    ensures
        Node::Leaf(l).keys().finite(),
        Node::Leaf(l).keys().len() == l.items().len(),
{
    let s = l.items();
    let ks = s.map_values(|e: (u128, u8)| e.0);
    assert forall|a: int, b: int| 0 <= a < b < ks.len() implies ks[a] != ks[b] by {
        assert(s[a].0 < s[b].0);
    }
    assert forall|k: u128| #[trigger] Node::Leaf(l).keys().contains(k) == ks.to_set().contains(k) by {
        if ks.to_set().contains(k) {
            let i = choose|i: int| 0 <= i < ks.len() && ks[i] == k;
            assert(s[i].0 == k);
        }
        if Node::Leaf(l).keys().contains(k) {
            let i = choose|i: int| 0 <= i < s.len() && s[i].0 == k;
            assert(ks[i] == k);
        }
    }
    assert(Node::Leaf(l).keys() =~= ks.to_set());
    ks.unique_seq_to_set();
}

impl Node {
    /// The number of keys in the subtree, summed over its leaves.
    pub fn total_len(&self, Ghost(lo): Ghost<int>, Ghost(hi): Ghost<int>) -> (r: usize)
        requires
            self.wf(lo, hi),
            self.keys().finite(),
            self.keys().len() <= usize::MAX,
        ensures
            r == self.keys().len(),
        decreases self,
    {
        match self {
            Node::Leaf(l) => {
                proof {
                    lemma_leaf_keys(*l, lo, hi);
                }
                leaf_len(&l.entries)
            },
            Node::Internal(n) => {
                let ghost o = *n;
                let ghost p = n.pivs();
                let mut acc: usize = 0;
                let mut j: usize = 0;
                proof {
                    assert(keys_before(o, 0) =~= Set::<u128>::empty());
                }
                while j < n.children.len()
                    invariant
                        *n == o,
                        *self == Node::Internal(o),
                        p == o.pivs(),
                        Node::Internal(o).wf(lo, hi),
                        Node::Internal(o).keys().finite(),
                        Node::Internal(o).keys().len() <= usize::MAX,
                        j <= o.kids().len(),
                        keys_before(o, j as int).finite(),
                        keys_before(o, j as int).subset_of(Node::Internal(o).keys()),
                        acc == keys_before(o, j as int).len(),
                    decreases o.kids().len() - j,
                {
                    proof {
                        lemma_keys_step(o, j as int, lo, hi);
                        vstd::set_lib::lemma_len_subset(
                            keys_before(o, j as int + 1),
                            Node::Internal(o).keys(),
                        );
                        vstd::set_lib::lemma_len_subset(
                            o.kids()[j as int].keys(),
                            Node::Internal(o).keys(),
                        );
                        assert(Node::Internal(o).wf(lo, hi));
                        assert(n.children@[j as int].wf(
                            lo_of(p, j as int, lo),
                            hi_of(p, j as int, hi),
                        ));
                        assert(decreases_to!(*self => n.children@[j as int]));
                    }
                    let r = n.children[j].total_len(
                        Ghost(lo_of(p, j as int, lo)),
                        Ghost(hi_of(p, j as int, hi)),
                    );
                    proof {
                        vstd::set_lib::lemma_set_disjoint_lens(
                            keys_before(o, j as int),
                            o.kids()[j as int].keys(),
                        );
                    }
                    acc = acc + r;
                    j = j + 1;
                }
                proof {
                    assert forall|k: u128| #[trigger] Node::Internal(o).keys().contains(k)
                        implies keys_before(o, j as int).contains(k) by {
                        lemma_route(p, k);
                    }
                    assert(keys_before(o, j as int) =~= Node::Internal(o).keys());
                }
                acc
            },
        }
    }
}

/// Lower bound below every key, for the root.
pub open spec fn key_floor() -> int {
    -1
}

/// Upper bound above every key, for the root.
pub open spec fn key_ceiling() -> int {
    u128::MAX + 1
}

/// The root that a root `m` gives way to: its only child when it is an
/// internal node without pivots, else `m` itself.
pub open spec fn collapse(m: Node) -> Node {
    if m is Internal && m.len_spec() == 0 && m->Internal_0.kids().len() == 1 {
        m->Internal_0.kids()[0]
    } else {
        m
    }
}

impl View for BTree {
    type V = Map<u128, u8>;

    /// The keys the tree holds, each with its value.
    closed spec fn view(&self) -> Map<u128, u8> {
        Map::new(|k: u128| self.root.lookup(k) is Some, |k: u128| self.root.lookup(k)->0)
    }
}

impl BTree {
    /// The root node.
    pub closed spec fn root_node(&self) -> Node {
        self.root
    }

    /// The root is well formed over all keys, of bounded height, and holds
    /// finitely many keys.
    pub closed spec fn wf(&self) -> bool {
        &&& self.root.wf(key_floor(), key_ceiling())
        &&& exists|h: nat| self.root.below(h)
        &&& self.root.keys().finite()
    }

    /// An empty tree: a root leaf with no entries.
    pub fn new() -> (r: BTree)
        ensures
            r.wf(),
            r@ == Map::<u128, u8>::empty(),
    {
        let r = BTree { root: Node::Leaf(LeafNode::new()) };
        proof {
            lemma_caps();
            assert(r.root.below(1));
            assert(r.root.keys() =~= Set::<u128>::empty());
            assert(r@ =~= Map::<u128, u8>::empty());
        }
        r
    }

    /// Stores `val` under `key`, over the old value if the key is there. A
    /// full root is split first, under a new internal root.
    pub fn insert(&mut self, key: Key, val: Value)
        requires
            old(self).wf(),
        ensures
            final(self).wf(),
            final(self)@ == old(self)@.insert(key[0], val),
    {
        let ghost h = choose|h: nat| self.root.below(h);
        let ghost h2 = h;
        let k = key[0];
        if self.root.is_full() {
            proof {
                lemma_caps();
            }
            let ghost old_root = self.root;
            let (pivot, right) = self.root.split(Ghost(key_floor()), Ghost(key_ceiling()));
            let mut left = Node::Leaf(LeafNode::new());
            std::mem::swap(&mut left, &mut self.root);
            self.root = Node::Internal(InternalNode::new_with_key(pivot, left, right));
            proof {
                let n = self.root->Internal_0;
                let p = n.pivs();
                assert(n.kids()[0] == left && n.kids()[1] == right);
                assert forall|i: int| 0 <= i < n.kids().len() implies (#[trigger] n.kids()[i]).wf(
                    lo_of(p, i, key_floor()),
                    hi_of(p, i, key_ceiling()),
                ) && n.kids()[i].below(h) by {}
                assert(self.root.below(h + 1));
                h2 = h + 1;
                assert forall|x: u128| #[trigger] self.root.lookup(x) == old_root.lookup(x) by {
                    if x < pivot {
                        lemma_route_is(p, x, 0);
                    } else {
                        lemma_route_is(p, x, 1);
                    }
                }
                assert(self.root.keys() == old_root.keys());
            }
        }
        proof {
            lemma_caps();
        }
        let ghost mid_root = self.root;
        self.root.insert(k, val, Ghost(key_floor()), Ghost(key_ceiling()), Ghost(h2));
        proof {
            assert(self.root.keys() =~= mid_root.keys().insert(k));
            assert(self@ =~= old(self)@.insert(k, val));
        }
    }

    /// The value under `key`, if any.
    pub fn get(&self, key: &Key) -> (r: Option<Value>)
        requires
            self.wf(),
        ensures
            r == (if self@.contains_key(key[0]) {
                Some(self@[key[0]])
            } else {
                None
            }),
    {
        self.root.get(key[0], Ghost(key_floor()), Ghost(key_ceiling()))
    }

    /// Takes `key` out; true when it was there, and when it was not the tree
    /// is left as it was. A root left as an internal node without pivots
    /// gives way to its only child.
    pub fn delete(&mut self, key: &Key) -> (r: bool)
        requires
            old(self).wf(),
        ensures
            final(self).wf(),
            r == old(self)@.contains_key(key[0]),
            final(self)@ == old(self)@.remove(key[0]),
            !r ==> *final(self) == *old(self),
            r ==> exists|m: Node|
                #[trigger] lacks_only(m, old(self).root_node(), key[0]) && final(self).root_node()
                    == collapse(m),
    {
        let ghost h = choose|h: nat| self.root.below(h);
        let k = key[0];
        if self.root.get(k, Ghost(key_floor()), Ghost(key_ceiling())).is_none() {
            return false;
        }
        let ghost old_root = self.root;
        let result = self.root.delete(k, Ghost(key_floor()), Ghost(key_ceiling()), Ghost(h));
        let ghost m = self.root;
        proof {
            assert(self.root.keys() =~= old_root.keys().remove(k));
        }
        if result && self.root.is_empty() {
            let ghost mid_root = self.root;
            let child = self.root.pop_first_child();
            match child {
                Some(new_root) => {
                    proof {
                        let n = mid_root->Internal_0;
                        assert(n.kids()[0] == new_root);
                        assert(new_root.wf(
                            lo_of(n.pivs(), 0, key_floor()),
                            hi_of(n.pivs(), 0, key_ceiling()),
                        ));
                        lemma_below_kids(n, h);
                        assert forall|x: u128| #[trigger] new_root.lookup(x) == mid_root.lookup(x) by {
                            assert(route(n.pivs(), x) == 0);
                        }
                        assert(new_root.keys() == mid_root.keys());
                    }
                    self.root = new_root;
                },
                None => {},
            }
        }
        proof {
            assert(self@ =~= old(self)@.remove(k));
            assert(lacks_only(m, old_root, k));
            assert(self.root == collapse(m));
        }
        result
    }

    /// The number of keys in the tree, counted leaf by leaf.
    pub fn total_len(&self) -> (r: usize)
        requires
            self.wf(),
            self@.len() <= usize::MAX,
        ensures
            r == self@.len(),
    {
        proof {
            assert(self@.dom() =~= self.root.keys());
        }
        self.root.total_len(Ghost(key_floor()), Ghost(key_ceiling()))
    }
}

} // verus!
