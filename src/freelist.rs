//! A slot allocator handing out stable 32-bit handles, with freed slots kept
//! on an intrusive chain and reused before the backing vector grows.
use vstd::prelude::*;

verus! {

/// One slot: either a stored value or a link to the next free slot.
pub enum Handle<T> {
    Next(u32),
    Value(T),
}

/// Stable-handle store over a single growable vector of slots.
pub struct Freelist<T> {
    list: Vec<Handle<T>>,
    free_list_head: usize,
    size: usize,
    /// The free slots in the order in which `push` will reuse them.
    chain: Ghost<Seq<int>>,
}

impl<T> View for Freelist<T> {
    type V = Seq<Option<T>>;

    /// Slot `i` holds `Some(v)` when occupied by `v`, `None` when free.
    closed spec fn view(&self) -> Seq<Option<T>> {
        Seq::new(
            self.list@.len(),
            |i: int|
                match self.list@[i] {
                    Handle::Value(v) => Some(v),
                    Handle::Next(_) => None,
                },
        )
    }
}

impl<T> Freelist<T> {
    /// The free slots, most recently freed first: `push` takes the first one.
    pub closed spec fn free_chain(&self) -> Seq<int> {
        self.chain@
    }

    /// Number of occupied slots.
    pub open spec fn occupied(&self) -> int {
        self@.len() - self.free_chain().len()
    }

    /// The free chain lists each free slot exactly once, and every handle fits in 32 bits.
    pub closed spec fn wf(&self) -> bool {
        let c = self.chain@;
        &&& self.list@.len() <= u32::MAX
        &&& c.no_duplicates()
        &&& c.len() <= self.list@.len()
        &&& self.size == self.list@.len() - c.len()
        &&& forall|j: int| 0 <= j < c.len() ==> 0 <= #[trigger] c[j] < self.list@.len()
        &&& forall|i: int|
            0 <= i < self.list@.len() ==> (#[trigger] self.list@[i] is Next <==> c.contains(i))
        &&& c.len() > 0 ==> self.free_list_head == c[0]
        &&& forall|j: int|
            0 <= j < c.len() - 1 ==> self.list@[#[trigger] c[j]] == Handle::<T>::Next(
                c[j + 1] as u32,
            )
    }

    /// The free chain lists exactly the free slots, each once, all in range;
    /// so `occupied` counts the slots that hold a value.
    pub proof fn lemma_free_chain(&self)
        requires
            self.wf(),
        ensures
            self.free_chain().no_duplicates(),
            self.free_chain().len() <= self@.len(),
            forall|j: int|
                0 <= j < self.free_chain().len() ==> 0 <= #[trigger] self.free_chain()[j]
                    < self@.len(),
            forall|i: int| 0 <= i < self@.len() ==> (#[trigger] self@[i] is None
                <==> self.free_chain().contains(i)),
            self.occupied() >= 0,
    {
        assert forall|i: int| 0 <= i < self@.len() implies (#[trigger] self@[i] is None
            <==> self.free_chain().contains(i)) by {
            assert(self.list@[i] is Next <==> self.chain@.contains(i));
        }
    }

    /// An empty store.
    pub fn new() -> (r: Freelist<T>)
        ensures
            r.wf(),
            r@ == Seq::<Option<T>>::empty(),
            r.free_chain() == Seq::<int>::empty(),
    {
        Freelist { list: Vec::new(), free_list_head: 0, size: 0, chain: Ghost(Seq::empty()) }
    }

    /// Stores `val` and returns its handle: the first free slot when there is one,
    /// else a new slot at the end.
    pub fn push(&mut self, val: T) -> (r: u32)
        requires
            old(self).wf(),
            old(self).free_chain().len() > 0 || old(self)@.len() < u32::MAX,
        ensures
            final(self).wf(),
            old(self).free_chain().len() == 0 ==> {
                &&& r as int == old(self)@.len()
                &&& final(self)@ == old(self)@.push(Some(val))
                &&& final(self).free_chain() == old(self).free_chain()
            },
            old(self).free_chain().len() > 0 ==> {
                &&& r as int == old(self).free_chain()[0]
                &&& (r as int) < old(self)@.len()
                &&& old(self)@[r as int] is None
                &&& final(self)@ == old(self)@.update(r as int, Some(val))
                &&& final(self).free_chain() == old(self).free_chain().drop_first()
            },
    {
        if self.size == self.list.len() {
            self.list.push(Handle::Value(val));
            self.size = self.size + 1;
            proof {
                assert(self.chain@.len() == 0);
                assert(self@ =~= old(self)@.push(Some(val)));
            }
            return (self.size - 1) as u32;
        }
        let ghost c = self.chain@;
        assert(c.len() > 0);
        let idx = self.free_list_head;
        assert(self.list@[idx as int] is Next) by {
            assert(c.contains(c[0]));
        }
        assert(old(self)@[idx as int] is None);
        let next = match &self.list[idx] {
            Handle::Next(n) => *n,
            Handle::Value(_) => 0,
        };
        self.list.set(idx, Handle::Value(val));
        self.free_list_head = next as usize;
        self.size = self.size + 1;
        self.chain = Ghost(c.drop_first());
        proof {
            let d = c.drop_first();
            assert forall|i: int| 0 <= i < self.list@.len() implies (#[trigger] self.list@[i] is Next
                <==> d.contains(i)) by {
                if i == idx as int {
                    if d.contains(i) {
                        let j = choose|j: int| 0 <= j < d.len() && d[j] == i;
                        assert(c[j + 1] == c[0]);
                    }
                } else {
                    if c.contains(i) {
                        let j = choose|j: int| 0 <= j < c.len() && c[j] == i;
                        assert(j != 0);
                        assert(d[j - 1] == i);
                    }
                }
            }
            assert forall|j: int| 0 <= j < d.len() - 1 implies self.list@[#[trigger] d[j]]
                == Handle::<T>::Next(d[j + 1] as u32) by {
                assert(c[j + 1] != c[0]);
                assert(old(self).list@[c[j + 1]] == Handle::<T>::Next(c[j + 2] as u32));
            }
            if d.len() > 0 {
                assert(old(self).list@[c[0]] == Handle::<T>::Next(c[1] as u32));
            }
            assert(self@ =~= old(self)@.update(idx as int, Some(val)));
        }
        idx as u32
    }

    /// The value under `idx`, or `None` when that slot is free.
    pub fn get(&self, idx: u32) -> (r: Option<&T>)
        requires
            self.wf(),
            idx < self@.len(),
        ensures
            match r {
                Some(v) => self@[idx as int] == Some(*v),
                None => self@[idx as int] is None,
            },
    {
        match &self.list[idx as usize] {
            Handle::Next(_) => None,
            Handle::Value(val) => Some(val),
        }
    }

    /// Frees the slot under `idx` and puts it first on the free chain;
    /// `None` when it was free already.
    #[verifier::rlimit(40)]
    pub fn delete(&mut self, idx: u32) -> (r: Option<()>)
        requires
            old(self).wf(),
            idx < old(self)@.len(),
        ensures
            final(self).wf(),
            r is Some <==> old(self)@[idx as int] is Some,
            r is Some ==> final(self)@ == old(self)@.update(idx as int, None)
                && final(self).free_chain() == seq![idx as int] + old(self).free_chain(),
            r is None ==> final(self)@ == old(self)@ && final(self).free_chain() == old(
                self,
            ).free_chain(),
    {
        let is_free = match &self.list[idx as usize] {
            Handle::Next(_) => true,
            Handle::Value(_) => false,
        };
        if is_free {
            return None;
        }
        let ghost c = self.chain@;
        proof {
            lemma_chain_short(c, self.list@.len() as int, idx as int);
        }
        let head = self.free_list_head;
        self.list.set(idx as usize, Handle::Next(head as u32));
        self.free_list_head = idx as usize;
        self.size = self.size - 1;
        self.chain = Ghost(seq![idx as int] + c);
        proof {
            let d = seq![idx as int] + c;
            assert(!c.contains(idx as int));
            lemma_prepend(c, idx as int);
            assert forall|i: int| 0 <= i < self.list@.len() implies (#[trigger] self.list@[i] is Next
                <==> d.contains(i)) by {
                assert(d.contains(i) == (i == idx as int || c.contains(i)));
            }
            assert forall|j: int| 0 <= j < d.len() - 1 implies self.list@[#[trigger] d[j]]
                == Handle::<T>::Next(d[j + 1] as u32) by {
                assert(d[j + 1] == c[j]);
                if j > 0 {
                    assert(d[j] == c[j - 1]);
                    assert(d[j] != idx as int);
                    assert(old(self).list@[c[j - 1]] == Handle::<T>::Next(c[j] as u32));
                } else {
                    assert(c[0] == head as int);
                }
            }
            assert(self@ =~= old(self)@.update(idx as int, None));
        }
        Some(())
    }

    /// Number of slots, occupied or free: the backing vector only grows.
    pub fn list_len(&self) -> (r: usize)
        ensures
            r == self@.len(),
    {
        self.list.len()
    }

    /// Number of occupied slots: all slots but the free ones, which the free
    /// chain lists once each.
    pub fn len(&self) -> (r: u32)
        requires
            self.wf(),
        ensures
            r == self.occupied(),
            r <= self@.len(),
    {
        self.size as u32
    }
}

/// A duplicate-free sequence of slots that misses one of `n` slots is shorter than `n`.
proof fn lemma_chain_short(c: Seq<int>, n: int, x: int)
    requires
        c.no_duplicates(),
        forall|j: int| 0 <= j < c.len() ==> 0 <= #[trigger] c[j] < n,
        0 <= x < n,
        !c.contains(x),
    ensures
        c.len() < n,
{
    let r = vstd::set_lib::set_int_range(0, n).remove(x);
    vstd::set_lib::lemma_int_range(0, n);
    assert forall|i: int| #[trigger] c.to_set().contains(i) implies r.contains(i) by {
        let j = choose|j: int| 0 <= j < c.len() && c[j] == i;
    }
    vstd::set_lib::lemma_len_subset(c.to_set(), r);
    c.unique_seq_to_set();
}

/// Putting a fresh element in front of a duplicate-free sequence.
proof fn lemma_prepend(c: Seq<int>, x: int)
    requires
        c.no_duplicates(),
        !c.contains(x),
    ensures
        (seq![x] + c).no_duplicates(),
        forall|i: int| #[trigger] (seq![x] + c).contains(i) == (i == x || c.contains(i)),
{
    let d = seq![x] + c;
    assert forall|a: int, b: int| 0 <= a < b < d.len() implies d[a] != d[b] by {
        assert(d[b] == c[b - 1]);
        if a > 0 {
            assert(d[a] == c[a - 1]);
        }
    }
    assert forall|i: int| #[trigger] d.contains(i) == (i == x || c.contains(i)) by {
        if c.contains(i) {
            let j = choose|j: int| 0 <= j < c.len() && c[j] == i;
            assert(d[j + 1] == i);
        }
        if d.contains(i) && i != x {
            let j = choose|j: int| 0 <= j < d.len() && d[j] == i;
            assert(c[j - 1] == i);
        }
        if i == x {
            assert(d[0] == x);
        }
    }
}

} // verus!
