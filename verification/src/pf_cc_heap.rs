use vstd::prelude::*;
use vstd::multiset::Multiset;

verus! {

broadcast use vstd::seq_lib::group_to_multiset_ensures, vstd::multiset::group_multiset_axioms;

/// Number of node slots (one per tile of a 100 x 100 map).
pub const NODE_SLOTS: usize = 10000;

/// Indexed binary min-heap of node numbers: each node number carries a
/// priority, and the heap is stored 1-based in `heap[1..=size]`.
pub struct PfCcHeap {
    priorities: Vec<u32>,
    heap: Vec<u16>,
    size: usize,
}

/// Positions `1..=size` of a 1-based heap: the parent of `i` is `i / 2`.
pub open spec fn heap_parent(i: int) -> int {
    i / 2
}

/// Swapping two entries of a sequence keeps its multiset of entries.
pub proof fn lemma_swap_multiset<A>(s: Seq<A>, i: int, j: int)
    requires
        0 <= i < s.len(),
        0 <= j < s.len(),
    ensures
        s.update(i, s[j]).update(j, s[i]).to_multiset() == s.to_multiset(),
{
    let s1 = s.update(i, s[j]);
    assert(s1.to_multiset() == s.to_multiset().insert(s[j]).remove(s[i]));
    assert(s1.update(j, s[i]).to_multiset() == s1.to_multiset().insert(s[i]).remove(s1[j]));
    if i == j {
        assert(s1 =~= s);
        assert(s1.update(j, s[i]) =~= s);
    } else {
        assert(s1[j] == s[j]);
        assert(s.to_multiset().insert(s[j]).remove(s[i]).insert(s[i]).remove(s[j])
            =~= s.to_multiset());
    }
}

impl PfCcHeap {
    /// Structural well-formedness: both arrays hold one slot per node,
    /// at most 9999 entries are stored, and each stored entry names a node.
    pub closed spec fn wf(&self) -> bool {
        &&& self.priorities@.len() == NODE_SLOTS
        &&& self.heap@.len() == NODE_SLOTS
        &&& self.spec_size() < NODE_SLOTS
        &&& forall|i: int| 1 <= i <= self.spec_size() ==> (#[trigger] self.heap@[i]) < NODE_SLOTS
    }

    /// Number of stored entries.
    pub closed spec fn spec_size(&self) -> nat {
        self.size as nat
    }

    /// The priority recorded for every node slot.
    pub closed spec fn prios(&self) -> Seq<u32> {
        self.priorities@
    }

    /// The node at the root of the heap.
    pub closed spec fn root(&self) -> u16 {
        self.heap@[1]
    }

    /// The node numbers currently stored, in heap order.
    pub closed spec fn entries(&self) -> Seq<u16> {
        self.heap@.subrange(1, self.spec_size() as int + 1)
    }

    /// The node numbers currently stored, as a multiset.
    pub open spec fn contents(&self) -> Multiset<u16> {
        self.entries().to_multiset()
    }

    /// The priority recorded for a node.
    pub open spec fn prio(&self, node: int) -> u32 {
        self.prios()[node]
    }

    /// The priority of the entry at heap position `i`.
    pub closed spec fn key_at(&self, i: int) -> u32 {
        self.priorities@[self.heap@[i] as int]
    }

    /// The heap order: no entry has a smaller priority than its parent.
    pub closed spec fn is_heap(&self) -> bool {
        forall|i: int| 2 <= i <= self.spec_size() ==> self.key_at(heap_parent(i)) <= #[trigger] self.key_at(i)
    }

    /// Heap order everywhere except between position `v` and its children,
    /// with the parent of `v` still no greater than the children of `v`.
    spec fn heap_except_down(&self, v: int) -> bool {
        &&& forall|i: int|
            2 <= i <= self.spec_size() && heap_parent(i) != v ==> self.key_at(heap_parent(i)) <= #[trigger] self.key_at(i)
        &&& forall|i: int|
            2 <= i <= self.spec_size() && heap_parent(i) == v && v >= 2 ==> self.key_at(heap_parent(v)) <= #[trigger] self.key_at(i)
    }

    /// Heap order everywhere except between position `v` and its parent,
    /// with the parent of `v` no greater than the children of `v`.
    spec fn heap_except_up(&self, v: int) -> bool {
        &&& forall|i: int| 2 <= i <= self.spec_size() && i != v ==> self.key_at(heap_parent(i)) <= #[trigger] self.key_at(i)
        &&& forall|i: int|
            2 <= i <= self.spec_size() && heap_parent(i) == v && v >= 2 ==> self.key_at(heap_parent(v)) <= #[trigger] self.key_at(i)
    }

    /// In a heap, the entry at the root has the least priority of all entries.
    pub proof fn lemma_root_is_min(&self, i: int)
        requires
            self.wf(),
            self.is_heap(),
            1 <= i <= self.spec_size(),
        ensures
            self.key_at(1) <= self.key_at(i),
        decreases i,
    {
        if i > 1 {
            self.lemma_root_is_min(heap_parent(i));
        }
    }

    /// In a heap, the root's priority is no greater than that of any stored node.
    pub proof fn lemma_root_min_contents(&self)
        requires
            self.wf(),
            self.is_heap(),
            self.spec_size() > 0,
        ensures
            forall|n: u16| self.contents().contains(n) ==> self.key_at(1) <= self.prio(n as int),
    {
        assert forall|n: u16| self.contents().contains(n) implies self.key_at(1) <= self.prio(n as int) by {
            assert(self.entries().contains(n));
            let k = choose|k: int| 0 <= k < self.entries().len() && self.entries()[k] == n;
            self.lemma_root_is_min(k + 1);
        }
    }

    proof fn lemma_swap_entries(old_heap: Seq<u16>, size: int, a: int, b: int)
        requires
            1 <= a <= size,
            1 <= b <= size,
            size < old_heap.len(),
        ensures
            old_heap.update(a, old_heap[b]).update(b, old_heap[a]).subrange(1, size + 1).to_multiset()
                == old_heap.subrange(1, size + 1).to_multiset(),
    {
        let sub = old_heap.subrange(1, size + 1);
        lemma_swap_multiset(sub, a - 1, b - 1);
        assert(old_heap.update(a, old_heap[b]).update(b, old_heap[a]).subrange(1, size + 1)
            =~= sub.update(a - 1, sub[b - 1]).update(b - 1, sub[a - 1]));
    }

    proof fn lemma_up_step(a: &Self, b: &Self, ii: int, p: int)
        requires
            a.wf(),
            b.wf(),
            b.size == a.size,
            b.priorities@ == a.priorities@,
            2 <= ii <= a.size,
            p == heap_parent(ii),
            b.heap@ == a.heap@.update(ii, a.heap@[p]).update(p, a.heap@[ii]),
            a.key_at(ii) <= a.key_at(p),
            a.heap_except_up(ii),
        ensures
            b.heap_except_up(p),
    {
        assert(b.key_at(ii) == a.key_at(p));
        assert(b.key_at(p) == a.key_at(ii));
        assert forall|i: int| 2 <= i <= b.size && i != p implies b.key_at(heap_parent(i))
            <= #[trigger] b.key_at(i) by {
            if i == ii {
            } else if heap_parent(i) == ii {
                assert(a.key_at(heap_parent(ii)) <= a.key_at(i));
                assert(b.key_at(i) == a.key_at(i));
            } else if heap_parent(i) == p {
                assert(a.key_at(p) <= a.key_at(i));
                assert(b.key_at(i) == a.key_at(i));
            } else {
                assert(a.key_at(heap_parent(i)) <= a.key_at(i));
                assert(b.key_at(i) == a.key_at(i));
                assert(b.key_at(heap_parent(i)) == a.key_at(heap_parent(i)));
            }
        }
        assert forall|i: int| 2 <= i <= b.size && heap_parent(i) == p && p >= 2 implies b.key_at(
            heap_parent(p),
        ) <= #[trigger] b.key_at(i) by {
            assert(a.key_at(heap_parent(p)) <= a.key_at(p));
            assert(b.key_at(heap_parent(p)) == a.key_at(heap_parent(p)));
            if i != ii {
                assert(a.key_at(p) <= a.key_at(i));
                assert(b.key_at(i) == a.key_at(i));
            }
        }
    }

    proof fn lemma_down_step(a: &Self, b: &Self, uu: int, vv: int)
        requires
            a.wf(),
            b.wf(),
            b.size == a.size,
            b.priorities@ == a.priorities@,
            1 <= uu < vv <= a.size,
            uu == heap_parent(vv),
            b.heap@ == a.heap@.update(uu, a.heap@[vv]).update(vv, a.heap@[uu]),
            a.key_at(vv) <= a.key_at(uu),
            forall|s: int| 2 <= s <= a.size && heap_parent(s) == uu ==> a.key_at(vv) <= #[trigger] a.key_at(s),
            a.heap_except_down(uu),
        ensures
            b.heap_except_down(vv),
    {
        assert(b.key_at(uu) == a.key_at(vv));
        assert(b.key_at(vv) == a.key_at(uu));
        assert forall|i: int| 2 <= i <= b.size && heap_parent(i) != vv implies b.key_at(heap_parent(i))
            <= #[trigger] b.key_at(i) by {
            if i == vv {
            } else if heap_parent(i) == uu {
                assert(a.key_at(vv) <= a.key_at(i));
                assert(b.key_at(i) == a.key_at(i));
            } else if i == uu {
                assert(a.key_at(heap_parent(uu)) <= a.key_at(vv));
                assert(b.key_at(heap_parent(uu)) == a.key_at(heap_parent(uu)));
            } else {
                assert(a.key_at(heap_parent(i)) <= a.key_at(i));
                assert(b.key_at(i) == a.key_at(i));
                assert(b.key_at(heap_parent(i)) == a.key_at(heap_parent(i)));
            }
        }
        assert forall|i: int| 2 <= i <= b.size && heap_parent(i) == vv && vv >= 2 implies b.key_at(
            heap_parent(vv),
        ) <= #[trigger] b.key_at(i) by {
            assert(a.key_at(heap_parent(i)) <= a.key_at(i));
            assert(b.key_at(i) == a.key_at(i));
        }
    }



    /// An empty heap with every priority zero.
    pub fn new() -> (h: Self)
        ensures
            h.wf(),
            h.spec_size() == 0,
            h.is_heap(),
            h.contents() =~= Multiset::<u16>::empty(),
            forall|n: int| 0 <= n < NODE_SLOTS ==> h.prio(n) == 0,
    {
        let priorities: Vec<u32> = vec![0u32; NODE_SLOTS];
        let heap: Vec<u16> = vec![0u16; NODE_SLOTS];
        let h = PfCcHeap { priorities, heap, size: 0 };
        assert(h.entries() =~= Seq::<u16>::empty());
        h
    }

    /// Whether no entry is stored.
    pub fn empty(&self) -> (b: bool)
        requires
            self.wf(),
        ensures
            b == (self.spec_size() == 0),
            b == (self.contents().len() == 0),
    {
        self.size == 0
    }

    /// The priority recorded for node `index`.
    pub fn priority(&self, index: usize) -> (p: u32)
        requires
            self.wf(),
            index < NODE_SLOTS,
        ensures
            p == self.prio(index as int),
            p == self.prios()[index as int],
    {
        self.priorities[index]
    }

    /// Law: a well-formed heap records a priority for every node slot and
    /// stores fewer entries than there are slots, each naming a slot.
    pub proof fn lemma_prios_len(&self)
        requires
            self.wf(),
        ensures
            self.prios().len() == NODE_SLOTS,
            self.spec_size() < NODE_SLOTS,
            forall|n: u16| self.contents().contains(n) ==> n < NODE_SLOTS,
    {
        assert forall|n: u16| self.contents().contains(n) implies n < NODE_SLOTS by {
            self.entries().to_multiset_ensures();
            let k = choose|k: int| 0 <= k < self.entries().len() && self.entries()[k] == n;
            assert(self.entries()[k] == self.heap@[k + 1]);
        }
    }

    /// Law: the number of stored entries is the size of the contents.
    pub proof fn lemma_size_is_contents_len(&self)
        requires
            self.wf(),
        ensures
            self.spec_size() == self.contents().len(),
    {
        self.entries().to_multiset_ensures();
    }

    /// Removes every entry; priorities stay as they were.
    pub fn clear(&mut self)
        requires
            old(self).wf(),
        ensures
            final(self).wf(),
            final(self).spec_size() == 0,
            final(self).is_heap(),
            final(self).contents() =~= Multiset::<u16>::empty(),
            final(self).prios() == old(self).prios(),
    {
        self.size = 0;
        assert(self.entries() =~= Seq::<u16>::empty());
    }

    /// Moves the entry at position `ii` towards the root while its priority
    /// is no greater than its parent's.
    fn bubble_up(&mut self, start_at: usize)
        requires
            old(self).wf(),
            1 <= start_at <= old(self).spec_size(),
        ensures
            final(self).wf(),
            final(self).spec_size() == old(self).spec_size(),
            final(self).prios() == old(self).prios(),
            final(self).contents() == old(self).contents(),
            old(self).heap_except_up(start_at as int) ==> final(self).is_heap(),
    {
        let mut ii = start_at;
        let ghost start = self.contents();
        let ghost ok = self.heap_except_up(ii as int);
        while ii != 1
            invariant
                self.wf(),
                1 <= ii <= self.size,
                self.size == old(self).size,
                self.priorities@ == old(self).priorities@,
                self.contents() == start,
                start == old(self).contents(),
                ok == old(self).heap_except_up(start_at as int),
                ok ==> self.heap_except_up(ii as int),
            decreases ii,
        {
            let parent = ii / 2;
            let a = self.heap[ii];
            let b = self.heap[parent];
            if self.priorities[a as usize] <= self.priorities[b as usize] {
                let ghost before = self.heap@;
                let ghost prev = *self;
                self.heap.set(ii, b);
                self.heap.set(parent, a);
                proof {
                    Self::lemma_swap_entries(before, self.size as int, ii as int, parent as int);
                    assert(self.heap@ == before.update(ii as int, before[parent as int]).update(
                        parent as int,
                        before[ii as int],
                    ));
                    if ok {
                        Self::lemma_up_step(&prev, self, ii as int, parent as int);
                    }
                }
                ii = parent;
            } else {
                proof {
                    if ok {
                        assert(self.key_at(heap_parent(ii as int)) < self.key_at(ii as int));
                        assert forall|i: int| 2 <= i <= self.size implies self.key_at(heap_parent(i))
                            <= #[trigger] self.key_at(i) by {
                            if i != ii {
                                assert(self.heap_except_up(ii as int));
                            }
                        }
                        assert(self.is_heap());
                    }
                }
                return;
            }
        }
    }

    /// Removes the entry at the root and returns its node and priority.
    pub fn pop(&mut self) -> (r: (usize, u32))
        requires
            old(self).wf(),
            old(self).spec_size() > 0,
        ensures
            final(self).wf(),
            final(self).spec_size() == old(self).spec_size() - 1,
            final(self).prios() == old(self).prios(),
            r.0 == old(self).root() as usize,
            r.1 == old(self).prio(r.0 as int),
            old(self).contents().contains(r.0 as u16),
            final(self).contents() == old(self).contents().remove(r.0 as u16),
            old(self).is_heap() ==> final(self).is_heap(),
            old(self).is_heap() ==> forall|n: u16|
                old(self).contents().contains(n) ==> r.1 <= old(self).prio(n as int),
    {
        proof {
            if old(self).is_heap() {
                old(self).lemma_root_min_contents();
            }
            assert(old(self).entries()[0] == old(self).heap@[1]);
        }
        let idx = self.heap[1] as usize;
        let prio = self.priorities[idx];
        let ghost old_heap = self.heap@;
        let ghost old_size = self.size as int;
        let last = self.heap[self.size];
        self.heap.set(1, last);
        self.size = self.size - 1;
        proof {
            let e = old(self).entries();
            assert(self.entries() =~= e.update(0, e[old_size - 1]).subrange(0, old_size - 1));
            let e1 = e.update(0, e[old_size - 1]);
            assert(e1.to_multiset() == e.to_multiset().insert(e[old_size - 1]).remove(e[0]));
            assert(e1 =~= e1.subrange(0, old_size - 1).push(e[old_size - 1]));
            assert(e1.to_multiset() == e1.subrange(0, old_size - 1).to_multiset().insert(e[old_size - 1]));
            assert(e.contains(e[0]));
            assert(e.to_multiset().count(e[0]) > 0);
            assert(self.entries() == e1.subrange(0, old_size - 1));
            let m = self.contents();
            assert forall|v: u16| #[trigger] m.count(v) == old(self).contents().remove(idx as u16).count(v) by {
                assert(m.insert(e[old_size - 1]).count(v) == e.to_multiset().insert(e[old_size - 1]).remove(
                    e[0],
                ).count(v));
            }
            assert(self.contents() =~= old(self).contents().remove(idx as u16));
        }
        let ghost target = self.contents();
        let ghost was_heap = old(self).is_heap();
        proof {
            if was_heap {
                assert forall|i: int| 2 <= i <= self.size && heap_parent(i) != 1 implies self.key_at(
                    heap_parent(i),
                ) <= #[trigger] self.key_at(i) by {
                    assert(old(self).key_at(heap_parent(i)) <= old(self).key_at(i));
                }
            }
        }
        let mut vv: usize = 1;
        loop
            invariant
                self.wf(),
                self.size == old(self).size - 1,
                self.priorities@ == old(self).priorities@,
                self.contents() == target,
                1 <= vv,
                vv <= self.size || (vv == 1 && self.size == 0),
                was_heap == old(self).is_heap(),
                was_heap ==> self.heap_except_down(vv as int),
            ensures
                self.wf(),
                self.size == old(self).size - 1,
                self.priorities@ == old(self).priorities@,
                self.contents() == target,
                was_heap ==> self.is_heap(),
            decreases self.size - vv,
        {
            let uu = vv;
            let left = uu * 2;
            let right = left + 1;
            if right <= self.size {
                if self.priorities[self.heap[uu] as usize] >= self.priorities[self.heap[left] as usize] {
                    vv = left;
                }
                if self.priorities[self.heap[vv] as usize] >= self.priorities[self.heap[right] as usize] {
                    vv = right;
                }
            } else if left <= self.size {
                if self.priorities[self.heap[uu] as usize] >= self.priorities[self.heap[left] as usize] {
                    vv = left;
                }
            }
            proof {
                assert forall|c: int| 2 <= c <= self.size && heap_parent(c) == uu implies c == left || c
                    == right by {}
                assert(self.key_at(vv as int) <= self.key_at(uu as int));
                assert(left <= self.size ==> self.key_at(vv as int) <= self.key_at(left as int));
                assert(right <= self.size ==> self.key_at(vv as int) <= self.key_at(right as int));
            }
            if uu != vv {
                let a = self.heap[uu];
                let b = self.heap[vv];
                let ghost before = self.heap@;
                let ghost prev = *self;
                self.heap.set(uu, b);
                self.heap.set(vv, a);
                proof {
                    Self::lemma_swap_entries(before, self.size as int, uu as int, vv as int);
                    assert(self.heap@ == before.update(uu as int, before[vv as int]).update(
                        vv as int,
                        before[uu as int],
                    ));
                    assert(heap_parent(vv as int) == uu);
                    if was_heap {
                        Self::lemma_down_step(&prev, self, uu as int, vv as int);
                    }
                }
            } else {
                proof {
                    if was_heap {
                        assert forall|i: int| 2 <= i <= self.size implies self.key_at(heap_parent(i))
                            <= #[trigger] self.key_at(i) by {
                            if heap_parent(i) == uu {
                                assert(i == left || i == right);
                            } else {
                                assert(self.heap_except_down(uu as int));
                            }
                        }
                        assert(self.is_heap());
                    }
                }
                break;
            }
        }
        (idx, prio)
    }

    /// Sets node `index`'s priority and adds it as a new entry.
    pub fn insert(&mut self, index: usize, priority: u32)
        requires
            old(self).wf(),
            index < NODE_SLOTS,
            old(self).spec_size() + 1 < NODE_SLOTS,
        ensures
            final(self).wf(),
            final(self).spec_size() == old(self).spec_size() + 1,
            final(self).prios() == old(self).prios().update(index as int, priority),
            final(self).prio(index as int) == priority,
            final(self).contents() == old(self).contents().insert(index as u16),
            old(self).is_heap() && !old(self).contents().contains(index as u16) ==> final(self).is_heap(),
    {
        let ghost was_heap = old(self).is_heap() && !old(self).contents().contains(index as u16);
        self.priorities.set(index, priority);
        proof {
            if was_heap {
                assert forall|i: int| 1 <= i <= old(self).size implies #[trigger] self.key_at(i) == old(
                    self,
                ).key_at(i) by {
                    assert(old(self).entries()[i - 1] == old(self).heap@[i]);
                    assert(old(self).entries().contains(old(self).heap@[i]));
                    if old(self).heap@[i] == index as u16 {
                        assert(false);
                    }
                }
            }
        }
        self.size = self.size + 1;
        self.heap.set(self.size, index as u16);
        proof {
            let e = old(self).entries();
            assert(self.entries() =~= e.push(index as u16));
            assert(self.heap@[self.size as int] == index as u16);
            if was_heap {
                assert forall|i: int| 1 <= i <= old(self).size implies #[trigger] self.key_at(i) == old(
                    self,
                ).key_at(i) by {
                    assert(old(self).entries()[i - 1] == old(self).heap@[i]);
                    assert(old(self).entries().contains(old(self).heap@[i]));
                    if old(self).heap@[i] == index as u16 {
                        assert(false);
                    }
                }
                assert(self.heap_except_up(self.size as int));
            }
        }
        self.bubble_up(self.size);
    }

    /// Lowers-or-sets the priority of node `index` when it is stored, and
    /// restores the heap order upwards from its last occurrence.
    pub fn update(&mut self, index: usize, priority: u32)
        requires
            old(self).wf(),
        ensures
            final(self).wf(),
            final(self).spec_size() == old(self).spec_size(),
            final(self).contents() == old(self).contents(),
            index < NODE_SLOTS && old(self).contents().contains(index as u16) ==> final(self).prios()
                == old(self).prios().update(index as int, priority),
            index < NODE_SLOTS && old(self).contents().contains(index as u16) ==> final(self).prio(index as int)
                == priority,
            !(index < NODE_SLOTS && old(self).contents().contains(index as u16)) ==> *final(self) == *old(self),
            old(self).is_heap() && index < NODE_SLOTS && priority <= old(self).prio(index as int) && old(
                self,
            ).contents().count(index as u16) <= 1 ==> final(self).is_heap(),
    {
        let mut ii = self.size;
        while ii > 0
            invariant
                self == old(self),
                self.wf(),
                ii <= self.size,
                forall|j: int| ii < j <= self.size ==> self.heap@[j] as usize != index,
            decreases ii,
        {
            if self.heap[ii] as usize == index {
                let ghost uniq = old(self).is_heap() && priority <= old(self).prio(index as int)
                    && old(self).contents().count(index as u16) <= 1;
                proof {
                    assert(old(self).entries()[ii - 1] == old(self).heap@[ii as int]);
                    assert(old(self).entries().contains(index as u16));
                }
                self.priorities.set(index, priority);
                proof {
                    if uniq {
                        assert forall|i: int| 1 <= i <= self.size && i != ii implies #[trigger] self.heap@[i]
                            != index as u16 by {
                            if self.heap@[i] == index as u16 {
                                let e = old(self).entries();
                                assert(e[i - 1] == index as u16);
                                assert(e[ii - 1] == index as u16);
                                lemma_two_occurrences(e, i - 1, ii - 1);
                            }
                        }
                        assert forall|i: int| 1 <= i <= self.size && i != ii implies #[trigger] self.key_at(i)
                            == old(self).key_at(i) by {}
                        assert(self.key_at(ii as int) == priority);
                        assert(self.heap_except_up(ii as int)) by {
                            assert forall|i: int|
                                2 <= i <= self.size && i != ii implies self.key_at(heap_parent(i))
                                <= #[trigger] self.key_at(i) by {
                                assert(old(self).key_at(heap_parent(i)) <= old(self).key_at(i));
                                if heap_parent(i) == ii {
                                    assert(self.key_at(ii as int) <= old(self).key_at(ii as int));
                                }
                            }
                            assert forall|i: int|
                                2 <= i <= self.size && heap_parent(i) == ii && ii >= 2 implies self.key_at(
                                heap_parent(ii as int),
                            ) <= #[trigger] self.key_at(i) by {
                                assert(old(self).key_at(heap_parent(i)) <= old(self).key_at(i));
                                assert(old(self).key_at(heap_parent(ii as int)) <= old(self).key_at(
                                    ii as int,
                                ));
                            }
                        }
                    }
                }
                self.bubble_up(ii);
                return;
            }
            ii -= 1;
        }
        proof {
            if index < NODE_SLOTS && old(self).contents().contains(index as u16) {
                let e = old(self).entries();
                assert(e.contains(index as u16));
                let k = choose|k: int| 0 <= k < e.len() && e[k] == index as u16;
                assert(self.heap@[k + 1] == index as u16);
                assert((index as u16) as usize == index);
            }
        }
    }
}

/// Law: popping right after inserting node `k` with priority `p` yields a
/// priority no greater than `p`; when the heap was empty before, the pop
/// gives back `k` with `p` and leaves the heap empty.
pub proof fn law_pop_after_insert(
    before: PfCcHeap,
    mid: PfCcHeap,
    after: PfCcHeap,
    k: u16,
    p: u32,
    r: (usize, u32),
)
    requires
        before.wf(),
        before.is_heap(),
        !before.contents().contains(k),
        mid.wf(),
        mid.is_heap(),
        mid.contents() == before.contents().insert(k),
        mid.prios() == before.prios().update(k as int, p),
        r.0 == mid.root() as usize,
        r.1 == mid.prio(r.0 as int),
        mid.contents().contains(r.0 as u16),
        after.contents() == mid.contents().remove(r.0 as u16),
        forall|n: u16| mid.contents().contains(n) ==> r.1 <= mid.prio(n as int),
    ensures
        r.1 <= p,
        before.contents().len() == 0 ==> r.0 == k as usize && r.1 == p && after.contents().len() == 0,
{
    assert(mid.contents().contains(k));
    assert(mid.prio(k as int) == p);
    if before.contents().len() == 0 {
        assert(before.contents() =~= Multiset::empty());
        assert(mid.contents() =~= Multiset::empty().insert(k));
        assert(r.0 as u16 == k);
        assert(after.contents() =~= Multiset::empty());
    }
}

/// A sequence in which a value stands at two distinct positions holds it
/// at least twice.
pub proof fn lemma_two_occurrences<A>(s: Seq<A>, i: int, j: int)
    requires
        0 <= i < s.len(),
        0 <= j < s.len(),
        i != j,
        s[i] == s[j],
    ensures
        s.to_multiset().count(s[i]) >= 2,
{
    let lo = if i < j { i } else { j };
    let hi = if i < j { j } else { i };
    let a = s[i];
    let s1 = s.remove(hi);
    assert(s1[lo] == a);
    assert(s1.to_multiset() == s.to_multiset().remove(a));
    assert(s1.to_multiset().contains(a)) by {
        assert(s1.contains(a));
    }
}

/// Per-node open/closed marks that can all be reset in constant time by
/// moving to a fresh marker value.
pub struct OpenClosedList {
    list: Vec<u32>,
    marker: u32,
}

impl OpenClosedList {
    /// The marker is odd-free of overflow: `marker + 1` always fits, and no
    /// slot holds a value above it.
    pub closed spec fn wf(&self) -> bool {
        &&& self.list@.len() == NODE_SLOTS
        &&& 1 <= self.marker < u32::MAX
        &&& forall|i: int| 0 <= i < NODE_SLOTS ==> #[trigger] self.list@[i] <= self.marker + 1
    }

    /// Whether node `i` is marked open.
    pub closed spec fn spec_is_open(&self, i: int) -> bool {
        self.list@[i] == self.marker
    }

    /// Whether node `i` is marked closed.
    pub closed spec fn spec_is_closed(&self, i: int) -> bool {
        self.list@[i] == self.marker as int + 1
    }

    /// A list in which no node is open or closed.
    pub fn new() -> (l: Self)
        ensures
            l.wf(),
            forall|i: int| 0 <= i < NODE_SLOTS ==> !l.spec_is_open(i) && !l.spec_is_closed(i),
    {
        OpenClosedList { list: vec![0u32; NODE_SLOTS], marker: 1 }
    }

    /// Forgets every mark.
    pub fn clear(&mut self)
        requires
            old(self).wf(),
        ensures
            final(self).wf(),
            forall|i: int| 0 <= i < NODE_SLOTS ==> !final(self).spec_is_open(i) && !final(self).spec_is_closed(i),
    {
        if u32::MAX - 2 <= self.marker {
            let mut i: usize = 0;
            while i < NODE_SLOTS
                invariant
                    self.list@.len() == NODE_SLOTS,
                    i <= NODE_SLOTS,
                    forall|j: int| 0 <= j < i ==> self.list@[j] == 0,
                decreases NODE_SLOTS - i,
            {
                self.list.set(i, 0);
                i += 1;
            }
            self.marker = 1;
        } else {
            self.marker = self.marker + 2;
        }
    }

    /// Whether node `index` is marked open.
    pub fn is_open(&self, index: usize) -> (b: bool)
        requires
            self.wf(),
            index < NODE_SLOTS,
        ensures
            b == self.spec_is_open(index as int),
    {
        self.list[index] == self.marker
    }

    /// Whether node `index` is marked closed.
    pub fn is_closed(&self, index: usize) -> (b: bool)
        requires
            self.wf(),
            index < NODE_SLOTS,
        ensures
            b == self.spec_is_closed(index as int),
    {
        self.list[index] == self.marker + 1
    }

    /// Marks node `index` open.
    pub fn open(&mut self, index: usize)
        requires
            old(self).wf(),
            index < NODE_SLOTS,
        ensures
            final(self).wf(),
            forall|j: int| 0 <= j < NODE_SLOTS && j != index ==> final(self).spec_is_open(j) == old(self).spec_is_open(j)
                && final(self).spec_is_closed(j) == old(self).spec_is_closed(j),
            final(self).spec_is_open(index as int),
            !final(self).spec_is_closed(index as int),
    {
        self.list.set(index, self.marker);
    }

    /// Marks node `index` closed.
    pub fn close(&mut self, index: usize)
        requires
            old(self).wf(),
            index < NODE_SLOTS,
        ensures
            final(self).wf(),
            forall|j: int| 0 <= j < NODE_SLOTS && j != index ==> final(self).spec_is_open(j) == old(self).spec_is_open(j)
                && final(self).spec_is_closed(j) == old(self).spec_is_closed(j),
            final(self).spec_is_closed(index as int),
            !final(self).spec_is_open(index as int),
    {
        self.list.set(index, self.marker + 1);
    }
}

} // verus!
