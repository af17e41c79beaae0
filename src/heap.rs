use vstd::prelude::*;

use crate::address::Address;
use crate::error::Error;
use crate::frame::Frame;
use crate::payload::Payload;
use crate::shared::Shared;

verus! {

/// What a slot holds. `F` identifies the function of a method.
#[verifier::reject_recursive_types(P)]
pub enum Cell<P, F> {
    /// A payload owned by the heap's thread.
    Local(P),
    /// A payload shared with other threads behind a lock.
    Shared(Shared<P>),
    /// A call frame.
    Frame(Frame),
    /// A function bound to a context of this heap.
    Method(F, Address),
    /// A function bound to a shared context.
    SyncMethod(F, Shared<P>),
}

impl<P: Payload, F> Cell<P, F> {
    /// The addresses of this heap that the cell keeps alive. Shared payloads
    /// manage their own lifetime and count as leaves.
    pub open spec fn holdees_spec(&self) -> Seq<Address> {
        match self {
            Cell::Local(p) => p.holdees_spec(),
            Cell::Shared(_) => Seq::empty(),
            Cell::Frame(f) => f.holdees_spec(),
            Cell::Method(_, c) => seq![*c],
            Cell::SyncMethod(_, _) => Seq::empty(),
        }
    }

    pub fn holdees(&self) -> (r: Vec<Address>)
        ensures
            r@ == self.holdees_spec(),
    {
        match self {
            Cell::Local(p) => p.holdees(),
            Cell::Shared(_) => Vec::new(),
            Cell::Frame(f) => f.holdees(),
            Cell::Method(_, c) => {
                let mut r: Vec<Address> = Vec::new();
                r.push(*c);
                proof {
                    assert(r@ =~= seq![*c]);
                }
                r
            },
            Cell::SyncMethod(_, _) => Vec::new(),
        }
    }
}

/// One heap cell and the address that names it.
#[verifier::reject_recursive_types(P)]
pub struct Slot<P, F> {
    pub addr: Address,
    pub cell: Cell<P, F>,
}

/// Some slot of `s` is named `a`.
pub open spec fn holds<P, F>(s: Seq<Slot<P, F>>, a: Address) -> bool {
    exists|i: int| 0 <= i < s.len() && s[i].addr == a
}

/// The slot named `a` keeps `b` alive, and `b` names a slot.
pub open spec fn edge<P: Payload, F>(s: Seq<Slot<P, F>>, a: Address, b: Address) -> bool {
    &&& holds(s, b)
    &&& exists|i: int| 0 <= i < s.len() && s[i].addr == a && s[i].cell.holdees_spec().contains(b)
}

/// `p` is a chain of slots of `s`, each keeping the next alive.
pub open spec fn is_path<P: Payload, F>(s: Seq<Slot<P, F>>, p: Seq<Address>) -> bool {
    &&& p.len() > 0
    &&& holds(s, p[0])
    &&& forall|k: int| 0 <= k < p.len() - 1 ==> edge(s, #[trigger] p[k], p[k + 1])
}

/// The slot named `a` is reachable from the entry.
pub open spec fn reachable<P: Payload, F>(s: Seq<Slot<P, F>>, entry: Option<Address>, a: Address) -> bool {
    match entry {
        Some(e) => exists|p: Seq<Address>| is_path(s, p) && p[0] == e && p.last() == a,
        None => false,
    }
}

/// The slots that a collection keeps, in their order.
pub open spec fn survivors<P: Payload, F>(s: Seq<Slot<P, F>>, entry: Option<Address>) -> Seq<Slot<P, F>> {
    s.filter(|sl: Slot<P, F>| reachable(s, entry, sl.addr))
}

/// No two slots share an address.
pub open spec fn unique_addrs<P, F>(s: Seq<Slot<P, F>>) -> bool {
    forall|i: int, j: int| 0 <= i < j < s.len() ==> s[i].addr != s[j].addr
}

/// How many marks are set.
pub open spec fn count_true(m: Seq<bool>) -> nat
    decreases m.len(),
{
    if m.len() == 0 {
        0
    } else {
        count_true(m.drop_last()) + if m.last() { 1nat } else { 0nat }
    }
}

proof fn lemma_count_le(m: Seq<bool>)
    ensures
        count_true(m) <= m.len(),
    decreases m.len(),
{
    if m.len() > 0 {
        lemma_count_le(m.drop_last());
    }
}

proof fn lemma_count_set(m: Seq<bool>, j: int)
    requires
        0 <= j < m.len(),
        !m[j],
    ensures
        count_true(m.update(j, true)) == count_true(m) + 1,
    decreases m.len(),
{
    let u = m.update(j, true);
    if j == m.len() - 1 {
        assert(u.drop_last() =~= m.drop_last());
    } else {
        assert(u.drop_last() =~= m.drop_last().update(j, true));
        lemma_count_set(m.drop_last(), j);
    }
}

/// Every slot that a marked slot keeps alive is marked too.
pub open spec fn closed<P: Payload, F>(s: Seq<Slot<P, F>>, m: Seq<bool>) -> bool {
    forall|i: int, j: int|
        #![trigger s[i].cell.holdees_spec().contains(s[j].addr)]
        0 <= i < s.len() && 0 <= j < s.len() && m[i] && s[i].cell.holdees_spec().contains(s[j].addr) ==> m[j]
}

proof fn lemma_path_marked<P: Payload, F>(s: Seq<Slot<P, F>>, m: Seq<bool>, p: Seq<Address>)
    requires
        m.len() == s.len(),
        closed(s, m),
        is_path(s, p),
        forall|j: int| 0 <= j < s.len() && s[j].addr == p[0] ==> m[j],
    ensures
        forall|j: int| 0 <= j < s.len() && s[j].addr == p.last() ==> m[j],
    decreases p.len(),
{
    if p.len() > 1 {
        let q = p.drop_last();
        assert forall|k: int| 0 <= k < q.len() - 1 implies edge(s, #[trigger] q[k], q[k + 1]) by {
            assert(q[k] == p[k] && q[k + 1] == p[k + 1]);
        }
        lemma_path_marked(s, m, q);
        let k = p.len() - 2;
        assert(edge(s, p[k], p[k + 1]));
        let i = choose|i: int| 0 <= i < s.len() && s[i].addr == p[k] && s[i].cell.holdees_spec().contains(p[k + 1]);
        assert(q.last() == p[k]);
        assert forall|j: int| 0 <= j < s.len() && s[j].addr == p.last() implies m[j] by {
            assert(s[i].cell.holdees_spec().contains(s[j].addr));
        }
    }
}

proof fn lemma_path_extend<P: Payload, F>(s: Seq<Slot<P, F>>, p: Seq<Address>, i: int, j: int)
    requires
        is_path(s, p),
        0 <= i < s.len(),
        0 <= j < s.len(),
        p.last() == s[i].addr,
        s[i].cell.holdees_spec().contains(s[j].addr),
    ensures
        is_path(s, p.push(s[j].addr)),
        p.push(s[j].addr)[0] == p[0],
        p.push(s[j].addr).last() == s[j].addr,
{
    let q = p.push(s[j].addr);
    assert forall|k: int| 0 <= k < q.len() - 1 implies edge(s, #[trigger] q[k], q[k + 1]) by {
        if k < p.len() - 1 {
            assert(q[k] == p[k] && q[k + 1] == p[k + 1]);
            assert(edge(s, p[k], p[k + 1]));
        } else {
            assert(q[k] == s[i].addr);
            assert(holds(s, s[j].addr));
        }
    }
}

/// The slots that stay when an insertion starts: all of them, or the
/// survivors of a collection when the heap is full.
pub open spec fn kept_on_insert<P: Payload, F>(h: Heap<P, F>) -> Seq<Slot<P, F>> {
    if h.slots().len() >= h.capacity() {
        survivors(h.slots(), h.entry_spec())
    } else {
        h.slots()
    }
}

/// `n` more slots fit without a collection, and `n` more addresses remain.
pub open spec fn has_room<P: Payload, F>(h: Heap<P, F>, n: nat) -> bool {
    h.slots().len() + n <= h.capacity() && h.id_bound() + n <= u64::MAX
}

/// What inserting `cell` does: from `h` to `t`, answering `r`. A full heap
/// collects first; the insertion fails with `OutOfMemory` when it is still
/// full (or when every address has been handed out).
pub open spec fn inserted<P: Payload, F>(h: Heap<P, F>, t: Heap<P, F>, cell: Cell<P, F>, r: Result<Address, Error>) -> bool {
    let kept = kept_on_insert(h);
    &&& t.wf()
    &&& t.entry_spec() == h.entry_spec()
    &&& t.capacity() == h.capacity()
    &&& match r {
        Ok(a) => {
            &&& kept.len() < h.capacity()
            &&& h.id_bound() < u64::MAX
            &&& a.id == h.id_bound()
            &&& t.id_bound() == h.id_bound() + 1
            &&& t.slots() == kept.push(Slot { addr: a, cell })
        },
        Err(e) => {
            &&& e == Error::OutOfMemory
            &&& (kept.len() >= h.capacity() || h.id_bound() == u64::MAX)
            &&& t.id_bound() == h.id_bound()
            &&& t.slots() == kept
        },
    }
}

/// A heap of slots with a soft capacity and an entry from which collection
/// traces what stays alive.
#[verifier::reject_recursive_types(P)]
pub struct Heap<P, F> {
    slots: Vec<Slot<P, F>>,
    n_slots_max: usize,
    entry: Option<Address>,
    next_id: u64,
}

impl<P: Payload, F> Heap<P, F> {
    /// The slots in the order in which they were inserted.
    pub closed spec fn slots(&self) -> Seq<Slot<P, F>> {
        self.slots@
    }

    pub closed spec fn capacity(&self) -> nat {
        self.n_slots_max as nat
    }

    pub closed spec fn entry_spec(&self) -> Option<Address> {
        self.entry
    }

    /// Every address handed out so far has an id below this bound.
    pub closed spec fn id_bound(&self) -> nat {
        self.next_id as nat
    }

    pub closed spec fn wf(&self) -> bool {
        &&& unique_addrs(self.slots@)
        &&& forall|i: int| 0 <= i < self.slots@.len() ==> (#[trigger] self.slots@[i]).addr.id < self.next_id
        &&& self.slots@.len() <= self.n_slots_max
    }

    pub proof fn lemma_wf(&self)
        requires
            self.wf(),
        ensures
            unique_addrs(self.slots()),
            forall|i: int| 0 <= i < self.slots().len() ==> (#[trigger] self.slots()[i]).addr.id < self.id_bound(),
            self.slots().len() <= self.capacity(),
    {
    }

    /// An empty heap that holds at most `n_slots_max` slots.
    pub fn new(n_slots_max: usize) -> (r: Self)
        ensures
            r.wf(),
            r.slots() == Seq::<Slot<P, F>>::empty(),
            r.capacity() == n_slots_max,
            r.entry_spec() == None::<Address>,
            r.id_bound() == 0,
    {
        Heap { slots: Vec::new(), n_slots_max, entry: None, next_id: 0 }
    }

    /// How many slots the heap holds.
    pub fn n_object(&self) -> (r: usize)
        ensures
            r == self.slots().len(),
    {
        self.slots.len()
    }

    /// The root of the next collections.
    pub fn set_entry(&mut self, entry: Address)
        requires
            old(self).wf(),
        ensures
            final(self).wf(),
            final(self).slots() == old(self).slots(),
            final(self).capacity() == old(self).capacity(),
            final(self).id_bound() == old(self).id_bound(),
            final(self).entry_spec() == Some(entry),
    {
        self.entry = Some(entry);
    }

    /// The current root, if one was set.
    pub fn entry(&self) -> (r: Option<Address>)
        ensures
            r == self.entry_spec(),
    {
        self.entry
    }

    /// The position of the slot named `a`.
    pub fn find(&self, a: Address) -> (r: Option<usize>)
        ensures
            match r {
                Some(i) => i < self.slots().len() && self.slots()[i as int].addr == a,
                None => !holds(self.slots(), a),
            },
    {
        let mut i: usize = 0;
        while i < self.slots.len()
            invariant
                i <= self.slots@.len(),
                forall|k: int| 0 <= k < i ==> self.slots@[k].addr != a,
            decreases self.slots@.len() - i,
        {
            if self.slots[i].addr == a {
                return Some(i);
            }
            i = i + 1;
        }
        None
    }

    /// Marks every slot reachable from the entry, tracing breadth-first.
    fn mark(&self) -> (marks: Vec<bool>)
        requires
            self.wf(),
        ensures
            marks@.len() == self.slots@.len(),
            forall|j: int|
                0 <= j < self.slots@.len() ==> (marks@[j] <==> reachable(self.slots@, self.entry, #[trigger] self.slots@[j].addr)),
    {
        let ghost s = self.slots@;
        let n = self.slots.len();
        let mut marks: Vec<bool> = vec![false; n];
        let mut queue: Vec<usize> = Vec::new();
        proof {
            assert(marks@ =~= Seq::new(n as nat, |k: int| false));
            assert(count_true(marks@) == 0) by {
                lemma_count_zero(marks@);
            }
        }
        match self.entry {
            Some(e) => {
                match self.find(e) {
                    Some(i) => {
                        proof {
                            lemma_count_set(marks@, i as int);
                            let p = seq![e];
                            assert(is_path(s, p));
                            assert(p.last() == s[i as int].addr);
                        }
                        marks.set(i, true);
                        queue.push(i);
                        assert(queue@[0] == i);
                    },
                    None => {},
                }
            },
            None => {},
        }
        let mut head: usize = 0;
        while head < queue.len()
            invariant
                s == self.slots@,
                self.wf(),
                n == s.len(),
                marks@.len() == n,
                head <= queue@.len(),
                queue@.len() == count_true(marks@),
                forall|k: int| 0 <= k < queue@.len() ==> (#[trigger] queue@[k]) < n,
                forall|k: int| 0 <= k < queue@.len() ==> marks@[#[trigger] queue@[k] as int],
                forall|j: int| 0 <= j < n && #[trigger] marks@[j] ==> exists|k: int| 0 <= k < queue@.len() && queue@[k] == j,
                forall|j: int| 0 <= j < n && #[trigger] marks@[j] ==> reachable(s, self.entry, s[j].addr),
                forall|k: int, j: int|
                    0 <= k < head && 0 <= j < n && s[#[trigger] queue@[k] as int].cell.holdees_spec().contains(#[trigger] s[j].addr)
                        ==> marks@[j],
                match self.entry {
                    Some(e) => forall|j: int| 0 <= j < n && #[trigger] s[j].addr == e ==> marks@[j],
                    None => true,
                },
            decreases n - head,
        {
            proof {
                lemma_count_le(marks@);
            }
            let i = queue[head];
            let hs = self.slots[i].cell.holdees();
            let ghost marks0 = marks@;
            let ghost q0 = queue@;
            let mut t: usize = 0;
            while t < hs.len()
                invariant
                    s == self.slots@,
                    self.wf(),
                    n == s.len(),
                    marks@.len() == n,
                    head < queue@.len(),
                    i == queue@[head as int],
                    i < n,
                    hs@ == s[i as int].cell.holdees_spec(),
                    t <= hs@.len(),
                    queue@.len() == count_true(marks@),
                    marks0.len() == n,
                    forall|j: int| 0 <= j < n && marks0[j] ==> #[trigger] marks@[j],
                    q0.len() <= queue@.len(),
                    forall|k: int| 0 <= k < q0.len() ==> queue@[k] == #[trigger] q0[k],
                    forall|k: int, j: int|
                        0 <= k < head && 0 <= j < n && s[#[trigger] q0[k] as int].cell.holdees_spec().contains(#[trigger] s[j].addr)
                            ==> marks0[j],
                    forall|k: int| 0 <= k < queue@.len() ==> (#[trigger] queue@[k]) < n,
                    forall|k: int| 0 <= k < queue@.len() ==> marks@[#[trigger] queue@[k] as int],
                    forall|j: int| 0 <= j < n && #[trigger] marks@[j] ==> exists|k: int| 0 <= k < queue@.len() && queue@[k] == j,
                    forall|j: int| 0 <= j < n && #[trigger] marks@[j] ==> reachable(s, self.entry, s[j].addr),
                    forall|u: int, j: int| 0 <= u < t && 0 <= j < n && #[trigger] s[j].addr == #[trigger] hs@[u] ==> marks@[j],
                decreases hs@.len() - t,
            {
                proof {
                    lemma_count_le(marks@);
                }
                let h = hs[t];
                let found = self.find(h);
                match found {
                    Some(j) => {
                        if !marks[j] {
                            proof {
                                assert(marks@[i as int]);
                                assert(reachable(s, self.entry, s[i as int].addr));
                                let e = self.entry.unwrap();
                                let p = choose|p: Seq<Address>| is_path(s, p) && p[0] == e && p.last() == s[i as int].addr;
                                assert(hs@[t as int] == s[j as int].addr);
                                assert(s[i as int].cell.holdees_spec().contains(s[j as int].addr));
                                lemma_path_extend(s, p, i as int, j as int);
                                lemma_count_set(marks@, j as int);
                            }
                            let ghost qold = queue@;
                            marks.set(j, true);
                            queue.push(j);
                            proof {
                                assert forall|x: int| 0 <= x < n && #[trigger] marks@[x] implies exists|k: int| 0 <= k < queue@.len() && queue@[k] == x by {
                                    if x == j {
                                        assert(queue@[qold.len() as int] == x);
                                    } else {
                                        let k = choose|k: int| 0 <= k < qold.len() && qold[k] == x;
                                        assert(queue@[k] == x);
                                    }
                                }
                            }
                        }
                    },
                    None => {},
                }
                proof {
                    assert forall|u: int, x: int| 0 <= u < t + 1 && 0 <= x < n && #[trigger] s[x].addr == #[trigger] hs@[u] implies marks@[x] by {
                        if u == t {
                            assert(holds(s, h));
                            let j = found.unwrap();
                            if x != j {
                                assert(unique_addrs(s));
                            }
                        }
                    }
                }
                t = t + 1;
            }
            proof {
                assert forall|k: int, j: int|
                    0 <= k < head + 1 && 0 <= j < n && s[#[trigger] queue@[k] as int].cell.holdees_spec().contains(#[trigger] s[j].addr)
                    implies marks@[j] by {
                    if k == head {
                        let u = choose|u: int| 0 <= u < hs@.len() && hs@[u] == s[j].addr;
                    } else {
                        assert(queue@[k] == q0[k]);
                        assert(marks0[j]);
                    }
                }
            }
            head = head + 1;
        }
        proof {
            assert(closed(s, marks@)) by {
                assert forall|i: int, j: int|
                    #![trigger s[i].cell.holdees_spec().contains(s[j].addr)]
                    0 <= i < s.len() && 0 <= j < s.len() && marks@[i] && s[i].cell.holdees_spec().contains(s[j].addr)
                    implies marks@[j] by {
                    let k = choose|k: int| 0 <= k < queue@.len() && queue@[k] == i;
                    assert(s[queue@[k] as int].cell.holdees_spec().contains(s[j].addr));
                }
            }
            assert forall|j: int| 0 <= j < s.len() && reachable(s, self.entry, #[trigger] s[j].addr) implies marks@[j] by {
                let e = self.entry.unwrap();
                let p = choose|p: Seq<Address>| is_path(s, p) && p[0] == e && p.last() == s[j].addr;
                lemma_path_marked(s, marks@, p);
            }
        }
        marks
    }
}

impl<P: Payload, F> Heap<P, F> {
    /// Frees every slot that is not reachable from the entry; with no entry,
    /// frees every slot. The slots that stay keep their order and contents.
    pub fn collect(&mut self)
        requires
            old(self).wf(),
        ensures
            final(self).wf(),
            final(self).slots() == survivors(old(self).slots(), old(self).entry_spec()),
            final(self).entry_spec() == old(self).entry_spec(),
            final(self).capacity() == old(self).capacity(),
            final(self).id_bound() == old(self).id_bound(),
    {
        let marks = self.mark();
        let ghost s0 = self.slots@;
        let ghost pred = |sl: Slot<P, F>| reachable(s0, self.entry, sl.addr);
        let ghost e0 = self.entry;
        let ghost cap0 = self.n_slots_max;
        let ghost id0 = self.next_id;
        let n = self.slots.len();
        let mut rest: Vec<Slot<P, F>> = Vec::new();
        std::mem::swap(&mut rest, &mut self.slots);
        let mut i: usize = 0;
        while i < n
            invariant
                n == s0.len(),
                marks@.len() == n,
                forall|j: int| 0 <= j < n ==> (marks@[j] <==> pred(#[trigger] s0[j])),
                i <= n,
                rest@ == s0.skip(i as int),
                self.slots@ == s0.take(i as int).filter(pred),
                unique_addrs(s0),
                forall|j: int| 0 <= j < n ==> (#[trigger] s0[j]).addr.id < self.next_id,
                unique_addrs(self.slots@),
                forall|a: int| #![trigger self.slots@[a]] 0 <= a < self.slots@.len() ==> exists|k: int| 0 <= k < i && self.slots@[a] == #[trigger] s0[k],
                self.slots@.len() <= i,
                n <= self.n_slots_max,
                self.entry == e0,
                self.n_slots_max == cap0,
                self.next_id == id0,
            decreases n - i,
        {
            proof {
                assert(rest@.len() == n - i);
            }
            let sl = rest.remove(0);
            proof {
                assert(sl == s0[i as int]);
                assert(s0.take(i as int + 1) =~= s0.take(i as int).push(s0[i as int]));
                s0.take(i as int).lemma_filter_push(s0[i as int], pred);
                assert(rest@ =~= s0.skip(i as int + 1));
            }
            let ghost before = self.slots@;
            if marks[i] {
                self.slots.push(sl);
                proof {
                    assert forall|a: int, b: int| 0 <= a < b < self.slots@.len() implies self.slots@[a].addr != self.slots@[b].addr by {
                        if b == before.len() {
                            let k = choose|k: int| 0 <= k < i && before[a] == #[trigger] s0[k];
                            assert(s0[k].addr != s0[i as int].addr);
                        }
                    }
                    assert forall|a: int| #![trigger self.slots@[a]] 0 <= a < self.slots@.len() implies exists|k: int| 0 <= k < i + 1 && self.slots@[a] == #[trigger] s0[k] by {
                        if a == before.len() {
                            assert(self.slots@[a] == s0[i as int]);
                        } else {
                            let k = choose|k: int| 0 <= k < i && before[a] == #[trigger] s0[k];
                            assert(self.slots@[a] == s0[k]);
                        }
                    }
                }
            } else {
                proof {
                    assert forall|a: int| #![trigger self.slots@[a]] 0 <= a < self.slots@.len() implies exists|k: int| 0 <= k < i + 1 && self.slots@[a] == #[trigger] s0[k] by {
                        let k = choose|k: int| 0 <= k < i && self.slots@[a] == #[trigger] s0[k];
                    }
                }
            }
            i = i + 1;
        }
        proof {
            assert(s0.take(n as int) =~= s0);
            assert forall|a: int| 0 <= a < self.slots@.len() implies (#[trigger] self.slots@[a]).addr.id < self.next_id by {
                let k = choose|k: int| 0 <= k < n && self.slots@[a] == #[trigger] s0[k];
            }
        }
    }

    /// Puts `cell` in a new slot. When the heap is full it first collects,
    /// and fails with `OutOfMemory` when that freed nothing (or when every
    /// address has been handed out).
    pub fn insert_cell(&mut self, cell: Cell<P, F>) -> (r: Result<Address, Error>)
        requires
            old(self).wf(),
        ensures
            inserted(*old(self), *final(self), cell, r),
    {
        if self.slots.len() >= self.n_slots_max {
            self.collect();
        }
        if self.slots.len() >= self.n_slots_max || self.next_id == u64::MAX {
            return Err(Error::OutOfMemory);
        }
        let addr = Address { id: self.next_id };
        self.next_id = self.next_id + 1;
        let ghost before = self.slots@;
        self.slots.push(Slot { addr, cell });
        proof {
            assert forall|a: int, b: int| 0 <= a < b < self.slots@.len() implies self.slots@[a].addr != self.slots@[b].addr by {
                if b == before.len() {
                    assert(before[a].addr.id < addr.id);
                }
            }
            assert forall|a: int| 0 <= a < self.slots@.len() implies (#[trigger] self.slots@[a]).addr.id < self.next_id by {
                if a < before.len() {
                    assert(before[a] == self.slots@[a]);
                }
            }
        }
        Ok(addr)
    }

    /// Puts a payload owned by this heap's thread in a new slot; see
    /// `insert_cell` for when it fails.
    pub fn insert_local(&mut self, payload: P) -> (r: Result<Address, Error>)
        requires
            old(self).wf(),
        ensures
            inserted(*old(self), *final(self), Cell::Local(payload), r),
    {
        self.insert_cell(Cell::Local(payload))
    }

    /// Puts a handle to a shared payload in a new slot; see `insert_cell`
    /// for when it fails.
    pub fn insert_shared(&mut self, shared: Shared<P>) -> (r: Result<Address, Error>)
        requires
            old(self).wf(),
        ensures
            inserted(*old(self), *final(self), Cell::Shared(shared), r),
    {
        self.insert_cell(Cell::Shared(shared))
    }
}

/// The position of the slot named `a` (meaningful when `holds(s, a)`).
pub open spec fn index_of<P, F>(s: Seq<Slot<P, F>>, a: Address) -> int {
    choose|i: int| 0 <= i < s.len() && s[i].addr == a
}

/// The cell of the slot named `a` (meaningful when `holds(s, a)`).
pub open spec fn cell_at<P, F>(s: Seq<Slot<P, F>>, a: Address) -> Cell<P, F> {
    s[index_of(s, a)].cell
}

/// What `promote` does: from `s` to `t`, answering `r`.
/// A local payload is promoted exactly when its `to_sync` accepts; on a
/// refusal the slot keeps the payload it had.
pub open spec fn promoted<P: Payload, F>(s: Seq<Slot<P, F>>, a: Address, t: Seq<Slot<P, F>>, r: Result<Shared<P>, Error>) -> bool {
    if !holds(s, a) {
        r == Err::<Shared<P>, Error>(Error::InvalidAddress) && t == s
    } else {
        match cell_at(s, a) {
            Cell::Shared(h) => r == Ok::<Shared<P>, Error>(h) && t == s,
            Cell::Local(p) => match r {
                Ok(h) => {
                    &&& t == s.update(index_of(s, a), Slot { addr: a, cell: Cell::Shared(h) })
                    &&& exists|q: P| call_ensures(P::to_sync, (p,), Ok::<P, P>(q))
                },
                Err(e) => {
                    &&& e == Error::NotSharable
                    &&& t == s
                    &&& call_ensures(P::to_sync, (p,), Err::<P, P>(p))
                },
            },
            _ => r == Err::<Shared<P>, Error>(Error::TypeMismatch) && t == s,
        }
    }
}

/// Why promoting `a` in `s` fails with `e`: it names no slot, its payload's
/// `to_sync` refuses, or it is a frame or a method.
pub open spec fn refuses<P: Payload, F>(s: Seq<Slot<P, F>>, a: Address, e: Error) -> bool {
    if !holds(s, a) {
        e == Error::InvalidAddress
    } else {
        match cell_at(s, a) {
            Cell::Local(p) => e == Error::NotSharable && call_ensures(P::to_sync, (p,), Err::<P, P>(p)),
            Cell::Shared(_) => false,
            _ => e == Error::TypeMismatch,
        }
    }
}

/// Promoting `a` in `s` cannot fail: it is shared already, or local with a
/// payload whose `to_sync` never refuses.
pub open spec fn sharable<P: Payload, F>(s: Seq<Slot<P, F>>, a: Address) -> bool {
    &&& holds(s, a)
    &&& match cell_at(s, a) {
        Cell::Shared(_) => true,
        Cell::Local(p) => forall|q: P| !call_ensures(P::to_sync, (p,), Err::<P, P>(q)),
        _ => false,
    }
}

/// A failed promotion changes nothing and has a reason.
pub proof fn lemma_promoted_err<P: Payload, F>(s: Seq<Slot<P, F>>, a: Address, t: Seq<Slot<P, F>>, r: Result<Shared<P>, Error>)
    requires
        promoted(s, a, t, r),
        r is Err,
    ensures
        t == s,
        refuses(s, a, r->Err_0),
        !sharable(s, a),
{
}

/// A promotion keeps the addresses of the slots.
pub proof fn lemma_promoted_addrs<P: Payload, F>(s: Seq<Slot<P, F>>, a: Address, t: Seq<Slot<P, F>>, r: Result<Shared<P>, Error>, b: Address)
    requires
        promoted(s, a, t, r),
        holds(t, b),
    ensures
        holds(s, b),
{
    if t != s {
        let j = choose|j: int| 0 <= j < t.len() && t[j].addr == b;
        assert(s[j].addr == b);
    }
}

pub proof fn lemma_index_of<P, F>(s: Seq<Slot<P, F>>, i: int)
    requires
        unique_addrs(s),
        0 <= i < s.len(),
    ensures
        holds(s, s[i].addr),
        index_of(s, s[i].addr) == i,
{
    let j = index_of(s, s[i].addr);
    if j != i {
        if j < i {
            assert(s[j].addr != s[i].addr);
        } else {
            assert(s[i].addr != s[j].addr);
        }
    }
}

impl<P: Payload, F> Heap<P, F> {
    /// A reference to the payload of a local slot.
    pub fn get_local(&self, a: Address) -> (r: Result<&P, Error>)
        requires
            self.wf(),
        ensures
            !holds(self.slots(), a) ==> r == Err::<&P, Error>(Error::InvalidAddress),
            holds(self.slots(), a) ==> match cell_at(self.slots(), a) {
                Cell::Local(p) => r == Ok::<&P, Error>(&p),
                Cell::Shared(_) => r == Err::<&P, Error>(Error::ExpectLocal),
                Cell::SyncMethod(_, _) => r == Err::<&P, Error>(Error::ExpectLocal),
                _ => r == Err::<&P, Error>(Error::TypeMismatch),
            },
    {
        match self.find(a) {
            None => Err(Error::InvalidAddress),
            Some(i) => {
                proof {
                    lemma_index_of(self.slots@, i as int);
                }
                match &self.slots[i].cell {
                    Cell::Local(p) => Ok(p),
                    Cell::Shared(_) => Err(Error::ExpectLocal),
                    Cell::SyncMethod(_, _) => Err(Error::ExpectLocal),
                    _ => Err(Error::TypeMismatch),
                }
            },
        }
    }

    /// The cell of the slot named `a`.
    pub fn get_cell(&self, a: Address) -> (r: Result<&Cell<P, F>, Error>)
        requires
            self.wf(),
        ensures
            !holds(self.slots(), a) ==> r == Err::<&Cell<P, F>, Error>(Error::InvalidAddress),
            holds(self.slots(), a) ==> r == Ok::<&Cell<P, F>, Error>(&cell_at(self.slots(), a)),
    {
        match self.find(a) {
            None => Err(Error::InvalidAddress),
            Some(i) => {
                proof {
                    lemma_index_of(self.slots@, i as int);
                }
                Ok(&self.slots[i].cell)
            },
        }
    }

    /// The addresses that the slot named `a` keeps alive; none for a shared
    /// slot.
    pub fn holdees(&self, a: Address) -> (r: Result<Vec<Address>, Error>)
        requires
            self.wf(),
        ensures
            !holds(self.slots(), a) ==> r is Err && r->Err_0 == Error::InvalidAddress,
            holds(self.slots(), a) ==> r is Ok && r->Ok_0@ == cell_at(self.slots(), a).holdees_spec(),
    {
        match self.get_cell(a) {
            Ok(cell) => Ok(cell.holdees()),
            Err(e) => Err(e),
        }
    }

    /// Replaces the cell of slot `i`, keeping its address, and hands back
    /// the cell it held.
    pub(crate) fn swap_cell(&mut self, i: usize, cell: Cell<P, F>) -> (r: Cell<P, F>)
        requires
            old(self).wf(),
            i < old(self).slots().len(),
        ensures
            final(self).wf(),
            r == old(self).slots()[i as int].cell,
            final(self).slots() == old(self).slots().update(i as int, Slot { addr: old(self).slots()[i as int].addr, cell }),
            final(self).entry_spec() == old(self).entry_spec(),
            final(self).capacity() == old(self).capacity(),
            final(self).id_bound() == old(self).id_bound(),
    {
        let sl = self.slots.remove(i);
        let addr = sl.addr;
        self.slots.insert(i, Slot { addr, cell });
        proof {
            assert(self.slots@ =~= old(self).slots@.update(i as int, Slot { addr, cell }));
            assert forall|a: int, b: int| 0 <= a < b < self.slots@.len() implies self.slots@[a].addr != self.slots@[b].addr by {
                assert(self.slots@[a].addr == old(self).slots@[a].addr);
                assert(self.slots@[b].addr == old(self).slots@[b].addr);
            }
            assert forall|a: int| 0 <= a < self.slots@.len() implies (#[trigger] self.slots@[a]).addr.id < self.next_id by {
                assert(self.slots@[a].addr == old(self).slots@[a].addr);
            }
        }
        sl.cell
    }

    /// Stores `payload` in a local slot and hands back the payload it held.
    pub fn replace_local(&mut self, a: Address, payload: P) -> (r: Result<P, Error>)
        requires
            old(self).wf(),
        ensures
            final(self).wf(),
            final(self).entry_spec() == old(self).entry_spec(),
            final(self).capacity() == old(self).capacity(),
            final(self).id_bound() == old(self).id_bound(),
            !holds(old(self).slots(), a) ==> r == Err::<P, Error>(Error::InvalidAddress) && final(self).slots() == old(self).slots(),
            holds(old(self).slots(), a) ==> match cell_at(old(self).slots(), a) {
                Cell::Local(p) => r == Ok::<P, Error>(p) && final(self).slots() == old(self).slots().update(
                    index_of(old(self).slots(), a),
                    Slot { addr: a, cell: Cell::Local(payload) },
                ),
                Cell::Shared(_) => r == Err::<P, Error>(Error::ExpectLocal) && final(self).slots() == old(self).slots(),
                Cell::SyncMethod(_, _) => r == Err::<P, Error>(Error::ExpectLocal) && final(self).slots() == old(self).slots(),
                _ => r == Err::<P, Error>(Error::TypeMismatch) && final(self).slots() == old(self).slots(),
            },
    {
        match self.find(a) {
            None => Err(Error::InvalidAddress),
            Some(i) => {
                proof {
                    lemma_index_of(self.slots@, i as int);
                }
                match &self.slots[i].cell {
                    Cell::Local(_) => {},
                    Cell::Shared(_) => {
                        return Err(Error::ExpectLocal);
                    },
                    Cell::SyncMethod(_, _) => {
                        return Err(Error::ExpectLocal);
                    },
                    _ => {
                        return Err(Error::TypeMismatch);
                    },
                }
                match self.swap_cell(i, Cell::Local(payload)) {
                    Cell::Local(p) => Ok(p),
                    _ => Err(Error::TypeMismatch),
                }
            },
        }
    }

    /// Turns the slot named `a` into a shared one in place, keeping its
    /// address, and returns a handle to the shared payload. A slot that is
    /// already shared is left as it is and its handle is returned.
    pub fn promote(&mut self, a: Address) -> (r: Result<Shared<P>, Error>)
        requires
            old(self).wf(),
        ensures
            final(self).wf(),
            final(self).entry_spec() == old(self).entry_spec(),
            final(self).capacity() == old(self).capacity(),
            final(self).id_bound() == old(self).id_bound(),
            promoted(old(self).slots(), a, final(self).slots(), r),
    {
        match self.find(a) {
            None => Err(Error::InvalidAddress),
            Some(i) => {
                proof {
                    lemma_index_of(self.slots@, i as int);
                }
                match &self.slots[i].cell {
                    Cell::Shared(h) => {
                        return Ok(h.share());
                    },
                    Cell::Local(_) => {},
                    _ => {
                        return Err(Error::TypeMismatch);
                    },
                }
                let ghost s0 = self.slots@;
                let placeholder = Cell::Frame(Frame::new(a, None));
                match self.swap_cell(i, placeholder) {
                    Cell::Local(p) => {
                        let ghost p0 = p;
                        match p.to_sync() {
                            Ok(q) => {
                                assert(call_ensures(P::to_sync, (p0,), Ok::<P, P>(q)));
                                let h = Shared::new(q);
                                let h2 = h.share();
                                self.swap_cell(i, Cell::Shared(h2));
                                proof {
                                    assert(self.slots@ =~= s0.update(i as int, Slot { addr: a, cell: Cell::Shared(h) }));
                                }
                                Ok(h)
                            },
                            Err(back) => {
                                assert(call_ensures(P::to_sync, (p0,), Err::<P, P>(back)));
                                self.swap_cell(i, Cell::Local(back));
                                proof {
                                    assert(self.slots@ =~= s0);
                                }
                                Err(Error::NotSharable)
                            },
                        }
                    },
                    _ => Err(Error::TypeMismatch),
                }
            },
        }
    }
}

impl<P: Payload + Clone, F> Heap<P, F> {
    /// A copy of the payload of a shared slot, unless a writer holds its
    /// lock (`BorrowViolated`).
    pub fn read_shared(&self, a: Address) -> (r: Result<P, Error>)
        requires
            self.wf(),
        ensures
            !holds(self.slots(), a) ==> r == Err::<P, Error>(Error::InvalidAddress),
            holds(self.slots(), a) ==> match cell_at(self.slots(), a) {
                Cell::Shared(_) => r matches Err(e) ==> e == Error::BorrowViolated,
                Cell::Local(_) => r == Err::<P, Error>(Error::ExpectShared),
                Cell::Frame(_) => r == Err::<P, Error>(Error::ExpectShared),
                _ => r == Err::<P, Error>(Error::TypeMismatch),
            },
    {
        match self.find(a) {
            None => Err(Error::InvalidAddress),
            Some(i) => {
                proof {
                    lemma_index_of(self.slots@, i as int);
                }
                match &self.slots[i].cell {
                    Cell::Shared(h) => h.try_read(),
                    Cell::Local(_) => Err(Error::ExpectShared),
                    Cell::Frame(_) => Err(Error::ExpectShared),
                    _ => Err(Error::TypeMismatch),
                }
            },
        }
    }
}

impl<P: Payload, F> Heap<P, F> {
    /// Stores `payload` in a shared slot unless its lock is held
    /// (`BorrowViolated`).
    pub fn write_shared(&self, a: Address, payload: P) -> (r: Result<(), Error>)
        requires
            self.wf(),
        ensures
            !holds(self.slots(), a) ==> r == Err::<(), Error>(Error::InvalidAddress),
            holds(self.slots(), a) ==> match cell_at(self.slots(), a) {
                Cell::Shared(_) => r matches Err(e) ==> e == Error::BorrowViolated,
                Cell::Local(_) => r == Err::<(), Error>(Error::ExpectShared),
                Cell::Frame(_) => r == Err::<(), Error>(Error::ExpectShared),
                _ => r == Err::<(), Error>(Error::TypeMismatch),
            },
    {
        match self.find(a) {
            None => Err(Error::InvalidAddress),
            Some(i) => {
                proof {
                    lemma_index_of(self.slots@, i as int);
                }
                match &self.slots[i].cell {
                    Cell::Shared(h) => h.try_write(payload),
                    Cell::Local(_) => Err(Error::ExpectShared),
                    Cell::Frame(_) => Err(Error::ExpectShared),
                    _ => Err(Error::TypeMismatch),
                }
            },
        }
    }
}

/// A slot reachable from the entry survives a collection with its cell,
/// also when a fresh slot is appended afterwards.
pub proof fn lemma_reachable_kept<P: Payload, F>(
    s: Seq<Slot<P, F>>,
    entry: Option<Address>,
    t: Seq<Slot<P, F>>,
    a: Address,
)
    requires
        unique_addrs(s),
        unique_addrs(t),
        reachable(s, entry, a),
        holds(s, a),
        t.len() >= survivors(s, entry).len(),
        forall|j: int| 0 <= j < survivors(s, entry).len() ==> t[j] == #[trigger] survivors(s, entry)[j],
    ensures
        holds(t, a),
        cell_at(t, a) == cell_at(s, a),
{
    let f = survivors(s, entry);
    let pred = |sl: Slot<P, F>| reachable(s, entry, sl.addr);
    let i = index_of(s, a);
    s.lemma_filter_contains(pred, i);
    assert(f.contains(s[i]));
    let j = choose|j: int| 0 <= j < f.len() && f[j] == s[i];
    assert(t[j] == s[i]);
    lemma_index_of(t, j);
}

/// Replacing the cell of slot `i` changes `cell_at` for its address only.
pub proof fn lemma_update_cell<P, F>(s: Seq<Slot<P, F>>, i: int, c: Cell<P, F>, a: Address)
    requires
        unique_addrs(s),
        0 <= i < s.len(),
        holds(s, a),
    ensures
        unique_addrs(s.update(i, Slot { addr: s[i].addr, cell: c })),
        holds(s.update(i, Slot { addr: s[i].addr, cell: c }), a),
        cell_at(s.update(i, Slot { addr: s[i].addr, cell: c }), a) == if a == s[i].addr {
            c
        } else {
            cell_at(s, a)
        },
{
    let t = s.update(i, Slot { addr: s[i].addr, cell: c });
    assert forall|x: int, y: int| 0 <= x < y < t.len() implies t[x].addr != t[y].addr by {
        assert(t[x].addr == s[x].addr && t[y].addr == s[y].addr);
    }
    let k = index_of(s, a);
    lemma_index_of(s, k);
    assert(t[k].addr == a);
    lemma_index_of(t, k);
}

proof fn lemma_count_zero(m: Seq<bool>)
    requires
        forall|k: int| 0 <= k < m.len() ==> !m[k],
    ensures
        count_true(m) == 0,
    decreases m.len(),
{
    if m.len() > 0 {
        lemma_count_zero(m.drop_last());
    }
}

} // verus!
