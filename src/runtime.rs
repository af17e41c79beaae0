use vstd::prelude::*;

use crate::address::Address;
use crate::error::Error;
use crate::frame::Frame;
use crate::heap::{
    lemma_promoted_addrs, lemma_promoted_err, refuses, sharable, kept_on_insert, has_room, promoted, inserted, cell_at, holds, index_of, is_path, lemma_index_of, lemma_reachable_kept, lemma_update_cell,
    reachable, survivors, unique_addrs, Cell, Heap, Slot,
};
use crate::payload::Payload;
use crate::shared::Shared;

verus! {

/// The frame stored at `a` (meaningful when that slot holds a frame).
pub open spec fn frame_at<P, F>(s: Seq<Slot<P, F>>, a: Address) -> Frame {
    match cell_at(s, a) {
        Cell::Frame(f) => f,
        _ => arbitrary(),
    }
}

/// The function of a method; the runtime invokes it with itself.
pub trait Function<P: Payload>: Sized + Copy {
    /// Runs the method body on the frame that `call` prepared. The body adds
    /// return values to the caller's frame with `push_parent`, and leaves
    /// the frame stack as it found it (every public operation does).
    fn run(&self, rt: &mut Runtime<P, Self>) -> (r: Result<(), Error>)
        requires
            old(rt).wf(),
        ensures
            final(rt).wf(),
            body_effect(*old(rt), *final(rt)),
    ;
}

/// What a method body may do to the frames, as the public operations allow:
/// the frame stack stays, the frames below the caller are untouched, and
/// the caller's frame keeps its context, parent and operands, with new
/// operands (handed back by `push_parent`) on top.
pub open spec fn body_effect<P: Payload, F>(s: Runtime<P, F>, t: Runtime<P, F>) -> bool {
    &&& t.frames() == s.frames()
    &&& forall|j: int| 0 <= j < s.top() - 1 ==> #[trigger] t.frame(j) == s.frame(j)
    &&& s.top() >= 1 ==> extends(s.frame(s.top() - 1), t.frame(s.top() - 1))
}

/// `g` is `f` with operands added on top.
pub open spec fn extends(f: Frame, g: Frame) -> bool {
    &&& g.context == f.context
    &&& g.parent == f.parent
    &&& g.stack@.len() >= f.stack@.len()
    &&& g.stack@.take(f.stack@.len() as int) == f.stack@
}

/// The operands of a callee frame: the caller's operands named by `args`
/// (counted from the top, from 1), the first named on top.
pub open spec fn callee_stack(st: Seq<Address>, args: Seq<usize>) -> Seq<Address> {
    Seq::new(args.len(), |i: int| st[st.len() - args[args.len() - 1 - i]])
}

/// A heap and a stack of frames stored in it; the last frame is the
/// current one and is the heap's entry.
#[verifier::reject_recursive_types(P)]
pub struct Runtime<P, F> {
    memory: Heap<P, F>,
    frames: Vec<Address>,
}

/// The frames of `fs`, each stored in `s`, each the parent of the next.
pub open spec fn frames_ok<P, F>(s: Seq<Slot<P, F>>, fs: Seq<Address>) -> bool {
    &&& forall|k: int| 0 <= k < fs.len() ==> holds(s, #[trigger] fs[k])
    &&& forall|k: int| 0 <= k < fs.len() ==> (cell_at(s, #[trigger] fs[k]) is Frame)
    &&& forall|k: int| 0 <= k < fs.len() ==> (#[trigger] frame_at(s, fs[k])).parent == if k == 0 {
        None
    } else {
        Some(fs[k - 1])
    }
    &&& forall|j: int, k: int| 0 <= j < k < fs.len() ==> fs[j] != fs[k]
}

proof fn lemma_frames_reachable<P: Payload, F>(s: Seq<Slot<P, F>>, fs: Seq<Address>, k: int)
    requires
        frames_ok(s, fs),
        0 <= k < fs.len(),
    ensures
        reachable(s, Some(fs.last()), fs[k]),
    decreases fs.len() - k,
{
    let n = fs.len();
    if k == n - 1 {
        let p = seq![fs[k]];
        assert(holds(s, fs[k]));
        assert(is_path(s, p));
        assert(p[0] == fs.last() && p.last() == fs[k]);
    } else {
        lemma_frames_reachable(s, fs, k + 1);
        let p = choose|p: Seq<Address>| is_path(s, p) && p[0] == fs.last() && p.last() == fs[k + 1];
        let q = p.push(fs[k]);
        let i = index_of(s, fs[k + 1]);
        let f = frame_at(s, fs[k + 1]);
        assert(f.parent == Some(fs[k]));
        let hs = f.holdees_spec();
        assert(hs[hs.len() - 1] == fs[k]);
        assert(s[i].cell.holdees_spec().contains(fs[k]));
        assert forall|m: int| 0 <= m < q.len() - 1 implies crate::heap::edge(s, #[trigger] q[m], q[m + 1]) by {
            if m < p.len() - 1 {
                assert(q[m] == p[m] && q[m + 1] == p[m + 1]);
            } else {
                assert(q[m] == fs[k + 1]);
            }
        }
        assert(is_path(s, q));
        assert(q[0] == fs.last() && q.last() == fs[k]);
    }
}

/// `t` differs from `s` at most in the cell of the slot named `a`.
pub open spec fn same_but<P, F>(s: Seq<Slot<P, F>>, t: Seq<Slot<P, F>>, a: Address) -> bool {
    &&& t.len() == s.len()
    &&& forall|j: int| 0 <= j < s.len() ==> (#[trigger] t[j]).addr == s[j].addr && (s[j].addr != a ==> t[j] == s[j])
}

/// Collection (and appending a fresh slot after it) keeps the frames.
proof fn lemma_frames_kept<P: Payload, F>(s: Seq<Slot<P, F>>, fs: Seq<Address>, t: Seq<Slot<P, F>>)
    requires
        unique_addrs(s),
        unique_addrs(t),
        fs.len() >= 1,
        frames_ok(s, fs),
        t.len() >= survivors(s, Some(fs.last())).len(),
        forall|j: int| 0 <= j < survivors(s, Some(fs.last())).len() ==> t[j] == #[trigger] survivors(s, Some(fs.last()))[j],
    ensures
        frames_ok(t, fs),
        forall|k: int| 0 <= k < fs.len() ==> #[trigger] cell_at(t, fs[k]) == cell_at(s, fs[k]),
{
    assert forall|k: int| 0 <= k < fs.len() implies holds(t, #[trigger] fs[k]) && cell_at(t, fs[k]) == cell_at(s, fs[k]) by {
        lemma_frames_reachable(s, fs, k);
        lemma_reachable_kept(s, Some(fs.last()), t, fs[k]);
    }
    assert forall|k: int| 0 <= k < fs.len() implies (#[trigger] frame_at(t, fs[k])).parent == if k == 0 {
        None
    } else {
        Some(fs[k - 1])
    } by {
        assert(cell_at(t, fs[k]) == cell_at(s, fs[k]));
        assert(frame_at(t, fs[k]) == frame_at(s, fs[k]));
    }
}

impl<P: Payload, F> Runtime<P, F> {
    pub closed spec fn memory_spec(&self) -> Heap<P, F> {
        self.memory
    }

    /// The addresses of the frames, the current one last.
    pub closed spec fn frames(&self) -> Seq<Address> {
        self.frames@
    }

    pub open spec fn slots(&self) -> Seq<Slot<P, F>> {
        self.memory_spec().slots()
    }

    /// The frame at depth `k`, 0 being the first.
    pub open spec fn frame(&self, k: int) -> Frame {
        frame_at(self.slots(), self.frames()[k])
    }

    /// The depth of the current frame.
    pub open spec fn top(&self) -> int {
        self.frames().len() - 1
    }

    /// The operand stack of the current frame.
    pub open spec fn stack(&self) -> Seq<Address> {
        self.frame(self.top()).stack@
    }

    pub closed spec fn wf(&self) -> bool {
        &&& self.memory.wf()
        &&& self.frames@.len() >= 1
        &&& self.memory.entry_spec() == Some(self.frames@.last())
        &&& frames_ok(self.memory.slots(), self.frames@)
    }

    pub proof fn lemma_wf(&self)
        requires
            self.wf(),
        ensures
            self.memory_spec().wf(),
            self.frames().len() >= 1,
            self.memory_spec().entry_spec() == Some(self.frames().last()),
            frames_ok(self.slots(), self.frames()),
    {
    }

    /// Stores a first frame for `context` in `memory`, makes it the entry,
    /// and starts a runtime on it.
    pub fn boot(memory: Heap<P, F>, context: Address) -> (r: Result<Self, Error>)
        requires
            memory.wf(),
        ensures
            match r {
                Ok(rt) => {
                    &&& rt.wf()
                    &&& kept_on_insert(memory).len() < memory.capacity()
                    &&& memory.id_bound() < u64::MAX
                    &&& rt.frames().len() == 1
                    &&& rt.frames()[0].id == memory.id_bound()
                    &&& rt.slots().len() == kept_on_insert(memory).len() + 1
                    &&& rt.slots().drop_last() == kept_on_insert(memory)
                    &&& rt.slots().last().addr == rt.frames()[0]
                    &&& rt.frame(0).context == context
                    &&& rt.frame(0).parent == None::<Address>
                    &&& rt.stack() == Seq::<Address>::empty()
                    &&& rt.memory_spec().capacity() == memory.capacity()
                    &&& rt.memory_spec().id_bound() == memory.id_bound() + 1
                },
                Err(e) => {
                    &&& e == Error::OutOfMemory
                    &&& (kept_on_insert(memory).len() >= memory.capacity() || memory.id_bound() == u64::MAX)
                },
            },
    {
        let ghost m0 = memory;
        let mut memory = memory;
        let frame = Frame::new(context, None);
        match memory.insert_cell(Cell::Frame(frame)) {
            Ok(a) => {
                let ghost t = memory.slots();
                memory.set_entry(a);
                let mut frames: Vec<Address> = Vec::new();
                frames.push(a);
                proof {
                    let s = memory.slots();
                    memory.lemma_wf();
                    lemma_index_of(s, s.len() - 1);
                    assert(frames@[0] == a);
                    assert(s.drop_last() =~= kept_on_insert(m0));
                }
                Ok(Runtime { memory, frames })
            },
            Err(e) => Err(e),
        }
    }

    /// Read access to the heap.
    pub fn memory(&self) -> (r: &Heap<P, F>)
        ensures
            *r == self.memory_spec(),
    {
        &self.memory
    }

    /// The implicit receiver of the current frame.
    pub fn context(&self) -> (r: Address)
        requires
            self.wf(),
        ensures
            r == self.frame(self.top()).context,
    {
        self.frame_ref(self.frames.len() - 1).context
    }

    fn frame_ref(&self, k: usize) -> (r: &Frame)
        requires
            self.wf(),
            k < self.frames().len(),
        ensures
            *r == self.frame(k as int),
    {
        let a = self.frames[k];
        proof {
            assert(holds(self.slots(), self.frames@[k as int]));
        }
        match self.memory.get_cell(a) {
            Ok(Cell::Frame(f)) => f,
            _ => vstd::pervasive::unreached(),
        }
    }

    /// Replaces the frame at depth `k` by one with the same context and
    /// parent.
    fn put_frame(&mut self, k: usize, frame: Frame)
        requires
            old(self).wf(),
            k < old(self).frames().len(),
            frame.parent == old(self).frame(k as int).parent,
        ensures
            final(self).wf(),
            final(self).frames() == old(self).frames(),
            final(self).memory_spec().capacity() == old(self).memory_spec().capacity(),
            final(self).memory_spec().id_bound() == old(self).memory_spec().id_bound(),
            forall|j: int| 0 <= j < old(self).frames().len() ==> #[trigger] final(self).frame(j) == if j == k {
                frame
            } else {
                old(self).frame(j)
            },
            forall|a: Address| holds(old(self).slots(), a) ==> holds(final(self).slots(), a) && cell_at(final(self).slots(), a) == if a == old(self).frames()[k as int] {
                Cell::<P, F>::Frame(frame)
            } else {
                cell_at(old(self).slots(), a)
            },
            same_but(old(self).slots(), final(self).slots(), old(self).frames()[k as int]),
    {
        let a = self.frames[k];
        proof {
            assert(holds(self.slots(), self.frames@[k as int]));
        }
        let i = self.memory.find(a).unwrap();
        let ghost s0 = self.memory.slots();
        let ghost fs = self.frames@;
        let ghost c = Cell::<P, F>::Frame(frame);
        proof {
            self.memory.lemma_wf();
        }
        self.memory.swap_cell(i, Cell::Frame(frame));
        proof {
            self.memory.lemma_wf();
            assert forall|b: Address| holds(s0, b) implies holds(self.slots(), b) && cell_at(self.slots(), b) == if b == a {
                c
            } else {
                cell_at(s0, b)
            } by {
                lemma_update_cell(s0, i as int, c, b);
            }
            assert forall|j: int| 0 <= j < fs.len() implies #[trigger] self.frame(j) == if j == k {
                frame
            } else {
                old(self).frame(j)
            } by {
                assert(holds(s0, fs[j]));
                if j != k {
                    assert(fs[j] != fs[k as int]);
                }
            }
            assert forall|j: int| 0 <= j < fs.len() implies (cell_at(self.slots(), #[trigger] fs[j]) is Frame) by {
                assert(holds(s0, fs[j]));
            }
            assert forall|j: int| 0 <= j < fs.len() implies holds(self.slots(), #[trigger] fs[j]) by {
                assert(holds(s0, fs[j]));
            }
            assert forall|j: int| 0 <= j < fs.len() implies (#[trigger] frame_at(self.slots(), fs[j])).parent == if j == 0 {
                None
            } else {
                Some(fs[j - 1])
            } by {
                assert(self.frame(j) == frame_at(self.slots(), fs[j]));
            }
        }
    }
}

impl<P: Payload, F> Runtime<P, F> {
    /// Pushes `a` on the current frame's operand stack.
    pub fn push(&mut self, a: Address)
        requires
            old(self).wf(),
        ensures
            final(self).wf(),
            final(self).memory_spec().capacity() == old(self).memory_spec().capacity(),
            final(self).memory_spec().id_bound() == old(self).memory_spec().id_bound(),
            final(self).frames() == old(self).frames(),
            same_but(old(self).slots(), final(self).slots(), old(self).frames().last()),
            final(self).stack() == old(self).stack().push(a),
            final(self).frame(old(self).top()).context == old(self).frame(old(self).top()).context,
            final(self).frame(old(self).top()).parent == old(self).frame(old(self).top()).parent,
            forall|j: int| 0 <= j < old(self).top() ==> #[trigger] final(self).frame(j) == old(self).frame(j),
    {
        let k = self.frames.len() - 1;
        let f = self.frame_ref(k);
        let mut stack = copy_stack(&f.stack);
        stack.push(a);
        let frame = Frame { context: f.context, stack, parent: f.parent };
        self.put_frame(k, frame);
    }

    /// Makes `context` the implicit receiver of the current frame.
    pub fn set_context(&mut self, context: Address)
        requires
            old(self).wf(),
        ensures
            final(self).wf(),
            final(self).frames() == old(self).frames(),
            same_but(old(self).slots(), final(self).slots(), old(self).frames().last()),
            final(self).stack() == old(self).stack(),
            final(self).frame(old(self).top()).context == context,
            final(self).frame(old(self).top()).parent == old(self).frame(old(self).top()).parent,
            forall|j: int| 0 <= j < old(self).top() ==> #[trigger] final(self).frame(j) == old(self).frame(j),
    {
        let k = self.frames.len() - 1;
        let f = self.frame_ref(k);
        let stack = copy_stack(&f.stack);
        let frame = Frame { context, stack, parent: f.parent };
        self.put_frame(k, frame);
    }

    /// Removes the top of the current frame's operand stack; fails with
    /// `ExhaustedFrame` when it is empty.
    pub fn pop(&mut self) -> (r: Result<(), Error>)
        requires
            old(self).wf(),
        ensures
            final(self).wf(),
            final(self).frames() == old(self).frames(),
            old(self).stack().len() == 0 ==> r == Err::<(), Error>(Error::ExhaustedFrame) && *final(self) == *old(self),
            old(self).stack().len() > 0 ==> {
                &&& r == Ok::<(), Error>(())
                &&& same_but(old(self).slots(), final(self).slots(), old(self).frames().last())
                &&& final(self).stack() == old(self).stack().drop_last()
                &&& final(self).frame(old(self).top()).context == old(self).frame(old(self).top()).context
                &&& final(self).frame(old(self).top()).parent == old(self).frame(old(self).top()).parent
                &&& forall|j: int| 0 <= j < old(self).top() ==> #[trigger] final(self).frame(j) == old(self).frame(j)
            },
    {
        let k = self.frames.len() - 1;
        let f = self.frame_ref(k);
        if f.stack.len() == 0 {
            return Err(Error::ExhaustedFrame);
        }
        let mut stack = copy_stack(&f.stack);
        stack.pop();
        let frame = Frame { context: f.context, stack, parent: f.parent };
        self.put_frame(k, frame);
        Ok(())
    }

    /// The `index`-th address from the top of the current frame's operand
    /// stack, counting from 1; fails with `ExhaustedFrame` when there is none.
    pub fn get(&self, index: usize) -> (r: Result<Address, Error>)
        requires
            self.wf(),
        ensures
            1 <= index <= self.stack().len() ==> r == Ok::<Address, Error>(self.stack()[self.stack().len() - index]),
            !(1 <= index <= self.stack().len()) ==> r == Err::<Address, Error>(Error::ExhaustedFrame),
    {
        let f = self.frame_ref(self.frames.len() - 1);
        if index == 0 || f.stack.len() < index {
            return Err(Error::ExhaustedFrame);
        }
        Ok(f.stack[f.stack.len() - index])
    }

    /// The length of the current frame's operand stack.
    pub fn len(&self) -> (r: usize)
        requires
            self.wf(),
        ensures
            r == self.stack().len(),
    {
        self.frame_ref(self.frames.len() - 1).stack.len()
    }

    /// Copies the `index`-th address from the top of the current frame's
    /// stack onto the parent frame's stack. Fails with `NoParentFrame` when
    /// the current frame has no parent, else with `ExhaustedFrame` when
    /// there is no such address.
    pub fn push_parent(&mut self, index: usize) -> (r: Result<(), Error>)
        requires
            old(self).wf(),
        ensures
            final(self).wf(),
            final(self).frames() == old(self).frames(),
            parent_pushed(*old(self), index, *final(self), r),
            final(self).memory_spec().capacity() == old(self).memory_spec().capacity(),
            final(self).memory_spec().id_bound() == old(self).memory_spec().id_bound(),
    {
        let k = self.frames.len() - 1;
        if k == 0 {
            return Err(Error::NoParentFrame);
        }
        let a = match self.get(index) {
            Ok(a) => a,
            Err(e) => {
                return Err(e);
            },
        };
        let f = self.frame_ref(k - 1);
        let mut stack = copy_stack(&f.stack);
        stack.push(a);
        let frame = Frame { context: f.context, stack, parent: f.parent };
        self.put_frame(k - 1, frame);
        Ok(())
    }
}

/// Every frame of `fs` has the same cell in `t` as in `s`, so `t` keeps the
/// frame chain.
proof fn lemma_frames_transfer<P: Payload, F>(s: Seq<Slot<P, F>>, fs: Seq<Address>, t: Seq<Slot<P, F>>)
    requires
        frames_ok(s, fs),
        forall|k: int| 0 <= k < fs.len() ==> holds(t, #[trigger] fs[k]) && cell_at(t, fs[k]) == cell_at(s, fs[k]),
    ensures
        frames_ok(t, fs),
{
    assert forall|k: int| 0 <= k < fs.len() implies (#[trigger] frame_at(t, fs[k])).parent == if k == 0 {
        None
    } else {
        Some(fs[k - 1])
    } by {
        assert(holds(t, fs[k]) && cell_at(t, fs[k]) == cell_at(s, fs[k]));
        assert(frame_at(t, fs[k]) == frame_at(s, fs[k]));
    }
}

/// Appending a slot keeps the cells of the slots before it.
pub proof fn lemma_prefix_kept<P, F>(s: Seq<Slot<P, F>>, t: Seq<Slot<P, F>>, a: Address)
    requires
        unique_addrs(s),
        unique_addrs(t),
        holds(s, a),
        t.len() >= s.len(),
        forall|j: int| 0 <= j < s.len() ==> t[j] == #[trigger] s[j],
    ensures
        holds(t, a),
        cell_at(t, a) == cell_at(s, a),
{
    let i = index_of(s, a);
    lemma_index_of(s, i);
    assert(t[i] == s[i]);
    lemma_index_of(t, i);
}

impl<P: Payload, F> Runtime<P, F> {
    /// Puts `cell` in a new slot of the heap (see `inserted`); the frames
    /// survive a collection that the insertion runs.
    fn insert_cell(&mut self, cell: Cell<P, F>) -> (r: Result<Address, Error>)
        requires
            old(self).wf(),
        ensures
            final(self).wf(),
            final(self).frames() == old(self).frames(),
            inserted(old(self).memory_spec(), final(self).memory_spec(), cell, r),
            forall|k: int| 0 <= k < old(self).frames().len() ==> #[trigger] final(self).frame(k) == old(self).frame(k),
    {
        let ghost s = self.memory.slots();
        let ghost fs = self.frames@;
        let r = self.memory.insert_cell(cell);
        proof {
            let t = self.memory.slots();
            self.memory.lemma_wf();
            old(self).memory.lemma_wf();
            if s.len() >= old(self).memory.capacity() {
                lemma_frames_kept(s, fs, t);
            } else {
                assert forall|k: int| 0 <= k < fs.len() implies holds(t, #[trigger] fs[k]) && cell_at(t, fs[k]) == cell_at(s, fs[k]) by {
                    lemma_prefix_kept(s, t, fs[k]);
                }
                lemma_frames_transfer(s, fs, t);
            }
            assert forall|k: int| 0 <= k < fs.len() implies #[trigger] self.frame(k) == old(self).frame(k) by {
                if s.len() >= old(self).memory.capacity() {
                    assert(cell_at(t, fs[k]) == cell_at(s, fs[k]));
                } else {
                    lemma_prefix_kept(s, t, fs[k]);
                }
            }
        }
        r
    }

    /// Puts a local payload in a new slot (see `inserted`).
    pub fn insert_local(&mut self, payload: P) -> (r: Result<Address, Error>)
        requires
            old(self).wf(),
        ensures
            final(self).wf(),
            final(self).frames() == old(self).frames(),
            inserted(old(self).memory_spec(), final(self).memory_spec(), Cell::Local(payload), r),
            forall|k: int| 0 <= k < old(self).frames().len() ==> #[trigger] final(self).frame(k) == old(self).frame(k),
    {
        self.insert_cell(Cell::Local(payload))
    }

    /// Puts a handle to a shared payload in a new slot (see `inserted`).
    pub fn insert_shared(&mut self, shared: Shared<P>) -> (r: Result<Address, Error>)
        requires
            old(self).wf(),
        ensures
            final(self).wf(),
            final(self).frames() == old(self).frames(),
            inserted(old(self).memory_spec(), final(self).memory_spec(), Cell::Shared(shared), r),
            forall|k: int| 0 <= k < old(self).frames().len() ==> #[trigger] final(self).frame(k) == old(self).frame(k),
    {
        self.insert_cell(Cell::Shared(shared))
    }

    /// Puts a method, `function` bound to `context`, in a new slot (see
    /// `inserted`).
    pub fn insert_method(&mut self, function: F, context: Address) -> (r: Result<Address, Error>)
        requires
            old(self).wf(),
        ensures
            final(self).wf(),
            final(self).frames() == old(self).frames(),
            inserted(old(self).memory_spec(), final(self).memory_spec(), Cell::Method(function, context), r),
            forall|k: int| 0 <= k < old(self).frames().len() ==> #[trigger] final(self).frame(k) == old(self).frame(k),
    {
        self.insert_cell(Cell::Method(function, context))
    }

    /// Puts a method bound to a shared context in a new slot (see
    /// `inserted`).
    pub fn insert_sync_method(&mut self, function: F, context: Shared<P>) -> (r: Result<Address, Error>)
        requires
            old(self).wf(),
        ensures
            final(self).wf(),
            final(self).frames() == old(self).frames(),
            inserted(old(self).memory_spec(), final(self).memory_spec(), Cell::SyncMethod(function, context), r),
            forall|k: int| 0 <= k < old(self).frames().len() ==> #[trigger] final(self).frame(k) == old(self).frame(k),
    {
        self.insert_cell(Cell::SyncMethod(function, context))
    }

    /// Runs a collection of the heap from the current frame.
    pub fn collect(&mut self)
        requires
            old(self).wf(),
        ensures
            final(self).wf(),
            final(self).frames() == old(self).frames(),
            final(self).slots() == survivors(old(self).slots(), Some(old(self).frames().last())),
            forall|k: int| 0 <= k < old(self).frames().len() ==> #[trigger] final(self).frame(k) == old(self).frame(k),
    {
        let ghost s = self.memory.slots();
        let ghost fs = self.frames@;
        self.memory.collect();
        proof {
            let t = self.memory.slots();
            self.memory.lemma_wf();
            old(self).memory.lemma_wf();
            lemma_frames_kept(s, fs, t);
            assert forall|k: int| 0 <= k < fs.len() implies #[trigger] self.frame(k) == old(self).frame(k) by {
                assert(cell_at(t, fs[k]) == cell_at(s, fs[k]));
            }
        }
    }
}

impl<P: Payload, F> Runtime<P, F> {
    /// Promotes the slot named `a` to a shared one in place (see `promoted`).
    pub fn promote(&mut self, a: Address) -> (r: Result<Shared<P>, Error>)
        requires
            old(self).wf(),
        ensures
            final(self).wf(),
            final(self).frames() == old(self).frames(),
            promoted(old(self).slots(), a, final(self).slots(), r),
            forall|k: int| 0 <= k < old(self).frames().len() ==> #[trigger] final(self).frame(k) == old(self).frame(k),
    {
        let ghost s = self.memory.slots();
        let ghost fs = self.frames@;
        let r = self.memory.promote(a);
        proof {
            let t = self.memory.slots();
            old(self).memory.lemma_wf();
            if t != s {
                let i = index_of(s, a);
                assert forall|k: int| 0 <= k < fs.len() implies holds(t, #[trigger] fs[k]) && cell_at(t, fs[k]) == cell_at(s, fs[k]) by {
                    assert(holds(s, fs[k]));
                    lemma_update_cell(s, i, t[i].cell, fs[k]);
                    assert(t == s.update(i, Slot { addr: s[i].addr, cell: t[i].cell }));
                }
                lemma_frames_transfer(s, fs, t);
            }
            assert forall|k: int| 0 <= k < fs.len() implies #[trigger] self.frame(k) == old(self).frame(k) by {
                if t != s {
                    assert(cell_at(t, fs[k]) == cell_at(s, fs[k]));
                }
            }
        }
        r
    }

    /// A reference to the payload of a local slot (see `Heap::get_local`).
    pub fn get_local(&self, a: Address) -> (r: Result<&P, Error>)
        requires
            self.wf(),
        ensures
            !holds(self.slots(), a) ==> r == Err::<&P, Error>(Error::InvalidAddress),
            holds(self.slots(), a) ==> match cell_at(self.slots(), a) {
                Cell::Local(p) => r == Ok::<&P, Error>(&p),
                Cell::Shared(_) => r == Err::<&P, Error>(Error::ExpectLocal),
                Cell::SyncMethod(_, _) => r == Err::<&P, Error>(Error::ExpectLocal),
                _ => r == Err::<&P, Error>(Error::TypeMismatch),
            },
    {
        self.memory.get_local(a)
    }

    /// Stores `payload` in a local slot and hands back what it held (see
    /// `Heap::replace_local`).
    pub fn replace_local(&mut self, a: Address, payload: P) -> (r: Result<P, Error>)
        requires
            old(self).wf(),
        ensures
            final(self).wf(),
            final(self).frames() == old(self).frames(),
            !holds(old(self).slots(), a) ==> r == Err::<P, Error>(Error::InvalidAddress) && final(self).slots() == old(self).slots(),
            holds(old(self).slots(), a) ==> match cell_at(old(self).slots(), a) {
                Cell::Local(p) => r == Ok::<P, Error>(p) && final(self).slots() == old(self).slots().update(
                    index_of(old(self).slots(), a),
                    Slot { addr: a, cell: Cell::Local(payload) },
                ),
                Cell::Shared(_) => r == Err::<P, Error>(Error::ExpectLocal) && final(self).slots() == old(self).slots(),
                Cell::SyncMethod(_, _) => r == Err::<P, Error>(Error::ExpectLocal) && final(self).slots() == old(self).slots(),
                _ => r == Err::<P, Error>(Error::TypeMismatch) && final(self).slots() == old(self).slots(),
            },
            forall|k: int| 0 <= k < old(self).frames().len() ==> #[trigger] final(self).frame(k) == old(self).frame(k),
    {
        let ghost s = self.memory.slots();
        let ghost fs = self.frames@;
        let r = self.memory.replace_local(a, payload);
        proof {
            let t = self.memory.slots();
            old(self).memory.lemma_wf();
            if t != s {
                let i = index_of(s, a);
                lemma_index_of(s, i);
                assert forall|k: int| 0 <= k < fs.len() implies holds(t, #[trigger] fs[k]) && cell_at(t, fs[k]) == cell_at(s, fs[k]) by {
                    assert(holds(s, fs[k]));
                    lemma_update_cell(s, i, t[i].cell, fs[k]);
                    assert(t == s.update(i, Slot { addr: s[i].addr, cell: t[i].cell }));
                }
                lemma_frames_transfer(s, fs, t);
            }
            assert forall|k: int| 0 <= k < fs.len() implies #[trigger] self.frame(k) == old(self).frame(k) by {
                if t != s {
                    assert(cell_at(t, fs[k]) == cell_at(s, fs[k]));
                }
            }
        }
        r
    }

    /// Stores `payload` in a shared slot unless its lock is held (see
    /// `Heap::write_shared`).
    pub fn write_shared(&self, a: Address, payload: P) -> (r: Result<(), Error>)
        requires
            self.wf(),
        ensures
            !holds(self.slots(), a) ==> r == Err::<(), Error>(Error::InvalidAddress),
            holds(self.slots(), a) ==> match cell_at(self.slots(), a) {
                Cell::Shared(_) => r matches Err(e) ==> e == Error::BorrowViolated,
                Cell::Local(_) => r == Err::<(), Error>(Error::ExpectShared),
                Cell::Frame(_) => r == Err::<(), Error>(Error::ExpectShared),
                _ => r == Err::<(), Error>(Error::TypeMismatch),
            },
    {
        self.memory.write_shared(a, payload)
    }
}

impl<P: Payload + Clone, F> Runtime<P, F> {
    /// A copy of the payload at `a`, local or shared alike; a shared slot
    /// fails with `BorrowViolated` while a writer holds its lock.
    pub fn read(&self, a: Address) -> (r: Result<P, Error>)
        requires
            self.wf(),
        ensures
            !holds(self.slots(), a) ==> r == Err::<P, Error>(Error::InvalidAddress),
            holds(self.slots(), a) ==> match cell_at(self.slots(), a) {
                Cell::Local(p) => r is Ok && call_ensures(P::clone, (&p,), r->Ok_0),
                Cell::Shared(_) => r matches Err(e) ==> e == Error::BorrowViolated,
                _ => r == Err::<P, Error>(Error::TypeMismatch),
            },
    {
        match self.memory.get_local(a) {
            Ok(p) => Ok(p.clone()),
            Err(Error::ExpectLocal) => match self.memory.read_shared(a) {
                Ok(p) => Ok(p),
                Err(Error::TypeMismatch) => Err(Error::TypeMismatch),
                Err(_) => Err(Error::BorrowViolated),
            },
            Err(e) => Err(e),
        }
    }
}

impl<P: Payload, F> Runtime<P, F> {
    /// Stores `payload` at `a`, local or shared alike; a shared slot fails
    /// with `BorrowViolated` while its lock is held.
    pub fn write(&mut self, a: Address, payload: P) -> (r: Result<(), Error>)
        requires
            old(self).wf(),
        ensures
            final(self).wf(),
            final(self).frames() == old(self).frames(),
            forall|k: int| 0 <= k < old(self).frames().len() ==> #[trigger] final(self).frame(k) == old(self).frame(k),
            !holds(old(self).slots(), a) ==> r == Err::<(), Error>(Error::InvalidAddress) && final(self).slots() == old(self).slots(),
            holds(old(self).slots(), a) ==> match cell_at(old(self).slots(), a) {
                Cell::Local(_) => r is Ok && final(self).slots() == old(self).slots().update(
                    index_of(old(self).slots(), a),
                    Slot { addr: a, cell: Cell::Local(payload) },
                ),
                Cell::Shared(_) => (r matches Err(e) ==> e == Error::BorrowViolated) && final(self).slots() == old(self).slots(),
                _ => r == Err::<(), Error>(Error::TypeMismatch) && final(self).slots() == old(self).slots(),
            },
    {
        match self.memory.get_cell(a) {
            Ok(Cell::Local(_)) => {},
            Ok(Cell::Shared(_)) => {
                return match self.memory.write_shared(a, payload) {
                    Ok(()) => Ok(()),
                    Err(_) => Err(Error::BorrowViolated),
                };
            },
            Ok(_) => {
                return Err(Error::TypeMismatch);
            },
            Err(e) => {
                return Err(e);
            },
        }
        match self.replace_local(a, payload) {
            Ok(_) => Ok(()),
            Err(e) => Err(e),
        }
    }
}

impl<P: Payload + Clone, F> Runtime<P, F> {
    /// A copy of the payload of a shared slot (see `Heap::read_shared`).
    pub fn read_shared(&self, a: Address) -> (r: Result<P, Error>)
        requires
            self.wf(),
        ensures
            !holds(self.slots(), a) ==> r == Err::<P, Error>(Error::InvalidAddress),
            holds(self.slots(), a) ==> match cell_at(self.slots(), a) {
                Cell::Shared(_) => r matches Err(e) ==> e == Error::BorrowViolated,
                Cell::Local(_) => r == Err::<P, Error>(Error::ExpectShared),
                Cell::Frame(_) => r == Err::<P, Error>(Error::ExpectShared),
                _ => r == Err::<P, Error>(Error::TypeMismatch),
            },
    {
        self.memory.read_shared(a)
    }
}

/// Every index of `args` names an address of an operand stack of length `n`.
pub open spec fn args_in_range(args: Seq<usize>, n: int) -> bool {
    forall|j: int| 0 <= j < args.len() ==> 1 <= #[trigger] args[j] <= n
}

impl<P: Payload, F> Runtime<P, F> {
    /// Whether every index of `args` names an operand of the current frame.
    fn check_args(&self, args: &[usize]) -> (r: bool)
        requires
            self.wf(),
        ensures
            r == args_in_range(args@, self.stack().len() as int),
    {
        let n = self.len();
        let mut j: usize = 0;
        while j < args.len()
            invariant
                j <= args@.len(),
                n == self.stack().len(),
                forall|m: int| 0 <= m < j ==> 1 <= #[trigger] args@[m] <= n,
            decreases args@.len() - j,
        {
            if args[j] == 0 || args[j] > n {
                return false;
            }
            j = j + 1;
        }
        true
    }

    /// The operands named by `args`, the first named last.
    fn collect_args(&self, args: &[usize]) -> (r: Vec<Address>)
        requires
            self.wf(),
            args_in_range(args@, self.stack().len() as int),
        ensures
            r@.len() == args@.len(),
            forall|j: int| 0 <= j < args@.len() ==> #[trigger] r@[args@.len() - 1 - j] == self.stack()[self.stack().len() - args@[j]],
    {
        let mut stack: Vec<Address> = Vec::new();
        let mut m: usize = args.len();
        while m > 0
            invariant
                m <= args@.len(),
                self.wf(),
                stack@.len() == args@.len() - m,
                args_in_range(args@, self.stack().len() as int),
                forall|j: int| m <= j < args@.len() ==> #[trigger] stack@[args@.len() - 1 - j] == self.stack()[self.stack().len() - args@[j]],
            decreases m,
        {
            m = m - 1;
            let a = match self.get(args[m]) {
                Ok(a) => a,
                Err(_) => vstd::pervasive::unreached(),
            };
            stack.push(a);
        }
        stack
    }

    /// Stores `frame`, whose parent is the current frame, and makes it the
    /// current frame and the heap's entry.
    fn enter(&mut self, frame: Frame) -> (r: Result<(), Error>)
        requires
            old(self).wf(),
            frame.parent == Some(old(self).frames().last()),
        ensures
            final(self).wf(),
            r is Ok ==> final(self).frames() == old(self).frames().push(final(self).frames().last()),
            r is Ok ==> final(self).frame(old(self).frames().len() as int) == frame,
            r is Err ==> final(self).frames() == old(self).frames(),
            r matches Err(e) ==> e == Error::OutOfMemory,
            forall|j: int| 0 <= j < old(self).frames().len() ==> #[trigger] final(self).frame(j) == old(self).frame(j),
            has_room(old(self).memory_spec(), 1) ==> r is Ok && final(self).slots().len() == old(self).slots().len() + 1
                && final(self).memory_spec().id_bound() == old(self).memory_spec().id_bound() + 1
                && final(self).memory_spec().capacity() == old(self).memory_spec().capacity(),
    {
        let k = self.frames.len() - 1;
        let ghost fs = self.frames@;
        let ghost s = self.memory.slots();
        let ghost bound = self.memory.id_bound();
        let ghost c = Cell::<P, F>::Frame(frame);
        proof {
            self.memory.lemma_wf();
        }
        let callee = match self.insert_cell(Cell::Frame(frame)) {
            Ok(a) => a,
            Err(e) => {
                return Err(e);
            },
        };
        let ghost mid = *self;
        proof {
            self.memory.lemma_wf();
            assert forall|x: int| 0 <= x < fs.len() implies (#[trigger] fs[x]) != callee by {
                assert(holds(s, fs[x]));
                let y = index_of(s, fs[x]);
                assert(s[y].addr.id < bound);
            }
            let u = self.memory.slots();
            lemma_index_of(u, u.len() - 1);
        }
        self.frames.push(callee);
        self.memory.set_entry(callee);
        proof {
            let u = self.memory.slots();
            let fs2 = self.frames@;
            assert(fs2 == fs.push(callee));
            assert forall|x: int| 0 <= x < fs2.len() implies holds(u, #[trigger] fs2[x]) by {
                if x < fs.len() {
                    assert(fs2[x] == fs[x]);
                }
            }
            assert forall|x: int| 0 <= x < fs2.len() implies (cell_at(u, #[trigger] fs2[x]) is Frame) by {
                if x < fs.len() {
                    assert(fs2[x] == fs[x]);
                }
            }
            assert forall|x: int| 0 <= x < fs2.len() implies (#[trigger] frame_at(u, fs2[x])).parent == if x == 0 {
                None
            } else {
                Some(fs2[x - 1])
            } by {
                if x < fs.len() {
                    assert(fs2[x] == fs[x]);
                } else {
                    assert(fs2[x - 1] == fs[k as int]);
                }
            }
            assert forall|x: int, y: int| 0 <= x < y < fs2.len() implies fs2[x] != fs2[y] by {
                if y == fs.len() {
                    assert(fs2[x] == fs[x]);
                }
            }
            assert(fs2[fs.len() as int] == callee);
            assert(u[u.len() - 1].cell == c);
            assert forall|j: int| 0 <= j < fs.len() implies #[trigger] self.frame(j) == old(self).frame(j) by {
                assert(fs2[j] == fs[j]);
                assert(mid.frame(j) == old(self).frame(j));
            }
        }
        Ok(())
    }

    /// Drops the current frame; its parent becomes current and the entry.
    fn leave(&mut self)
        requires
            old(self).wf(),
            old(self).frames().len() >= 2,
        ensures
            final(self).wf(),
            final(self).frames() == old(self).frames().drop_last(),
            final(self).slots() == old(self).slots(),
            forall|j: int| 0 <= j < final(self).frames().len() ==> #[trigger] final(self).frame(j) == old(self).frame(j),
    {
        let ghost fs = self.frames@;
        self.frames.pop();
        let k = self.frames.len() - 1;
        self.memory.set_entry(self.frames[k]);
        proof {
            let fs3 = self.frames@;
            assert forall|x: int| 0 <= x < fs3.len() implies (#[trigger] frame_at(self.slots(), fs3[x])).parent == if x == 0 {
                None
            } else {
                Some(fs3[x - 1])
            } by {
                assert(fs3[x] == fs[x]);
            }
            assert forall|x: int| 0 <= x < fs3.len() implies (cell_at(self.slots(), #[trigger] fs3[x]) is Frame) by {
                assert(fs3[x] == fs[x]);
            }
            assert forall|x: int| 0 <= x < fs3.len() implies holds(self.slots(), #[trigger] fs3[x]) by {
                assert(fs3[x] == fs[x]);
            }
        }
    }
}

/// `b`, another slot than `a`, keeps its cell where only `a`'s changed.
pub proof fn lemma_same_but_cell<P, F>(s: Seq<Slot<P, F>>, t: Seq<Slot<P, F>>, a: Address, b: Address)
    requires
        same_but(s, t, a),
        unique_addrs(s),
        holds(s, b),
        b != a,
    ensures
        holds(t, b),
        cell_at(t, b) == cell_at(s, b),
{
    let i = index_of(s, b);
    lemma_index_of(s, i);
    assert(t[i] == s[i]);
    assert forall|x: int, y: int| 0 <= x < y < t.len() implies t[x].addr != t[y].addr by {
        assert(t[x].addr == s[x].addr && t[y].addr == s[y].addr);
    }
    lemma_index_of(t, i);
}

impl<P: Payload, F: Copy> Runtime<P, F> {
    /// The first half of a call: checks the method and the operands named
    /// by `args`, then makes current a new frame whose parent is the current
    /// frame and whose operands are those named (the first named on top).
    /// Its context is the method's context; a shared method's context is
    /// first stored in this heap as a shared slot. Returns the function to
    /// run.
    pub fn prepare_call(&mut self, method: Address, args: &[usize]) -> (r: Result<F, Error>)
        requires
            old(self).wf(),
        ensures
            final(self).wf(),
            !holds(old(self).slots(), method) ==> r == Err::<F, Error>(Error::InvalidAddress) && *final(self) == *old(self),
            holds(old(self).slots(), method) && !(cell_at(old(self).slots(), method) is Method || cell_at(old(self).slots(), method) is SyncMethod)
                ==> r == Err::<F, Error>(Error::NotCallable) && *final(self) == *old(self),
            holds(old(self).slots(), method) && (cell_at(old(self).slots(), method) is Method || cell_at(old(self).slots(), method) is SyncMethod)
                && !args_in_range(args@, old(self).stack().len() as int)
                ==> r == Err::<F, Error>(Error::ExhaustedFrame) && *final(self) == *old(self),
            r matches Err(e) ==> final(self).frames() == old(self).frames() && (e == Error::InvalidAddress || e
                == Error::NotCallable || e == Error::ExhaustedFrame || e == Error::OutOfMemory),
            forall|j: int| 0 <= j < old(self).frames().len() ==> #[trigger] final(self).frame(j) == old(self).frame(j),
            holds(old(self).slots(), method) && (cell_at(old(self).slots(), method) is Method || cell_at(old(self).slots(), method) is SyncMethod)
                && args_in_range(args@, old(self).stack().len() as int) && has_room(old(self).memory_spec(), 2) ==> r is Ok,
            r matches Ok(f) ==> {
                let callee = final(self).frame(old(self).frames().len() as int);
                &&& holds(old(self).slots(), method)
                &&& args_in_range(args@, old(self).stack().len() as int)
                &&& final(self).frames() == old(self).frames().push(final(self).frames().last())
                &&& callee.parent == Some(old(self).frames().last())
                &&& callee.stack@ == callee_stack(old(self).stack(), args@)
                &&& match cell_at(old(self).slots(), method) {
                    Cell::Method(g, c) => f == g && callee.context == c,
                    Cell::SyncMethod(g, h) => {
                        &&& f == g
                        &&& holds(final(self).slots(), callee.context)
                        &&& cell_at(final(self).slots(), callee.context) == Cell::<P, F>::Shared(h)
                    },
                    _ => false,
                }
            },
    {
        let (function, local_context, shared_context) = match self.memory.get_cell(method) {
            Err(e) => {
                return Err(e);
            },
            Ok(Cell::Method(f, c)) => (*f, Some(*c), None),
            Ok(Cell::SyncMethod(f, h)) => (*f, None, Some(h.share())),
            Ok(_) => {
                return Err(Error::NotCallable);
            },
        };
        if !self.check_args(args) {
            return Err(Error::ExhaustedFrame);
        }
        let k = self.frames.len() - 1;
        let caller = self.frames[k];
        let stack = self.collect_args(args);
        proof {
            let n = args@.len();
            assert forall|i: int| 0 <= i < n implies stack@[i] == #[trigger] callee_stack(old(self).stack(), args@)[i] by {
                let j = n - 1 - i;
                assert(stack@[args@.len() - 1 - j] == self.stack()[self.stack().len() - args@[j]]);
            }
            assert(stack@ =~= callee_stack(old(self).stack(), args@));
        }
        let placeholder = match local_context {
            Some(c) => c,
            None => method,
        };
        match self.enter(Frame { context: placeholder, stack, parent: Some(caller) }) {
            Ok(()) => {},
            Err(e) => {
                return Err(e);
            },
        }
        match shared_context {
            Some(h) => {
                let ghost before = *self;
                match self.insert_cell(Cell::Shared(h)) {
                    Ok(c) => {
                        proof {
                            self.lemma_wf();
                            self.memory.lemma_wf();
                            let u = self.slots();
                            lemma_index_of(u, u.len() - 1);
                            assert(holds(before.slots(), before.frames().last()));
                            let y = index_of(before.slots(), before.frames().last());
                            before.memory_spec().lemma_wf();
                            assert(before.slots()[y].addr.id < before.memory_spec().id_bound());
                        }
                        let ghost mid = *self;
                        self.set_context(c);
                        proof {
                            mid.lemma_wf();
                            lemma_same_but_cell(mid.slots(), self.slots(), mid.frames().last(), c);
                        }
                    },
                    Err(e) => {
                        proof {
                            if has_room(old(self).memory_spec(), 2) {
                                assert(before.slots().len() < before.memory_spec().capacity());
                                assert(kept_on_insert(before.memory_spec()) == before.slots());
                            }
                        }
                        self.leave();
                        return Err(e);
                    },
                }
            },
            None => {},
        }
        Ok(function)
    }
}

impl<P: Payload, F: Function<P>> Runtime<P, F> {
    /// Calls the method at `method` with the caller's operands named by
    /// `args`: `prepare_call`, then the method's function on the new frame,
    /// then the frame is dropped, also when the function fails. Returns how
    /// many addresses the method handed back to the caller's stack; the
    /// caller's operands stay below them.
    pub fn call(&mut self, method: Address, args: &[usize]) -> (r: Result<usize, Error>)
        requires
            old(self).wf(),
        ensures
            final(self).wf(),
            final(self).frames() == old(self).frames(),
            !holds(old(self).slots(), method) ==> r == Err::<usize, Error>(Error::InvalidAddress) && *final(self) == *old(self),
            holds(old(self).slots(), method) && !(cell_at(old(self).slots(), method) is Method || cell_at(old(self).slots(), method) is SyncMethod)
                ==> r == Err::<usize, Error>(Error::NotCallable) && *final(self) == *old(self),
            holds(old(self).slots(), method) && (cell_at(old(self).slots(), method) is Method || cell_at(old(self).slots(), method) is SyncMethod)
                && !args_in_range(args@, old(self).stack().len() as int)
                ==> r == Err::<usize, Error>(Error::ExhaustedFrame) && *final(self) == *old(self),
            forall|j: int| 0 <= j < old(self).top() ==> #[trigger] final(self).frame(j) == old(self).frame(j),
            extends(old(self).frame(old(self).top()), final(self).frame(old(self).top())),
            r matches Ok(n) ==> final(self).stack().len() == old(self).stack().len() + n,
    {
        proof {
            self.lemma_wf();
        }
        let l0 = self.len();
        let function = match self.prepare_call(method, args) {
            Ok(f) => f,
            Err(e) => {
                proof {
                    let f0 = old(self).frame(old(self).top());
                    assert(self.frame(old(self).top()) == f0);
                    assert(f0.stack@.take(f0.stack@.len() as int) =~= f0.stack@);
                }
                return Err(e);
            },
        };
        let ghost entered = *self;
        let result = function.run(self);
        let ghost ran = *self;
        proof {
            entered.lemma_wf();
            assert(entered.frames().len() == old(self).frames().len() + 1);
            assert(entered.frame(old(self).top()) == old(self).frame(old(self).top()));
        }
        let r = self.finish_call(l0, result);
        proof {
            assert forall|j: int| 0 <= j < old(self).top() implies #[trigger] self.frame(j) == old(self).frame(j) by {
                assert(self.frame(j) == ran.frame(j));
                assert(ran.frame(j) == entered.frame(j));
                assert(entered.frame(j) == old(self).frame(j));
            }
            assert(self.frame(old(self).top()) == ran.frame(old(self).top()));
            assert(self.frames() =~= old(self).frames());
            assert(self.top() == old(self).top());
            assert(self.stack() == self.frame(old(self).top()).stack@);
            assert(l0 == old(self).stack().len());
        }
        r
    }
}

impl<P: Payload, F> Runtime<P, F> {
    /// The second half of a call: drops the current frame, so that its
    /// parent is current again, and answers for the call: the error of the
    /// method's function when it failed, else how many operands the caller
    /// has gained over `l0`.
    pub fn finish_call(&mut self, l0: usize, result: Result<(), Error>) -> (r: Result<usize, Error>)
        requires
            old(self).wf(),
            old(self).frames().len() >= 2,
        ensures
            final(self).wf(),
            final(self).frames() == old(self).frames().drop_last(),
            final(self).slots() == old(self).slots(),
            forall|j: int| 0 <= j < final(self).frames().len() ==> #[trigger] final(self).frame(j) == old(self).frame(j),
            result matches Err(e) ==> r == Err::<usize, Error>(e),
            result is Ok && final(self).stack().len() >= l0 ==> r is Ok && r->Ok_0 + l0 == final(self).stack().len(),
            result is Ok && final(self).stack().len() < l0 ==> r == Err::<usize, Error>(Error::ExhaustedFrame),
    {
        self.leave();
        match result {
            Ok(()) => {},
            Err(e) => {
                return Err(e);
            },
        }
        proof {
            self.lemma_wf();
        }
        let n = self.len();
        if n >= l0 {
            Ok(n - l0)
        } else {
            Err(Error::ExhaustedFrame)
        }
    }
}

impl<P: Payload, F: Copy> Runtime<P, F> {
    /// A portable form of the method at `a`: its function and a shared
    /// handle to its context. A local method's context is promoted in place.
    pub fn promote_method(&mut self, a: Address) -> (r: Result<(F, Shared<P>), Error>)
        requires
            old(self).wf(),
        ensures
            final(self).wf(),
            final(self).frames() == old(self).frames(),
            !holds(old(self).slots(), a) ==> r == Err::<(F, Shared<P>), Error>(Error::InvalidAddress) && *final(self) == *old(self),
            holds(old(self).slots(), a) ==> match cell_at(old(self).slots(), a) {
                Cell::Method(f, c) => {
                    &&& promoted(old(self).slots(), c, final(self).slots(), second_of(r))
                    &&& r matches Ok(p) ==> p.0 == f
                },
                Cell::SyncMethod(f, h) => r == Ok::<(F, Shared<P>), Error>((f, h)) && *final(self) == *old(self),
                _ => r == Err::<(F, Shared<P>), Error>(Error::NotCallable) && *final(self) == *old(self),
            },
            forall|k: int| 0 <= k < old(self).frames().len() ==> #[trigger] final(self).frame(k) == old(self).frame(k),
    {
        let (f, c) = match self.memory.get_cell(a) {
            Err(e) => {
                return Err(e);
            },
            Ok(Cell::Method(f, c)) => (*f, *c),
            Ok(Cell::SyncMethod(f, h)) => {
                return Ok((*f, h.share()));
            },
            Ok(_) => {
                return Err(Error::NotCallable);
            },
        };
        match self.promote(c) {
            Ok(h) => Ok((f, h)),
            Err(e) => Err(e),
        }
    }
}

/// The handle of a portable method, or the error.
pub open spec fn second_of<F, H>(r: Result<(F, H), Error>) -> Result<H, Error> {
    match r {
        Ok(p) => Ok(p.1),
        Err(e) => Err(e),
    }
}

/// Promotion changes no slot but the promoted one, and a shared slot not at
/// all.
pub proof fn lemma_promoted_other<P: Payload, F>(
    s: Seq<Slot<P, F>>,
    a: Address,
    t: Seq<Slot<P, F>>,
    r: Result<Shared<P>, Error>,
    b: Address,
)
    requires
        unique_addrs(s),
        promoted(s, a, t, r),
        holds(s, b),
    ensures
        holds(t, b),
        (b != a || cell_at(s, b) is Shared) ==> cell_at(t, b) == cell_at(s, b),
        b == a && r is Ok ==> cell_at(t, b) == Cell::<P, F>::Shared(r->Ok_0),
{
    if t != s {
        let i = index_of(s, a);
        lemma_index_of(s, index_of(s, b));
        lemma_update_cell(s, i, t[i].cell, b);
        assert(t == s.update(i, Slot { addr: s[i].addr, cell: t[i].cell }));
    }
}

/// After a successful promotion of `c`, a slot that fails to promote failed
/// before too, and one that could not fail still cannot.
pub proof fn lemma_promoted_keeps_reasons<P: Payload, F>(
    s: Seq<Slot<P, F>>,
    c: Address,
    t: Seq<Slot<P, F>>,
    r: Result<Shared<P>, Error>,
    x: Address,
    e: Error,
)
    requires
        unique_addrs(s),
        promoted(s, c, t, r),
        r is Ok,
    ensures
        refuses(t, x, e) ==> refuses(s, x, e),
        sharable(s, x) ==> sharable(t, x),
{
    if holds(s, x) {
        lemma_promoted_other(s, c, t, r, x);
    }
    if holds(t, x) {
        lemma_promoted_addrs(s, c, t, r, x);
    }
}

impl<P: Payload, F> Runtime<P, F> {
    /// Promotes the top `count` operands of the current frame in place and
    /// pops them; returns their handles, top first. Fails with
    /// `ExhaustedFrame` when there are fewer operands, and with the error of
    /// the first promotion that fails.
    pub fn promote_top(&mut self, count: usize) -> (r: Result<Vec<Shared<P>>, Error>)
        requires
            old(self).wf(),
        ensures
            final(self).wf(),
            final(self).frames() == old(self).frames(),
            forall|j: int| 0 <= j < old(self).top() ==> #[trigger] final(self).frame(j) == old(self).frame(j),
            final(self).frame(old(self).top()).context == old(self).frame(old(self).top()).context,
            final(self).frame(old(self).top()).parent == old(self).frame(old(self).top()).parent,
            forall|b: Address| holds(old(self).slots(), b) ==> #[trigger] holds(final(self).slots(), b),
            forall|b: Address| holds(old(self).slots(), b) && (cell_at(old(self).slots(), b) is Shared)
                ==> #[trigger] cell_at(final(self).slots(), b) == cell_at(old(self).slots(), b),
            count > old(self).stack().len() ==> r == Err::<Vec<Shared<P>>, Error>(Error::ExhaustedFrame) && *final(self) == *old(self),
            forall|b: Address| holds(final(self).slots(), b) ==> #[trigger] holds(old(self).slots(), b),
            r matches Err(e) ==> (count > old(self).stack().len() && e == Error::ExhaustedFrame) || (count <= old(self).stack().len()
                && exists|i: int| 0 <= i < count && refuses(old(self).slots(), #[trigger] old(self).stack()[old(self).stack().len() - 1 - i], e)),
            count <= old(self).stack().len() && (forall|i: int| old(self).stack().len() - count <= i < old(self).stack().len()
                ==> sharable(old(self).slots(), #[trigger] old(self).stack()[i]))
                ==> r is Ok,
            r matches Ok(v) ==> {
                let st = old(self).stack();
                &&& count <= st.len()
                &&& v@.len() == count
                &&& final(self).stack() == st.take(st.len() - count)
                &&& forall|i: int| 0 <= i < count ==> holds(final(self).slots(), #[trigger] st[st.len() - 1 - i])
                    && cell_at(final(self).slots(), st[st.len() - 1 - i]) == Cell::<P, F>::Shared(v@[i])
            },
    {
        proof {
            self.lemma_wf();
        }
        let n = self.len();
        if count > n {
            return Err(Error::ExhaustedFrame);
        }
        let ghost st = old(self).stack();
        let ghost s0 = old(self).slots();
        let ghost top = old(self).top();
        let ghost all_sharable = forall|i: int| n - count <= i < n ==> sharable(s0, #[trigger] st[i]);
        let mut v: Vec<Shared<P>> = Vec::new();
        let mut k: usize = 0;
        while k < count
            invariant
                self.wf(),
                n == st.len(),
                count <= n,
                k <= count,
                top == old(self).top(),
                self.frames() == old(self).frames(),
                forall|j: int| 0 <= j < top ==> #[trigger] self.frame(j) == old(self).frame(j),
                self.frame(top).context == old(self).frame(top).context,
                self.frame(top).parent == old(self).frame(top).parent,
                self.stack() == st.take(n - k),
                v@.len() == k,
                forall|b: Address| holds(s0, b) ==> #[trigger] holds(self.slots(), b),
                forall|b: Address| holds(s0, b) && (cell_at(s0, b) is Shared) ==> #[trigger] cell_at(self.slots(), b) == cell_at(s0, b),
                forall|i: int| 0 <= i < k ==> holds(self.slots(), #[trigger] st[n - 1 - i])
                    && cell_at(self.slots(), st[n - 1 - i]) == Cell::<P, F>::Shared(v@[i]),
                st == old(self).stack(),
                s0 == old(self).slots(),
                all_sharable == (forall|i: int| n - count <= i < n ==> sharable(s0, #[trigger] st[i])),
                forall|b: Address| holds(self.slots(), b) ==> #[trigger] holds(s0, b),
                forall|b: Address| holds(s0, b) && (cell_at(s0, b) is Frame) ==> (#[trigger] cell_at(self.slots(), b) is Frame),
                forall|b: Address| holds(s0, b) && !(cell_at(s0, b) is Frame) && !(exists|i: int| 0 <= i < k && #[trigger] st[n - 1 - i] == b)
                    ==> #[trigger] cell_at(self.slots(), b) == cell_at(s0, b),
            decreases count - k,
        {
            proof {
                self.lemma_wf();
                self.memory_spec().lemma_wf();
            }
            let a = match self.get(1) {
                Ok(a) => a,
                Err(_) => vstd::pervasive::unreached(),
            };
            proof {
                assert(a == st[n - 1 - k]);
            }
            let ghost s1 = self.slots();
            let h = match self.promote(a) {
                Ok(h) => h,
                Err(e) => {
                    proof {
                        lemma_promoted_err(s1, a, self.slots(), Err::<Shared<P>, Error>(e));
                        assert(self.slots() == s1);
                        assert forall|b: Address| holds(s0, b) implies #[trigger] holds(self.slots(), b) by {
                            assert(holds(s1, b));
                        }
                        assert forall|b: Address| holds(s0, b) && (cell_at(s0, b) is Shared) implies #[trigger] cell_at(self.slots(), b) == cell_at(s0, b) by {
                            assert(cell_at(s1, b) == cell_at(s0, b));
                        }
                        if holds(s1, a) {
                            assert(holds(s0, a));
                            if !(cell_at(s0, a) is Frame) {
                                if exists|i: int| 0 <= i < k && #[trigger] st[n - 1 - i] == a {
                                    let i = choose|i: int| 0 <= i < k && #[trigger] st[n - 1 - i] == a;
                                    assert(cell_at(s1, st[n - 1 - i]) is Shared);
                                }
                                assert(cell_at(s1, a) == cell_at(s0, a));
                            } else {
                                assert(cell_at(s1, a) is Frame);
                            }
                        } else {
                            if holds(s0, a) {
                                assert(holds(s1, a));
                            }
                        }
                        assert(refuses(s0, st[n - 1 - k], e));
                        if all_sharable {
                            assert(sharable(s0, st[n - 1 - k]));
                        }
                    }
                    return Err(e);
                },
            };
            let ghost s2 = self.slots();
            proof {
                assert forall|b: Address| holds(s1, b) implies #[trigger] holds(s2, b) && ((b != a || (cell_at(s1, b) is Shared)) ==> cell_at(s2, b) == cell_at(s1, b)) by {
                    lemma_promoted_other(s1, a, s2, Ok::<Shared<P>, Error>(h), b);
                }
                lemma_index_of(s1, index_of(s1, a));
                lemma_promoted_other(s1, a, s2, Ok::<Shared<P>, Error>(h), a);
                self.lemma_wf();
            }
            let ghost mid = *self;
            let _ = self.pop();
            proof {
                mid.lemma_wf();
                mid.memory_spec().lemma_wf();
                let fa = mid.frames().last();
                assert(cell_at(s2, fa) is Frame);
                assert forall|b: Address| holds(s2, b) && (cell_at(s2, b) is Shared) implies #[trigger] holds(self.slots(), b) && cell_at(self.slots(), b) == cell_at(s2, b) by {
                    lemma_same_but_cell(s2, self.slots(), fa, b);
                }
                assert forall|b: Address| holds(s0, b) implies #[trigger] holds(self.slots(), b) by {
                    assert(holds(s1, b));
                    assert(holds(s2, b));
                    if b != fa {
                        lemma_same_but_cell(s2, self.slots(), fa, b);
                    } else {
                        assert(holds(mid.slots(), mid.frames()[mid.top()]));
                        assert(mid.frames()[mid.top()] == fa);
                        let i = index_of(s2, fa);
                        lemma_index_of(s2, i);
                        assert(self.slots()[i].addr == fa);
                    }
                }
                assert forall|i: int| 0 <= i < k + 1 implies holds(self.slots(), #[trigger] st[n - 1 - i])
                    && cell_at(self.slots(), st[n - 1 - i]) == Cell::<P, F>::Shared(v@.push(h)[i]) by {
                    let b = st[n - 1 - i];
                    if i < k {
                        assert(cell_at(s1, b) == Cell::<P, F>::Shared(v@[i]));
                    } else {
                        assert(b == a);
                    }
                    assert(holds(s2, b));
                    assert(cell_at(s2, b) is Shared);
                    lemma_same_but_cell(s2, self.slots(), fa, b);
                }
                assert(self.stack() =~= st.take(n - k - 1));
                assert forall|b: Address| holds(s0, b) && (cell_at(s0, b) is Shared) implies #[trigger] cell_at(self.slots(), b) == cell_at(s0, b) by {
                    assert(cell_at(s1, b) == cell_at(s0, b));
                    assert(holds(s1, b));
                    lemma_promoted_other(s1, a, s2, Ok::<Shared<P>, Error>(h), b);
                    assert(cell_at(s2, b) == cell_at(s1, b));
                    assert(holds(s2, b));
                    lemma_same_but_cell(s2, self.slots(), fa, b);
                }
            }
            proof {
                let fa = mid.frames().last();
                let t = self.slots();
                assert forall|b: Address| holds(t, b) implies #[trigger] holds(s0, b) by {
                    let j = choose|j: int| 0 <= j < t.len() && t[j].addr == b;
                    assert(s2[j].addr == b);
                    lemma_promoted_addrs(s1, a, s2, Ok::<Shared<P>, Error>(h), b);
                }
                assert(holds(s1, a));
                assert(!(cell_at(s1, a) is Frame));
                assert forall|b: Address| holds(s0, b) && (cell_at(s0, b) is Frame) implies (#[trigger] cell_at(t, b) is Frame) by {
                    assert(cell_at(s1, b) is Frame);
                    assert(holds(s1, b));
                    assert(b != a);
                    lemma_promoted_other(s1, a, s2, Ok::<Shared<P>, Error>(h), b);
                    if b != fa {
                        lemma_same_but_cell(s2, t, fa, b);
                    } else {
                        self.lemma_wf();
                        assert(self.frames()[self.top()] == fa);
                    }
                }
                assert(holds(s0, fa));
                assert forall|b: Address| holds(s0, b) && !(cell_at(s0, b) is Frame) && !(exists|i: int| 0 <= i < k + 1 && #[trigger] st[n - 1 - i] == b)
                    implies #[trigger] cell_at(t, b) == cell_at(s0, b) by {
                    assert(st[n - 1 - k] == a);
                    assert(b != a);
                    assert(!(exists|i: int| 0 <= i < k && #[trigger] st[n - 1 - i] == b));
                    assert(holds(s1, b));
                    lemma_promoted_other(s1, a, s2, Ok::<Shared<P>, Error>(h), b);
                    assert(b != fa);
                    assert(holds(s2, b));
                    lemma_same_but_cell(s2, t, fa, b);
                }
            }
            v.push(h);
            k = k + 1;
        }
        proof {
            let f0 = old(self).frame(top);
            assert(self.stack() == st.take(n - count));
        }
        Ok(v)
    }
}

/// An operand of the current frame that names a slot is reachable from the
/// entry, so a collection keeps it.
pub proof fn lemma_operand_reachable<P: Payload, F>(rt: Runtime<P, F>, i: int)
    requires
        rt.wf(),
        0 <= i < rt.stack().len(),
        holds(rt.slots(), rt.stack()[i]),
    ensures
        reachable(rt.slots(), rt.memory_spec().entry_spec(), rt.stack()[i]),
{
    let s = rt.slots();
    let fa = rt.frames().last();
    let b = rt.stack()[i];
    assert(rt.frames()[rt.top()] == fa);
    assert(holds(s, fa));
    let k = index_of(s, fa);
    let f = frame_at(s, fa);
    let hs = s[k].cell.holdees_spec();
    assert(s[k].cell == cell_at(s, fa));
    assert(hs[1 + i] == b);
    assert(hs.contains(b));
    let p = seq![fa, b];
    assert(crate::heap::edge(s, p[0], p[1]));
    assert(is_path(s, p));
    assert(p[0] == fa && p.last() == b);
}

/// What `push_parent(index)` does: from `s` to `t`, answering `r`.
pub open spec fn parent_pushed<P: Payload, F>(s: Runtime<P, F>, index: usize, t: Runtime<P, F>, r: Result<(), Error>) -> bool {
    if s.top() == 0 {
        r == Err::<(), Error>(Error::NoParentFrame) && t == s
    } else if !(1 <= index <= s.stack().len()) {
        r == Err::<(), Error>(Error::ExhaustedFrame) && t == s
    } else {
        &&& r == Ok::<(), Error>(())
        &&& same_but(s.slots(), t.slots(), s.frames()[s.top() - 1])
        &&& t.frame(s.top() - 1).stack@ == s.frame(s.top() - 1).stack@.push(s.stack()[s.stack().len() - index])
        &&& t.frame(s.top() - 1).context == s.frame(s.top() - 1).context
        &&& t.frame(s.top() - 1).parent == s.frame(s.top() - 1).parent
        &&& forall|j: int| 0 <= j < s.frames().len() && j != s.top() - 1 ==> #[trigger] t.frame(j) == s.frame(j)
    }
}

/// A copy of an operand stack.
fn copy_stack(v: &Vec<Address>) -> (r: Vec<Address>)
    ensures
        r@ == v@,
{
    let mut r: Vec<Address> = Vec::new();
    let mut i: usize = 0;
    while i < v.len()
        invariant
            i <= v@.len(),
            r@ == v@.take(i as int),
        decreases v@.len() - i,
    {
        r.push(v[i]);
        proof {
            assert(v@.take(i as int + 1) =~= v@.take(i as int).push(v@[i as int]));
        }
        i = i + 1;
    }
    proof {
        assert(v@.take(i as int) =~= v@);
    }
    r
}

} // verus!
