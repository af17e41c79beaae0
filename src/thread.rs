use vstd::prelude::*;

use crate::address::Address;
use crate::error::Error;
use crate::heap::{Cell, Heap};
use crate::payload::Payload;
use crate::heap::{lemma_promoted_err, refuses, sharable, cell_at, has_room, kept_on_insert, holds, lemma_index_of, Slot};
use crate::heap::lemma_reachable_kept;
use crate::runtime::{lemma_promoted_keeps_reasons, lemma_operand_reachable, lemma_prefix_kept, lemma_promoted_other, lemma_same_but_cell, Function, Runtime};
use crate::shared::Shared;

verus! {

/// What a worker thread needs: a method in portable form and its
/// arguments, bottom of the caller's stack first.
#[verifier::reject_recursive_types(P)]
pub struct Portable<P, F> {
    pub function: F,
    pub context: Shared<P>,
    pub args: Vec<Shared<P>>,
}

/// The caller's half of spawning: promotes the method that the current
/// frame is bound to (its context; for a local method, the method's own
/// context slot) and every operand of the current frame, consuming them.
/// The arguments keep the caller's order, bottom first.
pub fn prepare_thread<P: Payload, F: Copy>(rt: &mut Runtime<P, F>) -> (r: Result<Portable<P, F>, Error>)
    requires
        old(rt).wf(),
    ensures
        final(rt).wf(),
        final(rt).frames() == old(rt).frames(),
        forall|j: int| 0 <= j < old(rt).top() ==> #[trigger] final(rt).frame(j) == old(rt).frame(j),
        ({
            let m = old(rt).frame(old(rt).top()).context;
            let s = old(rt).slots();
            let st = old(rt).stack();
            &&& !holds(s, m) ==> r is Err && r->Err_0 == Error::InvalidAddress && *final(rt) == *old(rt)
            &&& holds(s, m) && !(cell_at(s, m) is Method || cell_at(s, m) is SyncMethod)
                ==> r is Err && r->Err_0 == Error::NotCallable && *final(rt) == *old(rt)
            &&& r matches Err(e) ==> {
                ||| !holds(s, m) && e == Error::InvalidAddress
                ||| holds(s, m) && !(cell_at(s, m) is Method || cell_at(s, m) is SyncMethod) && e == Error::NotCallable
                ||| holds(s, m) && (cell_at(s, m) matches Cell::Method(_, c) && refuses(s, c, e))
                ||| exists|i: int| 0 <= i < st.len() && refuses(s, #[trigger] st[i], e)
            }
            &&& holds(s, m) && (forall|i: int| 0 <= i < st.len() ==> sharable(s, #[trigger] st[i]))
                && match cell_at(s, m) {
                    Cell::SyncMethod(_, _) => true,
                    Cell::Method(_, c) => sharable(s, c),
                    _ => false,
                } ==> r is Ok
            &&& r matches Ok(p) ==> {
                &&& p.args@.len() == st.len()
                &&& final(rt).stack().len() == 0
                &&& forall|i: int| 0 <= i < st.len() ==> holds(final(rt).slots(), #[trigger] st[i])
                    && cell_at(final(rt).slots(), st[i]) == Cell::<P, F>::Shared(p.args@[i])
                &&& match cell_at(s, m) {
                    Cell::Method(f, c) => p.function == f && holds(final(rt).slots(), c)
                        && cell_at(final(rt).slots(), c) == Cell::<P, F>::Shared(p.context),
                    Cell::SyncMethod(f, h) => p.function == f && p.context == h,
                    _ => false,
                }
            }
        }),
{
    proof {
        rt.lemma_wf();
        rt.memory_spec().lemma_wf();
    }
    let ghost s = old(rt).slots();
    let ghost st = old(rt).stack();
    let method = rt.context();
    let ghost rt0 = *rt;
    let (function, context) = match rt.promote_method(method) {
        Ok(pair) => pair,
        Err(e) => {
            proof {
                if holds(s, method) {
                    if let Cell::Method(_, c) = cell_at(s, method) {
                        lemma_promoted_err(s, c, rt.slots(), Err::<Shared<P>, Error>(e));
                    }
                }
            }
            return Err(e);
        },
    };
    let ghost s1 = rt.slots();
    proof {
        assert forall|b: Address| holds(s, b) implies #[trigger] holds(s1, b) && (
            (cell_at(s, b) is Shared) ==> cell_at(s1, b) == cell_at(s, b)) by {
            if let Cell::Method(_, c) = cell_at(s, method) {
                lemma_promoted_other(s, c, s1, Ok::<Shared<P>, Error>(context), b);
            }
        }
        if let Cell::Method(_, c) = cell_at(s, method) {
            if holds(s, c) {
                lemma_promoted_other(s, c, s1, Ok::<Shared<P>, Error>(context), c);
            }
        }
        rt.lemma_wf();
    }
    let n = rt.len();
    let top_first = match rt.promote_top(n) {
        Ok(v) => v,
        Err(e) => {
            proof {
                let st1 = rt0.stack();
                assert(st1 == st);
                if e != Error::ExhaustedFrame {
                    let i = choose|i: int| 0 <= i < n && refuses(s1, #[trigger] st[st.len() - 1 - i], e);
                    if let Cell::Method(_, c) = cell_at(s, method) {
                        lemma_promoted_keeps_reasons(s, c, s1, Ok::<Shared<P>, Error>(context), st[st.len() - 1 - i], e);
                    }
                    assert(refuses(s, st[st.len() - 1 - i], e));
                }
                if holds(s, method) && (forall|i: int| 0 <= i < st.len() ==> sharable(s, #[trigger] st[i])) {
                    assert forall|i: int| st.len() - n <= i < st.len() implies sharable(s1, #[trigger] st[i]) by {
                        assert(sharable(s, st[i]));
                        if let Cell::Method(_, c) = cell_at(s, method) {
                            lemma_promoted_keeps_reasons(s, c, s1, Ok::<Shared<P>, Error>(context), st[i], e);
                        }
                    }
                }
            }
            return Err(e);
        },
    };
    proof {
        assert(st.take(0) =~= Seq::<Address>::empty());
    }
    let ghost tf = top_first@;
    let mut top_first = top_first;
    let mut args: Vec<Shared<P>> = Vec::new();
    while top_first.len() > 0
        invariant
            tf.len() == n,
            args@.len() + top_first@.len() == n,
            top_first@ == tf.take(top_first@.len() as int),
            forall|i: int| 0 <= i < args@.len() ==> #[trigger] args@[i] == tf[n - 1 - i],
        decreases top_first@.len(),
    {
        let h = top_first.pop().unwrap();
        proof {
            assert(h == tf[n - 1 - args@.len()]);
        }
        args.push(h);
        proof {
            assert(top_first@ =~= tf.take(top_first@.len() as int));
        }
    }
    proof {
        assert forall|i: int| 0 <= i < st.len() implies holds(rt.slots(), #[trigger] st[i])
            && cell_at(rt.slots(), st[i]) == Cell::<P, F>::Shared(args@[i]) by {
            let j = n - 1 - i;
            assert(st[st.len() - 1 - j] == st[i]);
        }
        if let Cell::Method(_, c) = cell_at(s, method) {
            assert(holds(s1, c));
            assert(cell_at(s1, c) is Shared);
        }
    }
    Ok(Portable { function, context, args })
}

/// The worker's setup: a fresh heap of `capacity` slots holding the method
/// as a shared method and each argument as a shared slot, and a runtime
/// booted on the method whose operands are the arguments in the caller's
/// order (the last one on top). Fails with `OutOfMemory` when the heap
/// cannot hold the method, its frame and every argument.
pub fn setup_worker<P: Payload, F: Copy>(work: Portable<P, F>, capacity: usize) -> (r: Result<(Runtime<P, F>, Address), Error>)
    ensures
        work.args@.len() + 2 > capacity ==> r is Err && r->Err_0 == Error::OutOfMemory,
        work.args@.len() + 2 <= capacity ==> r is Ok,
        r matches Ok((rt, m)) ==> {
            &&& rt.wf()
            &&& rt.frames().len() == 1
            &&& rt.frame(0).context == m
            &&& rt.frame(0).parent == None::<Address>
            &&& holds(rt.slots(), m)
            &&& cell_at(rt.slots(), m) == Cell::<P, F>::SyncMethod(work.function, work.context)
            &&& rt.stack().len() == work.args@.len()
            &&& forall|i: int| 0 <= i < work.args@.len() ==> holds(rt.slots(), #[trigger] rt.stack()[i])
                && cell_at(rt.slots(), rt.stack()[i]) == Cell::<P, F>::Shared(work.args@[i])
        },
{
    let n = work.args.len();
    if n > capacity || capacity - n < 2 {
        return Err(Error::OutOfMemory);
    }
    let ghost c0 = Cell::<P, F>::SyncMethod(work.function, work.context);
    let ghost all = work.args@;
    let mut memory: Heap<P, F> = Heap::new(capacity);
    let method = match memory.insert_cell(Cell::SyncMethod(work.function, work.context)) {
        Ok(a) => a,
        Err(_) => vstd::pervasive::unreached(),
    };
    proof {
        memory.lemma_wf();
        lemma_index_of(memory.slots(), 0);
    }
    let mut rt = match Runtime::boot(memory, method) {
        Ok(rt) => rt,
        Err(_) => vstd::pervasive::unreached(),
    };
    proof {
        rt.lemma_wf();
        rt.memory_spec().lemma_wf();
        assert(rt.slots()[0] == memory.slots()[0]);
        lemma_index_of(rt.slots(), 0);
    }
    let mut rest = work.args;
    let mut i: usize = 0;
    while i < n
        invariant
            rt.wf(),
            n == all.len(),
            n + 2 <= capacity,
            i <= n,
            rest@ == all.skip(i as int),
            rt.frames().len() == 1,
            rt.frame(0).context == method,
            rt.frame(0).parent == None::<Address>,
            rt.slots().len() == i + 2,
            rt.memory_spec().id_bound() == i + 2,
            rt.memory_spec().capacity() == capacity,
            holds(rt.slots(), method),
            cell_at(rt.slots(), method) == c0,
            c0 == Cell::<P, F>::SyncMethod(work.function, work.context),
            rt.stack().len() == i,
            forall|k: int| 0 <= k < i ==> holds(rt.slots(), #[trigger] rt.stack()[k])
                && cell_at(rt.slots(), rt.stack()[k]) == Cell::<P, F>::Shared(all[k]),
        decreases n - i,
    {
        proof {
            rt.lemma_wf();
            rt.memory_spec().lemma_wf();
            assert(rest@.len() == n - i);
        }
        let h = rest.remove(0);
        proof {
            assert(h == all[i as int]);
            assert(rest@ =~= all.skip(i as int + 1));
        }
        let ghost s0 = rt.slots();
        let ghost st0 = rt.stack();
        let a = match rt.insert_shared(h) {
            Ok(a) => a,
            Err(_) => vstd::pervasive::unreached(),
        };
        let ghost s1 = rt.slots();
        proof {
            rt.lemma_wf();
            rt.memory_spec().lemma_wf();
            assert(s1 == s0.push(Slot { addr: a, cell: Cell::<P, F>::Shared(h) }));
            lemma_index_of(s1, s1.len() - 1);
            lemma_prefix_kept(s0, s1, method);
            assert forall|k: int| 0 <= k < i implies holds(s1, #[trigger] st0[k]) && cell_at(s1, st0[k]) == cell_at(s0, st0[k]) by {
                lemma_prefix_kept(s0, s1, st0[k]);
            }
        }
        let ghost mid = rt;
        rt.push(a);
        proof {
            let fa = mid.frames().last();
            assert(cell_at(s1, fa) is Frame);
            assert(cell_at(s1, method) == c0);
            assert(method != fa);
            assert(a != fa);
            lemma_same_but_cell(s1, rt.slots(), fa, method);
            lemma_same_but_cell(s1, rt.slots(), fa, a);
            assert forall|k: int| 0 <= k < i + 1 implies holds(rt.slots(), #[trigger] rt.stack()[k])
                && cell_at(rt.slots(), rt.stack()[k]) == Cell::<P, F>::Shared(all[k]) by {
                if k < i {
                    assert(rt.stack()[k] == st0[k]);
                    assert(cell_at(s1, st0[k]) == cell_at(s0, st0[k]));
                    assert(st0[k] != fa);
                    lemma_same_but_cell(s1, rt.slots(), fa, st0[k]);
                } else {
                    assert(rt.stack()[k] == a);
                }
            }
        }
        i = i + 1;
    }
    Ok((rt, method))
}

/// The indices 1 to `n`: with them a call hands a callee every operand in
/// the caller's order.
pub fn argument_indices(n: usize) -> (r: Vec<usize>)
    ensures
        r@ == Seq::new(n as nat, |i: int| (i + 1) as usize),
{
    let mut r: Vec<usize> = Vec::new();
    let mut i: usize = 0;
    while i < n
        invariant
            i <= n,
            r@ == Seq::new(i as nat, |k: int| (k + 1) as usize),
        decreases n - i,
    {
        r.push(i + 1);
        i = i + 1;
        proof {
            assert(r@ =~= Seq::new(i as nat, |k: int| (k + 1) as usize));
        }
    }
    r
}

/// `v` holds the handles of the top `count` operands of `w0`, top first,
/// promoted in place; `w1` is `w0` with those operands popped.
pub open spec fn results_of<P: Payload, F>(w0: Runtime<P, F>, count: usize, w1: Runtime<P, F>, v: Seq<Shared<P>>) -> bool {
    let st = w0.stack();
    &&& count <= st.len()
    &&& v.len() == count
    &&& w1.frames() == w0.frames()
    &&& w1.stack() == st.take(st.len() - count)
    &&& forall|i: int| 0 <= i < count ==> holds(w1.slots(), #[trigger] st[st.len() - 1 - i])
        && cell_at(w1.slots(), st[st.len() - 1 - i]) == Cell::<P, F>::Shared(v[i])
}

/// The worker's last step: the error of the call, or the promoted top
/// `count` operands of the current frame, top first (see `promote_top`).
pub fn collect_results<P: Payload, F>(rt: &mut Runtime<P, F>, called: Result<usize, Error>) -> (r: Result<Vec<Shared<P>>, Error>)
    requires
        old(rt).wf(),
    ensures
        final(rt).wf(),
        called matches Err(e) ==> r == Err::<Vec<Shared<P>>, Error>(e) && *final(rt) == *old(rt),
        called matches Ok(c) ==> match r {
            Ok(v) => results_of(*old(rt), c, *final(rt), v@),
            Err(e) => (c > old(rt).stack().len() && e == Error::ExhaustedFrame) || (c <= old(rt).stack().len()
                && exists|i: int| 0 <= i < c && refuses(old(rt).slots(), #[trigger] old(rt).stack()[old(rt).stack().len() - 1 - i], e)),
        },
{
    match called {
        Ok(c) => rt.promote_top(c),
        Err(e) => Err(e),
    }
}

/// The worker's half: `setup_worker`, one call of the method with the
/// indices 1 to n (so the callee sees the arguments in the caller's order),
/// and `collect_results`.
pub fn run_worker<P: Payload, F: Function<P>>(work: Portable<P, F>, capacity: usize) -> (r: Result<Vec<Shared<P>>, Error>)
    ensures
        work.args@.len() + 2 > capacity ==> r is Err && r->Err_0 == Error::OutOfMemory,
        r matches Ok(v) ==> exists|w0: Runtime<P, F>, c: usize, w1: Runtime<P, F>|
            w0.wf() && w0.frames().len() == 1 && #[trigger] results_of(w0, c, w1, v@),
{
    let n = work.args.len();
    let (mut rt, method) = match setup_worker(work, capacity) {
        Ok(pair) => pair,
        Err(e) => {
            return Err(e);
        },
    };
    let indices = argument_indices(n);
    let called = rt.call(method, indices.as_slice());
    let ghost w0 = rt;
    let r = collect_results(&mut rt, called);
    proof {
        if r is Ok {
            w0.lemma_wf();
            assert(results_of(w0, called->Ok_0, rt, r->Ok_0@));
        }
    }
    r
}

/// The caller's half after spawning: stores the join payload and a method
/// of `join_function` bound to it, and hands that method to the caller's
/// parent frame.
#[verifier::rlimit(60)]
pub fn finish_thread<P: Payload, F>(rt: &mut Runtime<P, F>, join: P, join_function: F) -> (r: Result<(), Error>)
    requires
        old(rt).wf(),
    ensures
        final(rt).wf(),
        final(rt).frames() == old(rt).frames(),
        forall|j: int| 0 <= j < old(rt).top() - 1 ==> #[trigger] final(rt).frame(j) == old(rt).frame(j),
        r matches Err(e) ==> e == Error::OutOfMemory || e == Error::NoParentFrame,
        old(rt).top() >= 1 && has_room(old(rt).memory_spec(), 2) ==> r is Ok,
        r is Ok ==> old(rt).top() >= 1 && ({
            let p = old(rt).top() - 1;
            let m = final(rt).frame(p).stack@.last();
            &&& final(rt).frame(p).stack@ == old(rt).frame(p).stack@.push(m)
            &&& final(rt).frame(p).context == old(rt).frame(p).context
            &&& final(rt).frame(p).parent == old(rt).frame(p).parent
            &&& holds(final(rt).slots(), m)
            &&& !holds(old(rt).slots(), m)
            &&& match cell_at(final(rt).slots(), m) {
                Cell::Method(g, j) => g == join_function && holds(final(rt).slots(), j)
                    && cell_at(final(rt).slots(), j) == Cell::<P, F>::Local(join) && !holds(old(rt).slots(), j),
                _ => false,
            }
        }),
{
    proof {
        old(rt).lemma_wf();
        old(rt).memory_spec().lemma_wf();
    }
    let ghost cj = Cell::<P, F>::Local(join);
    let ghost s0 = rt.slots();
    let j = match rt.insert_local(join) {
        Ok(a) => a,
        Err(e) => {
            return Err(e);
        },
    };
    let ghost s1 = rt.slots();
    proof {
        rt.lemma_wf();
        rt.memory_spec().lemma_wf();
        lemma_index_of(s1, s1.len() - 1);
    }
    let ghost r1 = *rt;
    rt.push(j);
    let ghost s2 = rt.slots();
    proof {
        assert(cell_at(s1, r1.frames().last()) is Frame);
        lemma_same_but_cell(s1, s2, r1.frames().last(), j);
        rt.lemma_wf();
        rt.memory_spec().lemma_wf();
    }
    let ghost s2_rt = *rt;
    let m = match rt.insert_method(join_function, j) {
        Ok(a) => a,
        Err(e) => {
            return Err(e);
        },
    };
    let ghost s3 = rt.slots();
    proof {
        rt.lemma_wf();
        rt.memory_spec().lemma_wf();
        lemma_index_of(s3, s3.len() - 1);
        if s2.len() < old(rt).memory_spec().capacity() {
            lemma_prefix_kept(s2, s3, j);
        } else {
            lemma_operand_reachable(s2_rt, s2_rt.stack().len() - 1);
            s2_rt.memory_spec().lemma_wf();
            lemma_reachable_kept(s2, s2_rt.memory_spec().entry_spec(), s3, j);
        }
    }
    let ghost r3 = *rt;
    rt.push(m);
    let ghost s4 = rt.slots();
    proof {
        assert(cell_at(s3, r3.frames().last()) is Frame);
        lemma_same_but_cell(s3, s4, r3.frames().last(), m);
        assert(cell_at(s3, j) == cj);
        lemma_same_but_cell(s3, s4, r3.frames().last(), j);
        rt.lemma_wf();
        rt.memory_spec().lemma_wf();
    }
    proof {
        if holds(s0, j) {
            let x = choose|x: int| 0 <= x < s0.len() && s0[x].addr == j;
            assert(s0[x].addr.id < old(rt).memory_spec().id_bound());
        }
        if holds(s0, m) {
            let x = choose|x: int| 0 <= x < s0.len() && s0[x].addr == m;
            assert(s0[x].addr.id < old(rt).memory_spec().id_bound());
        }
    }
    let ghost before = *rt;
    let r = rt.push_parent(1);
    proof {
        if r is Ok {
            assert(before.top() != 0);
            assert(before.frames() == old(rt).frames());
            let fp = before.frames()[before.top() - 1];
            assert(cell_at(s4, fp) is Frame);
            lemma_same_but_cell(s4, rt.slots(), fp, m);
            lemma_same_but_cell(s4, rt.slots(), fp, j);
        }
    }
    r
}

/// Stores each result of a worker (given top first) in this heap as a
/// shared slot and hands it to the caller's parent frame, so that the
/// parent receives them in the worker's order. Each new address also stays
/// on the current frame.
#[verifier::rlimit(80)]
pub fn deliver_results<P: Payload, F>(rt: &mut Runtime<P, F>, results: Vec<Shared<P>>) -> (r: Result<(), Error>)
    requires
        old(rt).wf(),
    ensures
        final(rt).wf(),
        final(rt).frames() == old(rt).frames(),
        r matches Err(e) ==> e == Error::OutOfMemory || e == Error::NoParentFrame,
        old(rt).top() >= 1 && has_room(old(rt).memory_spec(), results@.len()) ==> r is Ok,
        r is Ok && results@.len() > 0 ==> old(rt).top() >= 1,
        r is Ok && old(rt).top() >= 1 ==> ({
            let p = old(rt).top() - 1;
            let ps0 = old(rt).frame(p).stack@;
            let ps = final(rt).frame(p).stack@;
            let k = results@.len();
            &&& ps.len() == ps0.len() + k
            &&& ps.take(ps0.len() as int) == ps0
            &&& final(rt).frame(p).context == old(rt).frame(p).context
            &&& final(rt).frame(p).parent == old(rt).frame(p).parent
            &&& forall|i: int| 0 <= i < k ==> holds(final(rt).slots(), #[trigger] ps[ps0.len() + i])
                && cell_at(final(rt).slots(), ps[ps0.len() + i]) == Cell::<P, F>::Shared(results@[k - 1 - i])
                && !holds(old(rt).slots(), ps[ps0.len() + i])
        }),
{
    proof {
        old(rt).lemma_wf();
        old(rt).memory_spec().lemma_wf();
    }
    let ghost all = results@;
    let ghost k = all.len();
    let ghost p = old(rt).top() - 1;
    let ghost ps0 = if old(rt).top() >= 1 { old(rt).frame(p).stack@ } else { Seq::empty() };
    let ghost ts0 = old(rt).stack();
    let ghost len0 = old(rt).slots().len();
    let ghost id0 = old(rt).memory_spec().id_bound();
    let ghost room = old(rt).top() >= 1 && has_room(old(rt).memory_spec(), all.len());
    let ghost mut d: Seq<Address> = Seq::empty();
    let mut rest = results;
    while rest.len() > 0
        invariant
            rt.wf(),
            rt.frames() == old(rt).frames(),
            old(rt).frames().len() >= 1,
            p == old(rt).top() - 1,
            rest@ == all.take(rest@.len() as int),
            d.len() + rest@.len() == k,
            k == all.len(),
            all == results@,
            d.len() > 0 ==> old(rt).top() >= 1,
            old(rt).top() >= 1 ==> {
                &&& rt.frame(p).stack@ == ps0 + d
                &&& ps0 == old(rt).frame(p).stack@
                &&& rt.frame(p).context == old(rt).frame(p).context
                &&& rt.frame(p).parent == old(rt).frame(p).parent
            },
            rt.stack() == ts0 + d,
            ts0 == old(rt).stack(),
            forall|t: int| 0 <= t < d.len() ==> holds(rt.slots(), #[trigger] d[t])
                && cell_at(rt.slots(), d[t]) == Cell::<P, F>::Shared(all[k - 1 - t]),
            room == (old(rt).top() >= 1 && has_room(old(rt).memory_spec(), all.len())),
            room ==> rt.slots().len() == len0 + d.len() && rt.memory_spec().id_bound() == id0 + d.len()
                && rt.memory_spec().capacity() == old(rt).memory_spec().capacity(),
            len0 == old(rt).slots().len(),
            id0 == old(rt).memory_spec().id_bound(),
            rt.memory_spec().id_bound() >= id0,
            forall|t: int| 0 <= t < d.len() ==> (#[trigger] d[t]).id >= id0,
        decreases rest@.len(),
    {
        proof {
            rt.lemma_wf();
            rt.memory_spec().lemma_wf();
        }
        let h = rest.pop().unwrap();
        proof {
            assert(h == all[k - 1 - d.len()]);
            assert(rest@ =~= all.take(rest@.len() as int));
        }
        let ghost r0 = *rt;
        let ghost s0 = rt.slots();
        let a = match rt.insert_shared(h) {
            Ok(a) => a,
            Err(e) => {
                proof {
                    if room {
                        assert(s0.len() < r0.memory_spec().capacity());
                        assert(kept_on_insert(r0.memory_spec()) == s0);
                    }
                }
                return Err(e);
            },
        };
        let ghost s1 = rt.slots();
        proof {
            rt.lemma_wf();
            rt.memory_spec().lemma_wf();
            lemma_index_of(s1, s1.len() - 1);
            assert forall|t: int| 0 <= t < d.len() implies holds(s1, #[trigger] d[t]) && cell_at(s1, d[t]) == cell_at(s0, d[t]) by {
                if s0.len() < r0.memory_spec().capacity() {
                    lemma_prefix_kept(s0, s1, d[t]);
                } else {
                    assert(r0.stack()[ts0.len() + t] == d[t]);
                    lemma_operand_reachable(r0, ts0.len() + t);
                    lemma_reachable_kept(s0, r0.memory_spec().entry_spec(), s1, d[t]);
                }
            }
        }
        let ghost r1 = *rt;
        rt.push(a);
        let ghost s2 = rt.slots();
        proof {
            let fa = r1.frames().last();
            assert(cell_at(s1, fa) is Frame);
            lemma_same_but_cell(s1, s2, fa, a);
            assert forall|t: int| 0 <= t < d.len() implies holds(s2, #[trigger] d[t]) && cell_at(s2, d[t]) == cell_at(s1, d[t]) by {
                assert(cell_at(s1, d[t]) is Shared);
                lemma_same_but_cell(s1, s2, fa, d[t]);
            }
            rt.lemma_wf();
            rt.memory_spec().lemma_wf();
        }
        let ghost before = *rt;
        match rt.push_parent(1) {
            Ok(()) => {},
            Err(e) => {
                return Err(e);
            },
        }
        proof {
            assert(before.top() != 0);
            assert(before.frames() == old(rt).frames());
            let fp = before.frames()[before.top() - 1];
            assert(cell_at(s2, fp) is Frame);
            lemma_same_but_cell(s2, rt.slots(), fp, a);
            assert forall|t: int| 0 <= t < d.len() implies holds(rt.slots(), #[trigger] d[t]) && cell_at(rt.slots(), d[t]) == cell_at(s2, d[t]) by {
                assert(cell_at(s2, d[t]) is Shared);
                lemma_same_but_cell(s2, rt.slots(), fp, d[t]);
            }
            let d2 = d.push(a);
            assert(a.id >= id0);
            assert(rt.frame(p).stack@ =~= ps0 + d2);
            assert(rt.stack() =~= ts0 + d2);
            assert forall|t: int| 0 <= t < d2.len() implies holds(rt.slots(), #[trigger] d2[t])
                && cell_at(rt.slots(), d2[t]) == Cell::<P, F>::Shared(all[k - 1 - t]) by {
                if t < d.len() {
                    assert(d2[t] == d[t]);
                }
            }
            d = d2;
        }
    }
    proof {
        if old(rt).top() >= 1 {
            let ps = rt.frame(p).stack@;
            assert(ps.take(ps0.len() as int) =~= ps0);
            assert forall|i: int| 0 <= i < k implies #[trigger] ps[ps0.len() + i] == d[i] by {}
            assert forall|i: int| 0 <= i < k implies !holds(old(rt).slots(), #[trigger] d[i]) by {
                if holds(old(rt).slots(), d[i]) {
                    let x = choose|x: int| 0 <= x < old(rt).slots().len() && old(rt).slots()[x].addr == d[i];
                    assert(old(rt).slots()[x].addr.id < id0);
                }
            }
        }
    }
    Ok(())
}

/// What `take` does: from `j` to `k`, answering `r`.
pub open spec fn taken<T>(j: Join<T>, k: Join<T>, r: Result<T, Error>) -> bool {
    &&& k.pending() == None::<T>
    &&& match j.pending() {
        Some(h) => r == Ok::<T, Error>(h),
        None => r == Err::<T, Error>(Error::JoinConsumed),
    }
}

/// A single-use handle on a pending worker.
pub struct Join<T> {
    handle: Option<T>,
}

impl<T> Join<T> {
    pub closed spec fn pending(&self) -> Option<T> {
        self.handle
    }

    /// A join on `handle`, not yet taken.
    pub fn new(handle: T) -> (r: Self)
        ensures
            r.pending() == Some(handle),
    {
        Join { handle: Some(handle) }
    }

    /// Takes the handle out; every later call fails with `JoinConsumed`.
    pub fn take(&mut self) -> (r: Result<T, Error>)
        ensures
            taken(*old(self), *final(self), r),
    {
        match self.handle.take() {
            Some(h) => Ok(h),
            None => Err(Error::JoinConsumed),
        }
    }
}

} // verus!
