use vstd::prelude::*;

use crate::address::Address;
use crate::error::Error;
use crate::heap::{
    cell_at, holds, index_of, is_path, inserted, lemma_index_of, promoted, reachable, survivors, unique_addrs, Cell, Heap, Slot,
};
use crate::objects::IntObject;
use crate::payload::Payload;
use crate::runtime::{parent_pushed, Runtime};
use crate::shared::Shared;
use crate::thread::{taken, Join};

verus! {

broadcast use vstd::seq_lib::group_filter_ensures;

/// With no entry, a collection frees every slot.
pub proof fn law_collect_without_entry<P: Payload, F>(s: Seq<Slot<P, F>>)
    ensures
        survivors(s, None).len() == 0,
{
    let f = survivors(s, None);
    if f.len() > 0 {
        assert(f.contains(f[0]));
        s.lemma_filter_pred(|sl: Slot<P, F>| reachable(s, None, sl.addr), 0);
    }
}

/// A collection keeps exactly the slots reachable from the entry, each with
/// the cell it had.
pub proof fn law_collect_keeps_reachable<P: Payload, F>(s: Seq<Slot<P, F>>, entry: Option<Address>, a: Address)
    requires
        unique_addrs(s),
    ensures
        holds(survivors(s, entry), a) <==> holds(s, a) && reachable(s, entry, a),
        holds(survivors(s, entry), a) ==> cell_at(survivors(s, entry), a) == cell_at(s, a),
{
    let pred = |sl: Slot<P, F>| reachable(s, entry, sl.addr);
    let f = survivors(s, entry);
    if holds(f, a) {
        let j = choose|j: int| 0 <= j < f.len() && f[j].addr == a;
        s.lemma_filter_pred(pred, j);
        assert(f.contains(f[j]));
        s.lemma_filter_contains_rev(pred, f[j]);
        let i = choose|i: int| 0 <= i < s.len() && s[i] == f[j];
        assert(holds(s, a));
        assert(unique_addrs(f)) by {
            lemma_filter_unique(s, pred);
        }
        lemma_index_of(f, j);
        lemma_index_of(s, i);
    }
    if holds(s, a) && reachable(s, entry, a) {
        let i = index_of(s, a);
        s.lemma_filter_contains(pred, i);
        let j = choose|j: int| 0 <= j < f.len() && f[j] == s[i];
        assert(holds(f, a));
    }
}

/// Filtering keeps addresses unique.
proof fn lemma_filter_unique<P, F>(s: Seq<Slot<P, F>>, pred: spec_fn(Slot<P, F>) -> bool)
    requires
        unique_addrs(s),
    ensures
        unique_addrs(s.filter(pred)),
    decreases s.len(),
{
    if s.len() > 0 {
        let d = s.drop_last();
        assert(unique_addrs(d));
        lemma_filter_unique(d, pred);
        assert(s =~= d.push(s.last()));
        d.lemma_filter_push(s.last(), pred);
        let f = d.filter(pred);
        if pred(s.last()) {
            let g = f.push(s.last());
            assert forall|x: int, y: int| 0 <= x < y < g.len() implies g[x].addr != g[y].addr by {
                if y == f.len() {
                    assert(f.contains(f[x]));
                    d.lemma_filter_contains_rev(pred, f[x]);
                    let k = choose|k: int| 0 <= k < d.len() && d[k] == f[x];
                    assert(s[k] == d[k]);
                    assert(s[k].addr != s[s.len() - 1].addr);
                }
            }
        }
    }
}

/// Promoting a local slot keeps every address and turns the slot into a
/// shared one holding the returned handle; promoting it again changes
/// nothing and returns the same handle.
pub proof fn law_promote_idempotent<P: Payload, F>(
    s0: Seq<Slot<P, F>>,
    a: Address,
    s1: Seq<Slot<P, F>>,
    r1: Result<Shared<P>, Error>,
    s2: Seq<Slot<P, F>>,
    r2: Result<Shared<P>, Error>,
)
    requires
        unique_addrs(s0),
        holds(s0, a),
        cell_at(s0, a) is Local,
        promoted(s0, a, s1, r1),
        r1 is Ok,
        promoted(s1, a, s2, r2),
    ensures
        s1.len() == s0.len(),
        forall|i: int| 0 <= i < s0.len() ==> #[trigger] s1[i].addr == s0[i].addr,
        holds(s1, a),
        cell_at(s1, a) == Cell::<P, F>::Shared(r1->Ok_0),
        r2 == r1,
        s2 == s1,
{
    let i = index_of(s0, a);
    lemma_index_of(s0, i);
    assert(s1[i].addr == a);
    assert forall|x: int, y: int| 0 <= x < y < s1.len() implies s1[x].addr != s1[y].addr by {
        assert(s1[x].addr == s0[x].addr && s1[y].addr == s0[y].addr);
    }
    lemma_index_of(s1, i);
}

/// An integer payload always becomes shared, keeping its value behind the
/// returned handle.
pub proof fn law_int_promotes<F>(
    s0: Seq<Slot<IntObject, F>>,
    a: Address,
    v: IntObject,
    s1: Seq<Slot<IntObject, F>>,
    r: Result<Shared<IntObject>, Error>,
)
    requires
        holds(s0, a),
        cell_at(s0, a) == Cell::<IntObject, F>::Local(v),
        promoted(s0, a, s1, r),
    ensures
        r is Ok,
{
    if r is Err {
        assert(call_ensures(IntObject::to_sync, (v,), Err::<IntObject, IntObject>(v)));
    }
}

/// An inserted slot gets an address that no slot held before, and every
/// later insertion gets another one.
pub proof fn law_fresh_addresses<P: Payload, F>(
    h0: Heap<P, F>,
    h1: Heap<P, F>,
    c1: Cell<P, F>,
    a1: Address,
    h2: Heap<P, F>,
    h3: Heap<P, F>,
    c2: Cell<P, F>,
    a2: Address,
)
    requires
        h0.wf(),
        inserted(h0, h1, c1, Ok(a1)),
        h2.id_bound() >= h1.id_bound(),
        inserted(h2, h3, c2, Ok(a2)),
    ensures
        !holds(h0.slots(), a1),
        a1 != a2,
{
    h0.lemma_wf();
    if holds(h0.slots(), a1) {
        let i = choose|i: int| 0 <= i < h0.slots().len() && h0.slots()[i].addr == a1;
        assert(h0.slots()[i].addr.id < h0.id_bound());
    }
}

/// After `k` successful `push_parent` calls, the parent's stack has grown
/// by exactly `k` addresses: the ones copied, in the order of the calls.
pub proof fn law_push_parent_round_trip<P: Payload, F>(states: Seq<Runtime<P, F>>, indices: Seq<usize>)
    requires
        states.len() == indices.len() + 1,
        states[0].top() >= 1,
        forall|m: int| 0 <= m < indices.len() ==> parent_pushed(#[trigger] states[m], indices[m], states[m + 1], Ok(())),
        forall|m: int| 0 <= m < indices.len() ==> (#[trigger] states[m + 1]).frames() == states[m].frames(),
    ensures
        ({
            let first = states[0];
            let last = states[indices.len() as int];
            let p = first.top() - 1;
            &&& last.frame(p).stack@.len() == first.frame(p).stack@.len() + indices.len()
            &&& last.frame(p).stack@ == first.frame(p).stack@ + Seq::new(
                indices.len(),
                |m: int| states[m].stack()[states[m].stack().len() - indices[m]],
            )
        }),
    decreases indices.len(),
{
    let n = indices.len() as int;
    let p = states[0].top() - 1;
    if n > 0 {
        let s2 = states.drop_last();
        let i2 = indices.drop_last();
        assert forall|m: int| 0 <= m < i2.len() implies parent_pushed(#[trigger] s2[m], i2[m], s2[m + 1], Ok(())) by {
            assert(s2[m] == states[m] && s2[m + 1] == states[m + 1]);
            assert(parent_pushed(states[m], indices[m], states[m + 1], Ok(())));
        }
        assert forall|m: int| 0 <= m < i2.len() implies (#[trigger] s2[m + 1]).frames() == s2[m].frames() by {
            assert(s2[m] == states[m] && s2[m + 1] == states[m + 1]);
            assert(states[m + 1].frames() == states[m].frames());
        }
        law_push_parent_round_trip(s2, i2);
        assert forall|m: int| 0 <= m <= n implies (#[trigger] states[m]).frames() == states[0].frames() by {
            lemma_frames_constant(states, indices, m);
        }
        let before = states[n - 1];
        assert(parent_pushed(before, indices[n - 1], states[n], Ok(())));
        assert(before.top() == states[0].top());
        let prefix = Seq::new((n - 1) as nat, |m: int| s2[m].stack()[s2[m].stack().len() - i2[m]]);
        let whole = Seq::new(n as nat, |m: int| states[m].stack()[states[m].stack().len() - indices[m]]);
        assert(whole =~= prefix.push(before.stack()[before.stack().len() - indices[n - 1]]));
        assert(states[n].frame(p).stack@ =~= states[0].frame(p).stack@ + whole);
    }
}

proof fn lemma_frames_constant<P: Payload, F>(states: Seq<Runtime<P, F>>, indices: Seq<usize>, m: int)
    requires
        states.len() == indices.len() + 1,
        0 <= m <= indices.len(),
        forall|j: int| 0 <= j < indices.len() ==> (#[trigger] states[j + 1]).frames() == states[j].frames(),
    ensures
        states[m].frames() == states[0].frames(),
    decreases m,
{
    if m > 0 {
        lemma_frames_constant(states, indices, m - 1);
        assert(states[(m - 1) + 1].frames() == states[m - 1].frames());
    }
}

/// A join hands out its handle once: taking it a second time fails with
/// `JoinConsumed`.
pub proof fn law_join_single_use<T>(j0: Join<T>, j1: Join<T>, r1: Result<T, Error>, j2: Join<T>, r2: Result<T, Error>)
    requires
        taken(j0, j1, r1),
        taken(j1, j2, r2),
    ensures
        r2 == Err::<T, Error>(Error::JoinConsumed),
{
}


/// Slot `i` is alive when it is the first slot, or an alive earlier slot
/// keeps it.
pub open spec fn alive<P: Payload, F>(s: Seq<Slot<P, F>>, i: int) -> bool
    decreases i,
{
    if i <= 0 {
        i == 0
    } else {
        exists|j: int| 0 <= j < i && #[trigger] s[j].cell.holdees_spec().contains(s[i].addr) && alive(s, j)
    }
}

/// Every slot keeps only slots inserted after it.
pub open spec fn holds_forward<P: Payload, F>(s: Seq<Slot<P, F>>) -> bool {
    forall|j: int, t: int|
        #![trigger s[j].cell.holdees_spec().contains(s[t].addr)]
        0 <= j < s.len() && 0 <= t < s.len() && s[j].cell.holdees_spec().contains(s[t].addr) ==> j < t
}

proof fn lemma_alive_reachable<P: Payload, F>(s: Seq<Slot<P, F>>, i: int)
    requires
        unique_addrs(s),
        s.len() > 0,
        0 <= i < s.len(),
        alive(s, i),
    ensures
        reachable(s, Some(s[0].addr), s[i].addr),
    decreases i,
{
    if i == 0 {
        let p = seq![s[0].addr];
        assert(holds(s, s[0].addr));
        assert(is_path(s, p));
        assert(p.last() == s[0].addr);
    } else {
        let j = choose|j: int| 0 <= j < i && #[trigger] s[j].cell.holdees_spec().contains(s[i].addr) && alive(s, j);
        lemma_alive_reachable(s, j);
        let p = choose|p: Seq<Address>| is_path(s, p) && p[0] == s[0].addr && p.last() == s[j].addr;
        let q = p.push(s[i].addr);
        assert forall|k: int| 0 <= k < q.len() - 1 implies crate::heap::edge(s, #[trigger] q[k], q[k + 1]) by {
            if k < p.len() - 1 {
                assert(q[k] == p[k] && q[k + 1] == p[k + 1]);
            } else {
                assert(q[k] == s[j].addr);
                assert(holds(s, s[i].addr));
            }
        }
        assert(is_path(s, q));
        assert(q[0] == s[0].addr && q.last() == s[i].addr);
    }
}

proof fn lemma_path_alive<P: Payload, F>(s: Seq<Slot<P, F>>, p: Seq<Address>)
    requires
        unique_addrs(s),
        holds_forward(s),
        s.len() > 0,
        is_path(s, p),
        p[0] == s[0].addr,
    ensures
        forall|i: int| 0 <= i < s.len() && s[i].addr == p.last() ==> alive(s, i),
    decreases p.len(),
{
    if p.len() == 1 {
        assert forall|i: int| 0 <= i < s.len() && s[i].addr == p.last() implies alive(s, i) by {
            if i != 0 {
                assert(s[0].addr != s[i].addr);
            }
        }
    } else {
        let q = p.drop_last();
        assert forall|k: int| 0 <= k < q.len() - 1 implies crate::heap::edge(s, #[trigger] q[k], q[k + 1]) by {
            assert(q[k] == p[k] && q[k + 1] == p[k + 1]);
        }
        lemma_path_alive(s, q);
        let k = p.len() - 2;
        assert(crate::heap::edge(s, p[k], p[k + 1]));
        let j = choose|j: int| 0 <= j < s.len() && s[j].addr == p[k] && s[j].cell.holdees_spec().contains(p[k + 1]);
        assert(q.last() == p[k]);
        assert(alive(s, j));
        assert forall|i: int| 0 <= i < s.len() && s[i].addr == p.last() implies alive(s, i) by {
            assert(s[j].cell.holdees_spec().contains(s[i].addr));
            assert(j < i);
            assert(alive(s, i));
        }
    }
}

/// When every slot keeps only later slots and the first slot is the entry,
/// a collection keeps exactly the alive slots: the first one and those
/// kept by an alive earlier slot.
pub proof fn law_collect_forward_holds<P: Payload, F>(s: Seq<Slot<P, F>>, i: int)
    requires
        unique_addrs(s),
        holds_forward(s),
        0 <= i < s.len(),
    ensures
        holds(survivors(s, Some(s[0].addr)), s[i].addr) <==> alive(s, i),
{
    law_collect_keeps_reachable(s, Some(s[0].addr), s[i].addr);
    if alive(s, i) {
        lemma_alive_reachable(s, i);
    }
    if reachable(s, Some(s[0].addr), s[i].addr) {
        let p = choose|p: Seq<Address>| is_path(s, p) && p[0] == s[0].addr && p.last() == s[i].addr;
        lemma_path_alive(s, p);
    }
}

} // verus!
