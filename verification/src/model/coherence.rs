//! What every step of the model keeps: objects stay valid, and a process with a pending
//! operation is live, waits for nothing else, and has no second operation pending.

use vstd::prelude::*;

use crate::model::executor::{
    lemma_flush_valid, lemma_poll_spends, polled, settled, weight, ExecModel,
};
use crate::model::object::{Object, Transition};
use crate::model::process::{Process, ProcessID, Turn};

verus! {

/// How many operations of process `p` are pending, over all objects.
pub open spec fn holding<O: Object>(objs: Seq<O::Model>, p: ProcessID) -> nat
    decreases objs.len(),
{
    if objs.len() == 0 {
        0
    } else {
        holding::<O>(objs.drop_last(), p) + O::holders(objs.last()).count(p)
    }
}

/// The objects are valid and sit at the position of their identity.
pub open spec fn objects_valid<O: Object>(objs: Seq<O::Model>) -> bool {
    forall|i: int|
        0 <= i < objs.len() ==> O::valid(#[trigger] objs[i]) && O::ident(objs[i]) == i
}

/// The executor and the objects agree on who waits for what.
pub open spec fn coherent<O: Object, P: Process<Op = O::Op, Reply = O::Reply>>(
    m: ExecModel<P::Model, P::Reply>,
    objs: Seq<O::Model>,
) -> bool {
    &&& m.valid()
    &&& objects_valid::<O>(objs)
    &&& forall|p: ProcessID| #[trigger] holding::<O>(objs, p) <= 1
    &&& forall|p: ProcessID| #[trigger]
        holding::<O>(objs, p) >= 1 ==> m.is_live(p) && !m.queue.contains(p)
            && !m.woken.contains(p)
}

/// The later objects know and have committed all that the earlier ones did; `t` is what has
/// committed since, if anything.
pub open spec fn remembers<O: Object>(
    before: Seq<O::Model>,
    after: Seq<O::Model>,
    t: Option<Transition>,
) -> bool {
    &&& after.len() == before.len()
    &&& forall|i: int, u: Transition|
        0 <= i < before.len() && O::knows(before[i], u) ==> #[trigger] O::knows(after[i], u)
    &&& forall|i: int, u: Transition|
        0 <= i < before.len() ==> (#[trigger] O::has_committed(after[i], u) <==> (
        O::has_committed(before[i], u) || t == Some(u) && i == u.oid))
    &&& forall|i: int|
        0 <= i < before.len() ==> #[trigger] O::can_block(after[i]) == O::can_block(before[i])
}

/// Changing one object changes what a process holds by the difference at that object.
pub proof fn lemma_holding_update<O: Object>(objs: Seq<O::Model>, i: int, v: O::Model, p: ProcessID)
    requires
        0 <= i < objs.len(),
    ensures
        holding::<O>(objs.update(i, v), p) + O::holders(objs[i]).count(p) == holding::<O>(objs, p)
            + O::holders(v).count(p),
    decreases objs.len(),
{
    let after = objs.update(i, v);
    if i == objs.len() - 1 {
        assert(after.drop_last() =~= objs.drop_last());
    } else {
        assert(after.drop_last() =~= objs.drop_last().update(i, v));
        lemma_holding_update::<O>(objs.drop_last(), i, v, p);
    }
}

/// What a process holds on one object, it holds.
pub proof fn lemma_holding_at<O: Object>(objs: Seq<O::Model>, i: int, p: ProcessID)
    requires
        0 <= i < objs.len(),
    ensures
        holding::<O>(objs, p) >= O::holders(objs[i]).count(p),
    decreases objs.len(),
{
    if i < objs.len() - 1 {
        lemma_holding_at::<O>(objs.drop_last(), i, p);
    }
}

/// What a process holds on two objects, it holds together.
pub proof fn lemma_holding_two<O: Object>(objs: Seq<O::Model>, i: int, j: int, p: ProcessID)
    requires
        0 <= i < j < objs.len(),
    ensures
        holding::<O>(objs, p) >= O::holders(objs[i]).count(p) + O::holders(objs[j]).count(p),
    decreases objs.len(),
{
    if j < objs.len() - 1 {
        lemma_holding_two::<O>(objs.drop_last(), i, j, p);
    } else {
        lemma_holding_at::<O>(objs.drop_last(), i, p);
    }
}

/// Moving the woken processes onto the queue keeps the agreement.
pub proof fn lemma_flush_coherent<O: Object, P: Process<Op = O::Op, Reply = O::Reply>>(
    m: ExecModel<P::Model, P::Reply>,
    objs: Seq<O::Model>,
)
    requires
        coherent::<O, P>(m, objs),
    ensures
        coherent::<O, P>(m.flushed(), objs),
{
    lemma_flush_valid(m);
    let f = m.flushed();
    assert forall|p: ProcessID| #[trigger] holding::<O>(objs, p) >= 1 implies f.is_live(p)
        && !f.queue.contains(p) && !f.woken.contains(p) by {
        if f.queue.contains(p) {
            let i = choose|i: int| 0 <= i < f.queue.len() && f.queue[i] == p;
            if i < m.queue.len() {
                assert(m.queue[i] == p);
            } else {
                lemma_promoted_woken(m, m.procs.len(), i - m.queue.len());
            }
        }
    }
}

proof fn lemma_promoted_woken<V, R>(m: ExecModel<V, R>, k: nat, i: int)
    requires
        0 <= i < m.promoted(k).len(),
    ensures
        m.woken.contains(m.promoted(k)[i]),
    decreases k,
{
    if k > 0 {
        let rest = m.promoted((k - 1) as nat);
        if i < rest.len() {
            lemma_promoted_woken(m, (k - 1) as nat, i);
        }
    }
}

/// Polling a process that was taken off the queue keeps the agreement.
pub proof fn lemma_poll_coherent<O: Object, P: Process<Op = O::Op, Reply = O::Reply>>(
    m: ExecModel<P::Model, P::Reply>,
    objs: Seq<O::Model>,
    id: ProcessID,
)
    requires
        coherent::<O, P>(m, objs),
        m.is_live(id),
        !m.queue.contains(id),
        m.woken.len() == 0,
        holding::<O>(objs, id) == 0,
    ensures
        ({
            let (h, objs2, turn) = polled::<O, P>(m, objs, id);
            &&& coherent::<O, P>(h, objs2)
            &&& remembers::<O>(objs, objs2, None)
            &&& h.queue == m.queue
            &&& turn is Yield ==> h.woken == seq![id]
            &&& !(turn is Yield) ==> h.woken.len() == 0
            &&& h.procs.len() == m.procs.len()
            &&& forall|q: int| 0 <= q < m.procs.len() && q != id ==> #[trigger] h.procs[q] == m.procs[q] && h.replies[q] == m.replies[q]
        }),
{
    let (h, objs2, turn) = polled::<O, P>(m, objs, id);
    assert forall|i: int| 0 <= i < h.queue.len() implies h.is_live(#[trigger] h.queue[i]) by {
        assert(m.is_live(m.queue[i]));
        assert(m.queue.contains(m.queue[i]));
    }
    if turn is Yield {
        assert(h.woken =~= seq![id]);
    }
    if let Turn::Request(oid, op) = turn {
        if oid < objs.len() && O::takes(objs[oid as int], op) {
            O::law_request(objs[oid as int], id, op);
            let v = O::with_request(objs[oid as int], id, op);
            assert forall|p: ProcessID|
                holding::<O>(objs2, p) == #[trigger] holding::<O>(objs, p) + if p == id {
                    1nat
                } else {
                    0nat
                } by {
                lemma_holding_update::<O>(objs, oid as int, v, p);
            }
            assert forall|p: ProcessID| #[trigger] holding::<O>(objs2, p) <= 1 by {
                assert(holding::<O>(objs, p) <= 1);
            }
            assert forall|p: ProcessID| #[trigger] holding::<O>(objs2, p) >= 1 implies h.is_live(p)
                && !h.queue.contains(p) && !h.woken.contains(p) by {
                assert(holding::<O>(objs, p) <= 1);
            }
            assert forall|i: int, u: Transition|
                0 <= i < objs.len() implies (#[trigger] O::has_committed(objs2[i], u) <==> (
            O::has_committed(objs[i], u) || None::<Transition> == Some(u) && i == u.oid)) by {
                if i == oid {
                    assert(O::has_committed(v, u) <==> O::has_committed(objs[i], u));
                }
            }
        }
    }
}

/// A run of the poll loop keeps the agreement, forgets nothing and spends weight whenever it
/// polls at all. If it succeeds it leaves nothing to poll.
pub proof fn lemma_settled_coherent<O: Object, P: Process<Op = O::Op, Reply = O::Reply>>(
    m: ExecModel<P::Model, P::Reply>,
    objs: Seq<O::Model>,
)
    requires
        coherent::<O, P>(m, objs),
    ensures
        ({
            let (h, objs2, failed) = settled::<O, P>(m, objs);
            &&& coherent::<O, P>(h, objs2)
            &&& remembers::<O>(objs, objs2, None)
            &&& h.procs.len() == m.procs.len()
            &&& failed is None ==> h.quiet()
            &&& failed is Some ==> (failed->0).0 < m.procs.len()
            &&& weight::<P>(h.procs) <= weight::<P>(m.procs)
            &&& m.flushed().queue.len() > 0 ==> weight::<P>(h.procs) < weight::<P>(m.procs)
        }),
    decreases weight::<P>(m.procs),
{
    lemma_flush_coherent::<O, P>(m, objs);
    let f = m.flushed();
    if f.queue.len() > 0 {
        let id = f.queue[0];
        let g = ExecModel { queue: f.queue.drop_first(), ..f };
        assert(f.is_live(f.queue[0]));
        lemma_popped::<O, P>(f, objs);
        lemma_poll_spends::<O, P>(g, objs, id);
        lemma_poll_coherent::<O, P>(g, objs, id);
        let (h, objs2, turn) = polled::<O, P>(g, objs, id);
        if !(turn is Failed) {
            lemma_settled_coherent::<O, P>(h, objs2);
            lemma_remembers_trans::<O>(objs, objs2, settled::<O, P>(h, objs2).1, None);
        }
    }
}

/// Taking the front process off the queue keeps the agreement; that process holds nothing.
pub proof fn lemma_popped<O: Object, P: Process<Op = O::Op, Reply = O::Reply>>(
    f: ExecModel<P::Model, P::Reply>,
    objs: Seq<O::Model>,
)
    requires
        coherent::<O, P>(f, objs),
        f.queue.len() > 0,
    ensures
        ({
            let g = ExecModel { queue: f.queue.drop_first(), ..f };
            &&& coherent::<O, P>(g, objs)
            &&& g.is_live(f.queue[0])
            &&& !g.queue.contains(f.queue[0])
            &&& holding::<O>(objs, f.queue[0]) == 0
        }),
{
    let g = ExecModel { queue: f.queue.drop_first(), ..f };
    assert(f.is_live(f.queue[0]));
    assert(f.queue.contains(f.queue[0]));
    assert forall|i: int| 0 <= i < g.queue.len() implies g.is_live(#[trigger] g.queue[i]) by {
        assert(f.is_live(f.queue[i + 1]));
    }
    assert forall|p: ProcessID| #[trigger] holding::<O>(objs, p) >= 1 implies !g.queue.contains(
        p,
    ) by {
        if g.queue.contains(p) {
            let i = choose|i: int| 0 <= i < g.queue.len() && g.queue[i] == p;
            assert(f.queue[i + 1] == p);
        }
    }
}

/// Two stretches of execution forget nothing together.
pub proof fn lemma_remembers_trans<O: Object>(
    a: Seq<O::Model>,
    b: Seq<O::Model>,
    c: Seq<O::Model>,
    t: Option<Transition>,
)
    requires
        remembers::<O>(a, b, t),
        remembers::<O>(b, c, None),
    ensures
        remembers::<O>(a, c, t),
{
    assert forall|i: int, u: Transition| 0 <= i < a.len() && O::knows(a[i], u) implies #[trigger] O::knows(c[i], u) by {
        assert(O::knows(b[i], u));
    }
    assert forall|i: int, u: Transition|
        0 <= i < a.len() implies (#[trigger] O::has_committed(c[i], u) <==> (O::has_committed(
        a[i],
        u,
    ) || t == Some(u) && i == u.oid)) by {
        assert(O::has_committed(b[i], u) <==> (O::has_committed(a[i], u) || t == Some(u) && i == u.oid));
    }
    assert forall|i: int| 0 <= i < a.len() implies #[trigger] O::can_block(c[i]) == O::can_block(a[i]) by {
        assert(O::can_block(b[i]) == O::can_block(a[i]));
    }
}

/// When only process `p` is woken, a run touches no other process and leaves nothing to poll.
pub proof fn lemma_settled_solo<O: Object, P: Process<Op = O::Op, Reply = O::Reply>>(
    m: ExecModel<P::Model, P::Reply>,
    objs: Seq<O::Model>,
    p: ProcessID,
)
    requires
        coherent::<O, P>(m, objs),
        m.queue.len() == 0,
        forall|i: int| 0 <= i < m.woken.len() ==> m.woken[i] == p,
    ensures
        ({
            let (h, objs2, failed) = settled::<O, P>(m, objs);
            &&& h.quiet()
            &&& failed is Some ==> (failed->0).0 == p
            &&& forall|q: int|
                0 <= q < m.procs.len() && q != p ==> #[trigger] h.procs[q] == m.procs[q]
                    && h.replies[q] == m.replies[q]
        }),
    decreases weight::<P>(m.procs),
{
    lemma_flush_coherent::<O, P>(m, objs);
    let f = m.flushed();
    assert forall|i: int| 0 <= i < f.queue.len() implies f.queue[i] == p by {
        lemma_promoted_woken(m, m.procs.len(), i);
    }
    if f.queue.len() > 0 {
        let id = f.queue[0];
        let g = ExecModel { queue: f.queue.drop_first(), ..f };
        assert(f.is_live(f.queue[0]));
        if f.queue.len() > 1 {
            assert(f.queue[0] == f.queue[1]);
        }
        lemma_popped::<O, P>(f, objs);
        lemma_poll_spends::<O, P>(g, objs, id);
        lemma_poll_coherent::<O, P>(g, objs, id);
        let (h, objs2, turn) = polled::<O, P>(g, objs, id);
        if !(turn is Failed) {
            lemma_settled_solo::<O, P>(h, objs2, p);
            lemma_settled_coherent::<O, P>(h, objs2);
            let last = settled::<O, P>(h, objs2).0;
            assert forall|q: int| 0 <= q < m.procs.len() && q != p implies #[trigger] last.procs[q]
                == m.procs[q] && last.replies[q] == m.replies[q] by {
                assert(h.procs[q] == g.procs[q]);
            }
        }
    }
}

} // verus!
