//! What one step of a process does to a world of reliable objects.

use vstd::prelude::*;

use crate::model::coherence::{coherent, holding, lemma_holding_at, lemma_holding_two};
use crate::model::executor::{
    lemma_nothing_woken, lemma_poll_spends, polled, settled, weight, ExecModel,
};
use crate::model::object::{Object, Transition};
use crate::model::process::{Process, ProcessID, Turn};
use crate::model::world::{
    committed, lemma_commit_sound, lemma_ready_all, lemma_ready_unique, ran, ready_all, world_sound,
    WorldModel,
};
use crate::theory::program::{lemma_step_sound, offers, op_for, stepped};
use crate::theory::reliable::Reliable;

verus! {

/// A process run from one scheduling point to the next: it is resumed until it does not wake
/// itself.
pub open spec fn course<P: Process>(code: P::Model, reply: Option<P::Reply>) -> (
    P::Model,
    Turn<P::Op>,
)
    decreases P::budget(code),
{
    let (next, turn) = P::turn(code, reply);
    proof {
        P::law_budget(code, reply);
    }
    if turn is Yield {
        course::<P>(next, None)
    } else {
        (next, turn)
    }
}

/// The objects after process `p`, at its next scheduling point, did `turn`.
pub open spec fn lodged<O: Object>(objs: Seq<O::Model>, p: ProcessID, turn: Turn<O::Op>) -> Seq<
    O::Model,
> {
    match turn {
        Turn::Request(oid, op) => if oid < objs.len() && O::takes(objs[oid as int], op) {
            objs.update(oid as int, O::with_request(objs[oid as int], p, op))
        } else {
            objs
        },
        _ => objs,
    }
}

/// The slot of a process that stopped at `code` with `turn`.
pub open spec fn slot<P: Process>(code: P::Model, turn: Turn<P::Op>) -> Option<P::Model> {
    if turn is Done {
        None
    } else {
        Some(code)
    }
}

/// With one process woken, that process is promoted.
proof fn lemma_promoted_one<V, R>(m: ExecModel<V, R>, p: ProcessID, k: nat)
    requires
        m.queue.len() == 0,
        m.woken == seq![p],
        m.is_live(p),
        k <= m.procs.len() <= usize::MAX,
    ensures
        m.promoted(k) == if p < k {
            seq![p]
        } else {
            Seq::<ProcessID>::empty()
        },
    decreases k,
{
    if k > 0 {
        lemma_promoted_one(m, p, (k - 1) as nat);
        assert(m.woken[0] == p);
        assert(Seq::<ProcessID>::empty().push(p) =~= seq![p]);
    }
}

/// With one process woken, a run of the poll loop is that process's course.
proof fn lemma_settled_course<O: Object, P: Process<Op = O::Op, Reply = O::Reply>>(
    m: ExecModel<P::Model, P::Reply>,
    objs: Seq<O::Model>,
    p: ProcessID,
)
    requires
        m.replies.len() == m.procs.len() <= usize::MAX,
        m.queue.len() == 0,
        m.woken == seq![p],
        m.is_live(p),
    ensures
        ({
            let (code, turn) = course::<P>(m.procs[p as int]->0, m.replies[p as int]);
            let (h, objs2, failed) = settled::<O, P>(m, objs);
            &&& h.procs == m.procs.update(p as int, slot::<P>(code, turn))
            &&& h.replies == m.replies.update(p as int, None)
            &&& h.queue.len() == 0
            &&& h.woken.len() == 0
            &&& objs2 == lodged::<O>(objs, p, turn)
            &&& failed is Some <==> turn is Failed
        }),
    decreases weight::<P>(m.procs),
{
    let f = m.flushed();
    lemma_promoted_one(m, p, m.procs.len());
    assert(f.queue =~= seq![p]);
    let g = ExecModel { queue: f.queue.drop_first(), ..f };
    assert(g.queue =~= Seq::<ProcessID>::empty());
    assert(g.woken =~= Seq::<ProcessID>::empty());
    lemma_poll_spends::<O, P>(g, objs, p);
    let (h, objs2, turn) = polled::<O, P>(g, objs, p);
    let (next, _) = P::turn(m.procs[p as int]->0, m.replies[p as int]);
    if turn is Yield {
        assert(h.woken =~= seq![p]);
        lemma_settled_course::<O, P>(h, objs2, p);
        let last = settled::<O, P>(h, objs2).0;
        let (code, end) = course::<P>(next, None);
        assert(h.procs.update(p as int, slot::<P>(code, end)) =~= m.procs.update(
            p as int,
            slot::<P>(code, end),
        ));
        assert(h.replies.update(p as int, None) =~= m.replies.update(p as int, None));
    } else if !(turn is Failed) {
        lemma_nothing_woken(h, h.procs.len());
        assert(h.flushed().queue =~= Seq::<ProcessID>::empty());
        assert(h.procs =~= m.procs.update(p as int, slot::<P>(next, turn)));
        assert(settled::<O, P>(h, objs2) == (h.flushed(), objs2, None::<(ProcessID, Seq<char>)>));
    } else {
        assert(h.procs =~= m.procs.update(p as int, slot::<P>(next, turn)));
    }
}

/// No process has more than one operation pending on an object.
pub open spec fn single<O: Object>(m: O::Model) -> bool {
    forall|p: ProcessID| #[trigger] O::holders(m).count(p) <= 1
}

/// A world at rest, with room for every operation that its processes can still ask for.
pub open spec fn rested<O: Reliable, P: Process<Op = O::Op, Reply = O::Reply>>(
    w: WorldModel<O::Model, P::Model, P::Reply>,
) -> bool {
    &&& world_sound::<O, P>(w)
    &&& w.sched.quiet()
    &&& forall|k: int|
        0 <= k < w.objs.len() ==> O::used(#[trigger] w.objs[k]) + weight::<P>(w.sched.procs)
            <= usize::MAX
}

/// The object on which process `p` has an operation pending.
pub open spec fn spot<O: Reliable>(objs: Seq<O::Model>, p: ProcessID) -> int {
    choose|k: int| 0 <= k < objs.len() && #[trigger] O::wants(objs[k], p) is Some
}

/// The pending operation of process `p`.
pub open spec fn wish<O: Reliable>(objs: Seq<O::Model>, p: ProcessID) -> O::Op {
    O::wants(objs[spot::<O>(objs, p)], p)->0
}

/// Process `p` has an operation pending on object `k`, and nowhere else.
pub open spec fn seated<O: Reliable>(objs: Seq<O::Model>, p: ProcessID, k: int) -> bool {
    &&& 0 <= k < objs.len()
    &&& O::wants(objs[k], p) is Some
    &&& forall|l: int| 0 <= l < objs.len() && l != k ==> #[trigger] O::wants(objs[l], p) is None
}

/// Every object holds at most one operation of a process, and so do all of them together.
pub proof fn lemma_single<O: Reliable, P: Process<Op = O::Op, Reply = O::Reply>>(
    m: ExecModel<P::Model, P::Reply>,
    objs: Seq<O::Model>,
)
    requires
        coherent::<O, P>(m, objs),
    ensures
        forall|k: int| 0 <= k < objs.len() ==> single::<O>(#[trigger] objs[k]),
        forall|k: int, p: ProcessID|
            0 <= k < objs.len() && #[trigger] O::wants(objs[k], p) is Some ==> seated::<O>(
                objs,
                p,
                k,
            ) && spot::<O>(objs, p) == k,
        forall|k: int, p: ProcessID|
            0 <= k < objs.len() && holding::<O>(objs, p) == 0 ==> #[trigger] O::wants(objs[k], p) is None,
{
    assert forall|k: int| 0 <= k < objs.len() implies single::<O>(#[trigger] objs[k]) by {
        assert forall|p: ProcessID| #[trigger] O::holders(objs[k]).count(p) <= 1 by {
            lemma_holding_at::<O>(objs, k, p);
            assert(holding::<O>(objs, p) <= 1);
        }
    }
    assert forall|k: int, p: ProcessID|
        0 <= k < objs.len() && #[trigger] O::wants(objs[k], p) is Some implies seated::<O>(
        objs,
        p,
        k,
    ) && spot::<O>(objs, p) == k by {
        assert(O::valid(objs[k]) && single::<O>(objs[k]));
        O::law_wants(objs[k]);
        assert(holding::<O>(objs, p) <= 1);
        assert forall|l: int| 0 <= l < objs.len() && l != k implies #[trigger] O::wants(
            objs[l],
            p,
        ) is None by {
            assert(O::valid(objs[l]) && single::<O>(objs[l]));
            O::law_wants(objs[l]);
            if l < k {
                lemma_holding_two::<O>(objs, l, k, p);
            } else {
                lemma_holding_two::<O>(objs, k, l, p);
            }
        }
    }
    assert forall|k: int, p: ProcessID|
        0 <= k < objs.len() && holding::<O>(objs, p) == 0 implies #[trigger] O::wants(
        objs[k],
        p,
    ) is None by {
        assert(O::valid(objs[k]) && single::<O>(objs[k]));
        O::law_wants(objs[k]);
        lemma_holding_at::<O>(objs, k, p);
    }
}

/// A process can step exactly when its pending operation can commit.
pub proof fn lemma_offers<O: Reliable, P: Process<Op = O::Op, Reply = O::Reply>>(
    m: ExecModel<P::Model, P::Reply>,
    objs: Seq<O::Model>,
    p: ProcessID,
)
    requires
        coherent::<O, P>(m, objs),
        objs.len() <= usize::MAX,
    ensures
        offers::<O>(objs, p) <==> exists|k: int|
            0 <= k < objs.len() && #[trigger] O::wants(objs[k], p) is Some && O::open(
                O::essence(objs[k]),
                O::wants(objs[k], p)->0,
            ),
        offers::<O>(objs, p) ==> {
            let k = spot::<O>(objs, p);
            let t = op_for::<O>(objs, p);
            &&& seated::<O>(objs, p, k)
            &&& O::open(O::essence(objs[k]), wish::<O>(objs, p))
            &&& t.pid == p
            &&& t.oid == k
            &&& O::ready(objs[k]).contains(t)
            &&& ready_all::<O>(objs).contains(t)
        },
{
    lemma_single::<O, P>(m, objs);
    lemma_ready_all::<O>(objs);
    if offers::<O>(objs, p) {
        let t = op_for::<O>(objs, p);
        assert(ready_all::<O>(objs).contains(t) && t.pid == p);
        let k = t.oid as int;
        assert(O::valid(objs[k]) && single::<O>(objs[k]));
        O::law_wants(objs[k]);
        assert(O::wants(objs[k], p) is Some);
    }
    if exists|k: int|
        0 <= k < objs.len() && #[trigger] O::wants(objs[k], p) is Some && O::open(
            O::essence(objs[k]),
            O::wants(objs[k], p)->0,
        ) {
        let k = choose|k: int|
            0 <= k < objs.len() && #[trigger] O::wants(objs[k], p) is Some && O::open(
                O::essence(objs[k]),
                O::wants(objs[k], p)->0,
            );
        assert(O::valid(objs[k]) && single::<O>(objs[k]));
        O::law_wants(objs[k]);
        let t = choose|t: Transition| #[trigger] O::ready(objs[k]).contains(t) && t.pid == p;
        O::law_ready(objs[k]);
        assert(ready_all::<O>(objs).contains(t));
    }
}

/// What `turn` asks of object `k`, if it asks anything that the object performs.
pub open spec fn asked<O: Reliable>(objs: Seq<O::Model>, turn: Turn<O::Op>, k: int) -> Option<
    O::Op,
> {
    match turn {
        Turn::Request(oid, op) => if oid == k && O::suits(O::essence(objs[k]), op) {
            Some(op)
        } else {
            None
        },
        _ => None,
    }
}

/// What the pending operation of `p` hands back.
pub open spec fn reply<O: Reliable>(objs: Seq<O::Model>, p: ProcessID) -> O::Reply {
    O::does(O::essence(objs[spot::<O>(objs, p)]), wish::<O>(objs, p)).1
}

/// Where process `p` gets to with its next step.
pub open spec fn outcome<O: Reliable, P: Process<Op = O::Op, Reply = O::Reply>>(
    w: WorldModel<O::Model, P::Model, P::Reply>,
    p: ProcessID,
) -> (P::Model, Turn<P::Op>) {
    course::<P>(w.sched.procs[p as int]->0, Some(reply::<O>(w.objs, p)))
}

/// What a step of process `p` does: its operation changes the essence of its object and is
/// logged there; the process runs its course, and its next operation is pending.
pub open spec fn effect<O: Reliable, P: Process<Op = O::Op, Reply = O::Reply>>(
    w: WorldModel<O::Model, P::Model, P::Reply>,
    p: ProcessID,
    next: WorldModel<O::Model, P::Model, P::Reply>,
) -> bool {
    let o = spot::<O>(w.objs, p);
    let op = wish::<O>(w.objs, p);
    let (code, turn) = outcome::<O, P>(w, p);
    &&& next.objs.len() == w.objs.len()
    &&& next.sched.procs == w.sched.procs.update(p as int, slot::<P>(code, turn))
    &&& next.sched.replies == w.sched.replies.update(p as int, None)
    &&& forall|k: int|
        0 <= k < w.objs.len() ==> #[trigger] O::essence(next.objs[k]) == if k == o {
            O::does(O::essence(w.objs[k]), op).0
        } else {
            O::essence(w.objs[k])
        }
    &&& forall|k: int, q: ProcessID|
        0 <= k < w.objs.len() ==> #[trigger] O::wants(next.objs[k], q) == if q == p {
            asked::<O>(w.objs, turn, k)
        } else {
            O::wants(w.objs[k], q)
        }
    &&& forall|k: int|
        0 <= k < w.objs.len() ==> #[trigger] O::log(next.objs[k]) == if k == o {
            O::log(w.objs[k]).push((op_for::<O>(w.objs, p), O::deed(op)))
        } else {
            O::log(w.objs[k])
        }
}

/// A step of a process with a ready operation has its effect.
pub proof fn lemma_effect<O: Reliable, P: Process<Op = O::Op, Reply = O::Reply>>(
    w: WorldModel<O::Model, P::Model, P::Reply>,
    p: ProcessID,
)
    requires
        rested::<O, P>(w),
        offers::<O>(w.objs, p),
    ensures
        rested::<O, P>(stepped::<O, P>(w, p)),
        effect::<O, P>(w, p, stepped::<O, P>(w, p)),
        ran::<O, P>(committed::<O, P>(w, op_for::<O>(w.objs, p))).1 is Some <==> outcome::<O, P>(
            w,
            p,
        ).1 is Failed,
        w.sched.is_live(p),
{
    let t = op_for::<O>(w.objs, p);
    let o = spot::<O>(w.objs, p);
    let op = wish::<O>(w.objs, p);
    let next = stepped::<O, P>(w, p);
    let c = committed::<O, P>(w, t);
    let turn = outcome::<O, P>(w, p).1;
    lemma_offers::<O, P>(w.sched, w.objs, p);
    lemma_single::<O, P>(w.sched, w.objs);
    lemma_ready_unique::<O, P>(w.sched, w.objs, t);
    lemma_commit_sound::<O, P>(w, t);
    lemma_step_sound::<O, P>(w, p);
    assert(O::valid(w.objs[o]) && single::<O>(w.objs[o]));
    O::law_done(w.objs[o], t);
    assert(c.sched.woken =~= seq![p]);
    assert(c.sched.woken[0] == p);
    lemma_settled_course::<O, P>(c.sched, c.objs, p);
    assert(c.sched.replies[p as int] == Some(reply::<O>(w.objs, p)));
    assert(next.sched.replies =~= w.sched.replies.update(p as int, None));
    assert(next.objs == lodged::<O>(c.objs, p, turn));
    assert(holding::<O>(c.objs, p) == 0) by {
        assert(c.sched.woken.contains(p));
        assert(holding::<O>(c.objs, p) <= 1);
    }
    lemma_single::<O, P>(c.sched, c.objs);
    if let Turn::Request(oid, op2) = turn {
        if oid < c.objs.len() {
            let k = oid as int;
            let m = c.objs[k];
            assert(O::valid(m) && single::<O>(m));
            O::law_wants(m);
            assert(O::takes(m, op2) <==> O::suits(O::essence(m), op2) && O::used(m) < usize::MAX);
            assert(O::used(w.objs[k]) + weight::<P>(w.sched.procs) <= usize::MAX);
            O::law_suits(O::essence(w.objs[o]), op, op2);
            assert(O::wants(m, p) is None);
            if O::takes(m, op2) {
                O::law_asked(m, p, op2);
            }
        }
    }
    assert forall|k: int, q: ProcessID|
        0 <= k < w.objs.len() implies #[trigger] O::wants(next.objs[k], q) == if q == p {
        asked::<O>(w.objs, turn, k)
    } else {
        O::wants(w.objs[k], q)
    } by {
        assert(O::wants(c.objs[k], p) is None);
        assert(O::wants(c.objs[k], q) == if q == p {
            None
        } else {
            O::wants(w.objs[k], q)
        });
    }
    assert forall|k: int| 0 <= k < next.objs.len() implies O::used(#[trigger] next.objs[k])
        + weight::<P>(next.sched.procs) <= usize::MAX by {
        assert(O::used(w.objs[k]) + weight::<P>(w.sched.procs) <= usize::MAX);
        assert(O::used(c.objs[k]) == O::used(w.objs[k]));
    }
}

} // verus!
