//! Laws of the model: what running a program does, said of its processes, its objects and its
//! names.

use vstd::prelude::*;

use crate::model::coherence::{coherent, lemma_settled_coherent};
use crate::model::executor::{
    lemma_flush_valid, lemma_poll_spends, live_count, models, polled, settled, slot_models, views,
    weight, ExecModel,
};
use crate::model::failure::{error_text, reason_text, Reason};
use crate::model::machine::{does, steady, tame, Machine, MachineModel};
use crate::model::metered::{makes, Metered, MeteredModel};
use crate::model::object::{Object, ObjectID, Transition};
use crate::model::process::{Outcome, Process, ProcessID, Turn};
use crate::model::script::Script;
use crate::model::state::{applied, feasible, never_blocks, reached, started, StateModel};
use crate::model::world::{
    committed, conflicting, empty_world, lemma_commit_sound, ran, ready_all, world_sound,
    WorldModel,
};

verus! {

/// Woken processes join the run queue behind those already in it, the one with the lower id first.
/// Who joins is who was woken, has not completed and is not queued yet. Nobody stays woken.
pub proof fn law_flush<V, R>(m: ExecModel<V, R>)
    requires
        m.procs.len() <= usize::MAX,
    ensures
        m.flushed().procs == m.procs,
        m.flushed().replies == m.replies,
        m.flushed().woken.len() == 0,
        m.queue.is_prefix_of(m.flushed().queue),
        forall|i: int, j: int|
            m.queue.len() <= i < j < m.flushed().queue.len() ==> #[trigger] m.flushed().queue[i]
                < #[trigger] m.flushed().queue[j],
        forall|i: int|
            m.queue.len() <= i < m.flushed().queue.len() ==> !m.queue.contains(
                #[trigger] m.flushed().queue[i],
            ),
        forall|id: ProcessID| #[trigger]
            m.flushed().queue.contains(id) <==> m.queue.contains(id) || id < m.procs.len()
                && m.procs[id as int] is Some && m.woken.contains(id),
{
    let n = m.procs.len();
    let p = m.promoted(n);
    let q = m.flushed().queue;
    lemma_joins(m, n);
    assert(q.subrange(0, m.queue.len() as int) =~= m.queue);
    assert forall|i: int, j: int| m.queue.len() <= i < j < q.len() implies #[trigger] q[i]
        < #[trigger] q[j] by {
        assert(p[i - m.queue.len()] < p[j - m.queue.len()]);
    }
    assert forall|i: int| m.queue.len() <= i < q.len() implies !m.queue.contains(
        #[trigger] q[i],
    ) by {
        assert(p.contains(p[i - m.queue.len()]));
    }
    assert forall|id: ProcessID| #[trigger] q.contains(id) <==> m.queue.contains(id) || id < n
        && m.procs[id as int] is Some && m.woken.contains(id) by {
        if q.contains(id) {
            let i = choose|i: int| 0 <= i < q.len() && q[i] == id;
            if i < m.queue.len() {
                assert(m.queue[i] == id);
            } else {
                assert(p[i - m.queue.len()] == id);
                assert(p.contains(id));
            }
        }
        if m.queue.contains(id) {
            let i = choose|i: int| 0 <= i < m.queue.len() && m.queue[i] == id;
            assert(q[i] == id);
        } else if id < n && m.procs[id as int] is Some && m.woken.contains(id) {
            assert(p.contains(id));
            let i = choose|i: int| 0 <= i < p.len() && p[i] == id;
            assert(q[m.queue.len() + i] == id);
        }
    }
}

proof fn lemma_joins<V, R>(m: ExecModel<V, R>, k: nat)
    requires
        k <= m.procs.len() <= usize::MAX,
    ensures
        forall|i: int, j: int|
            0 <= i < j < m.promoted(k).len() ==> #[trigger] m.promoted(k)[i]
                < #[trigger] m.promoted(k)[j],
        forall|i: int| 0 <= i < m.promoted(k).len() ==> (#[trigger] m.promoted(k)[i]) < k,
        forall|id: ProcessID| #[trigger]
            m.promoted(k).contains(id) <==> id < k && m.procs[id as int] is Some
                && m.woken.contains(id) && !m.queue.contains(id),
    decreases k,
{
    if k > 0 {
        let rest = m.promoted((k - 1) as nat);
        let all = m.promoted(k);
        let last = (k - 1) as ProcessID;
        lemma_joins(m, (k - 1) as nat);
        assert forall|id: ProcessID| #[trigger] all.contains(id) <==> id < k
            && m.procs[id as int] is Some && m.woken.contains(id) && !m.queue.contains(id) by {
            if all.contains(id) {
                let i = choose|i: int| 0 <= i < all.len() && all[i] == id;
                if i < rest.len() {
                    assert(rest[i] == id);
                    assert(rest.contains(id));
                }
            }
            if id < k && m.procs[id as int] is Some && m.woken.contains(id) && !m.queue.contains(
                id,
            ) {
                if id == last {
                    assert(all[all.len() - 1] == id);
                } else {
                    assert(rest.contains(id));
                    let i = choose|i: int| 0 <= i < rest.len() && rest[i] == id;
                    assert(all[i] == id);
                }
            }
        }
    }
}

/// A new process is live under the next free id, waits at the back of the queue, and has no reply;
/// nothing else changes.
pub proof fn law_schedule<V, R>(m: ExecModel<V, R>, code: V)
    requires
        m.replies.len() == m.procs.len(),
        m.procs.len() < usize::MAX,
    ensures
        ({
            let id = m.procs.len() as int;
            let n = m.scheduled(code);
            &&& n.procs.len() == id + 1
            &&& n.procs[id] == Some(code)
            &&& n.procs.take(id) == m.procs
            &&& n.replies.len() == id + 1
            &&& n.replies[id] is None
            &&& n.replies.take(id) == m.replies
            &&& n.queue.len() == m.queue.len() + 1
            &&& n.queue.last() == id
            &&& n.queue.drop_last() == m.queue
            &&& n.woken == m.woken
        }),
{
    let id = m.procs.len() as int;
    let n = m.scheduled(code);
    assert(n.procs.take(id) =~= m.procs);
    assert(n.replies.take(id) =~= m.replies);
    assert(n.queue.drop_last() =~= m.queue);
}

/// A reply goes to the process whose operation committed, which is woken last; no other process gets
/// or loses one, and none of them runs or is queued.
pub proof fn law_answer<V, R>(m: ExecModel<V, R>, id: ProcessID, reply: R)
    requires
        id < m.replies.len(),
    ensures
        ({
            let n = m.answered(id, reply);
            &&& n.replies.len() == m.replies.len()
            &&& n.replies[id as int] == Some(reply)
            &&& forall|p: int| 0 <= p < m.replies.len() && p != id ==> n.replies[p] == m.replies[p]
            &&& n.woken.len() == m.woken.len() + 1
            &&& n.woken.last() == id
            &&& n.woken.drop_last() == m.woken
            &&& n.procs == m.procs
            &&& n.queue == m.queue
        }),
{
    assert(m.answered(id, reply).woken.drop_last() =~= m.woken);
}

/// Polling a process resumes that process alone, with the reply that waits for it, and uses the reply
/// up. What it hands back is carried out: a request is registered on its object for that process, a
/// yield wakes it, and only a completion ends it.
pub proof fn law_poll<O: Object, P: Process<Op = O::Op, Reply = O::Reply>>(
    m: ExecModel<P::Model, P::Reply>,
    objs: Seq<O::Model>,
    id: ProcessID,
)
    requires
        id < m.procs.len(),
        m.procs[id as int] is Some,
        m.replies.len() == m.procs.len(),
    ensures
        ({
            let (v, turn) = P::turn(m.procs[id as int]->0, m.replies[id as int]);
            let (n, after, told) = polled::<O, P>(m, objs, id);
            &&& told == turn
            &&& n.procs.len() == m.procs.len()
            &&& n.procs[id as int] == if turn is Done {
                None
            } else {
                Some(v)
            }
            &&& forall|p: int| 0 <= p < m.procs.len() && p != id ==> n.procs[p] == m.procs[p]
            &&& n.replies.len() == m.replies.len()
            &&& n.replies[id as int] is None
            &&& forall|p: int| 0 <= p < m.replies.len() && p != id ==> n.replies[p] == m.replies[p]
            &&& n.queue == m.queue
            &&& if turn is Yield {
                n.woken.len() == m.woken.len() + 1 && n.woken.last() == id && n.woken.drop_last()
                    == m.woken
            } else {
                n.woken == m.woken
            }
            &&& after.len() == objs.len()
            &&& forall|o: int|
                0 <= o < objs.len() ==> #[trigger] after[o] == match turn {
                    Turn::Request(oid, op) => if oid == o && O::takes(objs[o], op) {
                        O::with_request(objs[o], id, op)
                    } else {
                        objs[o]
                    },
                    _ => objs[o],
                }
        }),
{
    let (n, after, told) = polled::<O, P>(m, objs, id);
    if told is Yield {
        assert(n.woken.drop_last() =~= m.woken);
    }
}

/// Running the processes: with nobody queued or to be queued, nothing happens. Otherwise the front of
/// the queue is polled. If it hands back an error, the run ends there, and it is that process, with
/// that error, that is said to have failed. If not, the run goes on from where the poll got to.
pub proof fn law_run<O: Object, P: Process<Op = O::Op, Reply = O::Reply>>(
    m: ExecModel<P::Model, P::Reply>,
    objs: Seq<O::Model>,
)
    requires
        m.valid(),
    ensures
        ({
            let f = m.flushed();
            let r = settled::<O, P>(m, objs);
            if f.queue.len() == 0 {
                r.0 == f && r.1 == objs && r.2 is None
            } else {
                let id = f.queue[0];
                let g = ExecModel { queue: f.queue.drop_first(), ..f };
                let (h, after, turn) = polled::<O, P>(g, objs, id);
                match P::turn(m.procs[id as int]->0, m.replies[id as int]).1 {
                    Turn::Failed(e) => r.0 == h && r.1 == after && r.2 == Some((id, e)),
                    _ => r == settled::<O, P>(h, after),
                }
            }
        }),
{
    lemma_flush_valid(m);
    let f = m.flushed();
    if f.queue.len() > 0 {
        assert(f.is_live(f.queue[0]));
        let g = ExecModel { queue: f.queue.drop_first(), ..f };
        lemma_poll_spends::<O, P>(g, objs, f.queue[0]);
    }
}

/// Process `pid` erred with `e`: resumed at some state with some reply, it handed back `e`, and
/// `procs` has it where that left it.
pub open spec fn erred<P: Process>(
    procs: Seq<Option<P::Model>>,
    pid: int,
    e: Seq<char>,
) -> bool {
    &&& 0 <= pid < procs.len()
    &&& exists|v: P::Model, r: Option<P::Reply>|
        procs[pid] is Some && #[trigger] P::turn(v, r) == (procs[pid]->0, Turn::<P::Op>::Failed(e))
}

/// `name` is the name of a process that erred with `e`.
pub open spec fn at_fault<P: Process>(
    procs: Seq<Option<P::Model>>,
    names: Seq<Seq<char>>,
    name: Seq<char>,
    e: Seq<char>,
) -> bool {
    exists|pid: int| #[trigger] erred::<P>(procs, pid, e) && name == names[pid]
}

/// Who is said to have failed in a run erred in it, with that error.
pub proof fn law_run_blames<O: Object, P: Process<Op = O::Op, Reply = O::Reply>>(
    m: ExecModel<P::Model, P::Reply>,
    objs: Seq<O::Model>,
)
    requires
        coherent::<O, P>(m, objs),
    ensures
        match settled::<O, P>(m, objs).2 {
            Some((pid, e)) => erred::<P>(settled::<O, P>(m, objs).0.procs, pid as int, e),
            None => settled::<O, P>(m, objs).0.quiet(),
        },
{
    lemma_settled_coherent::<O, P>(m, objs);
    lemma_blames::<O, P>(m, objs);
}

proof fn lemma_blames<O: Object, P: Process<Op = O::Op, Reply = O::Reply>>(
    m: ExecModel<P::Model, P::Reply>,
    objs: Seq<O::Model>,
)
    ensures
        settled::<O, P>(m, objs).2 matches Some((pid, e)) ==> erred::<P>(
            settled::<O, P>(m, objs).0.procs,
            pid as int,
            e,
        ),
    decreases weight::<P>(m.procs),
{
    let f = m.flushed();
    if f.queue.len() > 0 {
        let id = f.queue[0];
        let g = ExecModel { queue: f.queue.drop_first(), ..f };
        if g.is_live(id) && g.replies.len() == g.procs.len() {
            let (h, objs2, turn) = polled::<O, P>(g, objs, id);
            lemma_poll_spends::<O, P>(g, objs, id);
            if let Turn::Failed(e) = turn {
                assert(P::turn(g.procs[id as int]->0, g.replies[id as int]) == (
                    h.procs[id as int]->0,
                    Turn::<P::Op>::Failed(e),
                ));
                assert(erred::<P>(h.procs, id as int, e));
            } else {
                lemma_blames::<O, P>(h, objs2);
            }
        }
    }
}

/// The error that stopped the processes is that of the process that erred, under the name that it
/// was spawned with; names stay as they are.
pub proof fn law_ran<O: Object, P: Process<Op = O::Op, Reply = O::Reply>>(
    w: WorldModel<O::Model, P::Model, P::Reply>,
)
    requires
        world_sound::<O, P>(w),
    ensures
        ({
            let (sched, objs, failed) = settled::<O, P>(w.sched, w.objs);
            let (after, reason) = ran::<O, P>(w);
            &&& after.sched == sched
            &&& after.objs == objs
            &&& after.pnames == w.pnames
            &&& after.onames == w.onames
            &&& failed is None <==> reason is None
            &&& failed matches Some((pid, e)) ==> pid < w.pnames.len() && reason == Some(
                Reason::Process(w.pnames[pid as int], e),
            ) && erred::<P>(after.sched.procs, pid as int, e)
        }),
{
    lemma_settled_coherent::<O, P>(w.sched, w.objs);
    law_run_blames::<O, P>(w.sched, w.objs);
}

/// Some process is live.
pub open spec fn anyone<V>(procs: Seq<Option<V>>) -> bool {
    exists|p: int| 0 <= p < procs.len() && #[trigger] procs[p] is Some
}

/// The count of the live: nobody counts in an empty table, and each process counts for one until it
/// has completed.
pub proof fn law_live<V>(procs: Seq<Option<V>>)
    ensures
        procs.len() == 0 ==> live_count(procs) == 0,
        live_count(procs.push(None)) == live_count(procs),
        forall|v: V| #[trigger] live_count(procs.push(Some(v))) == live_count(procs) + 1,
        live_count(procs) > 0 <==> anyone(procs),
    decreases procs.len(),
{
    assert(procs.push(None).drop_last() =~= procs);
    assert forall|v: V| #[trigger] live_count(procs.push(Some(v))) == live_count(procs) + 1 by {
        assert(procs.push(Some(v)).drop_last() =~= procs);
    }
    if procs.len() > 0 {
        let init = procs.drop_last();
        law_live(init);
        if anyone(init) {
            let p = choose|p: int| 0 <= p < init.len() && #[trigger] init[p] is Some;
            assert(procs[p] is Some);
        }
        if anyone(procs) {
            let p = choose|p: int| 0 <= p < procs.len() && #[trigger] procs[p] is Some;
            if p < init.len() {
                assert(init[p] is Some);
            } else {
                assert(procs.last() is Some);
            }
        }
        if procs.last() is Some {
            assert(procs[procs.len() - 1] is Some);
        }
    }
}

/// Why a state failed whose processes were run from `w`: if a process erred, for that error,
/// whatever else holds; if none did, for a deadlock exactly if nothing is ready and some process is
/// live.
pub open spec fn judged<O: Object, P: Process<Op = O::Op, Reply = O::Reply>>(
    w: WorldModel<O::Model, P::Model, P::Reply>,
    s: StateModel<O::Model, P::Model, P::Reply>,
) -> bool {
    let after = settled::<O, P>(w.sched, w.objs);
    match after.2 {
        Some((pid, e)) => s.failure == Some(Reason::Process(w.pnames[pid as int], e)),
        None => {
            &&& !(s.failure matches Some(Reason::Process(_, _)))
            &&& s.failure == Some(Reason::Deadlock) <==> anyone(after.0.procs) && forall|
                t: Transition,
            | !#[trigger] ready_all::<O>(after.1).contains(t)
        },
    }
}

proof fn lemma_judged<O: Object, P: Process<Op = O::Op, Reply = O::Reply>>(
    w: WorldModel<O::Model, P::Model, P::Reply>,
)
    ensures
        ({
            let after = settled::<O, P>(w.sched, w.objs);
            &&& live_count(after.0.procs) > 0 <==> anyone(after.0.procs)
            &&& ready_all::<O>(after.1).len() == 0 <==> forall|t: Transition|
                !#[trigger] ready_all::<O>(after.1).contains(t)
        }),
{
    let after = settled::<O, P>(w.sched, w.objs);
    law_live(after.0.procs);
    if ready_all::<O>(after.1).len() > 0 {
        assert(ready_all::<O>(after.1).contains(ready_all::<O>(after.1)[0]));
    }
}

/// The starting state: the processes have run, nothing has committed, and its failure is that of the
/// run.
pub proof fn law_start<O: Object, P: Process<Op = O::Op, Reply = O::Reply>>(
    w: WorldModel<O::Model, P::Model, P::Reply>,
)
    requires
        world_sound::<O, P>(w),
    ensures
        ({
            let s = started::<O, P>(w);
            &&& s.trace.len() == 0
            &&& s.world.sched == settled::<O, P>(w.sched, w.objs).0
            &&& s.world.objs == settled::<O, P>(w.sched, w.objs).1
            &&& s.world.pnames == w.pnames
            &&& s.world.onames == w.onames
            &&& judged::<O, P>(w, s)
        }),
{
    lemma_judged::<O, P>(w);
    law_ran::<O, P>(w);
}

/// A commit: the object performs the operation, its process gets the reply and is woken, and nothing
/// else changes.
pub proof fn law_commit<O: Object, P: Process<Op = O::Op, Reply = O::Reply>>(
    w: WorldModel<O::Model, P::Model, P::Reply>,
    t: Transition,
)
    requires
        t.oid < w.objs.len(),
        t.pid < w.sched.replies.len(),
    ensures
        ({
            let c = committed::<O, P>(w, t);
            let (object, reply) = O::with_commit(w.objs[t.oid as int], t);
            &&& c.objs.len() == w.objs.len()
            &&& c.objs[t.oid as int] == object
            &&& forall|o: int| 0 <= o < w.objs.len() && o != t.oid ==> c.objs[o] == w.objs[o]
            &&& c.sched.replies.len() == w.sched.replies.len()
            &&& c.sched.replies[t.pid as int] == Some(reply)
            &&& forall|p: int|
                0 <= p < w.sched.replies.len() && p != t.pid ==> c.sched.replies[p]
                    == w.sched.replies[p]
            &&& c.sched.woken == w.sched.woken.push(t.pid)
            &&& c.sched.procs == w.sched.procs
            &&& c.sched.queue == w.sched.queue
            &&& c.pnames == w.pnames
            &&& c.onames == w.onames
        }),
{
}

/// A step: the operation commits, the processes run, and the failure of the state is that of the run.
pub proof fn law_step<O: Object, P: Process<Op = O::Op, Reply = O::Reply>>(
    s: StateModel<O::Model, P::Model, P::Reply>,
    t: Transition,
)
    requires
        world_sound::<O, P>(s.world),
        ready_all::<O>(s.world.objs).contains(t),
    ensures
        ({
            let c = committed::<O, P>(s.world, t);
            let a = applied::<O, P>(s, t);
            &&& a.trace.len() == s.trace.len() + 1
            &&& a.trace.last() == t
            &&& a.trace.drop_last() == s.trace
            &&& a.world.sched == settled::<O, P>(c.sched, c.objs).0
            &&& a.world.objs == settled::<O, P>(c.sched, c.objs).1
            &&& a.world.pnames == s.world.pnames
            &&& a.world.onames == s.world.onames
            &&& judged::<O, P>(c, a)
        }),
{
    let c = committed::<O, P>(s.world, t);
    lemma_commit_sound::<O, P>(s.world, t);
    lemma_judged::<O, P>(c);
    law_ran::<O, P>(c);
    assert(applied::<O, P>(s, t).trace.drop_last() =~= s.trace);
}

/// A process error is reported under the name of the process that erred; a deadlock is reported only
/// if none did. This holds of the starting state and after every step of a schedule.
pub proof fn law_blame<O: Object, P: Process<Op = O::Op, Reply = O::Reply>>(
    w: WorldModel<O::Model, P::Model, P::Reply>,
    s: StateModel<O::Model, P::Model, P::Reply>,
)
    requires
        world_sound::<O, P>(w),
        s == started::<O, P>(w) || exists|u: StateModel<O::Model, P::Model, P::Reply>, t: Transition|
            w == committed::<O, P>(u.world, t) && s == #[trigger] applied::<O, P>(u, t),
    ensures
        s.failure matches Some(Reason::Process(name, e)) ==> at_fault::<P>(
            s.world.sched.procs,
            w.pnames,
            name,
            e,
        ),
        s.failure == Some(Reason::Deadlock) ==> s.world.sched.quiet(),
{
    law_ran::<O, P>(w);
    law_run_blames::<O, P>(w.sched, w.objs);
    if let Some(Reason::Process(name, e)) = s.failure {
        let failed = settled::<O, P>(w.sched, w.objs).2;
        assert(failed is Some);
        if let Some((pid, f)) = failed {
            assert(e == f);
            assert(name == w.pnames[pid as int]);
            assert(erred::<P>(s.world.sched.procs, pid as int, e));
        }
    }
}

/// A schedule is followed step by step: the empty one leads to the starting state, and one step more
/// leads from where the schedule led. It is one of the program's if every step was ready, in a state
/// that had not failed.
pub proof fn law_schedule_steps<O: Object, P: Process<Op = O::Op, Reply = O::Reply>>(
    w: WorldModel<O::Model, P::Model, P::Reply>,
    trace: Seq<Transition>,
    t: Transition,
)
    ensures
        reached::<O, P>(w, Seq::empty()) == started::<O, P>(w),
        feasible::<O, P>(w, Seq::empty()),
        reached::<O, P>(w, trace.push(t)) == applied::<O, P>(reached::<O, P>(w, trace), t),
        feasible::<O, P>(w, trace.push(t)) <==> feasible::<O, P>(w, trace) && reached::<O, P>(
            w,
            trace,
        ).failure is None && ready_all::<O>(reached::<O, P>(w, trace).world.objs).contains(t),
{
    assert(trace.push(t).drop_last() =~= trace);
}

/// What is ready in a world: what is ready on its objects, those of the first object first, each
/// object's in its own order.
pub proof fn law_ready<O: Object>(objs: Seq<O::Model>, more: O::Model)
    ensures
        ready_all::<O>(Seq::empty()).len() == 0,
        ready_all::<O>(objs.push(more)).len() == ready_all::<O>(objs).len() + O::ready(more).len(),
        forall|i: int|
            0 <= i < ready_all::<O>(objs).len() ==> ready_all::<O>(objs.push(more))[i]
                == ready_all::<O>(objs)[i],
        forall|i: int|
            0 <= i < O::ready(more).len() ==> ready_all::<O>(objs.push(more))[ready_all::<O>(
                objs,
            ).len() + i] == O::ready(more)[i],
{
    assert(objs.push(more).drop_last() =~= objs);
}

/// Steps on different objects never conflict; on one object, it is for the object to say.
pub proof fn law_conflict<O: Object>(objs: Seq<O::Model>, t1: Transition, t2: Transition)
    ensures
        t1.oid != t2.oid ==> !conflicting::<O>(objs, t1, t2),
        t1.oid == t2.oid ==> conflicting::<O>(objs, t1, t2) == O::conflict(
            objs[t1.oid as int],
            t1,
            t2,
        ),
{
}

/// What a failure is told as: a deadlock by that word, and a process error by the name of the
/// process and then the error. Different errors of one process, and one error of different processes,
/// are told differently.
pub proof fn law_messages(p: Seq<char>, q: Seq<char>, e: Seq<char>, f: Seq<char>)
    ensures
        reason_text(Reason::Deadlock) == "deadlock"@,
        reason_text(Reason::Process(p, e)) == "process "@ + p + " failed: "@ + e,
        error_text(p, e) == reason_text(Reason::Process(p, e)),
        e != f ==> error_text(p, e) != error_text(p, f),
        p != q ==> error_text(p, e) != error_text(q, e),
{
    let head = "process "@ + p + " failed: "@;
    let tail = " failed: "@ + e;
    if error_text(p, e) == error_text(p, f) {
        assert(e =~= (head + e).skip(head.len() as int));
        assert(f =~= (head + f).skip(head.len() as int));
    }
    if error_text(p, e) == error_text(q, e) {
        let a = "process "@.len() as int;
        assert(error_text(p, e).len() == a + p.len() + tail.len());
        assert(error_text(q, e).len() == a + q.len() + tail.len());
        assert(p =~= error_text(p, e).subrange(a, a + p.len()));
        assert(q =~= error_text(q, e).subrange(a, a + q.len()));
    }
}

/// A script asks for its operations in the order in which they were listed, whatever it gets back,
/// and completes when it has asked for all.
pub proof fn law_script<Op, Reply>(
    first: (ObjectID, Op),
    rest: Seq<(ObjectID, Op)>,
    reply: Option<Reply>,
)
    ensures
        Script::<Op, Reply>::turn(seq![first] + rest, reply) == (
            rest,
            Turn::Request(first.0, first.1),
        ),
        Script::<Op, Reply>::turn(Seq::empty(), reply).1 is Done,
{
    assert((seq![first] + rest).drop_first() =~= rest);
}

/// A machine does what its step function does.
pub proof fn law_machine<S, Op, Reply, F: Fn(S, Option<Reply>) -> (S, Outcome<Op>)>(
    state: S,
    code: F,
    reply: Option<Reply>,
    a: (S, Outcome<Op>),
)
    requires
        tame::<S, Op, Reply, F>(code),
        code.ensures((state, reply), a),
    ensures
        Machine::<S, Op, Reply, F>::turn(
            MachineModel { state: Some(state), code },
            reply,
        ) == (MachineModel { state: Some(a.0), code }, a.1@),
{
    let m = MachineModel { state: Some(state), code };
    assert(does::<S, Op, Reply, F>(m, reply, a));
}

/// A metered process does what its step function does, for a unit of fuel; without fuel it fails, and
/// does nothing more.
pub proof fn law_metered<S, Op, Reply, F: Fn(S, Option<Reply>) -> (S, Outcome<Op>)>(
    state: S,
    fuel: nat,
    code: F,
    reply: Option<Reply>,
    a: (S, Outcome<Op>),
)
    requires
        steady::<S, Op, Reply, F>(code),
        code.ensures((state, reply), a),
    ensures
        Metered::<S, Op, Reply, F>::turn(
            MeteredModel { state: Some(state), fuel: fuel + 1, code },
            reply,
        ) == (MeteredModel { state: Some(a.0), fuel, code }, a.1@),
        Metered::<S, Op, Reply, F>::turn(
            MeteredModel { state: Some(state), fuel: 0, code },
            reply,
        ) == (
            MeteredModel { state: None::<S>, fuel: 0, code },
            Turn::<Op>::Failed("out of fuel"@),
        ),
        Metered::<S, Op, Reply, F>::turn(
            MeteredModel { state: None::<S>, fuel, code },
            reply,
        ).1 is Done,
{
    let m = MeteredModel { state: Some(state), fuel: fuel + 1, code };
    assert(makes::<S, Op, Reply, F>(m, reply, a));
}

/// A program never blocks exactly if none of its objects can make a process wait.
pub proof fn law_never_blocks<O: Object>(objs: Seq<O::Model>)
    ensures
        never_blocks::<O>(objs) <==> !exists|i: int|
            0 <= i < objs.len() && O::can_block(#[trigger] objs[i]),
{
}

/// A world starts with nothing in it.
pub proof fn law_empty_world<O: Object, P: Process<Op = O::Op, Reply = O::Reply>>()
    ensures
        empty_world::<O, P>().objs.len() == 0,
        empty_world::<O, P>().pnames.len() == 0,
        empty_world::<O, P>().onames.len() == 0,
        empty_world::<O, P>().sched.procs.len() == 0,
        empty_world::<O, P>().sched.replies.len() == 0,
        empty_world::<O, P>().sched.quiet(),
{
}

/// A table is read entry by entry, each at its own place.
pub proof fn law_tables<T: View, O: Object, P: Process>(
    names: Seq<T>,
    objects: Seq<O>,
    slots: Seq<Option<P>>,
)
    ensures
        views(names).len() == names.len(),
        forall|i: int| 0 <= i < names.len() ==> #[trigger] views(names)[i] == names[i]@,
        models(objects).len() == objects.len(),
        forall|i: int| 0 <= i < objects.len() ==> #[trigger] models(objects)[i] == objects[i]@,
        slot_models(slots).len() == slots.len(),
        forall|i: int|
            0 <= i < slots.len() ==> (#[trigger] slot_models(slots)[i] is Some <==> slots[i] is Some)
                && (slots[i] is Some ==> slot_models(slots)[i]->0 == slots[i]->0@),
{
}

} // verus!
