//! The behaviour of a program.

use vstd::prelude::*;

use crate::model::coherence::remembers;
use crate::model::executor::{live_count, weight};
use crate::model::object::{Object, Transition};
use crate::model::process::{Process, ProcessID};
use crate::model::world::{
    committed, conflicting, lemma_ready_unique, ran, ready_all, world_sound, WorldModel,
};
use crate::model::state::{
    feasible, lemma_reached_sound, lemma_started_sound, lemma_step_world, reached, started,
};
use crate::search::clocks::pids;
use crate::theory::behaviour::{
    after, bounded, dep, done, en, fails, lawful, lemma_after_push, lemma_unfailing_concat, live,
    ok, step, unfailing, Beh, Obs, Word,
};
use crate::theory::history::{faithful, Hist};

verus! {

/// Process `p` has a ready operation.
pub open spec fn offers<O: Object>(objs: Seq<O::Model>, p: ProcessID) -> bool {
    exists|t: Transition| #[trigger] ready_all::<O>(objs).contains(t) && t.pid == p
}

/// The ready operation of process `p`.
pub open spec fn op_for<O: Object>(objs: Seq<O::Model>, p: ProcessID) -> Transition {
    choose|t: Transition| #[trigger] ready_all::<O>(objs).contains(t) && t.pid == p
}

/// The world after process `p` took a step; without a ready operation it takes none.
pub open spec fn stepped<O: Object, P: Process<Op = O::Op, Reply = O::Reply>>(
    w: WorldModel<O::Model, P::Model, P::Reply>,
    p: ProcessID,
) -> WorldModel<O::Model, P::Model, P::Reply> {
    if offers::<O>(w.objs, p) {
        ran::<O, P>(committed::<O, P>(w, op_for::<O>(w.objs, p))).0
    } else {
        w
    }
}

/// The world after the schedule `word`.
pub open spec fn world_after<O: Object, P: Process<Op = O::Op, Reply = O::Reply>>(
    w: WorldModel<O::Model, P::Model, P::Reply>,
    word: Word,
) -> WorldModel<O::Model, P::Model, P::Reply>
    decreases word.len(),
{
    if word.len() == 0 {
        w
    } else {
        world_after::<O, P>(stepped::<O, P>(w, word[0]), word.drop_first())
    }
}

/// What can be seen of a world.
pub open spec fn seen<O: Object, P: Process<Op = O::Op, Reply = O::Reply>>(
    w: WorldModel<O::Model, P::Model, P::Reply>,
) -> Obs {
    Obs {
        en: |p: ProcessID| offers::<O>(w.objs, p),
        dep: |p: ProcessID, q: ProcessID|
            offers::<O>(w.objs, p) && offers::<O>(w.objs, q) && conflicting::<O>(
                w.objs,
                op_for::<O>(w.objs, p),
                op_for::<O>(w.objs, q),
            ),
        fails: |p: ProcessID|
            offers::<O>(w.objs, p) && ran::<O, P>(
                committed::<O, P>(w, op_for::<O>(w.objs, p)),
            ).1 is Some,
        live: live_count(w.sched.procs) > 0,
    }
}

/// The behaviour of a world.
pub open spec fn behaviour<O: Object, P: Process<Op = O::Op, Reply = O::Reply>>(
    w: WorldModel<O::Model, P::Model, P::Reply>,
) -> Beh {
    |word: Word| seen::<O, P>(world_after::<O, P>(w, word))
}

/// The behaviour after a step is the behaviour of the world after that step.
pub proof fn lemma_step<O: Object, P: Process<Op = O::Op, Reply = O::Reply>>(
    w: WorldModel<O::Model, P::Model, P::Reply>,
    p: ProcessID,
)
    ensures
        step(behaviour::<O, P>(w), p) == behaviour::<O, P>(stepped::<O, P>(w, p)),
        en(behaviour::<O, P>(w), p) == offers::<O>(w.objs, p),
{
    let l = step(behaviour::<O, P>(w), p);
    let r = behaviour::<O, P>(stepped::<O, P>(w, p));
    assert forall|word: Word| #[trigger] l(word) == r(word) by {
        assert((seq![p] + word).drop_first() =~= word);
    }
    assert(l =~= r);
    assert(world_after::<O, P>(w, Seq::empty()) == w);
}

/// What the behaviour of a world shows before any step.
pub proof fn lemma_seen<O: Object, P: Process<Op = O::Op, Reply = O::Reply>>(
    w: WorldModel<O::Model, P::Model, P::Reply>,
    p: ProcessID,
    q: ProcessID,
)
    ensures
        en(behaviour::<O, P>(w), p) == offers::<O>(w.objs, p),
        dep(behaviour::<O, P>(w), p, q) == (offers::<O>(w.objs, p) && offers::<O>(w.objs, q)
            && conflicting::<O>(w.objs, op_for::<O>(w.objs, p), op_for::<O>(w.objs, q))),
        fails(behaviour::<O, P>(w), p) == (offers::<O>(w.objs, p) && ran::<O, P>(
            committed::<O, P>(w, op_for::<O>(w.objs, p)),
        ).1 is Some),
        live(behaviour::<O, P>(w)) == (live_count(w.sched.procs) > 0),
{
    assert(world_after::<O, P>(w, Seq::empty()) == w);
}

/// The behaviour after a schedule is the behaviour of the world after that schedule.
pub proof fn lemma_after<O: Object, P: Process<Op = O::Op, Reply = O::Reply>>(
    w: WorldModel<O::Model, P::Model, P::Reply>,
    word: Word,
)
    ensures
        after(behaviour::<O, P>(w), word) == behaviour::<O, P>(world_after::<O, P>(w, word)),
    decreases word.len(),
{
    if word.len() > 0 {
        lemma_step::<O, P>(w, word[0]);
        lemma_after::<O, P>(stepped::<O, P>(w, word[0]), word.drop_first());
    }
}

/// The one operation that a process has ready.
pub proof fn lemma_op_for<O: Object, P: Process<Op = O::Op, Reply = O::Reply>>(
    w: WorldModel<O::Model, P::Model, P::Reply>,
    t: Transition,
)
    requires
        world_sound::<O, P>(w),
        ready_all::<O>(w.objs).contains(t),
    ensures
        offers::<O>(w.objs, t.pid),
        op_for::<O>(w.objs, t.pid) == t,
{
    lemma_ready_unique::<O, P>(w.sched, w.objs, t);
    let u = op_for::<O>(w.objs, t.pid);
    assert(ready_all::<O>(w.objs).contains(u) && u.pid == t.pid);
}

/// A step keeps a quiet world sound and quiet, and spends weight.
pub proof fn lemma_step_sound<O: Object, P: Process<Op = O::Op, Reply = O::Reply>>(
    w: WorldModel<O::Model, P::Model, P::Reply>,
    p: ProcessID,
)
    requires
        world_sound::<O, P>(w),
        w.sched.quiet(),
        offers::<O>(w.objs, p),
    ensures
        world_sound::<O, P>(stepped::<O, P>(w, p)),
        stepped::<O, P>(w, p).sched.quiet(),
        weight::<P>(stepped::<O, P>(w, p).sched.procs) < weight::<P>(w.sched.procs),
        remembers::<O>(
            w.objs,
            stepped::<O, P>(w, p).objs,
            Some(op_for::<O>(w.objs, p)),
        ),
        op_for::<O>(w.objs, p).pid == p,
        ready_all::<O>(w.objs).contains(op_for::<O>(w.objs, p)),
{
    let t = op_for::<O>(w.objs, p);
    lemma_step_world::<O, P>(w, t);
}

/// A schedule has no more steps than the processes have weight.
pub proof fn lemma_bounded<O: Object, P: Process<Op = O::Op, Reply = O::Reply>>(
    w: WorldModel<O::Model, P::Model, P::Reply>,
)
    requires
        world_sound::<O, P>(w),
        w.sched.quiet(),
    ensures
        bounded(behaviour::<O, P>(w), weight::<P>(w.sched.procs)),
{
    assert forall|word: Word| #[trigger] ok(behaviour::<O, P>(w), word) implies word.len()
        <= weight::<P>(w.sched.procs) by {
        lemma_ok_sound::<O, P>(w, word);
    }
}

/// A schedule keeps a quiet world sound and quiet, and spends weight with every step.
pub proof fn lemma_ok_sound<O: Object, P: Process<Op = O::Op, Reply = O::Reply>>(
    w: WorldModel<O::Model, P::Model, P::Reply>,
    word: Word,
)
    requires
        world_sound::<O, P>(w),
        w.sched.quiet(),
        ok(behaviour::<O, P>(w), word),
    ensures
        world_sound::<O, P>(world_after::<O, P>(w, word)),
        world_after::<O, P>(w, word).sched.quiet(),
        weight::<P>(world_after::<O, P>(w, word).sched.procs) + word.len() <= weight::<P>(
            w.sched.procs,
        ),
    decreases word.len(),
{
    if word.len() > 0 {
        lemma_step::<O, P>(w, word[0]);
        lemma_step_sound::<O, P>(w, word[0]);
        lemma_ok_sound::<O, P>(stepped::<O, P>(w, word[0]), word.drop_first());
    }
}

/// The transitions that the schedule `word` commits.
pub open spec fn trace_at<O: Object, P: Process<Op = O::Op, Reply = O::Reply>>(
    w: WorldModel<O::Model, P::Model, P::Reply>,
    word: Word,
) -> Seq<Transition>
    decreases word.len(),
{
    if word.len() == 0 {
        Seq::empty()
    } else {
        trace_at::<O, P>(w, word.drop_last()).push(
            op_for::<O>(world_after::<O, P>(w, word.drop_last()).objs, word.last()),
        )
    }
}

/// Whether two events of a schedule conflict, as the objects see it at its end.
pub open spec fn history<O: Object, P: Process<Op = O::Op, Reply = O::Reply>>(
    w: WorldModel<O::Model, P::Model, P::Reply>,
) -> Hist {
    |x: Word, i: int, j: int|
        conflicting::<O>(
            world_after::<O, P>(w, x).objs,
            trace_at::<O, P>(w, x)[i],
            trace_at::<O, P>(w, x)[j],
        )
}

/// The dependency relation of the program tells the truth: operations that it calls independent
/// commute, and it judges the past as it judged it when it was the future.
pub open spec fn dependable<O: Object, P: Process<Op = O::Op, Reply = O::Reply>>(
    w: WorldModel<O::Model, P::Model, P::Reply>,
) -> bool {
    let root = started::<O, P>(w).world;
    started::<O, P>(w).failure is None ==> lawful(behaviour::<O, P>(root)) && faithful(
        behaviour::<O, P>(root),
        history::<O, P>(root),
    )
}

/// One more step at the end.
pub proof fn lemma_world_push<O: Object, P: Process<Op = O::Op, Reply = O::Reply>>(
    w: WorldModel<O::Model, P::Model, P::Reply>,
    word: Word,
    p: ProcessID,
)
    ensures
        world_after::<O, P>(w, word.push(p)) == stepped::<O, P>(world_after::<O, P>(w, word), p),
    decreases word.len(),
{
    if word.len() == 0 {
        assert(word.push(p).drop_first() =~= Seq::<ProcessID>::empty());
        assert(world_after::<O, P>(stepped::<O, P>(w, p), Seq::empty()) == stepped::<O, P>(w, p));
    } else {
        assert(word.push(p).drop_first() =~= word.drop_first().push(p));
        lemma_world_push::<O, P>(stepped::<O, P>(w, word[0]), word.drop_first(), p);
    }
}

/// A schedule of the model is a schedule of the behaviour: it commits the same transitions and
/// leads to the same world; unless it failed, no step of it did.
pub proof fn lemma_feasible<O: Object, P: Process<Op = O::Op, Reply = O::Reply>>(
    w: WorldModel<O::Model, P::Model, P::Reply>,
    trace: Seq<Transition>,
)
    requires
        world_sound::<O, P>(w),
        feasible::<O, P>(w, trace),
        started::<O, P>(w).failure is None,
    ensures
        ({
            let root = started::<O, P>(w).world;
            let b = behaviour::<O, P>(root);
            let s = reached::<O, P>(w, trace);
            &&& world_sound::<O, P>(root)
            &&& root.sched.quiet()
            &&& ok(b, pids(trace))
            &&& s.world == world_after::<O, P>(root, pids(trace))
            &&& after(b, pids(trace)) == behaviour::<O, P>(s.world)
            &&& trace_at::<O, P>(root, pids(trace)) == trace
            &&& s.failure is None ==> unfailing(b, pids(trace))
            &&& s.failure is Some ==> !unfailing(b, pids(trace)) || done(
                after(b, pids(trace)),
            ) && live(after(b, pids(trace)))
            &&& s.failure is None && done(after(b, pids(trace))) ==> !live(
                after(b, pids(trace)),
            )
        }),
    decreases trace.len(),
{
    let root = started::<O, P>(w).world;
    let b = behaviour::<O, P>(root);
    let x = pids(trace);
    lemma_started_sound::<O, P>(w);
    lemma_after::<O, P>(root, x);
    if trace.len() == 0 {
        assert(x =~= Seq::<ProcessID>::empty());
        assert(trace_at::<O, P>(root, x) =~= trace);
        lemma_seen::<O, P>(root, 0, 0);
        lemma_done::<O, P>(root);
    } else {
        let init = trace.drop_last();
        let t = trace.last();
        let y = pids(init);
        assert(x =~= y.push(t.pid));
        lemma_feasible::<O, P>(w, init);
        let s = reached::<O, P>(w, init);
        lemma_reached_sound::<O, P>(w, init);
        lemma_op_for::<O, P>(s.world, t);
        lemma_world_push::<O, P>(root, y, t.pid);
        lemma_step::<O, P>(s.world, t.pid);
        lemma_seen::<O, P>(s.world, t.pid, t.pid);
        lemma_after_push(b, y, t.pid);
        assert(x.drop_last() =~= y);
        assert(trace =~= init.push(t));
        let s2 = reached::<O, P>(w, trace);
        assert(s2.world == stepped::<O, P>(s.world, t.pid));
        assert(y + seq![t.pid] =~= x);
        lemma_unfailing_concat(b, y, seq![t.pid]);
        assert(unfailing(after(b, y), seq![t.pid]) == !fails(after(b, y), t.pid)) by {
            assert(seq![t.pid].drop_first() =~= Seq::<ProcessID>::empty());
            assert(unfailing(step(after(b, y), t.pid), Seq::<ProcessID>::empty()));
        }
        lemma_seen::<O, P>(s2.world, 0, 0);
        lemma_done::<O, P>(s2.world);
    }
}

/// No process can step exactly when nothing is ready.
pub proof fn lemma_done<O: Object, P: Process<Op = O::Op, Reply = O::Reply>>(
    w: WorldModel<O::Model, P::Model, P::Reply>,
)
    ensures
        done(behaviour::<O, P>(w)) <==> ready_all::<O>(w.objs).len() == 0,
{
    let b = behaviour::<O, P>(w);
    if ready_all::<O>(w.objs).len() > 0 {
        let t = ready_all::<O>(w.objs)[0];
        assert(ready_all::<O>(w.objs).contains(t));
        lemma_step::<O, P>(w, t.pid);
        assert(en(b, t.pid));
    } else {
        assert forall|p: ProcessID| !#[trigger] en(b, p) by {
            lemma_step::<O, P>(w, p);
            if offers::<O>(w.objs, p) {
                assert(ready_all::<O>(w.objs).contains(op_for::<O>(w.objs, p)));
            }
        }
    }
}

} // verus!
