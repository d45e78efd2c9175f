//! The driver keeps its books: whatever it does to its stack, the ledger of what is explored and
//! of what is still owed stays right.

use vstd::prelude::*;

use crate::model::executor::weight;
use crate::model::object::{Object, Transition};
use crate::model::process::{Process, ProcessID};
use crate::model::state::{
    feasible, lemma_feasible_prefix, lemma_reached_sound, lemma_started_sound, reached, started,
};
use crate::model::world::{ready_all, world_sound, WorldModel};
use crate::search::clocks::{pids, race};
use crate::search::exhaustive::clean;
use crate::search::observer::{sleeps, RaceOutcome};
use crate::search::optimal::{reversed, seeded, stacked};
use crate::search::reversal::{lemma_goes_on, still_asleep, walkable};
use crate::search::wakeup::{node, replaced, Frame, Wut};
use crate::theory::behaviour::{after, en, fails, ok, Word};
use crate::theory::cover::{reversal, someone, stems};
use crate::theory::ledger::{
    balanced, fair, kids_fit, lemma_closed, lemma_completed, lemma_descended, lemma_opened,
    lemma_planned, lemma_popped, lemma_seeded, level, topped, Ledger,
};
use crate::theory::planting::kid;
use crate::theory::program::{
    behaviour, dependable, lemma_bounded, lemma_done, lemma_feasible, lemma_op_for, lemma_seen,
    lemma_step, offers,
};
use crate::theory::taint::racy;
use crate::theory::traces::{
    complete, lemma_clean, lemma_explored, lemma_reversal, reversing, runs, whole,
};

verus! {

/// How many steps a schedule of the program can have.
pub open spec fn longest<O: Object, P: Process<Op = O::Op, Reply = O::Reply>>(
    w: WorldModel<O::Model, P::Model, P::Reply>,
) -> nat {
    weight::<P>(started::<O, P>(w).world.sched.procs)
}

/// The books are right, for a program whose dependency relation can be relied on.
pub closed spec fn booked<O: Object, P: Process<Op = O::Op, Reply = O::Reply>>(
    w: WorldModel<O::Model, P::Model, P::Reply>,
    tree: Wut,
    frames: Seq<Frame>,
    prefix: Seq<Transition>,
    led: Ledger,
) -> bool {
    dependable::<O, P>(w) ==> balanced(
        whole::<O, P>(w),
        longest::<O, P>(w),
        tree,
        sleeps(frames),
        pids(prefix),
        led,
    )
}

/// The top of the stack is explored, or there is something to explore.
pub closed spec fn ahead<O: Object, P: Process<Op = O::Op, Reply = O::Reply>>(
    w: WorldModel<O::Model, P::Model, P::Reply>,
    tree: Wut,
    frames: Seq<Frame>,
    prefix: Seq<Transition>,
    led: Ledger,
) -> bool {
    dependable::<O, P>(w) ==> topped(
        whole::<O, P>(w),
        tree,
        sleeps(frames),
        pids(prefix),
        led,
    )
}

/// The race of events `m` and `j` has been seen to.
pub open spec fn mended<O: Object, P: Process<Op = O::Op, Reply = O::Reply>>(
    w: WorldModel<O::Model, P::Model, P::Reply>,
    trace: Seq<Transition>,
    led: Ledger,
    m: int,
    j: int,
) -> bool {
    let objs = reached::<O, P>(w, trace).world.objs;
    let v = pids(reversing::<O>(objs, trace, m, j));
    race::<O>(objs, trace, m, j) && walkable(after(whole::<O, P>(w), pids(trace).take(m)), v)
        ==> led.goals[m].contains(v)
}

/// A schedule that has not failed runs, and so do its prefixes.
pub proof fn lemma_runs<O: Object, P: Process<Op = O::Op, Reply = O::Reply>>(
    w: WorldModel<O::Model, P::Model, P::Reply>,
    trace: Seq<Transition>,
    m: int,
)
    requires
        world_sound::<O, P>(w),
        feasible::<O, P>(w, trace),
        reached::<O, P>(w, trace).failure is None,
        0 <= m <= trace.len(),
    ensures
        runs::<O, P>(w, trace),
        runs::<O, P>(w, trace.take(m)),
        pids(trace.take(m)) == pids(trace).take(m),
        after(whole::<O, P>(w), pids(trace).take(m)) == behaviour::<O, P>(
            reached::<O, P>(w, trace.take(m)).world,
        ),
    decreases trace.len(),
{
    assert(pids(trace.take(m)) =~= pids(trace).take(m));
    lemma_feasible_prefix::<O, P>(w, trace, m);
    if trace.len() > 0 {
        let init = trace.drop_last();
        lemma_runs::<O, P>(w, init, if m < trace.len() { m } else { 0 });
        if m < trace.len() {
            assert(init.take(m) =~= trace.take(m));
        } else {
            assert(trace.take(m) =~= trace);
            lemma_feasible::<O, P>(w, trace);
        }
    } else {
        assert(trace.take(m) =~= trace);
        lemma_feasible::<O, P>(w, trace);
    }
}

/// The books at the start: nothing is explored, unless there is nothing to do.
pub proof fn lemma_book_start<O: Object, P: Process<Op = O::Op, Reply = O::Reply>>(
    w: WorldModel<O::Model, P::Model, P::Reply>,
    tree: Wut,
    frames: Seq<Frame>,
) -> (led: Ledger)
    requires
        world_sound::<O, P>(w),
        started::<O, P>(w).failure is None,
        frames.len() == 1,
        frames[0].sleep@.len() == 0,
        if ready_all::<O>(started::<O, P>(w).world.objs).len() == 0 {
            tree.len() == 0
        } else {
            tree.len() == 1 && tree.sub(0).len() == 0 && offers::<O>(
                started::<O, P>(w).world.objs,
                tree.head(0),
            )
        },
    ensures
        booked::<O, P>(w, tree, frames, Seq::empty(), led),
        ahead::<O, P>(w, tree, frames, Seq::empty(), led),
        dependable::<O, P>(w) && ready_all::<O>(started::<O, P>(w).world.objs).len() > 0
            ==> led.xs.len() == 0,
{
    let root = started::<O, P>(w).world;
    let none = Seq::<Transition>::empty();
    assert(pids(none) =~= Seq::<ProcessID>::empty());
    assert(sleeps(frames) =~= seq![Seq::<ProcessID>::empty()]) by {
        assert(frames[0].sleep@ =~= Seq::<ProcessID>::empty());
    }
    if dependable::<O, P>(w) {
        lemma_started_sound::<O, P>(w);
        lemma_bounded::<O, P>(root);
        lemma_done::<O, P>(root);
        lemma_feasible::<O, P>(w, none);
        if tree.len() > 0 {
            lemma_step::<O, P>(root, tree.head(0));
        }
        lemma_opened(whole::<O, P>(w), longest::<O, P>(w), tree)
    } else {
        Ledger { xs: Seq::empty(), goals: Seq::empty(), entry: Seq::empty() }
    }
}

/// The first child of the top of the stack can be explored.
pub proof fn lemma_book_next<O: Object, P: Process<Op = O::Op, Reply = O::Reply>>(
    w: WorldModel<O::Model, P::Model, P::Reply>,
    tree: Wut,
    frames: Seq<Frame>,
    prefix: Seq<Transition>,
    led: Ledger,
)
    requires
        world_sound::<O, P>(w),
        dependable::<O, P>(w),
        stacked::<O, P>(w, tree, frames, prefix),
        booked::<O, P>(w, tree, frames, prefix, led),
        node(tree, prefix.len()).len() > 0,
    ensures
        offers::<O>(
            reached::<O, P>(w, prefix).world.objs,
            node(tree, prefix.len()).head(0),
        ),
        !frames.last().sleep@.contains(node(tree, prefix.len()).head(0)),
{
    reveal(stacked);
    let e = pids(prefix);
    let d = prefix.len() as int;
    lemma_runs::<O, P>(w, prefix, d);
    assert(prefix.take(d) =~= prefix);
    assert(e.take(d) =~= e);
    assert(level(whole::<O, P>(w), tree, sleeps(frames), e, led, d));
    let b = after(whole::<O, P>(w), e);
    assert(kids_fit(b, sleeps(frames)[d], node(tree, prefix.len()), 0));
    assert(kid(b, sleeps(frames)[d], node(tree, prefix.len()), 0));
    lemma_step::<O, P>(reached::<O, P>(w, prefix).world, node(tree, prefix.len()).head(0));
}

/// The driver descends into the first child of the top of the stack.
pub proof fn lemma_book_down<O: Object, P: Process<Op = O::Op, Reply = O::Reply>>(
    w: WorldModel<O::Model, P::Model, P::Reply>,
    tree: Wut,
    frames: Seq<Frame>,
    frames2: Seq<Frame>,
    prefix: Seq<Transition>,
    t: Transition,
    led: Ledger,
) -> (led2: Ledger)
    requires
        world_sound::<O, P>(w),
        stacked::<O, P>(w, tree, frames, prefix),
        stacked::<O, P>(w, tree, frames2, prefix.push(t)),
        booked::<O, P>(w, tree, frames, prefix, led),
        node(tree, prefix.len()).len() > 0,
        node(tree, prefix.len()).head(0) == t.pid,
        frames2.len() == frames.len() + 1,
        forall|m: int| 0 <= m < frames.len() ==> #[trigger] frames2[m] == frames[m],
        frames2.last().sleep@ == still_asleep(
            behaviour::<O, P>(reached::<O, P>(w, prefix).world),
            frames.last().sleep@,
            t.pid,
        ),
    ensures
        booked::<O, P>(w, tree, frames2, prefix.push(t), led2),
        led2.xs == led.xs,
        dependable::<O, P>(w) ==> {
            &&& forall|i: int|
                0 <= i < led.xs.len() ==> !stems(#[trigger] led.xs[i], pids(prefix.push(t)))
            &&& node(tree, prefix.len() + 1).len() == 0 ==> led2.goals.last() == Set::<
                Word,
            >::empty() && frames2.last().sleep@.len() == 0
        },
{
    reveal(stacked);
    if dependable::<O, P>(w) {
        let b0 = whole::<O, P>(w);
        let e = pids(prefix);
        let d = prefix.len() as int;
        let s = reached::<O, P>(w, prefix);
        lemma_runs::<O, P>(w, prefix, d);
        lemma_runs::<O, P>(w, prefix.push(t), d);
        assert(prefix.take(d) =~= prefix);
        assert(e.take(d) =~= e);
        assert(pids(prefix.push(t)) =~= e.push(t.pid));
        assert(prefix.push(t).drop_last() =~= prefix);
        lemma_reached_sound::<O, P>(w, prefix);
        lemma_op_for::<O, P>(s.world, t);
        lemma_goes_on::<O, P>(s.world, t);
        lemma_seen::<O, P>(s.world, t.pid, t.pid);
        assert(!fails(after(b0, e), t.pid));
        let led2 = lemma_descended(b0, longest::<O, P>(w), tree, sleeps(frames), e, led);
        assert(sleeps(frames2) =~= sleeps(frames).push(frames2.last().sleep@));
        led2
    } else {
        led
    }
}

/// The driver seeds the top of the stack, which is not the end of a schedule. There is then
/// something to explore that is awake, if the dependency relation can be relied on: the driver is
/// never stuck with all that could go on asleep.
pub proof fn lemma_book_seed<O: Object, P: Process<Op = O::Op, Reply = O::Reply>>(
    w: WorldModel<O::Model, P::Model, P::Reply>,
    tree: Wut,
    tree2: Wut,
    frames: Seq<Frame>,
    prefix: Seq<Transition>,
    led: Ledger,
)
    requires
        world_sound::<O, P>(w),
        stacked::<O, P>(w, tree, frames, prefix),
        booked::<O, P>(w, tree, frames, prefix, led),
        dependable::<O, P>(w) && node(tree, prefix.len()).len() == 0 ==> led.goals.last()
            == Set::<Word>::empty() && frames.last().sleep@.len() == 0,
        ready_all::<O>(reached::<O, P>(w, prefix).world.objs).len() > 0,
        replaced(tree, tree2, prefix.len(), node(tree2, prefix.len())),
        seeded::<O, P>(
            reached::<O, P>(w, prefix).world,
            frames.last().sleep@,
            node(tree, prefix.len()),
            node(tree2, prefix.len()),
        ),
        node(tree, prefix.len()).len() > 0 ==> tree2 == tree,
    ensures
        booked::<O, P>(w, tree2, frames, prefix, led),
        ahead::<O, P>(w, tree2, frames, prefix, led),
        dependable::<O, P>(w) ==> node(tree2, prefix.len()).len() > 0
            && !frames.last().sleep@.contains(node(tree2, prefix.len()).head(0)),
{
    reveal(stacked);
    if dependable::<O, P>(w) {
        let b0 = whole::<O, P>(w);
        let e = pids(prefix);
        let d = prefix.len() as int;
        let world = reached::<O, P>(w, prefix).world;
        let n = node(tree2, prefix.len());
        lemma_runs::<O, P>(w, prefix, d);
        assert(prefix.take(d) =~= prefix);
        assert(e.take(d) =~= e);
        lemma_done::<O, P>(world);
        if node(tree, prefix.len()).len() == 0 {
            let q = choose|q: ProcessID| en(behaviour::<O, P>(world), q);
            lemma_step::<O, P>(world, q);
            assert(offers::<O>(world.objs, q));
            assert(!frames.last().sleep@.contains(q));
            lemma_step::<O, P>(world, n.head(0));
            lemma_seeded(b0, longest::<O, P>(w), tree, tree2, sleeps(frames), e, led);
        } else {
            lemma_book_next::<O, P>(w, tree, frames, prefix, led);
        }
    }
}

/// The stack's schedule is complete, and its races have been seen to.
pub proof fn lemma_book_end<O: Object, P: Process<Op = O::Op, Reply = O::Reply>>(
    w: WorldModel<O::Model, P::Model, P::Reply>,
    tree: Wut,
    frames: Seq<Frame>,
    prefix: Seq<Transition>,
    led: Ledger,
) -> (led2: Ledger)
    requires
        world_sound::<O, P>(w),
        stacked::<O, P>(w, tree, frames, prefix),
        booked::<O, P>(w, tree, frames, prefix, led),
        ready_all::<O>(reached::<O, P>(w, prefix).world.objs).len() == 0,
        dependable::<O, P>(w) ==> {
            &&& forall|i: int|
                0 <= i < led.xs.len() ==> !stems(#[trigger] led.xs[i], pids(prefix))
            &&& forall|m: int, j: int|
                0 <= m < j < prefix.len() ==> #[trigger] mended::<O, P>(w, prefix, led, m, j)
        },
    ensures
        booked::<O, P>(w, tree, frames, prefix, led2),
        ahead::<O, P>(w, tree, frames, prefix, led2),
        led2.xs == led.xs.push(pids(prefix)),
{
    reveal(stacked);
    if dependable::<O, P>(w) {
        let b0 = whole::<O, P>(w);
        let e = pids(prefix);
        let d = prefix.len() as int;
        lemma_runs::<O, P>(w, prefix, d);
        assert(prefix.take(d) =~= prefix);
        assert(e.take(d) =~= e);
        lemma_feasible::<O, P>(w, prefix);
        lemma_done::<O, P>(reached::<O, P>(w, prefix).world);
        assert forall|m: int, p: ProcessID|
            0 <= m < e.len() && p != e[m] && racy(
                after(b0, e.take(m)),
                seq![e[m]],
                e.skip(m + 1),
                p,
            ) && ok(
                after(b0, e.take(m)),
                reversal(after(b0, e.take(m)), e, e.take(m), p),
            ) implies #[trigger] led.goals[m].contains(
            reversal(after(b0, e.take(m)), e, e.take(m), p),
        ) by {
            let j = lemma_reversal::<O, P>(w, prefix, m, p);
            assert(mended::<O, P>(w, prefix, led, m, j));
        }
        lemma_completed(b0, longest::<O, P>(w), tree, sleeps(frames), e, led)
    } else {
        Ledger { xs: led.xs.push(pids(prefix)), ..led }
    }
}

/// The race that `v` reverses has been seen to.
pub proof fn lemma_book_race<O: Object, P: Process<Op = O::Op, Reply = O::Reply>>(
    w: WorldModel<O::Model, P::Model, P::Reply>,
    tree: Wut,
    tree2: Wut,
    frames: Seq<Frame>,
    trace: Seq<Transition>,
    led: Ledger,
    depth: usize,
    v: Seq<Transition>,
    outcome: RaceOutcome,
) -> (led2: Ledger)
    requires
        world_sound::<O, P>(w),
        depth < trace.len(),
        v.len() > 0,
        stacked::<O, P>(w, tree, frames, trace),
        stacked::<O, P>(w, tree2, frames, trace),
        booked::<O, P>(w, tree, frames, trace, led),
        !(outcome is Disabling),
        reversed::<O, P>(
            behaviour::<O, P>(reached::<O, P>(w, trace.take(depth as int)).world),
            frames[depth as int].sleep@,
            tree,
            tree2,
            depth,
            v,
            outcome,
        ),
        forall|m: nat| depth < m <= trace.len() ==> #[trigger] node(tree2, m) == node(tree, m),
    ensures
        booked::<O, P>(w, tree2, frames, trace, led2),
        led2.xs == led.xs,
        dependable::<O, P>(w) ==> led.goals.len() == trace.len() + 1 && led2.goals == led.goals.update(
            depth as int,
            led.goals[depth as int].insert(pids(v)),
        ),
{
    reveal(stacked);
    if dependable::<O, P>(w) {
        let e = pids(trace);
        lemma_runs::<O, P>(w, trace, depth as int);
        assert(sleeps(frames)[depth as int] == frames[depth as int].sleep@);
        let b = after(whole::<O, P>(w), e.take(depth as int));
        if let RaceOutcome::CoveredBySleeper { insert_depth, covering_pid } = outcome {
            assert(someone(b, sleeps(frames)[depth as int], pids(v)));
        }
        lemma_planned(
            whole::<O, P>(w),
            longest::<O, P>(w),
            tree,
            tree2,
            sleeps(frames),
            e,
            led,
            depth as int,
            v,
        )
    } else {
        led
    }
}

/// A program whose dependency relation cannot be relied on has no books to keep.
pub proof fn lemma_book_void<O: Object, P: Process<Op = O::Op, Reply = O::Reply>>(
    w: WorldModel<O::Model, P::Model, P::Reply>,
    tree: Wut,
    frames: Seq<Frame>,
    prefix: Seq<Transition>,
    led: Ledger,
)
    requires
        !dependable::<O, P>(w),
    ensures
        booked::<O, P>(w, tree, frames, prefix, led),
        ahead::<O, P>(w, tree, frames, prefix, led),
{
}

/// The driver backs out of an exhausted node.
pub proof fn lemma_book_up<O: Object, P: Process<Op = O::Op, Reply = O::Reply>>(
    w: WorldModel<O::Model, P::Model, P::Reply>,
    tree: Wut,
    tree2: Wut,
    frames: Seq<Frame>,
    frames2: Seq<Frame>,
    prefix: Seq<Transition>,
    led: Ledger,
) -> (led2: Ledger)
    requires
        prefix.len() > 0,
        frames.len() == prefix.len() + 1,
        booked::<O, P>(w, tree, frames, prefix, led),
        ahead::<O, P>(w, tree, frames, prefix, led),
        node(tree, prefix.len()).len() == 0,
        replaced(tree, tree2, (prefix.len() - 1) as nat, node(tree2, (prefix.len() - 1) as nat)),
        node(tree2, (prefix.len() - 1) as nat).children@ == node(
            tree,
            (prefix.len() - 1) as nat,
        ).children@.remove(0),
        frames2.len() == frames.len() - 1,
        forall|m: int| 0 <= m < prefix.len() - 1 ==> #[trigger] frames2[m] == frames[m],
        frames2.last().sleep@ == frames[prefix.len() - 1].sleep@.push(prefix.last().pid),
    ensures
        booked::<O, P>(w, tree2, frames2, prefix.drop_last(), led2),
        ahead::<O, P>(w, tree2, frames2, prefix.drop_last(), led2),
        led2.xs == led.xs,
{
    if dependable::<O, P>(w) {
        let e = pids(prefix);
        let d = prefix.len() - 1;
        let before = sleeps(frames);
        assert(pids(prefix.drop_last()) =~= e.drop_last());
        assert(sleeps(frames2) =~= before.drop_last().update(d, before[d].push(e[d])));
        lemma_popped(whole::<O, P>(w), longest::<O, P>(w), tree, tree2, before, e, led)
    } else {
        led
    }
}

/// No two of the explored schedules are of one class.
pub proof fn lemma_book_fair<O: Object, P: Process<Op = O::Op, Reply = O::Reply>>(
    w: WorldModel<O::Model, P::Model, P::Reply>,
    tree: Wut,
    frames: Seq<Frame>,
    prefix: Seq<Transition>,
    led: Ledger,
)
    requires
        dependable::<O, P>(w),
        booked::<O, P>(w, tree, frames, prefix, led),
    ensures
        fair(whole::<O, P>(w), led.xs),
{
}

/// At the exhausted root, all classes are explored, and the program is clean.
pub proof fn lemma_book_over<O: Object, P: Process<Op = O::Op, Reply = O::Reply>>(
    w: WorldModel<O::Model, P::Model, P::Reply>,
    tree: Wut,
    frames: Seq<Frame>,
    led: Ledger,
)
    requires
        dependable::<O, P>(w),
        world_sound::<O, P>(w),
        started::<O, P>(w).failure is None,
        frames.len() == 1,
        booked::<O, P>(w, tree, frames, Seq::empty(), led),
        ahead::<O, P>(w, tree, frames, Seq::empty(), led),
        node(tree, 0).len() == 0,
    ensures
        fair(whole::<O, P>(w), led.xs),
        complete(whole::<O, P>(w), led.xs),
        clean::<O, P>(w),
{
    let b0 = whole::<O, P>(w);
    let e = pids(Seq::<Transition>::empty());
    assert(e =~= Seq::<ProcessID>::empty());
    lemma_closed(b0, longest::<O, P>(w), tree, sleeps(frames), e, led);
    assert(sleeps(frames).last().take(0) =~= Seq::<ProcessID>::empty());
    lemma_explored(b0, led.xs);
    lemma_clean::<O, P>(w, longest::<O, P>(w), led.xs);
}

} // verus!
