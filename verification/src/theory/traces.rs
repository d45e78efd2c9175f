//! The traces of a program as schedules of its behaviour: happens-before, races and reversals
//! are those of the schedule, and a program whose classes are all explored is clean.

use vstd::prelude::*;

use crate::model::object::{Object, Transition};
use crate::model::process::{Process, ProcessID};
use crate::model::state::{feasible, reached, started};
use crate::model::world::{ready_all, world_sound, WorldModel};
use crate::search::clocks::{before, edge, lemma_before_trans, pids, race, unordered};
use crate::search::exhaustive::clean;
use crate::search::reversal::walkable;
use crate::theory::behaviour::{
    after, bounded, done, en, lawful, lemma_after_concat, lemma_after_push, lemma_lawful_after,
    lemma_unfailing_concat, maximal, ok, step, unfailing, Beh, Word,
};
use crate::theory::cover::{covers, explored, reversal, someone, stems};
use crate::theory::history::{follows, lemma_history, linked, races, unrelated};
use crate::theory::initials::{eqv, lemma_eqv_ok};
use crate::theory::ledger::fair;
use crate::theory::program::{behaviour, dependable, history, lemma_done, lemma_feasible};
use crate::theory::taint::{kept, lemma_kept_unfailing, racy};

verus! {

/// `trace` is what the program `w` commits along a schedule that does not fail.
pub open spec fn runs<O: Object, P: Process<Op = O::Op, Reply = O::Reply>>(
    w: WorldModel<O::Model, P::Model, P::Reply>,
    trace: Seq<Transition>,
) -> bool {
    &&& world_sound::<O, P>(w)
    &&& started::<O, P>(w).failure is None
    &&& feasible::<O, P>(w, trace)
    &&& reached::<O, P>(w, trace).failure is None
}

/// A complete schedule that ends cleanly: nothing is left to do, and nothing failed.
pub open spec fn finished<O: Object, P: Process<Op = O::Op, Reply = O::Reply>>(
    w: WorldModel<O::Model, P::Model, P::Reply>,
    trace: Seq<Transition>,
) -> bool {
    runs::<O, P>(w, trace) && ready_all::<O>(reached::<O, P>(w, trace).world.objs).len() == 0
}

/// Two schedules differ in the order of independent steps alone.
pub open spec fn same_class<O: Object, P: Process<Op = O::Op, Reply = O::Reply>>(
    w: WorldModel<O::Model, P::Model, P::Reply>,
    t: Seq<Transition>,
    u: Seq<Transition>,
) -> bool {
    eqv(whole::<O, P>(w), pids(t), pids(u))
}

/// `ts` holds one schedule of every class: complete ones, no two of one class, and one for
/// every complete schedule of the program.
pub open spec fn one_per_class<O: Object, P: Process<Op = O::Op, Reply = O::Reply>>(
    w: WorldModel<O::Model, P::Model, P::Reply>,
    ts: Seq<Seq<Transition>>,
) -> bool {
    &&& forall|i: int| 0 <= i < ts.len() ==> finished::<O, P>(w, #[trigger] ts[i])
    &&& forall|i: int, j: int|
        0 <= i < j < ts.len() ==> !same_class::<O, P>(w, #[trigger] ts[i], #[trigger] ts[j])
    &&& forall|u: Seq<Transition>| #[trigger]
        finished::<O, P>(w, u) ==> exists|i: int|
            0 <= i < ts.len() && same_class::<O, P>(w, #[trigger] ts[i], u)
}

/// The behaviour of the program from its start.
pub open spec fn whole<O: Object, P: Process<Op = O::Op, Reply = O::Reply>>(
    w: WorldModel<O::Model, P::Model, P::Reply>,
) -> Beh {
    behaviour::<O, P>(started::<O, P>(w).world)
}

/// Edges of the trace are links of the schedule.
proof fn lemma_edge<O: Object, P: Process<Op = O::Op, Reply = O::Reply>>(
    w: WorldModel<O::Model, P::Model, P::Reply>,
    trace: Seq<Transition>,
    l: int,
    i: int,
)
    requires
        runs::<O, P>(w, trace),
        0 <= l < trace.len(),
        0 <= i < trace.len(),
    ensures
        edge::<O>(reached::<O, P>(w, trace).world.objs, trace, l, i) == linked(
            history::<O, P>(started::<O, P>(w).world),
            pids(trace),
            l,
            i,
        ),
{
    lemma_feasible::<O, P>(w, trace);
}

/// Happens-before in the trace is what follows in the schedule.
proof fn lemma_before<O: Object, P: Process<Op = O::Op, Reply = O::Reply>>(
    w: WorldModel<O::Model, P::Model, P::Reply>,
    trace: Seq<Transition>,
    m: int,
    i: int,
)
    requires
        runs::<O, P>(w, trace),
        0 <= m <= i < trace.len(),
    ensures
        before::<O>(reached::<O, P>(w, trace).world.objs, trace, m, i) == follows(
            history::<O, P>(started::<O, P>(w).world),
            pids(trace),
            m,
            i,
        ),
    decreases i - m,
{
    let objs = reached::<O, P>(w, trace).world.objs;
    let h = history::<O, P>(started::<O, P>(w).world);
    let x = pids(trace);
    if m < i {
        assert forall|l: int| m <= l < i implies before::<O>(objs, trace, m, l) == follows(
            h,
            x,
            m,
            l,
        ) && #[trigger] edge::<O>(objs, trace, l, i) == linked(h, x, l, i) by {
            lemma_before::<O, P>(w, trace, m, l);
            lemma_edge::<O, P>(w, trace, l, i);
        }
        if before::<O>(objs, trace, m, i) {
            let l = choose|l: int|
                m <= l < i && before::<O>(objs, trace, m, l) && #[trigger] edge::<O>(
                    objs,
                    trace,
                    l,
                    i,
                );
            assert(linked(h, x, l, i));
        }
        if follows(h, x, m, i) {
            let l = choose|l: int|
                m <= l < i && follows(h, x, m, l) && #[trigger] linked(h, x, l, i);
            assert(edge::<O>(objs, trace, l, i));
        }
    }
}

/// The events that do not happen after event `m` are the steps that do not follow from it.
proof fn lemma_unordered<O: Object, P: Process<Op = O::Op, Reply = O::Reply>>(
    w: WorldModel<O::Model, P::Model, P::Reply>,
    trace: Seq<Transition>,
    m: int,
    k: int,
)
    requires
        runs::<O, P>(w, trace),
        0 <= m < k,
    ensures
        pids(unordered::<O>(reached::<O, P>(w, trace).world.objs, trace, m, k)) == unrelated(
            history::<O, P>(started::<O, P>(w).world),
            pids(trace),
            m,
            k,
        ),
    decreases trace.len() - k,
{
    let objs = reached::<O, P>(w, trace).world.objs;
    if k < trace.len() {
        lemma_unordered::<O, P>(w, trace, m, k + 1);
        lemma_before::<O, P>(w, trace, m, k);
        let rest = unordered::<O>(objs, trace, m, k + 1);
        assert(pids(seq![trace[k]] + rest) =~= seq![pids(trace)[k]] + pids(rest));
    } else {
        assert(pids(Seq::<Transition>::empty()) =~= Seq::<ProcessID>::empty());
    }
}

/// A race of the schedule is a reversible race of the trace.
proof fn lemma_races<O: Object, P: Process<Op = O::Op, Reply = O::Reply>>(
    w: WorldModel<O::Model, P::Model, P::Reply>,
    trace: Seq<Transition>,
    m: int,
    j: int,
)
    requires
        runs::<O, P>(w, trace),
        0 <= m,
        races(history::<O, P>(started::<O, P>(w).world), pids(trace), m, j),
        trace[m].pid != trace[j].pid,
    ensures
        race::<O>(reached::<O, P>(w, trace).world.objs, trace, m, j),
{
    let objs = reached::<O, P>(w, trace).world.objs;
    let h = history::<O, P>(started::<O, P>(w).world);
    let x = pids(trace);
    let l = choose|l: int| m <= l < j && follows(h, x, m, l) && #[trigger] linked(h, x, l, j);
    assert(l == m);
    lemma_edge::<O, P>(w, trace, m, j);
    assert forall|i: int| m < i < j implies !(#[trigger] before::<O>(objs, trace, m, i)
        && before::<O>(objs, trace, i, j)) by {
        if before::<O>(objs, trace, m, i) && before::<O>(objs, trace, i, j) {
            let k = choose|k: int|
                i <= k < j && before::<O>(objs, trace, i, k) && #[trigger] edge::<O>(
                    objs,
                    trace,
                    k,
                    j,
                );
            lemma_before_trans::<O>(objs, trace, m, i, k);
            lemma_before::<O, P>(w, trace, m, k);
            lemma_edge::<O, P>(w, trace, k, j);
            assert(follows(h, x, m, k) && linked(h, x, k, j));
        }
    }
}

/// The fragment that reverses the race of events `m` and `j`.
pub open spec fn reversing<O: Object>(
    objs: Seq<O::Model>,
    trace: Seq<Transition>,
    m: int,
    j: int,
) -> Seq<Transition> {
    unordered::<O>(objs, trace, m, m + 1).push(trace[j])
}

/// A word that can be run, and fails at most in its last step, can be walked.
proof fn lemma_walkable(b: Beh, v: Word, p: ProcessID)
    requires
        ok(b, v.push(p)),
        unfailing(b, v),
    ensures
        walkable(b, v.push(p)),
    decreases v.len(),
{
    if v.len() > 0 {
        assert(v.push(p).drop_first() =~= v.drop_first().push(p));
        lemma_walkable(step(b, v[0]), v.drop_first(), p);
    }
}

/// A race of the behaviour at depth `m` is a reversible race of the trace, whose reversing
/// fragment can be walked if it can be run.
pub proof fn lemma_reversal<O: Object, P: Process<Op = O::Op, Reply = O::Reply>>(
    w: WorldModel<O::Model, P::Model, P::Reply>,
    trace: Seq<Transition>,
    m: int,
    p: ProcessID,
) -> (j: int)
    requires
        runs::<O, P>(w, trace),
        dependable::<O, P>(w),
        0 <= m < trace.len(),
        p != trace[m].pid,
        ({
            let b = after(whole::<O, P>(w), pids(trace).take(m));
            &&& racy(b, seq![pids(trace)[m]], pids(trace).skip(m + 1), p)
            &&& ok(b, reversal(b, pids(trace), pids(trace).take(m), p))
        }),
    ensures
        m < j < trace.len(),
        race::<O>(reached::<O, P>(w, trace).world.objs, trace, m, j),
        ({
            let b = after(whole::<O, P>(w), pids(trace).take(m));
            let v = pids(reversing::<O>(reached::<O, P>(w, trace).world.objs, trace, m, j));
            &&& v == reversal(b, pids(trace), pids(trace).take(m), p)
            &&& walkable(b, v)
        }),
{
    let b0 = whole::<O, P>(w);
    let h = history::<O, P>(started::<O, P>(w).world);
    let objs = reached::<O, P>(w, trace).world.objs;
    let x = pids(trace);
    let e = x.take(m);
    let b = after(b0, e);
    lemma_feasible::<O, P>(w, trace);
    lemma_history(b0, h, x, m, p);
    let j = choose|j: int| m < j < x.len() && x[j] == p && #[trigger] races(h, x, m, j);
    lemma_races::<O, P>(w, trace, m, j);
    lemma_unordered::<O, P>(w, trace, m, m + 1);
    let u = unordered::<O>(objs, trace, m, m + 1);
    assert(pids(u.push(trace[j])) =~= pids(u).push(p));
    assert(x =~= e + x.skip(m));
    lemma_after_concat(b0, e, x.skip(m));
    lemma_lawful_after(b0, e);
    lemma_unfailing_concat(b0, e, x.skip(m));
    let t = seq![x[m]];
    assert(x.skip(m) =~= t + x.skip(m + 1));
    lemma_after_concat(b, t, x.skip(m + 1));
    lemma_unfailing_concat(b, t, x.skip(m + 1));
    lemma_kept_unfailing(b, t, x.skip(m + 1));
    lemma_walkable(b, kept(b, t, x.skip(m + 1)), p);
    j
}

/// A schedule can be run to its end.
proof fn lemma_complete(b: Beh, n: nat, x: Word) -> (z: Word)
    requires
        bounded(b, n),
        ok(b, x),
    ensures
        maximal(b, x + z),
    decreases n - x.len(),
{
    assert(x.len() <= n);
    if done(after(b, x)) {
        assert(x + Seq::<ProcessID>::empty() =~= x);
        Seq::empty()
    } else {
        let p = choose|p: ProcessID| en(after(b, x), p);
        lemma_after_push(b, x, p);
        assert(ok(b, x.push(p)));
        let z = lemma_complete(b, n, x.push(p));
        assert(x + (seq![p] + z) =~= x.push(p) + z);
        seq![p] + z
    }
}

/// Every complete schedule is in the class of an explored one.
pub open spec fn complete(b: Beh, xs: Seq<Word>) -> bool {
    forall|x: Word| #[trigger]
        maximal(b, x) ==> exists|i: int| 0 <= i < xs.len() && eqv(b, #[trigger] xs[i], x)
}

/// Where nobody was asleep at the start, all classes are explored in the end.
pub proof fn lemma_explored(b: Beh, xs: Seq<Word>)
    requires
        explored(b, xs, Seq::empty(), Seq::empty()),
    ensures
        complete(b, xs),
{
    assert forall|x: Word| #[trigger] maximal(b, x) implies exists|i: int|
        0 <= i < xs.len() && eqv(b, #[trigger] xs[i], x) by {
        let e = Seq::<ProcessID>::empty();
        assert(!someone(b, e, x));
        assert(covers(b, xs, e, x));
        let i = choose|i: int|
            0 <= i < xs.len() && stems(xs[i], e) && eqv(b, #[trigger] xs[i].skip(e.len() as int), x);
        assert(xs[i].skip(0) =~= xs[i]);
    }
}

/// A program all of whose classes have a schedule that ends cleanly is clean.
pub proof fn lemma_clean<O: Object, P: Process<Op = O::Op, Reply = O::Reply>>(
    w: WorldModel<O::Model, P::Model, P::Reply>,
    n: nat,
    xs: Seq<Word>,
)
    requires
        world_sound::<O, P>(w),
        started::<O, P>(w).failure is None,
        lawful(whole::<O, P>(w)),
        bounded(whole::<O, P>(w), n),
        fair(whole::<O, P>(w), xs),
        complete(whole::<O, P>(w), xs),
    ensures
        clean::<O, P>(w),
{
    let b = whole::<O, P>(w);
    assert forall|trace: Seq<Transition>| feasible::<O, P>(w, trace) implies (
    #[trigger] reached::<O, P>(w, trace)).failure is None by {
        let x = pids(trace);
        lemma_feasible::<O, P>(w, trace);
        let z = lemma_complete(b, n, x);
        let i = choose|i: int| 0 <= i < xs.len() && eqv(b, #[trigger] xs[i], x + z);
        assert(maximal(b, xs[i]));
        lemma_eqv_ok(b, xs[i], x + z);
        lemma_unfailing_concat(b, x, z);
        if done(after(b, x)) {
            lemma_after_concat(b, x, z);
            assert(z.len() == 0);
            assert(x + z =~= x);
        }
    }
}

/// The traces of the explored schedules are one per class.
pub proof fn lemma_one_per_class<O: Object, P: Process<Op = O::Op, Reply = O::Reply>>(
    w: WorldModel<O::Model, P::Model, P::Reply>,
    xs: Seq<Word>,
    ts: Seq<Seq<Transition>>,
)
    requires
        fair(whole::<O, P>(w), xs),
        complete(whole::<O, P>(w), xs),
        xs.len() == ts.len(),
        forall|i: int|
            0 <= i < ts.len() ==> finished::<O, P>(w, #[trigger] ts[i]) && xs[i] == pids(ts[i]),
    ensures
        one_per_class::<O, P>(w, ts),
{
    let b = whole::<O, P>(w);
    assert forall|i: int, j: int| 0 <= i < j < ts.len() implies !same_class::<O, P>(
        w,
        #[trigger] ts[i],
        #[trigger] ts[j],
    ) by {
        assert(xs[i] == pids(ts[i]) && xs[j] == pids(ts[j]));
    }
    assert forall|u: Seq<Transition>| #[trigger] finished::<O, P>(w, u) implies exists|i: int|
        0 <= i < ts.len() && same_class::<O, P>(w, #[trigger] ts[i], u) by {
        lemma_feasible::<O, P>(w, u);
        lemma_done::<O, P>(reached::<O, P>(w, u).world);
        assert(maximal(b, pids(u)));
        let i = choose|i: int| 0 <= i < xs.len() && eqv(b, #[trigger] xs[i], pids(u));
        assert(same_class::<O, P>(w, ts[i], u));
    }
}

} // verus!
