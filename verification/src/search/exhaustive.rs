//! Exhaustive depth-first search over every interleaving: the ground truth that the reduction
//! is measured against.

use vstd::prelude::*;
use vstd::slice::{slice_subrange, slice_to_vec};

use crate::model::executor::weight;
use crate::model::object::{Object, Transition};
use crate::model::process::{Process, ProcessID};
use crate::model::state::{
    built, deterministic, feasible, lemma_applied_sound, lemma_feasible_prefix, lemma_reached_sound,
    reached, state_sound, State, StateView,
};
use crate::model::world::{ready_all, world_sound, World, WorldModel};
use crate::search::explore::FailedState;
use crate::search::observer::{
    informed, lemma_told_more, report, sleeps, Observer, Step, StepCx,
};
use crate::search::plan::{chain, lemma_forked_chain, lemma_plan_chain};
use crate::search::saga::{Note, Stand, Told};
use crate::search::wakeup::{is_chain, node, reaches, spine, Frame, Wut};

verus! {

/// No schedule of the program `w` that starts with `trace` fails.
pub open spec fn clean_from<O: Object, P: Process<Op = O::Op, Reply = O::Reply>>(
    w: WorldModel<O::Model, P::Model, P::Reply>,
    trace: Seq<Transition>,
) -> bool {
    forall|more: Seq<Transition>|
        trace.is_prefix_of(more) && feasible::<O, P>(w, more) ==> (#[trigger] reached::<O, P>(
            w,
            more,
        )).failure is None
}

/// No schedule of the program `w` fails.
pub open spec fn clean<O: Object, P: Process<Op = O::Op, Reply = O::Reply>>(
    w: WorldModel<O::Model, P::Model, P::Reply>,
) -> bool {
    forall|trace: Seq<Transition>|
        feasible::<O, P>(w, trace) ==> (#[trigger] reached::<O, P>(w, trace)).failure is None
}

/// A clean state whose every step leads to clean schedules has clean schedules.
proof fn lemma_clean<O: Object, P: Process<Op = O::Op, Reply = O::Reply>>(
    w: WorldModel<O::Model, P::Model, P::Reply>,
    trace: Seq<Transition>,
)
    requires
        feasible::<O, P>(w, trace),
        reached::<O, P>(w, trace).failure is None,
        forall|t: Transition| #[trigger]
            ready_all::<O>(reached::<O, P>(w, trace).world.objs).contains(t) ==> clean_from::<
                O,
                P,
            >(w, trace.push(t)),
    ensures
        clean_from::<O, P>(w, trace),
{
    assert forall|more: Seq<Transition>|
        trace.is_prefix_of(more) && feasible::<O, P>(w, more) implies (#[trigger] reached::<O, P>(
        w,
        more,
    )).failure is None by {
        if more.len() == trace.len() {
            assert(more =~= trace);
        } else {
            let n = trace.len() as int;
            let t = more[n];
            lemma_feasible_prefix::<O, P>(w, more, n + 1);
            assert(more.take(n + 1).drop_last() =~= trace);
            assert(more.take(n + 1).last() == t);
            assert(trace.push(t).is_prefix_of(more)) by {
                assert(more.subrange(0, n + 1) =~= trace.push(t));
            }
        }
    }
}

/// The schedules that a depth-first search visits from `trace` on: `trace` itself, and then those
/// from each of its operations on, in order, up to the first that fails.
pub open spec fn survey<O: Object, P: Process<Op = O::Op, Reply = O::Reply>>(
    w: WorldModel<O::Model, P::Model, P::Reply>,
    trace: Seq<Transition>,
) -> Seq<Seq<Transition>>
    decreases
            weight::<P>(w.sched.procs) - trace.len(),
            ready_all::<O>(reached::<O, P>(w, trace).world.objs).len() + 1,
{
    if reached::<O, P>(w, trace).failure is Some {
        seq![trace]
    } else {
        seq![trace] + survey_rest::<O, P>(w, trace, 0)
    }
}

/// Those from the operations of `trace` on, from the `i`-th on.
pub open spec fn survey_rest<O: Object, P: Process<Op = O::Op, Reply = O::Reply>>(
    w: WorldModel<O::Model, P::Model, P::Reply>,
    trace: Seq<Transition>,
    i: nat,
) -> Seq<Seq<Transition>>
    decreases
            weight::<P>(w.sched.procs) - trace.len(),
            ready_all::<O>(reached::<O, P>(w, trace).world.objs).len() - i,
{
    let ready = ready_all::<O>(reached::<O, P>(w, trace).world.objs);
    if i >= ready.len() || trace.len() >= weight::<P>(w.sched.procs) {
        Seq::empty()
    } else {
        let first = survey::<O, P>(w, trace.push(ready[i as int]));
        if reached::<O, P>(w, first.last()).failure is Some {
            first
        } else {
            first + survey_rest::<O, P>(w, trace, i + 1)
        }
    }
}

/// What is reported of visiting the state that `trace` leads to.
pub open spec fn visit_note(trace: Seq<Transition>) -> Note {
    let prefix = if trace.len() == 0 {
        trace
    } else {
        trace.drop_last()
    };
    Note {
        told: Told::Visit { trace },
        stand: Stand {
            tree: chain(prefix),
            sleeps: Seq::new(prefix.len() + 1, |m: int| Seq::empty()),
            prefix,
        },
    }
}

/// What is reported of visiting the states that `traces` lead to.
pub open spec fn visit_notes(traces: Seq<Seq<Transition>>) -> Seq<Note> {
    Seq::new(traces.len(), |i: int| visit_note(traces[i]))
}

/// The schedule `s` fails first: from its `from`-th step on, no continuation of an operation that
/// comes before the one taken fails.
pub open spec fn leftmost<O: Object, P: Process<Op = O::Op, Reply = O::Reply>>(
    w: WorldModel<O::Model, P::Model, P::Reply>,
    from: int,
    s: Seq<Transition>,
) -> bool {
    forall|m: int, k: int|
        from <= m < s.len() && 0 <= k < ready_at::<O, P>(w, s, m).len() && !ready_at::<O, P>(
            w,
            s,
            m,
        ).take(k + 1).contains(s[m]) ==> clean_from::<O, P>(
            w,
            s.take(m).push(#[trigger] ready_at::<O, P>(w, s, m)[k]),
        )
}

/// What can be applied after the first `m` steps of `s`.
pub open spec fn ready_at<O: Object, P: Process<Op = O::Op, Reply = O::Reply>>(
    w: WorldModel<O::Model, P::Model, P::Reply>,
    s: Seq<Transition>,
    m: int,
) -> Seq<Transition> {
    ready_all::<O>(reached::<O, P>(w, s.take(m)).world.objs)
}

/// There is a frame for each prefix, with nothing asleep.
spec fn framed<O: Object, P: Process<Op = O::Op, Reply = O::Reply>>(
    w: WorldModel<O::Model, P::Model, P::Reply>,
    frames: Seq<Frame>,
    prefix: Seq<Transition>,
) -> bool {
    &&& frames.len() == prefix.len() + 1
    &&& forall|m: int|
        0 <= m < frames.len() ==> (#[trigger] frames[m]).sleep@.len() == 0
            && frames[m].pending@ == ready_at::<O, P>(w, prefix, m)
}

/// The prefix before the last step of a schedule.
pub open spec fn before_last(trace: Seq<Transition>) -> Seq<Transition> {
    if trace.len() == 0 {
        trace
    } else {
        trace.drop_last()
    }
}

/// The first failure lies below the operation that was taken.
proof fn lemma_leftmost<O: Object, P: Process<Op = O::Op, Reply = O::Reply>>(
    w: WorldModel<O::Model, P::Model, P::Reply>,
    trace: Seq<Transition>,
    i: int,
    s: Seq<Transition>,
)
    requires
        ({
            let ready = ready_all::<O>(reached::<O, P>(w, trace).world.objs);
            &&& 0 <= i < ready.len()
            &&& trace.push(ready[i]).is_prefix_of(s)
            &&& forall|j: int|
                0 <= j < i ==> clean_from::<O, P>(w, trace.push(#[trigger] ready[j]))
        }),
        leftmost::<O, P>(w, (trace.len() + 1) as int, s),
    ensures
        trace.is_prefix_of(s),
        leftmost::<O, P>(w, trace.len() as int, s),
{
    let ready = ready_all::<O>(reached::<O, P>(w, trace).world.objs);
    let n = trace.len() as int;
    let next = trace.push(ready[i]);
    assert forall|k: int| 0 <= k < next.len() implies next[k] == s[k] by {
        assert(s.subrange(0, next.len() as int)[k] == s[k]);
    }
    assert(trace =~= s.subrange(0, n)) by {
        assert forall|k: int| 0 <= k < n implies trace[k] == s[k] by {
            assert(next[k] == s[k]);
        }
    }
    assert(s.take(n) =~= trace);
    assert forall|m: int, k: int|
        n <= m < s.len() && 0 <= k < ready_at::<O, P>(w, s, m).len() && !ready_at::<O, P>(
            w,
            s,
            m,
        ).take(k + 1).contains(s[m]) implies clean_from::<O, P>(
        w,
        s.take(m).push(#[trigger] ready_at::<O, P>(w, s, m)[k]),
    ) by {
        if m == n {
            assert(ready_at::<O, P>(w, s, m) == ready);
            assert(s[m] == next[n]);
            if k >= i {
                assert(ready.take(k + 1)[i] == s[m]);
            }
            assert(clean_from::<O, P>(w, trace.push(ready[k])));
        }
    }
}

/// The notes of one more stretch of visits.
proof fn lemma_visit_notes(x: Seq<Seq<Transition>>, y: Seq<Seq<Transition>>)
    ensures
        visit_notes(x + y) == visit_notes(x) + visit_notes(y),
{
    assert(visit_notes(x + y) =~= visit_notes(x) + visit_notes(y));
}

/// A chain has a node for each of its prefixes, and its edges are the way down.
proof fn lemma_chain_spine(w: Wut, edges: Seq<Transition>)
    requires
        is_chain(w, edges),
    ensures
        spine(w, edges),
{
    assert forall|m: nat| m <= edges.len() implies reaches(w, m) && is_chain(
        #[trigger] node(w, m),
        edges.skip(m as int),
    ) by {
        lemma_chain_node(w, edges, m);
    }
    lemma_chain_node(w, edges, edges.len());
    assert forall|m: nat| m < edges.len() implies #[trigger] node(w, m).len() > 0 && node(
        w,
        m,
    ).head(0) == edges[m as int].pid by {
        assert(is_chain(node(w, m), edges.skip(m as int)));
        assert(edges.skip(m as int)[0] == edges[m as int]);
    }
}

proof fn lemma_chain_node(w: Wut, edges: Seq<Transition>, m: nat)
    requires
        is_chain(w, edges),
        m <= edges.len(),
    ensures
        reaches(w, m),
        is_chain(node(w, m), edges.skip(m as int)),
    decreases m,
{
    if m == 0 {
        assert(edges.skip(0) =~= edges);
    } else {
        lemma_chain_node(w, edges, (m - 1) as nat);
        assert(edges.skip(m - 1).drop_first() =~= edges.skip(m as int));
    }
}

/// Searches every interleaving from `state` on, notifying `observer` of each state; returns the
/// first failure. `frames` are those of the prefix before the state's last step.
fn dfs_below<'a, O, P, F, Ob>(
    state: State<'a, O, P, F>,
    frames: &mut Vec<Frame>,
    observer: &mut Ob,
) -> (r: Result<(), FailedState<'a, O, P, F>>) where
    O: Object,
    P: Process<Op = O::Op, Reply = O::Reply>,
    F: Fn(World<O, P>) -> World<O, P>,
    Ob: Observer<O, P, F>,

    requires
        state.valid(),
        framed::<O, P>(state.program(), old(frames)@, before_last(state@.trace)),
    ensures
        final(frames)@ == old(frames)@,
        r is Ok <==> clean_from::<O, P>(state.program(), state@.trace),
        r matches Err(f) ==> f.valid() && f.program() == state.program()
            && state@.trace.is_prefix_of(f.schedule()) && leftmost::<O, P>(
            state.program(),
            state@.trace.len() as int,
            f.schedule(),
        ) && f.schedule() == survey::<O, P>(state.program(), state@.trace).last(),
        r is Ok ==> reached::<O, P>(
            state.program(),
            survey::<O, P>(state.program(), state@.trace).last(),
        ).failure is None,
        informed::<O, P, F, Ob>(
            *old(observer),
            *final(observer),
            visit_notes(survey::<O, P>(state.program(), state@.trace)),
        ),
    decreases weight::<P>(state@.world.sched.procs),
{
    let ghost w = state.program();
    let ghost trace = state@.trace;
    let ghost prefix = before_last(trace);
    let ghost o0 = *observer;
    let ghost frames0 = frames@;
    proof {
        state.lemma_valid();
        lemma_reached_sound::<O, P>(w, trace);
        if trace.len() > 0 {
            assert(trace.take(trace.len() - 1) =~= prefix);
            lemma_feasible_prefix::<O, P>(w, trace, trace.len() - 1);
        }
    }
    let len: usize = if state.trace().len() == 0 {
        0
    } else {
        state.trace().len() - 1
    };
    let path = slice_subrange(state.trace(), 0, len);
    let tree = Wut::chain(path, 0);
    proof {
        assert(path@ =~= prefix);
        assert(path@.skip(0) =~= prefix);
        lemma_chain_spine(tree, prefix);
        lemma_plan_chain(tree, prefix);
        lemma_forked_chain(prefix);
        assert(sleeps(frames@) =~= visit_note(trace).stand.sleeps) by {
            assert forall|m: int| 0 <= m < frames@.len() implies #[trigger] sleeps(frames@)[m]
                == Seq::<ProcessID>::empty() by {
                assert(frames@[m].sleep@ =~= Seq::<ProcessID>::empty());
            }
        }
        assert forall|m: int| 0 <= m < frames@.len() implies (#[trigger] frames@[m]).pending@
            == ready_all::<O>(reached::<O, P>(w, prefix.take(m)).world.objs) by {
            assert(frames@[m].pending@ == ready_at::<O, P>(w, prefix, m));
        }
    }
    report(observer, Step::Visit, StepCx::new(&tree, frames.as_slice(), path, &state));
    let ghost mut done: Seq<Seq<Transition>> = seq![trace];
    proof {
        assert(visit_notes(done) =~= seq![visit_note(trace)]);
    }
    if state.is_failed() {
        let failed = FailedState::from_state(state);
        assert(trace.is_prefix_of(trace));
        return Err(failed);
    }
    let fresh = state.trace().len() > 0;
    if fresh {
        frames.push(
            Frame {
                sleep: Vec::new(),
                pending: slice_to_vec(state.enabled()),
                explored: Ghost(Seq::empty()),
            },
        );
    }
    let ghost frames1 = frames@;
    proof {
        assert forall|m: int| 0 <= m < frames@.len() implies (#[trigger] frames@[m]).sleep@.len()
            == 0 && frames@[m].pending@ == ready_at::<O, P>(w, trace, m) by {
            if m < frames0.len() {
                assert(frames@[m] == frames0[m]);
                assert(frames0[m].pending@ == ready_at::<O, P>(w, prefix, m));
                assert(trace.take(m) =~= prefix.take(m));
            } else {
                assert(trace.take(m) =~= trace);
            }
        }
        assert(framed::<O, P>(w, frames@, trace));
    }
    let mut i: usize = 0;
    let ghost ready = ready_all::<O>(state@.world.objs);
    while i < state.enabled().len()
        invariant
            state.valid(),
            w == state.program(),
            trace == state@.trace,
            state@ == reached::<O, P>(w, trace),
            feasible::<O, P>(w, trace),
            world_sound::<O, P>(w),
            state@.failure is None,
            state_sound::<O, P>(state@),
            ready == ready_all::<O>(state@.world.objs),
            i <= ready.len(),
            frames@ == frames1,
            framed::<O, P>(w, frames1, trace),
            forall|j: int| 0 <= j < i ==> clean_from::<O, P>(w, trace.push(#[trigger] ready[j])),
            done.len() > 0,
            reached::<O, P>(w, done.last()).failure is None,
            survey::<O, P>(w, trace) == done + survey_rest::<O, P>(w, trace, i as nat),
            informed::<O, P, F, Ob>(o0, *observer, visit_notes(done)),
            o0 == *old(observer),
            fresh == (trace.len() > 0),
            fresh ==> frames1.len() > 0 && frames1.drop_last() == frames0,
            !fresh ==> frames1 == frames0,
            frames0 == old(frames)@,
        decreases ready.len() - i,
    {
        let t = state.enabled()[i];
        let ghost o1 = *observer;
        let mut next = state.fork();
        let ghost step = trace.push(t);
        proof {
            assert(ready.contains(t));
            lemma_applied_sound::<O, P>(state@, t);
            assert(step.drop_last() =~= trace);
            assert(feasible::<O, P>(w, step));
            lemma_reached_sound::<O, P>(w, step);
        }
        next.apply(t);
        let ghost more = survey::<O, P>(w, step);
        let below = dfs_below(next, frames, observer);
        proof {
            lemma_visit_notes(done, more);
            lemma_told_more::<O, P, F, Ob>(
                o0,
                o1,
                *observer,
                visit_notes(done),
                visit_notes(more),
            );
            assert(done + (more + survey_rest::<O, P>(w, trace, (i + 1) as nat)) =~= (done + more)
                + survey_rest::<O, P>(w, trace, (i + 1) as nat));
            lemma_survey_some::<O, P>(w, step);
            done = done + more;
        }
        if let Err(failed) = below {
            proof {
                lemma_leftmost::<O, P>(w, trace, i as int, failed.schedule());
                failed.lemma_valid();
                assert(reached::<O, P>(w, more.last()).failure is Some);
                assert(survey::<O, P>(w, trace) == done);
            }
            if fresh {
                let _ = frames.pop();
            }
            assert(frames@ =~= old(frames)@);
            return Err(failed);
        }
        i = i + 1;
    }
    proof {
        assert forall|t: Transition| #[trigger] ready.contains(t) implies clean_from::<O, P>(
            w,
            trace.push(t),
        ) by {
            let j = choose|j: int| 0 <= j < ready.len() && ready[j] == t;
            assert(clean_from::<O, P>(w, trace.push(ready[j])));
        }
        lemma_clean::<O, P>(w, trace);
        assert(done + Seq::<Seq<Transition>>::empty() =~= done);
    }
    if fresh {
        let _ = frames.pop();
    }
    assert(frames@ =~= old(frames)@);
    Ok(())
}

/// Something is visited.
proof fn lemma_survey_some<O: Object, P: Process<Op = O::Op, Reply = O::Reply>>(
    w: WorldModel<O::Model, P::Model, P::Reply>,
    trace: Seq<Transition>,
)
    ensures
        survey::<O, P>(w, trace).len() > 0,
        survey::<O, P>(w, trace)[0] == trace,
{
}

/// Searches every interleaving from `state` on, notifying `observer` of each state; returns the
/// first failure, in the order in which the enabled operations come.
pub fn dfs<'a, O, P, F, Ob>(state: State<'a, O, P, F>, observer: &mut Ob) -> (r: Result<
    (),
    FailedState<'a, O, P, F>,
>) where
    O: Object,
    P: Process<Op = O::Op, Reply = O::Reply>,
    F: Fn(World<O, P>) -> World<O, P>,
    Ob: Observer<O, P, F>,

    requires
        state.valid(),
    ensures
        r is Ok <==> clean_from::<O, P>(state.program(), state@.trace),
        r matches Err(f) ==> f.valid() && f.program() == state.program()
            && state@.trace.is_prefix_of(f.schedule()) && leftmost::<O, P>(
            state.program(),
            state@.trace.len() as int,
            f.schedule(),
        ) && f.schedule() == survey::<O, P>(state.program(), state@.trace).last(),
        informed::<O, P, F, Ob>(
            *old(observer),
            *final(observer),
            visit_notes(survey::<O, P>(state.program(), state@.trace)),
        ),
{
    let ghost w = state.program();
    let ghost trace = state@.trace;
    let ghost prefix = before_last(trace);
    proof {
        state.lemma_valid();
        lemma_feasible_prefix::<O, P>(w, trace, 0);
    }
    let len: usize = if state.trace().len() == 0 {
        0
    } else {
        state.trace().len() - 1
    };
    let view = state.to_view();
    let mut frames: Vec<Frame> = Vec::new();
    let mut m: usize = 0;
    while m <= len
        invariant
            m <= len + 1,
            len == prefix.len(),
            len <= trace.len() <= usize::MAX,
            prefix == before_last(trace),
            trace == state@.trace,
            state.valid(),
            view.valid(),
            view.program() == w,
            feasible::<O, P>(w, trace),
            frames@.len() == m,
            forall|k: int|
                0 <= k < m ==> (#[trigger] frames@[k]).sleep@.len() == 0 && frames@[k].pending@
                    == ready_at::<O, P>(w, prefix, k),
        decreases len + 1 - m,
    {
        let path = slice_subrange(state.trace(), 0, m);
        proof {
            lemma_feasible_prefix::<O, P>(w, trace, m as int);
            assert(path@ =~= trace.take(m as int));
            assert(trace.take(m as int) =~= prefix.take(m as int));
        }
        let there = view.replay(path);
        frames.push(
            Frame {
                sleep: Vec::new(),
                pending: slice_to_vec(there.enabled()),
                explored: Ghost(Seq::empty()),
            },
        );
        m = m + 1;
    }
    dfs_below(state, &mut frames, observer)
}

/// Searches every interleaving of the program built by `setup`.
pub fn explore_exhaustively<'a, O, P, F, Ob>(setup: &'a F, observer: &mut Ob) -> (r: Result<
    (),
    FailedState<'a, O, P, F>,
>) where
    O: Object,
    P: Process<Op = O::Op, Reply = O::Reply>,
    F: Fn(World<O, P>) -> World<O, P>,
    Ob: Observer<O, P, F>,

    requires
        deterministic::<O, P, F>(*setup),
    ensures
        r is Ok <==> clean::<O, P>(built::<O, P, F>(*setup)),
        r matches Err(f) ==> f.valid() && f.program() == built::<O, P, F>(*setup) && leftmost::<
            O,
            P,
        >(built::<O, P, F>(*setup), 0, f.schedule()) && f.schedule() == survey::<O, P>(
            built::<O, P, F>(*setup),
            Seq::empty(),
        ).last(),
        informed::<O, P, F, Ob>(
            *old(observer),
            *final(observer),
            visit_notes(survey::<O, P>(built::<O, P, F>(*setup), Seq::empty())),
        ),
{
    let root = StateView::new(setup).state();
    proof {
        root.lemma_valid();
        let w = root.program();
        lemma_reached_sound::<O, P>(w, root@.trace);
        assert(root@.trace =~= Seq::empty());
        if clean_from::<O, P>(w, root@.trace) {
            assert forall|trace: Seq<Transition>| feasible::<O, P>(w, trace) implies (
            #[trigger] reached::<O, P>(w, trace)).failure is None by {
                assert(root@.trace.is_prefix_of(trace)) by {
                    assert(trace.subrange(0, 0) =~= Seq::empty());
                }
            }
        }
    }
    dfs(root, observer)
}

} // verus!
