//! What the driver asks of a live state: a process's next operation, the races of a complete
//! interleaving, and where in the wakeup tree a reversing fragment belongs.

use vstd::prelude::*;
use vstd::slice::slice_to_vec;

use crate::model::executor::contains;
use crate::model::object::{Object, Transition};
use crate::model::process::{Process, ProcessID};
use crate::model::state::{feasible, reached, state_sound, verdict, State, StateView};
use crate::model::world::{committed, lemma_ready_unique, ran, ready_all, World, WorldModel};
use crate::search::clocks::{
    are_clocks, before, happens_before, is_clock, lemma_clock_answers, lemma_traced_known, pids,
    race, unordered,
};
use crate::search::wakeup::{is_chain, Wut};
use crate::theory::behaviour::{dep, done, en, fails, live, step, Beh, Word};
use crate::theory::initials::{rem, wi};
use crate::theory::program::{
    behaviour, lemma_done, lemma_op_for, lemma_seen, lemma_step, offers, op_for, stepped,
};

verus! {

/// Whether events `i` and `j` of the state's trace (1-based, `i < j`) are a reversible race:
/// different processes, dependent, and a *direct* happens-before edge (no causal
/// intermediary). Whether the reversed order can be run is checked separately.
pub(crate) fn reversible_race<'a, O, P, F>(
    state: &State<'a, O, P, F>,
    clocks: &Vec<Vec<usize>>,
    i: usize,
    j: usize,
) -> (b: bool) where
    O: Object,
    P: Process<Op = O::Op, Reply = O::Reply>,
    F: Fn(World<O, P>) -> World<O, P>,

    requires
        state.valid(),
        1 <= i < j <= state@.trace.len(),
        are_clocks::<O>(
            state@.world.objs,
            state@.trace,
            clocks@,
            state@.world.pnames.len(),
            state@.trace.len() as int,
        ),
    ensures
        b == race::<O>(state@.world.objs, state@.trace, i - 1, j - 1),
{
    let ghost objs = state@.world.objs;
    let ghost ts = state@.trace;
    proof {
        state.lemma_valid();
        lemma_traced_known(state, i - 1);
        lemma_traced_known(state, j - 1);
    }
    let trace = state.trace();
    let e = trace[i - 1];
    let ep = trace[j - 1];
    if e.pid == ep.pid {
        return false;
    }
    if !state.depends(e, ep) {
        return false;
    }
    let mut m: usize = i + 1;
    while m < j
        invariant
            1 <= i < m <= j <= ts.len(),
            trace@ == ts,
            ts == state@.trace,
            objs == state@.world.objs,
            state_sound::<O, P>(state@),
            are_clocks::<O>(objs, ts, clocks@, state@.world.pnames.len(), ts.len() as int),
            forall|l: int|
                i - 1 < l < m - 1 ==> !(#[trigger] before::<O>(objs, ts, i - 1, l) && before::<O>(
                    objs,
                    ts,
                    l,
                    j - 1,
                )),
        decreases j - m,
    {
        proof {
            assert(ts[i - 1].pid < state@.world.pnames.len());
            assert(ts[m - 1].pid < state@.world.pnames.len());
            let p = ts[i - 1].pid as int;
            let q = ts[m - 1].pid as int;
            assert(is_clock::<O>(objs, ts, m - 1, p, clocks@[(m - 1) + 1]@[p] as int));
            assert(is_clock::<O>(objs, ts, j - 1, q, clocks@[(j - 1) + 1]@[q] as int));
            lemma_clock_answers::<O>(objs, ts, i - 1, m - 1, clocks@[m as int]@[p] as int);
            lemma_clock_answers::<O>(objs, ts, m - 1, j - 1, clocks@[j as int]@[q] as int);
        }
        if happens_before(clocks, trace, i, m) && happens_before(clocks, trace, m, j) {
            assert(before::<O>(objs, ts, i - 1, m - 1) && before::<O>(objs, ts, m - 1, j - 1));
            return false;
        }
        m = m + 1;
    }
    true
}

/// The events after event `i` (1-based) that do not happen-after it, i.e. whose vector clock
/// does not hold `i`.
pub(crate) fn notdep<'a, O, P, F>(
    state: &State<'a, O, P, F>,
    clocks: &Vec<Vec<usize>>,
    i: usize,
) -> (v: Vec<Transition>) where
    O: Object,
    P: Process<Op = O::Op, Reply = O::Reply>,
    F: Fn(World<O, P>) -> World<O, P>,

    requires
        state.valid(),
        1 <= i <= state@.trace.len() < usize::MAX,
        are_clocks::<O>(
            state@.world.objs,
            state@.trace,
            clocks@,
            state@.world.pnames.len(),
            state@.trace.len() as int,
        ),
    ensures
        v@ == unordered::<O>(state@.world.objs, state@.trace, i - 1, i as int),
{
    let ghost objs = state@.world.objs;
    let ghost ts = state@.trace;
    proof {
        state.lemma_valid();
    }
    let trace = state.trace();
    let n: usize = trace.len();
    let mut v: Vec<Transition> = Vec::new();
    let mut k: usize = i;
    while k < n
        invariant
            1 <= i <= k <= n,
            n == ts.len(),
            n < usize::MAX,
            trace@ == ts,
            ts == state@.trace,
            objs == state@.world.objs,
            state_sound::<O, P>(state@),
            are_clocks::<O>(objs, ts, clocks@, state@.world.pnames.len(), ts.len() as int),
            v@ + unordered::<O>(objs, ts, i - 1, k as int) == unordered::<O>(
                objs,
                ts,
                i - 1,
                i as int,
            ),
        decreases n - k,
    {
        proof {
            assert(ts[i - 1].pid < state@.world.pnames.len());
            let p = ts[i - 1].pid as int;
            assert(is_clock::<O>(objs, ts, k as int, p, clocks@[k + 1]@[p] as int));
            lemma_clock_answers::<O>(objs, ts, i - 1, k as int, clocks@[k + 1]@[p] as int);
        }
        let ghost prev = v@;
        if !happens_before(clocks, trace, i, k + 1) {
            v.push(trace[k]);
        }
        proof {
            let rest = unordered::<O>(objs, ts, i - 1, k + 1);
            assert(prev + (seq![ts[k as int]] + rest) =~= prev.push(ts[k as int]) + rest);
        }
        k = k + 1;
    }
    assert(v@ + Seq::<Transition>::empty() =~= v@);
    v
}

/// Process `p`'s next operation, or `None` if it has none ready.
pub fn resolve<'a, O, P, F>(state: &State<'a, O, P, F>, p: ProcessID) -> (r: Option<
    Transition,
>) where
    O: Object,
    P: Process<Op = O::Op, Reply = O::Reply>,
    F: Fn(World<O, P>) -> World<O, P>,

    requires
        state.valid(),
    ensures
        match r {
            Some(t) => t.pid == p && ready_all::<O>(state@.world.objs).contains(t) && offers::<O>(
                state@.world.objs,
                p,
            ) && t == op_for::<O>(state@.world.objs, p),
            None => !offers::<O>(state@.world.objs, p),
        },
{
    proof {
        state.lemma_valid();
    }
    let ts = state.enabled();
    let ghost ready = ready_all::<O>(state@.world.objs);
    let mut i: usize = 0;
    while i < ts.len()
        invariant
            i <= ts@.len(),
            ts@ == ready,
            ready == ready_all::<O>(state@.world.objs),
            state_sound::<O, P>(state@),
            forall|j: int| 0 <= j < i ==> (#[trigger] ts@[j]).pid != p,
        decreases ts@.len() - i,
    {
        if ts[i].pid == p {
            let t = ts[i];
            assert(ready.contains(t));
            proof {
                lemma_op_for::<O, P>(state@.world, t);
            }
            return Some(t);
        }
        i = i + 1;
    }
    proof {
        if offers::<O>(state@.world.objs, p) {
            let t = op_for::<O>(state@.world.objs, p);
            assert(ready.contains(t) && t.pid == p);
        }
    }
    None
}

/// The processes with a ready operation.
fn enabled_pids<'a, O, P, F>(state: &State<'a, O, P, F>) -> (ps: Vec<ProcessID>) where
    O: Object,
    P: Process<Op = O::Op, Reply = O::Reply>,
    F: Fn(World<O, P>) -> World<O, P>,

    requires
        state.valid(),
    ensures
        ps@ == pids(ready_all::<O>(state@.world.objs)),
        forall|p: ProcessID| #[trigger] ps@.contains(p) <==> offers::<O>(state@.world.objs, p),
{
    let ts = state.enabled();
    let ghost ready = ready_all::<O>(state@.world.objs);
    let mut ps: Vec<ProcessID> = Vec::new();
    let mut i: usize = 0;
    while i < ts.len()
        invariant
            i <= ts@.len(),
            ts@ == ready,
            ps@ == pids(ready).take(i as int),
        decreases ts@.len() - i,
    {
        ps.push(ts[i].pid);
        i = i + 1;
        assert(ps@ =~= pids(ready).take(i as int));
    }
    assert(pids(ready).take(i as int) =~= pids(ready));
    proof {
        assert forall|p: ProcessID| #[trigger] ps@.contains(p) <==> offers::<O>(
            state@.world.objs,
            p,
        ) by {
            if ps@.contains(p) {
                let j = choose|j: int| 0 <= j < ps@.len() && ps@[j] == p;
                assert(ready.contains(ready[j]));
            }
            if offers::<O>(state@.world.objs, p) {
                let t = op_for::<O>(state@.world.objs, p);
                let j = choose|j: int| 0 <= j < ready.len() && ready[j] == t;
                assert(ps@[j] == p);
            }
        }
    }
    ps
}

/// `p` is the process to go on with: the least that has an operation ready and is awake, or, where
/// all that have one are asleep, the least that has one.
pub open spec fn foremost<O: Object>(objs: Seq<O::Model>, sleep: Word, p: ProcessID) -> bool {
    &&& offers::<O>(objs, p)
    &&& if exists|q: ProcessID| #[trigger] offers::<O>(objs, q) && !sleep.contains(q) {
        &&& !sleep.contains(p)
        &&& forall|q: ProcessID| #[trigger] offers::<O>(objs, q) && !sleep.contains(q) ==> p <= q
    } else {
        forall|q: ProcessID| #[trigger] offers::<O>(objs, q) ==> p <= q
    }
}

/// The process to go on with where `sleep` is asleep; `None` if none has an operation ready.
pub open spec fn seedling<O: Object>(objs: Seq<O::Model>, sleep: Word) -> Option<ProcessID> {
    if exists|q: ProcessID| #[trigger] offers::<O>(objs, q) {
        Some(choose|p: ProcessID| #[trigger] foremost::<O>(objs, sleep, p))
    } else {
        None
    }
}

/// There is one process to go on with.
pub proof fn lemma_seedling<O: Object>(objs: Seq<O::Model>, sleep: Word, p: ProcessID)
    requires
        foremost::<O>(objs, sleep, p),
    ensures
        seedling::<O>(objs, sleep) == Some(p),
{
    let q = choose|q: ProcessID| #[trigger] foremost::<O>(objs, sleep, q);
    assert(foremost::<O>(objs, sleep, q));
    assert(p <= q && q <= p);
}

/// There is a least process of those that have an operation ready, and of those that are awake.
proof fn lemma_foremost<O: Object>(objs: Seq<O::Model>, sleep: Word, q: ProcessID) -> (p: ProcessID)
    requires
        offers::<O>(objs, q),
        (exists|r: ProcessID| #[trigger] offers::<O>(objs, r) && !sleep.contains(r))
            ==> !sleep.contains(q),
    ensures
        foremost::<O>(objs, sleep, p),
    decreases q,
{
    let awake = exists|r: ProcessID| #[trigger] offers::<O>(objs, r) && !sleep.contains(r);
    if exists|r: ProcessID| #[trigger]
        offers::<O>(objs, r) && (awake ==> !sleep.contains(r)) && r < q {
        let r = choose|r: ProcessID| #[trigger]
            offers::<O>(objs, r) && (awake ==> !sleep.contains(r)) && r < q;
        lemma_foremost::<O>(objs, sleep, r)
    } else {
        q
    }
}

/// The process to go on with is the foremost.
pub proof fn lemma_seedling_foremost<O: Object>(objs: Seq<O::Model>, sleep: Word)
    ensures
        match seedling::<O>(objs, sleep) {
            Some(p) => foremost::<O>(objs, sleep, p),
            None => forall|q: ProcessID| !#[trigger] offers::<O>(objs, q),
        },
{
    if exists|q: ProcessID| #[trigger] offers::<O>(objs, q) && !sleep.contains(q) {
        let q = choose|q: ProcessID| #[trigger] offers::<O>(objs, q) && !sleep.contains(q);
        let p = lemma_foremost::<O>(objs, sleep, q);
        lemma_seedling::<O>(objs, sleep, p);
    } else if exists|q: ProcessID| #[trigger] offers::<O>(objs, q) {
        let q = choose|q: ProcessID| #[trigger] offers::<O>(objs, q);
        let p = lemma_foremost::<O>(objs, sleep, q);
        lemma_seedling::<O>(objs, sleep, p);
    }
}

/// The enabled process to explore: the least that is not in `sleep`, or, where every enabled
/// process is asleep, the least of all; `None` if nothing is enabled.
pub fn seed<'a, O, P, F>(state: &State<'a, O, P, F>, sleep: &Vec<ProcessID>) -> (r: Option<
    ProcessID,
>) where
    O: Object,
    P: Process<Op = O::Op, Reply = O::Reply>,
    F: Fn(World<O, P>) -> World<O, P>,

    requires
        state.valid(),
    ensures
        r == seedling::<O>(state@.world.objs, sleep@),
        match r {
            Some(p) => foremost::<O>(state@.world.objs, sleep@, p),
            None => forall|q: ProcessID| !#[trigger] offers::<O>(state@.world.objs, q),
        },
{
    let ps = enabled_pids(state);
    let ghost objs = state@.world.objs;
    let mut awake: Option<ProcessID> = None;
    let mut any: Option<ProcessID> = None;
    let mut i: usize = 0;
    while i < ps.len()
        invariant
            i <= ps@.len(),
            match awake {
                Some(p) => ps@.contains(p) && !sleep@.contains(p) && forall|j: int|
                    0 <= j < i && !sleep@.contains(#[trigger] ps@[j]) ==> p <= ps@[j],
                None => forall|j: int| 0 <= j < i ==> sleep@.contains(#[trigger] ps@[j]),
            },
            match any {
                Some(p) => ps@.contains(p) && forall|j: int|
                    0 <= j < i ==> p <= #[trigger] ps@[j],
                None => i == 0,
            },
        decreases ps@.len() - i,
    {
        let p: ProcessID = ps[i];
        assert(ps@.contains(p));
        if !contains(sleep, p) {
            awake = match awake {
                Some(q) => if q <= p {
                    Some(q)
                } else {
                    Some(p)
                },
                None => Some(p),
            };
        }
        any = match any {
            Some(q) => if q <= p {
                Some(q)
            } else {
                Some(p)
            },
            None => Some(p),
        };
        i = i + 1;
    }
    proof {
        assert forall|q: ProcessID| #[trigger] offers::<O>(objs, q) implies exists|j: int|
            0 <= j < ps@.len() && ps@[j] == q by {
            assert(ps@.contains(q));
        }
        if let Some(p) = awake {
            assert(foremost::<O>(objs, sleep@, p));
            lemma_seedling::<O>(objs, sleep@, p);
        } else if let Some(p) = any {
            assert(offers::<O>(objs, p));
            assert(foremost::<O>(objs, sleep@, p));
            lemma_seedling::<O>(objs, sleep@, p);
        } else {
            assert forall|q: ProcessID| !#[trigger] offers::<O>(objs, q) by {
                if offers::<O>(objs, q) {
                    assert(ps@.contains(q));
                }
            }
        }
    }
    match awake {
        Some(p) => Some(p),
        None => any,
    }
}

/// The sleepers that stay asleep when `p` steps: those whose next step does not conflict.
pub open spec fn still_asleep(b: Beh, sleep: Word, p: ProcessID) -> Word
    decreases sleep.len(),
{
    if sleep.len() == 0 {
        sleep
    } else {
        let rest = still_asleep(b, sleep.drop_last(), p);
        if en(b, sleep.last()) && !dep(b, p, sleep.last()) {
            rest.push(sleep.last())
        } else {
            rest
        }
    }
}

/// The sleep set of the child reached by `p_t`: the parent's sleepers whose next operation is
/// independent of `p_t`, each resolved against the live parent.
#[verifier::spinoff_prover]
pub(crate) fn child_sleep_set<'a, O, P, F>(
    cur: &State<'a, O, P, F>,
    sleep: &Vec<ProcessID>,
    p_t: Transition,
) -> (child: Vec<ProcessID>) where
    O: Object,
    P: Process<Op = O::Op, Reply = O::Reply>,
    F: Fn(World<O, P>) -> World<O, P>,

    requires
        cur.valid(),
        ready_all::<O>(cur@.world.objs).contains(p_t),
    ensures
        child@ == still_asleep(behaviour::<O, P>(cur@.world), sleep@, p_t.pid),
{
    let ghost b = behaviour::<O, P>(cur@.world);
    proof {
        cur.lemma_valid();
        lemma_op_for::<O, P>(cur@.world, p_t);
        lemma_ready_unique::<O, P>(cur@.world.sched, cur@.world.objs, p_t);
    }
    let mut child: Vec<ProcessID> = Vec::new();
    let mut i: usize = 0;
    while i < sleep.len()
        invariant
            i <= sleep@.len(),
            cur.valid(),
            state_sound::<O, P>(cur@),
            b == behaviour::<O, P>(cur@.world),
            offers::<O>(cur@.world.objs, p_t.pid),
            p_t == op_for::<O>(cur@.world.objs, p_t.pid),
            p_t.oid < cur@.world.objs.len(),
            O::knows(cur@.world.objs[p_t.oid as int], p_t),
            child@ == still_asleep(b, sleep@.take(i as int), p_t.pid),
        decreases sleep@.len() - i,
    {
        let q: ProcessID = sleep[i];
        proof {
            lemma_step::<O, P>(cur@.world, q);
            lemma_seen::<O, P>(cur@.world, p_t.pid, q);
            assert(sleep@.take(i + 1).drop_last() =~= sleep@.take(i as int));
        }
        if let Some(q_t) = resolve(cur, q) {
            proof {
                lemma_ready_unique::<O, P>(cur@.world.sched, cur@.world.objs, q_t);
            }
            if !cur.depends(p_t, q_t) {
                child.push(q);
            }
        }
        i = i + 1;
    }
    assert(sleep@.take(i as int) =~= sleep@);
    child
}

/// `w` can be walked to its end: each process can take its step, and no step before the last
/// ends in an error.
pub open spec fn walkable(b: Beh, w: Word) -> bool
    decreases w.len(),
{
    w.len() == 0 || en(b, w[0]) && (w.len() == 1 || !fails(b, w[0]) && walkable(
        step(b, w[0]),
        w.drop_first(),
    ))
}

/// Walks `v` from `state`, resolving each event by pid against the live state (so that
/// data-dependent control flow re-resolves correctly), and collects the weak initials of `v`:
/// the processes whose own step comes up before any step that conflicts with it, or with which
/// no step of `v` conflicts. `None` if `v` cannot be walked.
pub(crate) fn weak_initials<'a, O, P, F>(start: State<'a, O, P, F>, v: &[Transition]) -> (r: Option<
    Vec<ProcessID>,
>) where
    O: Object,
    P: Process<Op = O::Op, Reply = O::Reply>,
    F: Fn(World<O, P>) -> World<O, P>,

    requires
        start.valid(),
        start@.failure is None,
    ensures
        match r {
            Some(ws) => walkable(behaviour::<O, P>(start@.world), pids(v@)) && forall|
                q: ProcessID,
            | #[trigger]
                ws@.contains(q) <==> wi(behaviour::<O, P>(start@.world), pids(v@), q),
            None => !walkable(behaviour::<O, P>(start@.world), pids(v@)),
        },
{
    let ghost b0 = behaviour::<O, P>(start@.world);
    let ghost word = pids(v@);
    let mut state = start;
    let mut open: Vec<ProcessID> = enabled_pids(&state);
    let mut found: Vec<ProcessID> = Vec::new();
    let mut k: usize = 0;
    proof {
        assert(word.skip(0) =~= word);
        assert forall|q: ProcessID| !open@.contains(q) implies !#[trigger] wi(b0, word, q) by {
            lemma_step::<O, P>(state@.world, q);
        }
        assert forall|q: ProcessID| #[trigger] open@.contains(q) implies en(b0, q) by {
            lemma_step::<O, P>(state@.world, q);
        }
    }
    while k < v.len()
        invariant
            k <= v@.len(),
            word == pids(v@),
            b0 == behaviour::<O, P>(start@.world),
            state.valid(),
            k < v@.len() ==> state@.failure is None,
            walkable(b0, word) == walkable(behaviour::<O, P>(state@.world), word.skip(k as int)),
            forall|q: ProcessID| #[trigger]
                open@.contains(q) ==> en(behaviour::<O, P>(state@.world), q) && wi(b0, word, q)
                    == wi(behaviour::<O, P>(state@.world), word.skip(k as int), q),
            forall|q: ProcessID| #[trigger] found@.contains(q) ==> wi(b0, word, q),
            forall|q: ProcessID| #[trigger]
                wi(b0, word, q) ==> open@.contains(q) || found@.contains(q),
        decreases v@.len() - k,
    {
        let ghost w = state@.world;
        let ghost b = behaviour::<O, P>(w);
        let ghost rest = word.skip(k as int);
        let p: ProcessID = v[k].pid;
        proof {
            state.lemma_valid();
            assert(rest[0] == p);
            assert(rest.drop_first() =~= word.skip(k + 1));
            lemma_step::<O, P>(w, p);
        }
        let Some(t) = resolve(&state, p) else {
            return None;
        };
        proof {
            lemma_ready_unique::<O, P>(w.sched, w.objs, t);
        }
        let mut still: Vec<ProcessID> = Vec::new();
        let mut i: usize = 0;
        let ghost found0 = found@;
        while i < open.len()
            invariant
                i <= open@.len(),
                state.valid(),
                state_sound::<O, P>(state@),
                w == state@.world,
                b == behaviour::<O, P>(w),
                rest.len() > 0,
                rest[0] == p,
                offers::<O>(w.objs, p),
                t == op_for::<O>(w.objs, p),
                ready_all::<O>(w.objs).contains(t),
                t.oid < w.objs.len(),
                O::knows(w.objs[t.oid as int], t),
                forall|q: ProcessID| #[trigger]
                    open@.contains(q) ==> en(b, q) && wi(b0, word, q) == wi(b, rest, q),
                forall|q: ProcessID| #[trigger]
                    still@.contains(q) ==> open@.contains(q) && q != p && !dep(b, q, p),
                forall|q: ProcessID| #[trigger] found@.contains(q) ==> wi(b0, word, q),
                forall|q: ProcessID| #[trigger] found0.contains(q) ==> found@.contains(q),
                forall|j: int|
                    0 <= j < i && wi(b, rest, #[trigger] open@[j]) ==> still@.contains(open@[j])
                        || found@.contains(open@[j]),
            decreases open@.len() - i,
        {
            let q: ProcessID = open[i];
            assert(open@.contains(q));
            let ghost still0 = still@;
            let ghost found1 = found@;
            proof {
                lemma_step::<O, P>(w, q);
                lemma_seen::<O, P>(w, q, p);
            }
            if q == p {
                found.push(q);
                proof {
                    lemma_push_contains(found1, q);
                }
            } else if let Some(q_t) = resolve(&state, q) {
                proof {
                    lemma_ready_unique::<O, P>(w.sched, w.objs, q_t);
                }
                if !state.depends(q_t, t) {
                    still.push(q);
                    proof {
                        lemma_push_contains(still0, q);
                    }
                }
            }
            i = i + 1;
        }
        state.apply(t);
        let ghost b2 = behaviour::<O, P>(state@.world);
        proof {
            assert(state@.world == stepped::<O, P>(w, p));
            assert(b2 == step(b, p));
            lemma_seen::<O, P>(w, p, p);
        }
        if k + 1 < v.len() && state.is_failed() {
            proof {
                lemma_failed::<O, P>(w, t);
                if !fails(b, p) {
                    let p2 = rest[1];
                    lemma_step::<O, P>(state@.world, p2);
                    assert(!offers::<O>(state@.world.objs, p2));
                    assert(rest.drop_first()[0] == p2);
                    assert(!walkable(b2, rest.drop_first()));
                }
                assert(!walkable(b, rest));
            }
            return None;
        }
        let ghost open0 = open@;
        open = Vec::new();
        let mut i: usize = 0;
        while i < still.len()
            invariant
                i <= still@.len(),
                state.valid(),
                b2 == behaviour::<O, P>(state@.world),
                forall|q: ProcessID| #[trigger] open@.contains(q) ==> still@.contains(q) && en(b2, q),
                forall|j: int|
                    0 <= j < i && en(b2, #[trigger] still@[j]) ==> open@.contains(still@[j]),
            decreases still@.len() - i,
        {
            let q: ProcessID = still[i];
            let ghost open1 = open@;
            proof {
                lemma_step::<O, P>(state@.world, q);
                assert(still@.contains(q));
            }
            if resolve(&state, q).is_some() {
                open.push(q);
                proof {
                    lemma_push_contains(open1, q);
                }
            }
            i = i + 1;
        }
        proof {
            if k + 1 < v.len() {
                lemma_failed::<O, P>(w, t);
            }
            let rest2 = rest.drop_first();
            assert(walkable(b, rest) == walkable(b2, rest2)) by {
                if rest.len() == 1 {
                    assert(rest2.len() == 0);
                }
            }
            assert forall|q: ProcessID| #[trigger] open@.contains(q) implies en(b2, q) && wi(
                b0,
                word,
                q,
            ) == wi(b2, rest2, q) by {
                assert(still@.contains(q));
                assert(open0.contains(q));
            }
            assert forall|q: ProcessID| #[trigger] wi(b0, word, q) implies open@.contains(q)
                || found@.contains(q) by {
                if !found@.contains(q) {
                    assert(open0.contains(q));
                    let j = choose|j: int| 0 <= j < open0.len() && open0[j] == q;
                    assert(wi(b, rest, open0[j]));
                    assert(still@.contains(q));
                    let l = choose|l: int| 0 <= l < still@.len() && still@[l] == q;
                    assert(wi(b2, rest2, q));
                    assert(en(b2, still@[l]));
                }
            }
        }
        k = k + 1;
    }
    let ghost open1 = open@;
    let ghost found1 = found@;
    found.append(&mut open);
    proof {
        assert(word.skip(k as int) =~= Seq::empty());
        assert forall|q: ProcessID| #[trigger] found@.contains(q) <==> wi(b0, word, q) by {
            if found@.contains(q) {
                let j = choose|j: int| 0 <= j < found@.len() && found@[j] == q;
                if j < found1.len() {
                    assert(found1[j] == q);
                    assert(found1.contains(q));
                } else {
                    assert(open1[j - found1.len()] == q);
                    assert(open1.contains(q));
                }
            }
            if wi(b0, word, q) {
                if found1.contains(q) {
                    let j = choose|j: int| 0 <= j < found1.len() && found1[j] == q;
                    assert(found@[j] == q);
                } else {
                    let j = choose|j: int| 0 <= j < open1.len() && open1[j] == q;
                    assert(found@[found1.len() + j] == q);
                }
            }
        }
    }
    Some(found)
}

pub(crate) proof fn lemma_push_contains(s: Word, q: ProcessID)
    ensures
        forall|x: ProcessID| #[trigger] s.push(q).contains(x) <==> s.contains(x) || x == q,
{
    assert forall|x: ProcessID| #[trigger] s.push(q).contains(x) <==> s.contains(x) || x == q by {
        if s.contains(x) {
            let j = choose|j: int| 0 <= j < s.len() && s[j] == x;
            assert(s.push(q)[j] == x);
        }
        assert(s.push(q)[s.len() as int] == q);
        if s.push(q).contains(x) {
            let j = choose|j: int| 0 <= j < s.push(q).len() && s.push(q)[j] == x;
            if j < s.len() {
                assert(s[j] == x);
            }
        }
    }
}

/// `v` without the first event of process `q`.
pub open spec fn without(v: Seq<Transition>, q: ProcessID) -> Seq<Transition>
    decreases v.len(),
{
    if v.len() == 0 {
        v
    } else if v[0].pid == q {
        v.drop_first()
    } else {
        seq![v[0]] + without(v.drop_first(), q)
    }
}

/// Leaving out an event leaves out its process's step.
pub proof fn lemma_without(v: Seq<Transition>, q: ProcessID)
    ensures
        pids(without(v, q)) == rem(pids(v), q),
    decreases v.len(),
{
    if v.len() == 0 {
        assert(pids(v) =~= rem(pids(v), q));
    } else {
        assert(pids(v.drop_first()) =~= pids(v).drop_first());
    }
    if v.len() > 0 && v[0].pid != q {
        lemma_without(v.drop_first(), q);
        assert(pids(seq![v[0]] + without(v.drop_first(), q)) =~= seq![v[0].pid] + pids(
            without(v.drop_first(), q),
        ));
    }
}

fn strip(v: &[Transition], q: ProcessID) -> (rest: Vec<Transition>)
    ensures
        rest@ == without(v@, q),
{
    let mut rest: Vec<Transition> = Vec::new();
    let mut found = false;
    let mut k: usize = 0;
    assert(v@.skip(0) =~= v@);
    while k < v.len()
        invariant
            k <= v@.len(),
            !found ==> rest@ + without(v@.skip(k as int), q) == without(v@, q),
            found ==> rest@ + v@.skip(k as int) == without(v@, q),
        decreases v@.len() - k,
    {
        let ghost prev = rest@;
        let ghost tail = v@.skip(k as int);
        assert(tail.drop_first() =~= v@.skip(k + 1));
        if !found && v[k].pid == q {
            found = true;
        } else {
            rest.push(v[k]);
            assert(prev + (seq![tail[0]] + without(tail.drop_first(), q)) =~= rest@ + without(
                tail.drop_first(),
                q,
            ));
            assert(prev + tail =~= rest@ + tail.drop_first());
        }
        k = k + 1;
    }
    assert(v@.skip(k as int) =~= Seq::empty());
    assert(rest@ + Seq::<Transition>::empty() =~= rest@);
    rest
}

/// The first child from `k` on whose process is a weak initial of `word`; the number of
/// children if there is none.
pub open spec fn pick(b: Beh, w: Wut, word: Word, k: int) -> int
    decreases w.len() - k,
{
    if k >= w.len() {
        w.len() as int
    } else if wi(b, word, w.head(k)) {
        k
    } else {
        pick(b, w, word, k + 1)
    }
}

/// The program goes on after a step of `p`: no error, no deadlock.
pub open spec fn goes_on(b: Beh, p: ProcessID) -> bool {
    !fails(b, p) && !(done(step(b, p)) && live(step(b, p)))
}

/// The node `before` has become `after` by planting `v` in it: below the first child that is a
/// weak initial of `v`, or as a fresh branch if there is none. An existing leaf on the way
/// covers `v`, and so does the first child while it is being explored.
pub open spec fn grown(b: Beh, before: Wut, after: Wut, busy: bool, v: Seq<Transition>) -> bool
    decreases before,
{
    let k = pick(b, before, pids(v), 0);
    if k >= before.len() {
        if v.len() == 0 {
            after == before
        } else {
            &&& after.len() == before.len() + 1
            &&& after.children@.drop_last() == before.children@
            &&& after.children@.last().0 == v[0]
            &&& is_chain(after.children@.last().1, v.drop_first())
        }
    } else if stops(b, before, busy, v) {
        after == before
    } else {
        &&& 0 <= k < before.children@.len()
        &&& after.len() == before.len()
        &&& forall|j: int|
            0 <= j < before.len() && j != k ==> #[trigger] after.children@[j]
                == before.children@[j]
        &&& after.children@[k].0 == before.children@[k].0
        &&& grown(
            step(b, before.head(k)),
            before.children@[k].1,
            after.children@[k].1,
            false,
            without(v, before.head(k)),
        )
    }
}

/// The child that `v` belongs below covers it already, or cannot be followed.
pub open spec fn stops(b: Beh, w: Wut, busy: bool, v: Seq<Transition>) -> bool {
    let k = pick(b, w, pids(v), 0);
    let h = w.head(k);
    busy && k == 0 || w.sub(k).len() == 0 || !goes_on(b, h) || !walkable(
        step(b, h),
        pids(without(v, h)),
    )
}

/// Planting `v` grafts a fresh branch.
pub open spec fn grafts(b: Beh, w: Wut, busy: bool, v: Seq<Transition>) -> bool
    decreases w,
{
    let k = pick(b, w, pids(v), 0);
    if k >= w.len() {
        v.len() > 0
    } else if stops(b, w, busy, v) {
        false
    } else {
        0 <= k < w.children@.len() && grafts(
            step(b, w.head(k)),
            w.children@[k].1,
            false,
            without(v, w.head(k)),
        )
    }
}

/// The terminal shape of an insertion: a fresh branch was grafted, or an existing branch
/// already covered the fragment.
pub enum InsertResult {
    /// A fresh branch was grafted.
    Grafted,
    /// An existing branch covers the fragment.
    ExistingLeaf,
}

/// Plants `v` in the wakeup tree: descends the branch that is the longest weak-initial prefix
/// of `v` (stripping each matched process), then grafts the residual as a new branch. `path`
/// leads to the node, `ws` are the weak initials of `v` there; the deeper ones are found by
/// walking the residual from the node below. Nothing is left to plant where the residual is empty.
/// Read as a [`Plan`](crate::search::plan::Plan), the
/// node is then [`sown`](crate::search::plan::sown) with `v`.
pub(crate) fn insert<'a, O, P, F>(
    node: &mut Wut,
    busy: bool,
    ws: &Vec<ProcessID>,
    view: &StateView<'a, O, P, F>,
    path: &Vec<Transition>,
    v: &[Transition],
) -> (r: InsertResult) where
    O: Object,
    P: Process<Op = O::Op, Reply = O::Reply>,
    F: Fn(World<O, P>) -> World<O, P>,

    requires
        view.valid(),
        feasible::<O, P>(view.program(), path@),
        reached::<O, P>(view.program(), path@).failure is None,
        walkable(behaviour::<O, P>(reached::<O, P>(view.program(), path@).world), pids(v@)),
        forall|q: ProcessID| #[trigger]
            ws@.contains(q) <==> wi(
                behaviour::<O, P>(reached::<O, P>(view.program(), path@).world),
                pids(v@),
                q,
            ),
    ensures
        grown(
            behaviour::<O, P>(reached::<O, P>(view.program(), path@).world),
            *old(node),
            *final(node),
            busy,
            v@,
        ),
        r is Grafted <==> grafts(
            behaviour::<O, P>(reached::<O, P>(view.program(), path@).world),
            *old(node),
            busy,
            v@,
        ),
    decreases *old(node),
{
    let ghost b = behaviour::<O, P>(reached::<O, P>(view.program(), path@).world);
    let ghost word = pids(v@);
    let ghost before = *node;
    let mut idx: usize = 0;
    while idx < node.children.len() && !contains(ws, node.children[idx].0.pid)
        invariant
            *node == before,
            idx <= before.len(),
            b == behaviour::<O, P>(reached::<O, P>(view.program(), path@).world),
            word == pids(v@),
            forall|q: ProcessID| #[trigger] ws@.contains(q) <==> wi(b, word, q),
            pick(b, before, word, 0) == pick(b, before, word, idx as int),
        decreases before.len() - idx,
    {
        idx = idx + 1;
    }
    if idx >= node.children.len() {
        if v.len() == 0 {
            return InsertResult::ExistingLeaf;
        }
        node.graft(v);
        return InsertResult::Grafted;
    }
    let h: ProcessID = node.children[idx].0.pid;
    if busy && idx == 0 {
        return InsertResult::ExistingLeaf;
    }
    if node.children[idx].1.children.len() == 0 {
        return InsertResult::ExistingLeaf;
    }
    let mut state = view.replay(path.as_slice());
    let ghost w = state@.world;
    proof {
        state.lemma_valid();
        lemma_step::<O, P>(w, h);
    }
    let Some(t) = resolve(&state, h) else {
        return InsertResult::ExistingLeaf;
    };
    state.apply(t);
    proof {
        lemma_goes_on::<O, P>(w, t);
    }
    if state.is_failed() {
        return InsertResult::ExistingLeaf;
    }
    let mut below = slice_to_vec(path.as_slice());
    below.push(t);
    proof {
        assert(below@.drop_last() =~= path@);
        state.lemma_valid();
    }
    let rest = strip(v, h);
    let Some(inner) = weak_initials(state, rest.as_slice()) else {
        return InsertResult::ExistingLeaf;
    };
    let r = insert(&mut node.children[idx].1, false, &inner, view, &below, rest.as_slice());
    r
}

/// A state fails on a step exactly when the program does not go on after it.
pub(crate) proof fn lemma_goes_on<O: Object, P: Process<Op = O::Op, Reply = O::Reply>>(
    w: WorldModel<O::Model, P::Model, P::Reply>,
    t: Transition,
)
    requires
        offers::<O>(w.objs, t.pid),
        t == op_for::<O>(w.objs, t.pid),
    ensures
        ({
            let (world, failure) = ran::<O, P>(committed::<O, P>(w, t));
            verdict::<O, P>(world, failure) is None <==> goes_on(behaviour::<O, P>(w), t.pid)
        }),
{
    lemma_seen::<O, P>(w, t.pid, t.pid);
    lemma_step::<O, P>(w, t.pid);
    let (world, failure) = ran::<O, P>(committed::<O, P>(w, t));
    lemma_done::<O, P>(world);
    lemma_seen::<O, P>(world, t.pid, t.pid);
}

/// A state that failed when `t` was applied: its process erred, or nothing is ready.
pub(crate) proof fn lemma_failed<O: Object, P: Process<Op = O::Op, Reply = O::Reply>>(
    w: WorldModel<O::Model, P::Model, P::Reply>,
    t: Transition,
)
    requires
        offers::<O>(w.objs, t.pid),
        t == op_for::<O>(w.objs, t.pid),
    ensures
        ({
            let (world, failure) = ran::<O, P>(committed::<O, P>(w, t));
            &&& world == stepped::<O, P>(w, t.pid)
            &&& fails(behaviour::<O, P>(w), t.pid) <==> failure is Some
            &&& verdict::<O, P>(world, failure) is Some && failure is None ==> forall|
                q: ProcessID,
            | !#[trigger] offers::<O>(world.objs, q)
        }),
{
    lemma_seen::<O, P>(w, t.pid, t.pid);
    let (world, failure) = ran::<O, P>(committed::<O, P>(w, t));
    if verdict::<O, P>(world, failure) is Some && failure is None {
        assert forall|q: ProcessID| !#[trigger] offers::<O>(world.objs, q) by {
            if offers::<O>(world.objs, q) {
                assert(ready_all::<O>(world.objs).contains(op_for::<O>(world.objs, q)));
            }
        }
    }
}

} // verus!
