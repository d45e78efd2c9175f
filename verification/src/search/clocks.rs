//! Happens-before over a trace, by vector clocks.

use vstd::prelude::*;
use vstd::slice::slice_to_vec;

use crate::model::object::{Object, Transition};
use crate::model::process::Process;
use crate::model::state::{state_sound, State};
use crate::model::world::{conflicting, World};
use crate::theory::behaviour::Word;

verus! {

/// The processes of a sequence of transitions.
pub open spec fn pids(ts: Seq<Transition>) -> Word {
    Seq::new(ts.len(), |i: int| ts[i].pid)
}

/// Event `i` comes directly before event `k`: they are of one process, or conflict.
pub open spec fn edge<O: Object>(
    objs: Seq<O::Model>,
    trace: Seq<Transition>,
    i: int,
    k: int,
) -> bool {
    trace[i].pid == trace[k].pid || conflicting::<O>(objs, trace[i], trace[k])
}

/// Event `i` happens before event `k`, or is it: a path of edges leads from one to the other.
pub open spec fn before<O: Object>(
    objs: Seq<O::Model>,
    trace: Seq<Transition>,
    i: int,
    k: int,
) -> bool
    decreases k - i,
{
    i == k || exists|m: int|
        i <= m < k && before::<O>(objs, trace, i, m) && #[trigger] edge::<O>(objs, trace, m, k)
}

/// Events `i` and `j` are a reversible race: of different processes, in conflict, and with no
/// event between that happens after the one and before the other.
pub open spec fn race<O: Object>(
    objs: Seq<O::Model>,
    trace: Seq<Transition>,
    i: int,
    j: int,
) -> bool {
    &&& trace[i].pid != trace[j].pid
    &&& conflicting::<O>(objs, trace[i], trace[j])
    &&& forall|m: int|
        i < m < j ==> !(#[trigger] before::<O>(objs, trace, i, m) && before::<O>(
            objs,
            trace,
            m,
            j,
        ))
}

/// The events from `k` on that do not happen after event `i`.
pub open spec fn unordered<O: Object>(
    objs: Seq<O::Model>,
    trace: Seq<Transition>,
    i: int,
    k: int,
) -> Seq<Transition>
    decreases trace.len() - k,
{
    if k >= trace.len() {
        Seq::empty()
    } else {
        let rest = unordered::<O>(objs, trace, i, k + 1);
        if before::<O>(objs, trace, i, k) {
            rest
        } else {
            seq![trace[k]] + rest
        }
    }
}

/// `c` is event `k`'s clock entry for process `p`: the 1-based position of `p`'s last event
/// that happens before event `k` or is it, 0 if there is none.
pub open spec fn is_clock<O: Object>(
    objs: Seq<O::Model>,
    trace: Seq<Transition>,
    k: int,
    p: int,
    c: int,
) -> bool {
    &&& 0 <= c <= k + 1
    &&& c > 0 ==> trace[c - 1].pid == p && before::<O>(objs, trace, c - 1, k)
    &&& forall|i: int|
        0 <= i <= k && trace[i].pid == p && #[trigger] before::<O>(objs, trace, i, k) ==> i < c
}

/// The vector clocks of a trace: entry 0 is all zeros, entry `k + 1` is event `k`'s clock.
pub open spec fn are_clocks<O: Object>(
    objs: Seq<O::Model>,
    trace: Seq<Transition>,
    clocks: Seq<Vec<usize>>,
    procs: nat,
    n: int,
) -> bool {
    &&& clocks.len() == n + 1
    &&& forall|k: int| 0 <= k <= n ==> (#[trigger] clocks[k])@.len() == procs
    &&& forall|p: int| 0 <= p < procs ==> #[trigger] clocks[0]@[p] == 0
    &&& forall|k: int, p: int|
        0 <= k < n && 0 <= p < procs ==> is_clock::<O>(
            objs,
            trace,
            k,
            p,
            #[trigger] clocks[k + 1]@[p] as int,
        )
}

/// Happens-before is transitive.
pub proof fn lemma_before_trans<O: Object>(
    objs: Seq<O::Model>,
    trace: Seq<Transition>,
    i: int,
    j: int,
    k: int,
)
    requires
        i <= j <= k,
        before::<O>(objs, trace, i, j),
        before::<O>(objs, trace, j, k),
    ensures
        before::<O>(objs, trace, i, k),
    decreases k - j,
{
    if j < k {
        let m = choose|m: int|
            j <= m < k && before::<O>(objs, trace, j, m) && #[trigger] edge::<O>(
                objs,
                trace,
                m,
                k,
            );
        lemma_before_trans::<O>(objs, trace, i, j, m);
    }
}

/// An edge is happens-before.
pub proof fn lemma_edge_before<O: Object>(
    objs: Seq<O::Model>,
    trace: Seq<Transition>,
    i: int,
    k: int,
)
    requires
        i < k,
        edge::<O>(objs, trace, i, k),
    ensures
        before::<O>(objs, trace, i, k),
{
    assert(before::<O>(objs, trace, i, i));
}

/// A clock entry answers the happens-before question.
pub proof fn lemma_clock_answers<O: Object>(
    objs: Seq<O::Model>,
    trace: Seq<Transition>,
    i: int,
    k: int,
    c: int,
)
    requires
        0 <= i <= k < trace.len(),
        is_clock::<O>(objs, trace, k, trace[i].pid as int, c),
    ensures
        i < c <==> before::<O>(objs, trace, i, k),
{
    if i < c {
        if i < c - 1 {
            lemma_edge_before::<O>(objs, trace, i, c - 1);
        }
        lemma_before_trans::<O>(objs, trace, i, c - 1, k);
    }
}

/// Event `i` happens before `k` through one of the sources merged so far: an event of `k`'s own
/// process, or a conflicting one below `j`.
spec fn hit<O: Object>(
    objs: Seq<O::Model>,
    trace: Seq<Transition>,
    i: int,
    k: int,
    j: int,
) -> bool {
    exists|m: int|
        i <= m < k && #[trigger] before::<O>(objs, trace, i, m) && (trace[m].pid == trace[k].pid
            || m < j && conflicting::<O>(objs, trace[m], trace[k]))
}

/// As [`is_clock`], for the sources merged so far.
spec fn partial<O: Object>(
    objs: Seq<O::Model>,
    trace: Seq<Transition>,
    k: int,
    j: int,
    p: int,
    c: int,
) -> bool {
    &&& 0 <= c <= k
    &&& c > 0 ==> trace[c - 1].pid == p && hit::<O>(objs, trace, c - 1, k, j)
    &&& forall|i: int|
        0 <= i < k && trace[i].pid == p && #[trigger] hit::<O>(objs, trace, i, k, j) ==> i < c
}

proof fn lemma_partial_start<O: Object>(
    objs: Seq<O::Model>,
    trace: Seq<Transition>,
    k: int,
    last: int,
    p: int,
    c: int,
)
    requires
        0 <= k < trace.len(),
        0 <= last <= k,
        last > 0 ==> trace[last - 1].pid == trace[k].pid && is_clock::<O>(
            objs,
            trace,
            last - 1,
            p,
            c,
        ),
        last == 0 ==> c == 0,
        forall|i: int| last <= i < k ==> trace[i].pid != trace[k].pid,
    ensures
        partial::<O>(objs, trace, k, 0, p, c),
{
    if c > 0 {
        assert(before::<O>(objs, trace, c - 1, last - 1));
        assert(hit::<O>(objs, trace, c - 1, k, 0));
    }
    assert forall|i: int|
        0 <= i < k && trace[i].pid == p && #[trigger] hit::<O>(objs, trace, i, k, 0) implies i
        < c by {
        let m = choose|m: int|
            i <= m < k && #[trigger] before::<O>(objs, trace, i, m) && (trace[m].pid
                == trace[k].pid || m < 0 && conflicting::<O>(objs, trace[m], trace[k]));
        assert(m < last);
        if m < last - 1 {
            lemma_edge_before::<O>(objs, trace, m, last - 1);
            lemma_before_trans::<O>(objs, trace, i, m, last - 1);
        }
        assert(before::<O>(objs, trace, i, last - 1));
    }
}

proof fn lemma_partial_merge<O: Object>(
    objs: Seq<O::Model>,
    trace: Seq<Transition>,
    k: int,
    j: int,
    p: int,
    c: int,
    d: int,
)
    requires
        0 <= j < k < trace.len(),
        conflicting::<O>(objs, trace[j], trace[k]),
        partial::<O>(objs, trace, k, j, p, c),
        is_clock::<O>(objs, trace, j, p, d),
    ensures
        partial::<O>(
            objs,
            trace,
            k,
            j + 1,
            p,
            if d > c {
                d
            } else {
                c
            },
        ),
{
    let e = if d > c {
        d
    } else {
        c
    };
    if e > 0 {
        if d > c {
            assert(before::<O>(objs, trace, d - 1, j));
            assert(hit::<O>(objs, trace, d - 1, k, j + 1));
        } else {
            let m = choose|m: int|
                c - 1 <= m < k && #[trigger] before::<O>(objs, trace, c - 1, m) && (trace[m].pid
                    == trace[k].pid || m < j && conflicting::<O>(objs, trace[m], trace[k]));
            assert(hit::<O>(objs, trace, c - 1, k, j + 1));
        }
    }
    assert forall|i: int|
        0 <= i < k && trace[i].pid == p && #[trigger] hit::<O>(
            objs,
            trace,
            i,
            k,
            j + 1,
        ) implies i < e by {
        let m = choose|m: int|
            i <= m < k && #[trigger] before::<O>(objs, trace, i, m) && (trace[m].pid
                == trace[k].pid || m < j + 1 && conflicting::<O>(objs, trace[m], trace[k]));
        if m == j {
            assert(i < d);
        } else {
            assert(hit::<O>(objs, trace, i, k, j));
        }
    }
}

proof fn lemma_partial_skip<O: Object>(
    objs: Seq<O::Model>,
    trace: Seq<Transition>,
    k: int,
    j: int,
    p: int,
    c: int,
)
    requires
        0 <= j < k < trace.len(),
        !conflicting::<O>(objs, trace[j], trace[k]),
        partial::<O>(objs, trace, k, j, p, c),
    ensures
        partial::<O>(objs, trace, k, j + 1, p, c),
{
    if c > 0 {
        let m = choose|m: int|
            c - 1 <= m < k && #[trigger] before::<O>(objs, trace, c - 1, m) && (trace[m].pid
                == trace[k].pid || m < j && conflicting::<O>(objs, trace[m], trace[k]));
        assert(hit::<O>(objs, trace, c - 1, k, j + 1));
    }
    assert forall|i: int|
        0 <= i < k && trace[i].pid == p && #[trigger] hit::<O>(
            objs,
            trace,
            i,
            k,
            j + 1,
        ) implies i < c by {
        let m = choose|m: int|
            i <= m < k && #[trigger] before::<O>(objs, trace, i, m) && (trace[m].pid
                == trace[k].pid || m < j + 1 && conflicting::<O>(objs, trace[m], trace[k]));
        assert(hit::<O>(objs, trace, i, k, j));
    }
}

proof fn lemma_partial_end<O: Object>(
    objs: Seq<O::Model>,
    trace: Seq<Transition>,
    k: int,
    p: int,
    c: int,
)
    requires
        0 <= k < trace.len(),
        partial::<O>(objs, trace, k, k, p, c),
    ensures
        is_clock::<O>(
            objs,
            trace,
            k,
            p,
            if p == trace[k].pid {
                k + 1
            } else {
                c
            },
        ),
{
    if p == trace[k].pid {
        assert(before::<O>(objs, trace, k, k));
    } else {
        if c > 0 {
            let m = choose|m: int|
                c - 1 <= m < k && #[trigger] before::<O>(objs, trace, c - 1, m) && (trace[m].pid
                    == trace[k].pid || m < k && conflicting::<O>(objs, trace[m], trace[k]));
            assert(edge::<O>(objs, trace, m, k));
            assert(before::<O>(objs, trace, c - 1, k));
        }
        assert forall|i: int|
            0 <= i <= k && trace[i].pid == p && #[trigger] before::<O>(
                objs,
                trace,
                i,
                k,
            ) implies i < c by {
            assert(i < k);
            let m = choose|m: int|
                i <= m < k && before::<O>(objs, trace, i, m) && #[trigger] edge::<O>(
                    objs,
                    trace,
                    m,
                    k,
                );
            assert(hit::<O>(objs, trace, i, k, k));
        }
    }
}

/// Merges `pred` into `clock`, entry by entry.
fn merge(clock: &mut Vec<usize>, pred: &Vec<usize>)
    requires
        old(clock)@.len() == pred@.len(),
    ensures
        final(clock)@.len() == old(clock)@.len(),
        forall|p: int|
            0 <= p < pred@.len() ==> #[trigger] final(clock)@[p] == (if pred@[p] > old(clock)@[p] {
                pred@[p]
            } else {
                old(clock)@[p]
            }),
{
    let mut p: usize = 0;
    while p < clock.len()
        invariant
            p <= clock@.len(),
            clock@.len() == old(clock)@.len(),
            old(clock)@.len() == pred@.len(),
            forall|q: int|
                0 <= q < p ==> #[trigger] clock@[q] == (if pred@[q] > old(clock)@[q] {
                    pred@[q]
                } else {
                    old(clock)@[q]
                }),
            forall|q: int| p <= q < clock@.len() ==> #[trigger] clock@[q] == old(clock)@[q],
        decreases clock@.len() - p,
    {
        if pred[p] > clock[p] {
            clock.set(p, pred[p]);
        }
        p = p + 1;
    }
}

fn zeros(n: usize) -> (v: Vec<usize>)
    ensures
        v@.len() == n,
        forall|i: int| 0 <= i < n ==> #[trigger] v@[i] == 0,
{
    let mut v: Vec<usize> = Vec::new();
    while v.len() < n
        invariant
            v@.len() <= n,
            forall|i: int| 0 <= i < v@.len() ==> #[trigger] v@[i] == 0,
        decreases n - v@.len(),
    {
        v.push(0);
    }
    v
}

/// Per-event vector clocks. Each clock starts from its process's previous clock (program order)
/// and merges every dependent predecessor, then sets its own component. The program-order seed
/// keeps two same-process operations ordered even when the dependency relation calls them
/// independent (e.g. two loads).
pub fn event_clocks<'a, O, P, F>(state: &State<'a, O, P, F>) -> (clocks: Vec<Vec<usize>>) where
    O: Object,
    P: Process<Op = O::Op, Reply = O::Reply>,
    F: Fn(World<O, P>) -> World<O, P>,

    requires
        state.valid(),
        state@.trace.len() < usize::MAX,
    ensures
        are_clocks::<O>(
            state@.world.objs,
            state@.trace,
            clocks@,
            state@.world.pnames.len(),
            state@.trace.len() as int,
        ),
{
    let ghost objs = state@.world.objs;
    let ghost ts = state@.trace;
    proof {
        state.lemma_valid();
    }
    let trace = state.trace();
    let n: usize = trace.len();
    let procs: usize = state.world().processes().len();
    let mut last: Vec<usize> = zeros(procs);
    let mut clocks: Vec<Vec<usize>> = Vec::new();
    clocks.push(zeros(procs));
    let mut k: usize = 0;
    while k < n
        invariant
            k <= n,
            n == ts.len(),
            n < usize::MAX,
            trace@ == ts,
            state.valid(),
            objs == state@.world.objs,
            ts == state@.trace,
            state_sound::<O, P>(state@),
            procs == state@.world.pnames.len(),
            last@.len() == procs,
            forall|p: int| 0 <= p < procs ==> #[trigger] last@[p] <= k,
            forall|p: int| 0 <= p < procs && last@[p] > 0 ==> ts[#[trigger] last@[p] - 1].pid == p,
            forall|p: int, i: int|
                0 <= p < procs && #[trigger] last@[p] <= i < k ==> (#[trigger] ts[i]).pid != p,
            are_clocks::<O>(objs, ts, clocks@, procs as nat, k as int),
        decreases n - k,
    {
        let t = trace[k];
        assert(ts[k as int].pid < procs);
        let from: usize = last[t.pid];
        let mut clock = slice_to_vec(clocks[from].as_slice());
        proof {
            assert forall|p: int| 0 <= p < procs implies partial::<O>(
                objs,
                ts,
                k as int,
                0,
                p,
                #[trigger] clock@[p] as int,
            ) by {
                if from > 0 {
                    assert(is_clock::<O>(
                        objs,
                        ts,
                        from - 1,
                        p,
                        clocks@[(from - 1) + 1]@[p] as int,
                    ));
                }
                lemma_partial_start::<O>(
                    objs,
                    ts,
                    k as int,
                    from as int,
                    p,
                    clock@[p] as int,
                );
            }
        }
        let mut j: usize = 0;
        while j < k
            invariant
                j <= k < n,
                n == ts.len(),
                trace@ == ts,
                t == ts[k as int],
                state.valid(),
                objs == state@.world.objs,
                ts == state@.trace,
                state_sound::<O, P>(state@),
                clock@.len() == procs,
                are_clocks::<O>(objs, ts, clocks@, procs as nat, k as int),
                forall|p: int|
                    0 <= p < procs ==> partial::<O>(
                        objs,
                        ts,
                        k as int,
                        j as int,
                        p,
                        #[trigger] clock@[p] as int,
                    ),
            decreases k - j,
        {
            proof {
                lemma_traced_known(state, j as int);
                lemma_traced_known(state, k as int);
            }
            let ghost prev = clock@;
            if state.depends(trace[j], t) {
                merge(&mut clock, &clocks[j + 1]);
                assert forall|p: int| 0 <= p < procs implies partial::<O>(
                    objs,
                    ts,
                    k as int,
                    j + 1,
                    p,
                    #[trigger] clock@[p] as int,
                ) by {
                    assert(partial::<O>(objs, ts, k as int, j as int, p, prev[p] as int));
                    assert(is_clock::<O>(objs, ts, j as int, p, clocks@[j + 1]@[p] as int));
                    lemma_partial_merge::<O>(
                        objs,
                        ts,
                        k as int,
                        j as int,
                        p,
                        prev[p] as int,
                        clocks@[j + 1]@[p] as int,
                    );
                }
            } else {
                assert forall|p: int| 0 <= p < procs implies partial::<O>(
                    objs,
                    ts,
                    k as int,
                    j + 1,
                    p,
                    #[trigger] clock@[p] as int,
                ) by {
                    lemma_partial_skip::<O>(
                        objs,
                        ts,
                        k as int,
                        j as int,
                        p,
                        clock@[p] as int,
                    );
                }
            }
            j = j + 1;
        }
        let ghost merged = clock@;
        clock.set(t.pid, k + 1);
        last.set(t.pid, k + 1);
        let ghost prev = clocks@;
        clocks.push(clock);
        proof {
            assert forall|l: int, p: int| 0 <= l < k + 1 && 0 <= p < procs implies is_clock::<O>(
                objs,
                ts,
                l,
                p,
                #[trigger] clocks@[l + 1]@[p] as int,
            ) by {
                if l < k {
                    assert(is_clock::<O>(objs, ts, l, p, prev[l + 1]@[p] as int));
                } else {
                    assert(partial::<O>(objs, ts, k as int, k as int, p, merged[p] as int));
                    lemma_partial_end::<O>(objs, ts, k as int, p, merged[p] as int);
                }
            }
            assert forall|p: int| 0 <= p < procs implies #[trigger] clocks@[0]@[p] == 0 by {
                assert(prev[0]@[p] == 0);
            }
        }
        k = k + 1;
    }
    clocks
}

/// A traced transition is known to its object.
pub proof fn lemma_traced_known<'a, O, P, F>(state: &State<'a, O, P, F>, i: int) where
    O: Object,
    P: Process<Op = O::Op, Reply = O::Reply>,
    F: Fn(World<O, P>) -> World<O, P>,

    requires
        state_sound::<O, P>(state@),
        0 <= i < state@.trace.len(),
    ensures
        state@.trace[i].oid < state@.world.objs.len(),
        O::knows(state@.world.objs[state@.trace[i].oid as int], state@.trace[i]),
{
    let t = state@.trace[i];
    let m = state@.world.objs[t.oid as int];
    assert(O::valid(m));
    assert(O::has_committed(m, t));
    O::law_ready(m);
}

/// Whether event `i` happens before event `j` (1-based, `i < j`).
pub fn happens_before(
    clocks: &Vec<Vec<usize>>,
    trace: &[Transition],
    i: usize,
    j: usize,
) -> (b: bool)
    requires
        1 <= i <= j <= trace@.len(),
        j < clocks@.len(),
        trace@[i - 1].pid < clocks@[j as int]@.len(),
    ensures
        b == (i <= clocks@[j as int]@[trace@[i - 1].pid as int]),
{
    i <= clocks[j][trace[i - 1].pid]
}

} // verus!
