//! Laws of the search: what happens before what, which races are seen to, who sleeps, and in which
//! order the steps are told.

use vstd::prelude::*;

use crate::model::executor::weight;
use crate::model::object::{Object, Transition};
use crate::model::process::{Process, ProcessID};
use crate::model::state::{
    feasible, lemma_feasible_prefix, lemma_reached_sound, reached, started,
};
use crate::model::world::{
    lemma_ready_all, ready_all, world_sound, WorldModel,
};
use crate::search::clocks::{
    are_clocks, before, edge, is_clock, lemma_before_trans, lemma_clock_answers, lemma_edge_before,
    pids, race, unordered,
};
use crate::search::exhaustive::{clean_from, ready_at, survey, survey_rest};
use crate::search::observer::{met, noted, RaceOutcome, Step};
use crate::search::plan::{at, chain, choice, halts, lemma_at_put, sown, takes_root, Plan};
use crate::search::reversal::{
    lemma_push_contains, lemma_seedling_foremost, seedling, still_asleep, walkable,
    without,
};
use crate::search::saga::{
    advance, backed, coverer, descent_notes, fed, lemma_mending, lowered, mending, opening, outset,
    pop_note, race_note, refreshed, retreat, ruling, saga, seed_note, seeds, tells, Note, Saga,
    Stand, Told,
};
use crate::theory::behaviour::{
    after, commutes, dep, en, fails, lawful, lemma_after_concat, lemma_lawful, lemma_lawful_after,
    ok, step, Beh, Word,
};
use crate::theory::initials::{eqv, lemma_eqv_grow, lemma_eqv_ok, lemma_eqv_prefix, rem, wi};
use crate::theory::program::{behaviour, offers, op_for};

verus! {

/// `path` goes forward through the trace, each event to a later one of its own process or of its own
/// object that conflicts with it.
pub open spec fn forward<O: Object>(
    objs: Seq<O::Model>,
    trace: Seq<Transition>,
    path: Seq<int>,
) -> bool {
    &&& path.len() > 0
    &&& forall|n: int|
        0 <= n < path.len() - 1 ==> {
            let a = trace[#[trigger] path[n]];
            let b = trace[path[n + 1]];
            &&& path[n] < path[n + 1]
            &&& a.pid == b.pid || a.oid == b.oid && O::conflict(objs[a.oid as int], a, b)
        }
}

/// There is a way forward from event `i` to event `k`.
pub open spec fn leads<O: Object>(
    objs: Seq<O::Model>,
    trace: Seq<Transition>,
    i: int,
    k: int,
) -> bool {
    exists|path: Seq<int>| #[trigger]
        forward::<O>(objs, trace, path) && path[0] == i && path.last() == k
}

proof fn lemma_leads_before<O: Object>(
    objs: Seq<O::Model>,
    trace: Seq<Transition>,
    path: Seq<int>,
)
    requires
        forward::<O>(objs, trace, path),
    ensures
        path[0] <= path.last(),
        before::<O>(objs, trace, path[0], path.last()),
    decreases path.len(),
{
    if path.len() > 1 {
        let init = path.drop_last();
        let n = init.len() - 1;
        assert(forward::<O>(objs, trace, init)) by {
            assert forall|m: int| 0 <= m < init.len() - 1 implies {
                let a = trace[#[trigger] init[m]];
                let b = trace[init[m + 1]];
                &&& init[m] < init[m + 1]
                &&& a.pid == b.pid || a.oid == b.oid && O::conflict(objs[a.oid as int], a, b)
            } by {
                assert(path[m] == init[m] && path[m + 1] == init[m + 1]);
            }
        }
        lemma_leads_before::<O>(objs, trace, init);
        assert(path[n] < path[n + 1]);
        assert(edge::<O>(objs, trace, path[n], path[n + 1]));
        lemma_edge_before::<O>(objs, trace, path[n], path[n + 1]);
        lemma_before_trans::<O>(objs, trace, path[0], path[n], path[n + 1]);
    }
}

proof fn lemma_before_leads<O: Object>(
    objs: Seq<O::Model>,
    trace: Seq<Transition>,
    i: int,
    k: int,
)
    requires
        i <= k,
        before::<O>(objs, trace, i, k),
    ensures
        leads::<O>(objs, trace, i, k),
    decreases k - i,
{
    if i == k {
        let path = seq![i];
        assert(forward::<O>(objs, trace, path));
        assert(path[0] == i && path.last() == k);
    } else {
        let m = choose|m: int|
            i <= m < k && before::<O>(objs, trace, i, m) && #[trigger] edge::<O>(
                objs,
                trace,
                m,
                k,
            );
        lemma_before_leads::<O>(objs, trace, i, m);
        let init = choose|path: Seq<int>| #[trigger]
            forward::<O>(objs, trace, path) && path[0] == i && path.last() == m;
        let path = init.push(k);
        assert(forward::<O>(objs, trace, path)) by {
            assert forall|n: int| 0 <= n < path.len() - 1 implies {
                let a = trace[#[trigger] path[n]];
                let b = trace[path[n + 1]];
                &&& path[n] < path[n + 1]
                &&& a.pid == b.pid || a.oid == b.oid && O::conflict(objs[a.oid as int], a, b)
            } by {
                if n < init.len() - 1 {
                    assert(init[n] == path[n] && init[n + 1] == path[n + 1]);
                }
            }
        }
        assert(path[0] == i && path.last() == k);
    }
}

/// One event happens before another, or is it, exactly if there is a way forward from the one to the
/// other.
pub proof fn law_before<O: Object>(objs: Seq<O::Model>, trace: Seq<Transition>, i: int, k: int)
    requires
        i <= k,
    ensures
        before::<O>(objs, trace, i, k) <==> leads::<O>(objs, trace, i, k),
{
    if before::<O>(objs, trace, i, k) {
        lemma_before_leads::<O>(objs, trace, i, k);
    }
    if leads::<O>(objs, trace, i, k) {
        let path = choose|path: Seq<int>| #[trigger]
            forward::<O>(objs, trace, path) && path[0] == i && path.last() == k;
        lemma_leads_before::<O>(objs, trace, path);
    }
}

/// What the vector clocks answer: the entry of event `k` for the process of event `i` has reached `i`
/// exactly if there is a way forward from `i` to `k`. An entry is the place of such an event of its
/// process, or zero. Before the first event all entries are zero.
pub proof fn law_clocks<O: Object>(
    objs: Seq<O::Model>,
    trace: Seq<Transition>,
    clocks: Seq<Vec<usize>>,
    procs: nat,
    i: int,
    k: int,
)
    requires
        are_clocks::<O>(objs, trace, clocks, procs, trace.len() as int),
        0 <= i <= k < trace.len(),
        trace[i].pid < procs,
    ensures
        clocks.len() == trace.len() + 1,
        i + 1 <= clocks[k + 1]@[trace[i].pid as int] <==> leads::<O>(objs, trace, i, k),
        forall|p: int| 0 <= p < procs ==> #[trigger] clocks[0]@[p] == 0,
        forall|p: int|
            0 <= p < procs && #[trigger] clocks[k + 1]@[p] > 0 ==> {
                let last = clocks[k + 1]@[p] - 1;
                last <= k && trace[last].pid == p && leads::<O>(objs, trace, last, k)
            },
{
    assert forall|p: int| 0 <= p < procs && #[trigger] clocks[k + 1]@[p] > 0 implies {
        let last = clocks[k + 1]@[p] - 1;
        last <= k && trace[last].pid == p && leads::<O>(objs, trace, last, k)
    } by {
        let last = clocks[k + 1]@[p] - 1;
        assert(is_clock::<O>(objs, trace, k, p, clocks[k + 1]@[p] as int));
        law_before::<O>(objs, trace, last, k);
    }
    let p = trace[i].pid as int;
    assert(is_clock::<O>(objs, trace, k, p, clocks[k + 1]@[p] as int));
    lemma_clock_answers::<O>(objs, trace, i, k, clocks[k + 1]@[p] as int);
    law_before::<O>(objs, trace, i, k);
}

/// Two events race if they are of different processes, on one object, in conflict, and no third event
/// lies on a way forward from the one to the other.
pub proof fn law_race<O: Object>(objs: Seq<O::Model>, trace: Seq<Transition>, i: int, j: int)
    requires
        i < j,
    ensures
        race::<O>(objs, trace, i, j) <==> {
            &&& trace[i].pid != trace[j].pid
            &&& trace[i].oid == trace[j].oid
            &&& O::conflict(objs[trace[i].oid as int], trace[i], trace[j])
            &&& forall|m: int|
                i < m < j ==> !(#[trigger] leads::<O>(objs, trace, i, m) && leads::<O>(
                    objs,
                    trace,
                    m,
                    j,
                ))
        },
{
    assert forall|m: int| i < m < j implies (#[trigger] before::<O>(objs, trace, i, m) && before::<
        O,
    >(objs, trace, m, j) <==> leads::<O>(objs, trace, i, m) && leads::<O>(objs, trace, m, j)) by {
        law_before::<O>(objs, trace, i, m);
        law_before::<O>(objs, trace, m, j);
    }
    if race::<O>(objs, trace, i, j) {
        assert forall|m: int| i < m < j implies !(#[trigger] leads::<O>(objs, trace, i, m) && leads::<
            O,
        >(objs, trace, m, j)) by {
            assert(!(before::<O>(objs, trace, i, m) && before::<O>(objs, trace, m, j)));
        }
    }
    if trace[i].pid != trace[j].pid && trace[i].oid == trace[j].oid && O::conflict(
        objs[trace[i].oid as int],
        trace[i],
        trace[j],
    ) && (forall|m: int|
        i < m < j ==> !(#[trigger] leads::<O>(objs, trace, i, m) && leads::<O>(
            objs,
            trace,
            m,
            j,
        ))) {
        assert forall|m: int| i < m < j implies !(#[trigger] before::<O>(objs, trace, i, m)
            && before::<O>(objs, trace, m, j)) by {
            assert(!(leads::<O>(objs, trace, i, m) && leads::<O>(objs, trace, m, j)));
        }
    }
}

/// `places` are the places from `k` on, in order, that no way forward from `i` leads to.
pub open spec fn apart<O: Object>(
    objs: Seq<O::Model>,
    trace: Seq<Transition>,
    i: int,
    k: int,
    places: Seq<int>,
) -> bool {
    &&& forall|a: int, b: int| 0 <= a < b < places.len() ==> #[trigger] places[a] < #[trigger] places[b]
    &&& forall|m: int| #[trigger]
        places.contains(m) <==> k <= m < trace.len() && !leads::<O>(objs, trace, i, m)
}

/// The events that do not happen after event `i` are those at the places that no way forward from `i`
/// leads to, in their order.
pub proof fn law_unordered<O: Object>(
    objs: Seq<O::Model>,
    trace: Seq<Transition>,
    i: int,
    k: int,
) -> (places: Seq<int>)
    requires
        i <= k <= trace.len(),
    ensures
        apart::<O>(objs, trace, i, k, places),
        unordered::<O>(objs, trace, i, k).len() == places.len(),
        forall|n: int|
            0 <= n < places.len() ==> unordered::<O>(objs, trace, i, k)[n]
                == trace[#[trigger] places[n]],
    decreases trace.len() - k,
{
    if k == trace.len() {
        Seq::empty()
    } else {
        let rest = law_unordered::<O>(objs, trace, i, k + 1);
        law_before::<O>(objs, trace, i, k);
        if before::<O>(objs, trace, i, k) {
            assert(apart::<O>(objs, trace, i, k, rest)) by {
                assert forall|m: int| #[trigger] rest.contains(m) <==> k <= m < trace.len()
                    && !leads::<O>(objs, trace, i, m) by {
                    if m == k {
                        assert(leads::<O>(objs, trace, i, k));
                    }
                }
            }
            rest
        } else {
            let all = seq![k] + rest;
            assert forall|m: int| #[trigger] all.contains(m) <==> k <= m < trace.len() && !leads::<
                O,
            >(objs, trace, i, m) by {
                if all.contains(m) {
                    let n = choose|n: int| 0 <= n < all.len() && all[n] == m;
                    if n > 0 {
                        assert(rest[n - 1] == m);
                        assert(rest.contains(m));
                    }
                }
                if k <= m < trace.len() && !leads::<O>(objs, trace, i, m) {
                    if m == k {
                        assert(all[0] == m);
                    } else {
                        assert(rest.contains(m));
                        let n = choose|n: int| 0 <= n < rest.len() && rest[n] == m;
                        assert(all[n + 1] == m);
                    }
                }
            }
            assert forall|a: int, b: int| 0 <= a < b < all.len() implies #[trigger] all[a]
                < #[trigger] all[b] by {
                if a == 0 {
                    assert(rest.contains(rest[b - 1]));
                } else {
                    assert(rest[a - 1] < rest[b - 1]);
                }
            }
            assert forall|n: int| 0 <= n < all.len() implies unordered::<O>(objs, trace, i, k)[n]
                == trace[#[trigger] all[n]] by {
                if n > 0 {
                    assert(all[n] == rest[n - 1]);
                }
            }
            all
        }
    }
}

/// Who stays asleep when `p` steps: who was asleep, can step, and does not conflict with `p`; in the
/// order in which they fell asleep.
pub proof fn law_still_asleep(b: Beh, sleep: Word, p: ProcessID)
    ensures
        forall|q: ProcessID| #[trigger]
            still_asleep(b, sleep, p).contains(q) <==> sleep.contains(q) && en(b, q) && !dep(
                b,
                p,
                q,
            ),
        sleep.len() == 0 ==> still_asleep(b, sleep, p).len() == 0,
        forall|q: ProcessID| #[trigger]
            still_asleep(b, sleep.push(q), p) == if en(b, q) && !dep(b, p, q) {
                still_asleep(b, sleep, p).push(q)
            } else {
                still_asleep(b, sleep, p)
            },
    decreases sleep.len(),
{
    assert forall|q: ProcessID| #[trigger] still_asleep(b, sleep.push(q), p) == if en(b, q) && !dep(
        b,
        p,
        q,
    ) {
        still_asleep(b, sleep, p).push(q)
    } else {
        still_asleep(b, sleep, p)
    } by {
        assert(sleep.push(q).drop_last() =~= sleep);
    }
    if sleep.len() > 0 {
        let init = sleep.drop_last();
        law_still_asleep(b, init, p);
        lemma_push_contains(init, sleep.last());
        lemma_push_contains(still_asleep(b, init, p), sleep.last());
        assert(init.push(sleep.last()) =~= sleep);
    }
}

/// Whom the search goes on with: nobody if nobody has an operation ready; otherwise one who has, and
/// who is awake if anyone who has is awake, and nobody of that kind has a lower id.
pub proof fn law_seed<O: Object>(objs: Seq<O::Model>, sleep: Word, q: ProcessID)
    ensures
        match seedling::<O>(objs, sleep) {
            None => !offers::<O>(objs, q),
            Some(p) => {
                &&& offers::<O>(objs, p)
                &&& offers::<O>(objs, q) && !sleep.contains(q) ==> !sleep.contains(p) && p <= q
                &&& offers::<O>(objs, q) && sleep.contains(p) ==> sleep.contains(q) && p <= q
            },
        },
{
    lemma_seedling_foremost::<O>(objs, sleep);
}

/// Only the set of the sleepers counts for whom the search goes on with, not their order.
pub proof fn law_seed_order<O: Object>(objs: Seq<O::Model>, sleep: Word, other: Word)
    requires
        forall|q: ProcessID| #[trigger] sleep.contains(q) <==> other.contains(q),
    ensures
        seedling::<O>(objs, sleep) == seedling::<O>(objs, other),
{
    lemma_seedling_foremost::<O>(objs, sleep);
    lemma_seedling_foremost::<O>(objs, other);
    if let Some(p) = seedling::<O>(objs, sleep) {
        if let Some(q) = seedling::<O>(objs, other) {
            law_seed::<O>(objs, sleep, q);
            law_seed::<O>(objs, other, p);
            assert(sleep.contains(p) <==> other.contains(p));
            assert(sleep.contains(q) <==> other.contains(q));
        }
    }
}

/// Who covers a fragment: the first of the sleepers that is a weak initial of it, if any is.
pub proof fn law_coverer(b: Beh, sleep: Word, word: Word)
    ensures
        match coverer(b, sleep, word) {
            None => forall|i: int| 0 <= i < sleep.len() ==> !wi(b, word, #[trigger] sleep[i]),
            Some(q) => exists|i: int|
                0 <= i < sleep.len() && #[trigger] sleep[i] == q && wi(b, word, q) && forall|j: int|
                    0 <= j < i ==> !wi(b, word, #[trigger] sleep[j]),
        },
    decreases sleep.len(),
{
    if sleep.len() > 0 {
        let rest = sleep.drop_first();
        law_coverer(b, rest, word);
        if wi(b, word, sleep[0]) {
            assert(sleep[0] == coverer(b, sleep, word)->0);
        } else {
            match coverer(b, rest, word) {
                None => {
                    assert forall|i: int| 0 <= i < sleep.len() implies !wi(
                        b,
                        word,
                        #[trigger] sleep[i],
                    ) by {
                        if i > 0 {
                            assert(rest[i - 1] == sleep[i]);
                        }
                    }
                },
                Some(q) => {
                    let k = choose|i: int|
                        0 <= i < rest.len() && #[trigger] rest[i] == q && wi(b, word, q) && forall|
                            j: int,
                        | 0 <= j < i ==> !wi(b, word, #[trigger] rest[j]);
                    assert(sleep[k + 1] == q);
                    assert forall|j: int| 0 <= j < k + 1 implies !wi(b, word, #[trigger] sleep[j]) by {
                        if j > 0 {
                            assert(rest[j - 1] == sleep[j]);
                        }
                    }
                },
            }
        }
    }
}

/// The behaviour when the `j`-th step of `w` comes up.
pub open spec fn due(b: Beh, w: Word, j: int) -> Beh {
    after(b, w.take(j))
}

/// `q` can be moved to the front of `w` past its first `k` steps: it can step before each of them and
/// conflicts with none.
pub open spec fn passes(b: Beh, w: Word, q: ProcessID, k: int) -> bool {
    &&& 0 <= k <= w.len()
    &&& forall|j: int| 0 <= j <= k ==> en(#[trigger] due(b, w, j), q)
    &&& forall|j: int| 0 <= j < k ==> #[trigger] lets_by(b, w, q, j)
}

/// The `j`-th step of `w` is not of `q`, and does not conflict with the step that `q` has ready then.
pub open spec fn lets_by(b: Beh, w: Word, q: ProcessID, j: int) -> bool {
    w[j] != q && !dep(due(b, w, j), q, w[j])
}

proof fn lemma_due(b: Beh, w: Word)
    requires
        w.len() > 0,
    ensures
        due(b, w, 0) == b,
        forall|j: int|
            0 < j <= w.len() ==> #[trigger] due(b, w, j) == due(
                step(b, w[0]),
                w.drop_first(),
                j - 1,
            ),
        forall|j: int|
            0 <= j < w.len() ==> #[trigger] due(step(b, w[0]), w.drop_first(), j) == due(b, w, j + 1),
{
    assert(w.take(0) =~= Seq::empty());
    assert forall|j: int| 0 < j <= w.len() implies #[trigger] due(b, w, j) == due(
        step(b, w[0]),
        w.drop_first(),
        j - 1,
    ) by {
        assert(w.take(j).drop_first() =~= w.drop_first().take(j - 1));
    }
    assert forall|j: int| 0 <= j < w.len() implies #[trigger] due(step(b, w[0]), w.drop_first(), j)
        == due(b, w, j + 1) by {
        assert(w.take(j + 1).drop_first() =~= w.drop_first().take(j));
    }
}

/// A weak initial of a word can be moved to its front: past all that comes before its own first step,
/// or past the whole word if it has no step there.
pub proof fn law_weak_initial(b: Beh, w: Word, q: ProcessID)
    ensures
        wi(b, w, q) <==> exists|k: int| #[trigger]
            passes(b, w, q, k) && (k == w.len() || w[k] == q),
    decreases w.len(),
{
    if w.len() == 0 {
        assert(w.take(0) =~= Seq::empty());
        assert(due(b, w, 0) == b);
        if wi(b, w, q) {
            assert(passes(b, w, q, 0));
        } else {
            assert forall|k: int| #[trigger] passes(b, w, q, k) implies false by {
                assert(!en(due(b, w, 0), q));
            }
        }
    } else {
        let rest = w.drop_first();
        let c = step(b, w[0]);
        law_weak_initial(c, rest, q);
        lemma_due(b, w);
        if wi(b, w, q) {
            if w[0] == q {
                assert(passes(b, w, q, 0));
            } else {
                let k = choose|k: int| #[trigger]
                    passes(c, rest, q, k) && (k == rest.len() || rest[k] == q);
                assert forall|j: int| 0 <= j <= k + 1 implies en(#[trigger] due(b, w, j), q) by {
                    if j > 0 {
                        assert(en(due(c, rest, j - 1), q));
                    }
                }
                assert forall|j: int| 0 <= j < k + 1 implies #[trigger] lets_by(b, w, q, j) by {
                    if j > 0 {
                        assert(lets_by(c, rest, q, j - 1));
                        assert(rest[j - 1] == w[j]);
                    }
                }
                assert(passes(b, w, q, k + 1));
            }
        }
        if exists|k: int| #[trigger] passes(b, w, q, k) && (k == w.len() || w[k] == q) {
            let k = choose|k: int| #[trigger] passes(b, w, q, k) && (k == w.len() || w[k] == q);
            assert(en(due(b, w, 0), q));
            if k > 0 {
                assert(lets_by(b, w, q, 0));
                assert forall|j: int| 0 <= j <= k - 1 implies en(#[trigger] due(c, rest, j), q) by {
                    assert(en(due(b, w, j + 1), q));
                }
                assert forall|j: int| 0 <= j < k - 1 implies #[trigger] lets_by(c, rest, q, j) by {
                    assert(lets_by(b, w, q, j + 1));
                }
                assert(passes(c, rest, q, k - 1));
            }
        }
    }
}

/// A word can be walked if every step can be taken when its turn comes and none but the last ends in
/// an error.
pub proof fn law_walkable(b: Beh, w: Word)
    ensures
        walkable(b, w) <==> (forall|j: int|
            0 <= j < w.len() ==> en(#[trigger] after(b, w.take(j)), w[j]) && (j + 1 < w.len()
                ==> !fails(after(b, w.take(j)), w[j]))),
    decreases w.len(),
{
    if w.len() > 0 {
        let rest = w.drop_first();
        let c = step(b, w[0]);
        law_walkable(c, rest);
        assert(w.take(0) =~= Seq::empty());
        assert(after(b, w.take(0)) == b);
        assert forall|j: int| 0 <= j <= rest.len() implies after(c, #[trigger] rest.take(j)) == after(
            b,
            w.take(j + 1),
        ) by {
            assert(w.take(j + 1).drop_first() =~= rest.take(j));
        }
        if walkable(b, w) {
            assert forall|j: int| 0 <= j < w.len() implies en(#[trigger] after(b, w.take(j)), w[j])
                && (j + 1 < w.len() ==> !fails(after(b, w.take(j)), w[j])) by {
                if j > 0 {
                    assert(after(c, rest.take(j - 1)) == after(b, w.take(j)));
                    assert(rest[j - 1] == w[j]);
                }
            }
        }
        if forall|j: int|
            0 <= j < w.len() ==> en(#[trigger] after(b, w.take(j)), w[j]) && (j + 1 < w.len()
                ==> !fails(after(b, w.take(j)), w[j])) {
            assert(en(after(b, w.take(0)), w[0]));
            assert forall|j: int| 0 <= j < rest.len() implies en(
                #[trigger] after(c, rest.take(j)),
                rest[j],
            ) && (j + 1 < rest.len() ==> !fails(after(c, rest.take(j)), rest[j])) by {
                assert(en(after(b, w.take(j + 1)), w[j + 1]));
            }
        }
    }
}

/// Stripping a process from a fragment takes out its first event and leaves the others in order.
pub proof fn law_strip(v: Seq<Transition>, q: ProcessID, k: int)
    requires
        0 <= k <= v.len(),
        forall|j: int| 0 <= j < k ==> (#[trigger] v[j]).pid != q,
        k < v.len() ==> v[k].pid == q,
    ensures
        without(v, q) == if k < v.len() {
            v.remove(k)
        } else {
            v
        },
    decreases v.len(),
{
    if v.len() > 0 {
        let rest = v.drop_first();
        if k == 0 {
            assert(v.remove(0) =~= rest);
        } else {
            assert(v[0].pid != q);
            assert forall|j: int| 0 <= j < k - 1 implies (#[trigger] rest[j]).pid != q by {
                assert(v[j + 1].pid != q);
            }
            law_strip(rest, q, k - 1);
            if k < v.len() {
                assert(seq![v[0]] + rest.remove(k - 1) =~= v.remove(k));
            } else {
                assert(seq![v[0]] + rest =~= v);
            }
        }
    }
}

/// Planting a fragment: where no branch starts with a weak initial of it, it becomes the last branch,
/// whole. Where the first that does is a leaf, or is the branch under way, nothing changes. Elsewhere
/// at most what is below that branch does.
pub proof fn law_planting(b: Beh, p: Plan, busy: bool, v: Seq<Transition>, k: int)
    requires
        0 <= k <= p.kids.len(),
        forall|j: int| 0 <= j < k ==> !wi(b, pids(v), (#[trigger] p.kids[j]).0.pid),
        k < p.kids.len() ==> wi(b, pids(v), p.kids[k].0.pid),
        v.len() > 0,
    ensures
        ({
            let q = sown(b, p, busy, v);
            if k == p.kids.len() {
                &&& q.kids.len() == k + 1
                &&& forall|j: int| 0 <= j < k ==> q.kids[j] == p.kids[j]
                &&& q.kids[k].0 == v[0]
                &&& q.kids[k].1 == chain(v.drop_first())
            } else if busy && k == 0 || p.kids[k].1.kids.len() == 0 {
                q == p
            } else {
                &&& q.kids.len() == p.kids.len()
                &&& forall|j: int| 0 <= j < p.kids.len() && j != k ==> q.kids[j] == p.kids[j]
                &&& q.kids[k].0 == p.kids[k].0
            }
        }),
{
    lemma_chosen(b, p, pids(v), k, 0);
}

proof fn lemma_chosen(b: Beh, p: Plan, word: Word, k: int, from: int)
    requires
        0 <= from <= k <= p.kids.len(),
        forall|j: int| from <= j < k ==> !wi(b, word, (#[trigger] p.kids[j]).0.pid),
        k < p.kids.len() ==> wi(b, word, p.kids[k].0.pid),
    ensures
        choice(b, p, word, from) == k,
    decreases k - from,
{
    if from < k {
        assert(!wi(b, word, p.kids[from].0.pid));
        lemma_chosen(b, p, word, k, from + 1);
    }
}

/// A chain is its edges, one below the other.
pub proof fn law_chain(edges: Seq<Transition>, first: Transition)
    ensures
        chain(Seq::empty()).kids.len() == 0,
        chain(seq![first] + edges).kids.len() == 1,
        chain(seq![first] + edges).kids[0] == (first, chain(edges)),
{
    assert((seq![first] + edges).drop_first() =~= edges);
}

/// What observers keep: one that records keeps every complete interleaving, failing or not, and one
/// that watches every visited state, and nothing else.
pub proof fn law_kept(kept: Seq<Seq<Transition>>, step: Step<'_>, trace: Seq<Transition>)
    ensures
        match step {
            Step::Maximal { trace: whole, failure } => noted(kept, step) == kept.push(whole@),
            _ => noted(kept, step) == kept,
        },
        match step {
            Step::Visit => met(kept, step, trace) == kept.push(trace),
            _ => met(kept, step, trace) == kept,
        },
{
}

/// `u` goes on from `trace`, as a schedule of the program.
pub open spec fn goes_through<O: Object, P: Process<Op = O::Op, Reply = O::Reply>>(
    w: WorldModel<O::Model, P::Model, P::Reply>,
    trace: Seq<Transition>,
    u: Seq<Transition>,
) -> bool {
    feasible::<O, P>(w, u) && trace.is_prefix_of(u)
}

proof fn lemma_prefix(trace: Seq<Transition>, t: Transition, u: Seq<Transition>)
    requires
        trace.push(t).is_prefix_of(u),
    ensures
        trace.is_prefix_of(u),
        u.len() > trace.len(),
        u[trace.len() as int] == t,
{
    let n = trace.len() as int;
    assert(u.subrange(0, n + 1)[n] == t);
    assert(u.subrange(0, n) =~= trace) by {
        assert forall|k: int| 0 <= k < n implies u[k] == trace[k] by {
            assert(u.subrange(0, n + 1)[k] == trace.push(t)[k]);
        }
    }
}

/// The exhaustive search visits schedules that go on from where it started, no schedule twice, and,
/// if none fails, all of them.
pub proof fn law_survey<O: Object, P: Process<Op = O::Op, Reply = O::Reply>>(
    w: WorldModel<O::Model, P::Model, P::Reply>,
    trace: Seq<Transition>,
)
    requires
        world_sound::<O, P>(w),
        feasible::<O, P>(w, trace),
    ensures
        forall|u: Seq<Transition>| #[trigger]
            survey::<O, P>(w, trace).contains(u) ==> goes_through::<O, P>(w, trace, u),
        clean_from::<O, P>(w, trace) ==> forall|u: Seq<Transition>| #[trigger]
            goes_through::<O, P>(w, trace, u) ==> survey::<O, P>(w, trace).contains(u),
        survey::<O, P>(w, trace).no_duplicates(),
        survey::<O, P>(w, trace).len() > 0,
        survey::<O, P>(w, trace)[0] == trace,
        clean_from::<O, P>(w, trace) ==> reached::<O, P>(
            w,
            survey::<O, P>(w, trace).last(),
        ).failure is None,
    decreases weight::<P>(w.sched.procs) - trace.len(), 1nat, 0nat,
{
    lemma_reached_sound::<O, P>(w, trace);
    let s = reached::<O, P>(w, trace);
    let all = survey::<O, P>(w, trace);
    assert(trace.subrange(0, trace.len() as int) =~= trace);
    if s.failure is Some {
        assert(all =~= seq![trace]);
        assert forall|u: Seq<Transition>| #[trigger] all.contains(u) implies goes_through::<O, P>(
            w,
            trace,
            u,
        ) by {}
        if clean_from::<O, P>(w, trace) {
            assert(trace.is_prefix_of(trace));
            assert(s.failure is None);
        }
    } else {
        let rest = survey_rest::<O, P>(w, trace, 0);
        lemma_survey_rest::<O, P>(w, trace, 0);
        assert(all =~= seq![trace] + rest);
        assert forall|u: Seq<Transition>| #[trigger] all.contains(u) implies goes_through::<O, P>(
            w,
            trace,
            u,
        ) by {
            let n = choose|n: int| 0 <= n < all.len() && all[n] == u;
            if n > 0 {
                assert(rest[n - 1] == u);
                assert(rest.contains(u));
                assert(below::<O, P>(w, trace, 0, u));
                let i = choose|i: int| #[trigger] through::<O, P>(w, trace, 0, i, u);
                lemma_prefix(trace, ready_all::<O>(s.world.objs)[i], u);
            }
        }
        assert(all.no_duplicates()) by {
            assert forall|a: int, b: int|
                0 <= a < all.len() && 0 <= b < all.len() && a != b implies all[a] != all[b] by {
                if a == 0 {
                    assert(rest.contains(rest[b - 1]));
                    assert(below::<O, P>(w, trace, 0, rest[b - 1]));
                } else if b == 0 {
                    assert(rest.contains(rest[a - 1]));
                    assert(below::<O, P>(w, trace, 0, rest[a - 1]));
                } else {
                    assert(rest[a - 1] != rest[b - 1]);
                }
            }
        }
        if clean_from::<O, P>(w, trace) {
            assert forall|u: Seq<Transition>| #[trigger]
                goes_through::<O, P>(w, trace, u) implies all.contains(u) by {
                if u.len() == trace.len() {
                    assert(u =~= trace);
                    assert(all[0] == u);
                } else {
                    let n = trace.len() as int;
                    let t = u[n];
                    let ready = ready_all::<O>(s.world.objs);
                    lemma_feasible_prefix::<O, P>(w, u, n + 1);
                    assert(u.take(n + 1).drop_last() =~= trace);
                    assert(u.take(n + 1).last() == t);
                    assert(ready.contains(t));
                    let i = choose|i: int| 0 <= i < ready.len() && ready[i] == t;
                    assert(trace.push(t).is_prefix_of(u)) by {
                        assert(u.subrange(0, n + 1) =~= trace.push(t));
                    }
                    assert(through::<O, P>(w, trace, 0, i, u));
                    assert(below::<O, P>(w, trace, 0, u));
                    assert(rest.contains(u));
                    let k = choose|k: int| 0 <= k < rest.len() && rest[k] == u;
                    assert(all[k + 1] == u);
                }
            }
            if rest.len() > 0 {
                assert(all.last() == rest.last());
            } else {
                assert(all.last() == trace);
            }
        }
    }
}

/// `u` goes on from `trace` with the `i`-th operation, which is not before the `from`-th.
spec fn through<O: Object, P: Process<Op = O::Op, Reply = O::Reply>>(
    w: WorldModel<O::Model, P::Model, P::Reply>,
    trace: Seq<Transition>,
    from: nat,
    i: int,
    u: Seq<Transition>,
) -> bool {
    let ready = ready_all::<O>(reached::<O, P>(w, trace).world.objs);
    from <= i < ready.len() && feasible::<O, P>(w, u) && trace.push(ready[i]).is_prefix_of(u)
}

/// `u` goes on from `trace` with one of its operations, not before the `from`-th.
spec fn below<O: Object, P: Process<Op = O::Op, Reply = O::Reply>>(
    w: WorldModel<O::Model, P::Model, P::Reply>,
    trace: Seq<Transition>,
    from: nat,
    u: Seq<Transition>,
) -> bool {
    u.len() > trace.len() && exists|i: int| #[trigger] through::<O, P>(w, trace, from, i, u)
}

proof fn lemma_survey_rest<O: Object, P: Process<Op = O::Op, Reply = O::Reply>>(
    w: WorldModel<O::Model, P::Model, P::Reply>,
    trace: Seq<Transition>,
    from: nat,
)
    requires
        world_sound::<O, P>(w),
        feasible::<O, P>(w, trace),
        reached::<O, P>(w, trace).failure is None,
    ensures
        forall|u: Seq<Transition>| #[trigger]
            survey_rest::<O, P>(w, trace, from).contains(u) ==> below::<O, P>(w, trace, from, u),
        clean_from::<O, P>(w, trace) ==> forall|u: Seq<Transition>| #[trigger]
            below::<O, P>(w, trace, from, u) ==> survey_rest::<O, P>(w, trace, from).contains(u),
        survey_rest::<O, P>(w, trace, from).no_duplicates(),
        clean_from::<O, P>(w, trace) && survey_rest::<O, P>(w, trace, from).len() > 0 ==> reached::<
            O,
            P,
        >(w, survey_rest::<O, P>(w, trace, from).last()).failure is None,
    decreases
            weight::<P>(w.sched.procs) - trace.len(),
            0nat,
            ready_all::<O>(reached::<O, P>(w, trace).world.objs).len() - from,
{
    let s = reached::<O, P>(w, trace);
    let ready = ready_all::<O>(s.world.objs);
    let all = survey_rest::<O, P>(w, trace, from);
    lemma_reached_sound::<O, P>(w, trace);
    lemma_ready_all::<O>(s.world.objs);
    if from >= ready.len() {
        assert(all =~= Seq::empty());
    } else {
        let t = ready[from as int];
        let next = trace.push(t);
        assert(ready.contains(t));
        assert(next.drop_last() =~= trace);
        assert(feasible::<O, P>(w, next));
        lemma_reached_sound::<O, P>(w, next);
        law_survey::<O, P>(w, next);
        let first = survey::<O, P>(w, next);
        assert forall|u: Seq<Transition>| #[trigger] first.contains(u) implies below::<O, P>(
            w,
            trace,
            from,
            u,
        ) && u[trace.len() as int] == t by {
            assert(goes_through::<O, P>(w, next, u));
            lemma_prefix(trace, t, u);
            assert(through::<O, P>(w, trace, from, from as int, u));
        }
        if clean_from::<O, P>(w, trace) {
            assert(clean_from::<O, P>(w, next)) by {
                assert forall|more: Seq<Transition>|
                    next.is_prefix_of(more) && feasible::<O, P>(w, more) implies (
                #[trigger] reached::<O, P>(w, more)).failure is None by {
                    lemma_prefix(trace, t, more);
                }
            }
        }
        if reached::<O, P>(w, first.last()).failure is None {
            lemma_survey_rest::<O, P>(w, trace, from + 1);
            let rest = survey_rest::<O, P>(w, trace, from + 1);
            assert(all =~= first + rest);
            assert forall|u: Seq<Transition>| #[trigger] rest.contains(u) implies below::<O, P>(
                w,
                trace,
                from,
                u,
            ) && u[trace.len() as int] != t by {
                let later: nat = from + 1;
                assert(below::<O, P>(w, trace, later, u));
                let i = choose|i: int| #[trigger] through::<O, P>(w, trace, later, i, u);
                lemma_prefix(trace, ready[i], u);
                assert(through::<O, P>(w, trace, from, i, u));
                assert(ready[i] != ready[from as int]);
            }
            assert forall|u: Seq<Transition>| #[trigger] all.contains(u) implies below::<O, P>(
                w,
                trace,
                from,
                u,
            ) by {
                let n = choose|n: int| 0 <= n < all.len() && all[n] == u;
                if n < first.len() {
                    assert(first[n] == u);
                    assert(first.contains(u));
                } else {
                    assert(rest[n - first.len()] == u);
                    assert(rest.contains(u));
                }
            }
            assert(all.no_duplicates()) by {
                assert forall|a: int, b: int|
                    0 <= a < all.len() && 0 <= b < all.len() && a != b implies all[a] != all[b] by {
                    let n = first.len();
                    if a < n && b < n {
                        assert(first[a] != first[b]);
                    } else if a >= n && b >= n {
                        assert(rest[a - n] != rest[b - n]);
                    } else if a < n {
                        assert(first.contains(first[a]) && rest.contains(rest[b - n]));
                    } else {
                        assert(first.contains(first[b]) && rest.contains(rest[a - n]));
                    }
                }
            }
            if clean_from::<O, P>(w, trace) {
                assert forall|u: Seq<Transition>| #[trigger]
                    below::<O, P>(w, trace, from, u) implies all.contains(u) by {
                    let i = choose|i: int| #[trigger] through::<O, P>(w, trace, from, i, u);
                    if i == from {
                        assert(goes_through::<O, P>(w, next, u));
                        assert(first.contains(u));
                        let k = choose|k: int| 0 <= k < first.len() && first[k] == u;
                        assert(all[k] == u);
                    } else {
                        assert(through::<O, P>(w, trace, from + 1, i, u));
                        assert(below::<O, P>(w, trace, from + 1, u));
                        assert(rest.contains(u));
                        let k = choose|k: int| 0 <= k < rest.len() && rest[k] == u;
                        assert(all[first.len() + k] == u);
                    }
                }
                if rest.len() > 0 {
                    assert(all.last() == rest.last());
                } else {
                    assert(all.last() == first.last());
                }
            }
        }
    }
}

/// The step `b` may be told right after the step `a`.
pub open spec fn may_follow(a: Note, b: Note) -> bool {
    match a.told {
        Told::Visit { trace } => match b.told {
            Told::RootSeed { seeded } => trace.len() == 0,
            Told::RootEmpty => trace.len() == 0,
            Told::Descend { depth, committed, parent_sleep, child_sleep } => trace.len() == depth
                + 1 && trace.last() == committed,
            Told::Maximal { trace: whole, failure } => failure && trace.len() > 0 && whole == trace,
            _ => false,
        },
        Told::RootSeed { seeded } => match b.told {
            Told::Visit { trace } => trace.len() == 1,
            Told::Done => true,
            _ => false,
        },
        Told::RootEmpty => b.told is Done,
        Told::Done => b.told is Done,
        Told::Descend { depth, committed, parent_sleep, child_sleep } => match b.told {
            Told::SeedChild { depth: below, seeded } => below == depth + 1,
            Told::Maximal { trace, failure } => !failure && trace.len() == depth + 1
                && trace.last() == committed,
            _ => false,
        },
        Told::SeedChild { depth, seeded } => match b.told {
            Told::Visit { trace } => trace.len() == depth + 1,
            Told::Pop { finished_pid, from_depth, into_depth } => from_depth == depth,
            _ => false,
        },
        Told::Replay { prefix } => match b.told {
            Told::Visit { trace } => trace.len() > 0 && trace.drop_last() == prefix,
            Told::Pop { finished_pid, from_depth, into_depth } => from_depth == prefix.len(),
            Told::Done => prefix.len() == 0,
            _ => false,
        },
        Told::Maximal { trace, failure } => !failure && match b.told {
            Told::Race { i, j, e, ep, notdep, v, outcome } => j <= trace.len(),
            Told::Pop { finished_pid, from_depth, into_depth } => from_depth == trace.len()
                && finished_pid == trace.last().pid,
            Told::Replay { prefix } => prefix == trace,
            _ => false,
        },
        Told::Race { i, j, e, ep, notdep, v, outcome } => match b.told {
            Told::Race { i: i2, j: j2, e: e2, ep: ep2, notdep: notdep2, v: v2, outcome: outcome2 } => j
                < j2 || j == j2 && i < i2,
            Told::Pop { finished_pid, from_depth, into_depth } => from_depth >= j,
            Told::Replay { prefix } => prefix.len() >= j,
            _ => false,
        },
        Told::Pop { finished_pid, from_depth, into_depth } => from_depth == into_depth + 1
            && match b.told {
            Told::Pop { finished_pid: _, from_depth: next, into_depth: _ } => next == into_depth,
            Told::Replay { prefix } => prefix.len() == into_depth,
            Told::Done => into_depth == 0,
            _ => false,
        },
    }
}

/// Each step may follow the one before it.
pub open spec fn fluent(notes: Seq<Note>) -> bool {
    forall|k: int, l: int|
        0 <= k && l == k + 1 && l < notes.len() ==> may_follow(
            #[trigger] notes[k],
            #[trigger] notes[l],
        )
}

/// The last step told fits where the search stands.
spec fn poised(s: Saga) -> bool {
    &&& s.notes.len() > 0
    &&& s.end is None ==> match s.notes.last().told {
        Told::RootSeed { seeded } => !s.stale && s.now.prefix.len() == 0,
        Told::Done => !s.stale && s.now.prefix.len() == 0 && s.now.tree.kids.len() == 0,
        Told::SeedChild { depth, seeded } => !s.stale && s.now.prefix.len() == depth && depth > 0,
        Told::Replay { prefix } => !s.stale && s.now.prefix == prefix,
        Told::Maximal { trace, failure } => !failure && s.stale && s.now.prefix == trace
            && trace.len() > 0,
        Told::Race { i, j, e, ep, notdep, v, outcome } => s.stale && s.now.prefix.len() >= j
            && j > 0,
        Told::Pop { finished_pid, from_depth, into_depth } => s.stale && s.now.prefix.len()
            == into_depth && from_depth == into_depth + 1,
        _ => false,
    }
}

proof fn lemma_fluent_push(notes: Seq<Note>, n: Note)
    requires
        fluent(notes),
        notes.len() > 0 ==> may_follow(notes.last(), n),
    ensures
        fluent(notes.push(n)),
{
    let all = notes.push(n);
    assert forall|k: int, l: int| 0 <= k && l == k + 1 && l < all.len() implies may_follow(
        #[trigger] all[k],
        #[trigger] all[l],
    ) by {
        if l < notes.len() {
            assert(all[k] == notes[k] && all[l] == notes[l]);
        }
    }
}

proof fn lemma_fluent_add(x: Seq<Note>, y: Seq<Note>)
    requires
        fluent(x),
        fluent(y),
        x.len() > 0 && y.len() > 0 ==> may_follow(x.last(), y[0]),
    ensures
        fluent(x + y),
{
    let all = x + y;
    assert forall|k: int, l: int| 0 <= k && l == k + 1 && l < all.len() implies may_follow(
        #[trigger] all[k],
        #[trigger] all[l],
    ) by {
        if l < x.len() {
            assert(all[k] == x[k] && all[l] == x[l]);
        } else if k >= x.len() {
            assert(all[k] == y[k - x.len()] && all[l] == y[l - x.len()]);
        }
    }
}

/// Note `n` tells of the race of events `i` and `j`.
pub open spec fn tells_of(n: Note, a: int, b: int) -> bool {
    n.told matches Told::Race { i, j, e, ep, notdep, v, outcome } && i == a && j == b
}

/// `rs` tells of the races before the pair `(i, j)`, of all of them and of nothing else, by the later
/// event and then by the earlier one.
pub open spec fn rows<O: Object>(
    objs: Seq<O::Model>,
    trace: Seq<Transition>,
    rs: Seq<Note>,
    j: int,
    i: int,
) -> bool {
    &&& forall|k: int| 0 <= k < rs.len() ==> (#[trigger] rs[k]).told is Race
    &&& forall|k: int, a: int, b: int|
        0 <= k < rs.len() && #[trigger] tells_of(rs[k], a, b) ==> 1 <= a < b && (b < j || b == j && a
            < i) && race::<O>(objs, trace, a - 1, b - 1)
    &&& forall|a: int, b: int|
        1 <= a < b && (b < j || b == j && a < i) && #[trigger] race::<O>(objs, trace, a - 1, b - 1)
            ==> told_of(rs, a, b)
    &&& fluent(rs)
}

/// Some note of `rs` tells of the race of events `a` and `b`.
pub open spec fn told_of(rs: Seq<Note>, a: int, b: int) -> bool {
    exists|k: int| 0 <= k < rs.len() && tells_of(#[trigger] rs[k], a, b)
}

proof fn lemma_rows<O: Object, P: Process<Op = O::Op, Reply = O::Reply>>(
    w: WorldModel<O::Model, P::Model, P::Reply>,
    s: Stand,
    j: nat,
    i: nat,
)
    requires
        1 <= i <= j,
    ensures
        rows::<O>(
            reached::<O, P>(w, s.prefix).world.objs,
            s.prefix,
            mending::<O, P>(w, s, j, i).1,
            j as int,
            i as int,
        ),
    decreases j, i,
{
    let objs = reached::<O, P>(w, s.prefix).world.objs;
    let trace = s.prefix;
    let rs = mending::<O, P>(w, s, j, i).1;
    if i <= 1 {
        if j > 1 {
            let d = (j - 1) as nat;
            lemma_rows::<O, P>(w, s, d, d);
            assert(rs == mending::<O, P>(w, s, d, d).1);
            assert forall|a: int, b: int|
                1 <= a < b && (b < j || b == j && a < i) && #[trigger] race::<O>(
                    objs,
                    trace,
                    a - 1,
                    b - 1,
                ) implies told_of(rs, a, b) by {
                assert(b < d || b == d && a < d);
            }
        } else {
            assert(rs =~= Seq::empty());
        }
    } else {
        let before = mending::<O, P>(w, s, j, (i - 1) as nat);
        lemma_rows::<O, P>(w, s, j, (i - 1) as nat);
        lemma_mending::<O, P>(w, s, j, (i - 1) as nat);
        if race::<O>(objs, trace, i - 2, j - 1) {
            let n = race_note::<O, P>(w, before.0, i - 1, j as int);
            assert(rs == before.1.push(n));
            if before.1.len() > 0 {
                let m = before.1.last();
                assert(before.1[before.1.len() - 1].told is Race);
                if let Told::Race { i: a, j: b, e, ep, notdep, v, outcome } = m.told {
                    assert(tells_of(before.1[before.1.len() - 1], a, b));
                }
            }
            lemma_fluent_push(before.1, n);
            assert forall|k: int, a: int, b: int|
                0 <= k < rs.len() && #[trigger] tells_of(rs[k], a, b) implies 1 <= a < b && (b < j || b
                == j && a < i) && race::<O>(objs, trace, a - 1, b - 1) by {
                if k < before.1.len() {
                    assert(tells_of(before.1[k], a, b));
                }
            }
            assert forall|a: int, b: int|
                1 <= a < b && (b < j || b == j && a < i) && #[trigger] race::<O>(
                    objs,
                    trace,
                    a - 1,
                    b - 1,
                ) implies told_of(rs, a, b) by {
                if b == j && a == i - 1 {
                    assert(tells_of(rs[rs.len() - 1], a, b));
                } else {
                    assert(told_of(before.1, a, b));
                    let k = choose|k: int|
                        0 <= k < before.1.len() && tells_of(#[trigger] before.1[k], a, b);
                    assert(rs[k] == before.1[k]);
                }
            }
        } else {
            assert forall|a: int, b: int|
                1 <= a < b && (b < j || b == j && a < i) && #[trigger] race::<O>(
                    objs,
                    trace,
                    a - 1,
                    b - 1,
                ) implies told_of(rs, a, b) by {
                assert(!(b == j && a == i - 1));
            }
        }
    }
}

/// After the `k`-th step, a complete interleaving that ended cleanly, `rs` tells of its races: of every
/// reversible race in it once, and of nothing else.
pub open spec fn raced<O: Object, P: Process<Op = O::Op, Reply = O::Reply>>(
    w: WorldModel<O::Model, P::Model, P::Reply>,
    notes: Seq<Note>,
    k: int,
    r: int,
) -> bool {
    notes[k].told matches Told::Maximal { trace, failure } && {
        &&& k < r <= notes.len()
        &&& rows::<O>(
            reached::<O, P>(w, trace).world.objs,
            trace,
            notes.subrange(k + 1, r),
            (trace.len() + 1) as int,
            1,
        )
        &&& r < notes.len() ==> !(notes[r].told is Race)
    }
}

/// The note tells of a complete interleaving that ended cleanly.
pub open spec fn complete_one(n: Note) -> bool {
    n.told matches Told::Maximal { trace, failure } && !failure
}

spec fn all_raced<O: Object, P: Process<Op = O::Op, Reply = O::Reply>>(
    w: WorldModel<O::Model, P::Model, P::Reply>,
    notes: Seq<Note>,
) -> bool {
    forall|k: int|
        0 <= k < notes.len() && complete_one(#[trigger] notes[k]) ==> exists|r: int| #[trigger]
            raced::<O, P>(w, notes, k, r)
}

/// Steps that are no races, added behind, change nothing of what has been told of races.
proof fn lemma_raced_more<O: Object, P: Process<Op = O::Op, Reply = O::Reply>>(
    w: WorldModel<O::Model, P::Model, P::Reply>,
    notes: Seq<Note>,
    n: Note,
)
    requires
        all_raced::<O, P>(w, notes),
        !(n.told is Race),
        !complete_one(n),
    ensures
        all_raced::<O, P>(w, notes.push(n)),
{
    let all = notes.push(n);
    assert forall|k: int| 0 <= k < all.len() && complete_one(#[trigger] all[k]) implies exists|
        r: int,
    | #[trigger] raced::<O, P>(w, all, k, r) by {
        assert(all[k] == notes[k]);
        let r = choose|r: int| #[trigger] raced::<O, P>(w, notes, k, r);
        assert(all.subrange(k + 1, r) =~= notes.subrange(k + 1, r));
        assert(raced::<O, P>(w, all, k, r));
    }
}

/// A complete interleaving and its races, added behind.
proof fn lemma_raced_end<O: Object, P: Process<Op = O::Op, Reply = O::Reply>>(
    w: WorldModel<O::Model, P::Model, P::Reply>,
    notes: Seq<Note>,
    n: Note,
    rs: Seq<Note>,
)
    requires
        all_raced::<O, P>(w, notes),
        n.told matches Told::Maximal { trace, failure } && !failure && rows::<O>(
            reached::<O, P>(w, trace).world.objs,
            trace,
            rs,
            (trace.len() + 1) as int,
            1,
        ),
    ensures
        all_raced::<O, P>(w, notes.push(n) + rs),
{
    let all = notes.push(n) + rs;
    assert forall|k: int| 0 <= k < all.len() && complete_one(#[trigger] all[k]) implies exists|
        r: int,
    | #[trigger] raced::<O, P>(w, all, k, r) by {
        if k < notes.len() {
            assert(all[k] == notes[k]);
            let r = choose|r: int| #[trigger] raced::<O, P>(w, notes, k, r);
            assert(all.subrange(k + 1, r) =~= notes.subrange(k + 1, r));
            if r < notes.len() {
                assert(all[r] == notes[r]);
            }
            assert(raced::<O, P>(w, all, k, r));
        } else if k == notes.len() {
            let r = all.len() as int;
            assert(all.subrange(k + 1, r) =~= rs);
            assert(raced::<O, P>(w, all, k, r));
        } else {
            assert(all[k] == rs[k - notes.len() - 1]);
            assert(rs[k - notes.len() - 1].told is Race);
        }
    }
}

spec fn well_told<O: Object, P: Process<Op = O::Op, Reply = O::Reply>>(
    w: WorldModel<O::Model, P::Model, P::Reply>,
    s: Saga,
) -> bool {
    fluent(s.notes) && poised(s) && all_raced::<O, P>(w, s.notes)
}

proof fn lemma_well_told<O: Object, P: Process<Op = O::Op, Reply = O::Reply>>(
    w: WorldModel<O::Model, P::Model, P::Reply>,
    n: nat,
)
    ensures
        well_told::<O, P>(w, saga::<O, P>(w, n)),
    decreases n,
{
    if n == 0 {
        lemma_well_told_start::<O, P>(w);
    } else {
        let s = saga::<O, P>(w, (n - 1) as nat);
        lemma_well_told::<O, P>(w, (n - 1) as nat);
        if s.end is None {
            let top = at(s.now.tree, s.now.prefix.len());
            if top.kids.len() == 0 {
                let more = if s.now.prefix.len() == 0 {
                    Note { told: Told::Done, stand: s.now }
                } else {
                    pop_note(s.now)
                };
                assert(retreat(s).notes == s.notes.push(more));
                lemma_fluent_push(s.notes, more);
                lemma_raced_more::<O, P>(w, s.notes, more);
            } else {
                let r = refreshed(s);
                let more = Note { told: Told::Replay { prefix: s.now.prefix }, stand: s.now };
                if s.stale {
                    assert(r.notes == s.notes.push(more));
                    lemma_fluent_push(s.notes, more);
                    lemma_raced_more::<O, P>(w, s.notes, more);
                }
                assert(well_told::<O, P>(w, r));
                let objs = reached::<O, P>(w, s.now.prefix).world.objs;
                let p = top.kids[0].0.pid;
                if offers::<O>(objs, p) {
                    lemma_well_told_down::<O, P>(w, r, op_for::<O>(objs, p));
                }
            }
        }
    }
}

proof fn lemma_well_told_start<O: Object, P: Process<Op = O::Op, Reply = O::Reply>>(
    w: WorldModel<O::Model, P::Model, P::Reply>,
)
    ensures
        well_told::<O, P>(w, opening::<O, P>(w)),
{
    let s = opening::<O, P>(w);
    let none = Seq::<Note>::empty();
    let visit = Note { told: Told::Visit { trace: Seq::empty() }, stand: outset() };
    lemma_fluent_push(none, visit);
    lemma_raced_more::<O, P>(w, none, visit);
    let one = none.push(visit);
    if started::<O, P>(w).failure is None {
        match seedling::<O>(started::<O, P>(w).world.objs, Seq::empty()) {
            Some(p) => {
                lemma_fluent_push(one, s.notes.last());
                lemma_raced_more::<O, P>(w, one, s.notes.last());
                assert(s.notes == one.push(s.notes.last()));
            },
            None => {
                let e = Note { told: Told::RootEmpty, stand: outset() };
                let d = Note { told: Told::Done, stand: outset() };
                lemma_fluent_push(one, e);
                lemma_raced_more::<O, P>(w, one, e);
                lemma_fluent_push(one.push(e), d);
                lemma_raced_more::<O, P>(w, one.push(e), d);
                assert(s.notes == one.push(e).push(d));
            },
        }
    }
}

proof fn lemma_well_told_down<O: Object, P: Process<Op = O::Op, Reply = O::Reply>>(
    w: WorldModel<O::Model, P::Model, P::Reply>,
    s: Saga,
    t: Transition,
)
    requires
        well_told::<O, P>(w, s),
        s.end is None,
        !s.stale,
        s.now.prefix.len() > 0 || s.now.tree.kids.len() > 0,
    ensures
        well_told::<O, P>(w, advance::<O, P>(w, s, t)),
{
    let r = advance::<O, P>(w, s, t);
    let trace = s.now.prefix.push(t);
    let down = lowered::<O, P>(w, s.now, t);
    let ns = descent_notes::<O, P>(w, s.now, t);
    assert(trace.drop_last() =~= s.now.prefix);
    lemma_fluent_push(s.notes, ns[0]);
    lemma_raced_more::<O, P>(w, s.notes, ns[0]);
    lemma_fluent_push(s.notes.push(ns[0]), ns[1]);
    lemma_raced_more::<O, P>(w, s.notes.push(ns[0]), ns[1]);
    let notes = s.notes + ns;
    assert(notes =~= s.notes.push(ns[0]).push(ns[1]));
    if reached::<O, P>(w, trace).failure is None {
        if ready_all::<O>(reached::<O, P>(w, trace).world.objs).len() == 0 {
            let m = Note { told: Told::Maximal { trace, failure: false }, stand: down };
            let races = mending::<O, P>(w, down, trace.len() + 1, 1).1;
            lemma_fluent_push(notes, m);
            lemma_rows::<O, P>(w, down, trace.len() + 1, 1);
            lemma_mending::<O, P>(w, down, trace.len() + 1, 1);
            if races.len() > 0 {
                let last = (races.len() - 1) as int;
                assert(races[0].told is Race);
                assert(races[last].told is Race);
                if let Told::Race { i: a, j: b, e, ep, notdep, v, outcome } = races[0].told {
                    assert(tells_of(races[0], a, b));
                }
                if let Told::Race { i: a, j: b, e, ep, notdep, v, outcome } = races[last].told {
                    assert(tells_of(races[last], a, b));
                }
            }
            lemma_fluent_add(notes.push(m), races);
            lemma_raced_end::<O, P>(w, notes, m, races);
        } else {
            lemma_fluent_push(notes, seed_note::<O, P>(w, down));
            lemma_raced_more::<O, P>(w, notes, seed_note::<O, P>(w, down));
        }
    }
}

/// The steps that a search tells follow each other in order: a visit is told before the descent or the
/// failure it belongs to; after a descent comes the choice of how to go on, or the complete
/// interleaving, and after that its races; the search backs out one level at a time, and after backing
/// out rebuilds the state before it visits another. Of every complete interleaving that ended cleanly,
/// each reversible race is told once, by the later event and then by the earlier one, and nothing that
/// is none.
pub proof fn law_story<O: Object, P: Process<Op = O::Op, Reply = O::Reply>>(
    w: WorldModel<O::Model, P::Model, P::Reply>,
    notes: Seq<Note>,
    end: Option<Seq<Transition>>,
)
    requires
        tells::<O, P>(w, notes, end),
    ensures
        fluent(notes),
        forall|k: int|
            0 <= k < notes.len() && complete_one(#[trigger] notes[k]) ==> exists|r: int| #[trigger]
                raced::<O, P>(w, notes, k, r),
{
    let n = choose|n: nat|
        (#[trigger] saga::<O, P>(w, n)).end == Some(end) && saga::<O, P>(w, n).notes == notes;
    lemma_well_told::<O, P>(w, n);
}

/// The operation of a process: it has one exactly if one of those ready is its own, and it is that.
pub proof fn law_operation<O: Object>(objs: Seq<O::Model>, p: ProcessID, t: Transition)
    ensures
        ready_all::<O>(objs).contains(t) && t.pid == p ==> offers::<O>(objs, p),
        offers::<O>(objs, p) ==> ready_all::<O>(objs).contains(op_for::<O>(objs, p)) && op_for::<O>(
            objs,
            p,
        ).pid == p,
{
    if offers::<O>(objs, p) {
        let u = choose|u: Transition| #[trigger] ready_all::<O>(objs).contains(u) && u.pid == p;
        assert(ready_all::<O>(objs).contains(u) && u.pid == p);
    }
}

/// Planting makes a fresh branch exactly if it changes the tree.
pub proof fn law_takes_root(b: Beh, p: Plan, busy: bool, v: Seq<Transition>)
    ensures
        takes_root(b, p, busy, v) <==> sown(b, p, busy, v) != p,
    decreases p,
{
    let k = choice(b, p, pids(v), 0);
    let q = sown(b, p, busy, v);
    if k >= p.kids.len() {
        if v.len() > 0 {
            assert(q.kids.len() == p.kids.len() + 1);
        }
    } else if !halts(b, p, busy, v) && 0 <= k < p.kids.len() {
        let h = p.kids[k].0.pid;
        law_takes_root(step(b, h), p.kids[k].1, false, without(v, h));
        assert(q.kids[k].1 == sown(step(b, h), p.kids[k].1, false, without(v, h)));
        if q.kids[k].1 == p.kids[k].1 {
            assert(q.kids =~= p.kids);
        }
    }
}

/// How a race resolves. The reversed order is skipped exactly if it cannot be walked. It is covered by
/// the first sleeper that is a weak initial of it, if one is. Otherwise it is planted in the node where
/// it belongs, and said to be grafted exactly if that changes the tree. It is aimed at the depth of the
/// earlier event throughout.
pub proof fn law_ruling(b: Beh, tree: Plan, sleep: Word, depth: nat, v: Seq<Transition>)
    requires
        forall|k: nat| k < depth ==> #[trigger] at(tree, k).kids.len() > 0,
        depth <= usize::MAX,
    ensures
        ({
            let (outcome, then) = ruling(b, tree, sleep, depth, v);
            &&& outcome is Disabling <==> !walkable(b, pids(v))
            &&& outcome is Disabling || outcome is CoveredBySleeper ==> then == tree
            &&& outcome is CoveredBySleeper <==> walkable(b, pids(v)) && exists|i: int|
                0 <= i < sleep.len() && wi(b, pids(v), #[trigger] sleep[i])
            &&& outcome matches RaceOutcome::CoveredBySleeper { insert_depth, covering_pid }
                ==> insert_depth == depth && exists|i: int|
                0 <= i < sleep.len() && #[trigger] sleep[i] == covering_pid && wi(
                    b,
                    pids(v),
                    covering_pid,
                ) && forall|j: int| 0 <= j < i ==> !wi(b, pids(v), #[trigger] sleep[j])
            &&& outcome matches RaceOutcome::ExistingLeaf { insert_depth } ==> insert_depth == depth
                && at(then, depth) == at(tree, depth)
            &&& outcome matches RaceOutcome::Grafted { insert_depth } ==> insert_depth == depth && at(
                then,
                depth,
            ) != at(tree, depth)
            &&& outcome is ExistingLeaf || outcome is Grafted ==> at(then, depth) == sown(
                b,
                at(tree, depth),
                true,
                v,
            )
        }),
{
    law_coverer(b, sleep, pids(v));
    law_takes_root(b, at(tree, depth), true, v);
    lemma_at_put(tree, depth, sown(b, at(tree, depth), true, v), depth);
}

/// The way down a wakeup tree is by first children.
pub proof fn law_way_down(p: Plan, depth: nat)
    ensures
        at(p, 0) == p,
        at(p, depth + 1) == at(p, depth).kids[0].1,
{
}

/// Backing out of a level: the branch just finished is gone from the node above, its process sleeps
/// there, behind those that slept there before, and the prefix is one step shorter.
pub proof fn law_backed(s: Stand)
    requires
        s.prefix.len() > 0,
        s.sleeps.len() == s.prefix.len() + 1,
        forall|k: nat| k < s.prefix.len() ==> #[trigger] at(s.tree, k).kids.len() > 0,
    ensures
        ({
            let d = (s.prefix.len() - 1) as nat;
            let b = backed(s);
            &&& b.prefix == s.prefix.take(d as int)
            &&& b.sleeps.len() == d + 1
            &&& forall|m: int| 0 <= m < d ==> b.sleeps[m] == s.sleeps[m]
            &&& b.sleeps[d as int] == s.sleeps[d as int].push(s.prefix[d as int].pid)
            &&& at(b.tree, d).kids == at(s.tree, d).kids.drop_first()
        }),
{
    let d = (s.prefix.len() - 1) as nat;
    assert(s.prefix.drop_last() =~= s.prefix.take(d as int));
    let n = Plan { kids: at(s.tree, d).kids.remove(0) };
    lemma_at_put(s.tree, d, n, d);
    assert(at(s.tree, d).kids.remove(0) =~= at(s.tree, d).kids.drop_first());
}

/// Going on by `t`: the prefix is one step longer, the tree and the sleepers above are as they were,
/// and of the sleepers those stay asleep that can step and do not conflict with `t`.
pub proof fn law_lowered<O: Object, P: Process<Op = O::Op, Reply = O::Reply>>(
    w: WorldModel<O::Model, P::Model, P::Reply>,
    s: Stand,
    t: Transition,
)
    requires
        s.sleeps.len() == s.prefix.len() + 1,
    ensures
        ({
            let d = s.prefix.len() as int;
            let b = behaviour::<O, P>(reached::<O, P>(w, s.prefix).world);
            let l = lowered::<O, P>(w, s, t);
            &&& l.tree == s.tree
            &&& l.prefix.len() == d + 1
            &&& l.prefix.take(d) == s.prefix
            &&& l.prefix[d] == t
            &&& l.sleeps.len() == d + 2
            &&& forall|m: int| 0 <= m <= d ==> l.sleeps[m] == s.sleeps[m]
            &&& forall|q: ProcessID| #[trigger]
                l.sleeps[d + 1].contains(q) <==> s.sleeps[d].contains(q) && en(b, q) && !dep(
                    b,
                    t.pid,
                    q,
                )
        }),
{
    let b = behaviour::<O, P>(reached::<O, P>(w, s.prefix).world);
    assert(lowered::<O, P>(w, s, t).prefix.take(s.prefix.len() as int) =~= s.prefix);
    law_still_asleep(b, s.sleeps[s.prefix.len() as int], t.pid);
}

/// Seeding the node that the prefix leads to: a node with branches is left alone. Another gets one
/// branch, of one edge, the operation of the process to go on with; none if nothing is ready.
pub proof fn law_fed<O: Object, P: Process<Op = O::Op, Reply = O::Reply>>(
    w: WorldModel<O::Model, P::Model, P::Reply>,
    s: Stand,
)
    requires
        forall|k: nat| k < s.prefix.len() ==> #[trigger] at(s.tree, k).kids.len() > 0,
    ensures
        ({
            let d = s.prefix.len();
            let objs = reached::<O, P>(w, s.prefix).world.objs;
            let before = at(s.tree, d);
            let then = at(fed::<O, P>(w, s).tree, d);
            &&& fed::<O, P>(w, s).prefix == s.prefix
            &&& fed::<O, P>(w, s).sleeps == s.sleeps
            &&& before.kids.len() > 0 ==> then == before
            &&& before.kids.len() == 0 ==> match seedling::<O>(objs, s.sleeps[d as int]) {
                Some(p) => {
                    &&& then.kids.len() == 1
                    &&& then.kids[0].0 == op_for::<O>(objs, p)
                    &&& then.kids[0].1.kids.len() == 0
                },
                None => then.kids.len() == 0,
            }
        }),
{
    let d = s.prefix.len();
    let objs = reached::<O, P>(w, s.prefix).world.objs;
    let n = seeds::<O>(objs, s.sleeps[d as int], at(s.tree, d));
    lemma_at_put(s.tree, d, n, d);
    if let Some(p) = seedling::<O>(objs, s.sleeps[d as int]) {
        let t = op_for::<O>(objs, p);
        law_chain(Seq::empty(), t);
        assert(seq![t] + Seq::<Transition>::empty() =~= seq![t]);
        assert(at(s.tree, d).kids.len() == 0 ==> n == chain(seq![t]));
    }
}

/// What a step says fits where the driver stood when it said so: depths are lengths of the prefix, and
/// events, sleepers and prefixes are those of the stand.
pub open spec fn fits<O: Object, P: Process<Op = O::Op, Reply = O::Reply>>(
    w: WorldModel<O::Model, P::Model, P::Reply>,
    n: Note,
) -> bool {
    let prefix = n.stand.prefix;
    let d = prefix.len() as int;
    match n.told {
        Told::Visit { trace } => if trace.len() == 0 {
            d == 0
        } else {
            trace.drop_last() == prefix
        },
        Told::RootSeed { seeded } => d == 0,
        Told::RootEmpty => d == 0,
        Told::Maximal { trace, failure } => if failure {
            trace.len() > 0 && trace.drop_last() == prefix && reached::<O, P>(
                w,
                trace,
            ).failure is Some
        } else {
            trace == prefix && reached::<O, P>(w, trace).failure is None && ready_all::<O>(
                reached::<O, P>(w, trace).world.objs,
            ).len() == 0
        },
        Told::Descend { depth, committed, parent_sleep, child_sleep } => {
            let b = behaviour::<O, P>(reached::<O, P>(w, prefix).world);
            &&& depth == d
            &&& reached::<O, P>(w, prefix.push(committed)).failure is None
            &&& parent_sleep == n.stand.sleeps[d]
            &&& child_sleep == still_asleep(b, parent_sleep, committed.pid)
        },
        Told::SeedChild { depth, seeded } => depth == d,
        Told::Race { i, j, e, ep, notdep, v, outcome } => {
            &&& e == prefix[i - 1]
            &&& ep == prefix[j - 1]
            &&& v.len() == notdep.len() + 1
            &&& v.last() == ep
            &&& v.drop_last() == notdep
            &&& notdep == unordered::<O>(
                reached::<O, P>(w, prefix).world.objs,
                prefix,
                i - 1,
                i,
            )
        },
        Told::Pop { finished_pid, from_depth, into_depth } => {
            &&& into_depth == d
            &&& from_depth == d + 1
            &&& n.stand.sleeps[d].len() > 0
            &&& n.stand.sleeps[d].last() == finished_pid
        },
        Told::Replay { prefix: replayed } => replayed == prefix,
        Told::Done => d == 0,
    }
}

spec fn all_fit<O: Object, P: Process<Op = O::Op, Reply = O::Reply>>(
    w: WorldModel<O::Model, P::Model, P::Reply>,
    notes: Seq<Note>,
) -> bool {
    forall|k: int| 0 <= k < notes.len() ==> fits::<O, P>(w, #[trigger] notes[k])
}

proof fn lemma_mending_fits<O: Object, P: Process<Op = O::Op, Reply = O::Reply>>(
    w: WorldModel<O::Model, P::Model, P::Reply>,
    s: Stand,
    j: nat,
    i: nat,
)
    ensures
        all_fit::<O, P>(w, mending::<O, P>(w, s, j, i).1),
    decreases j, i,
{
    if i <= 1 {
        if j > 1 {
            lemma_mending_fits::<O, P>(w, s, (j - 1) as nat, (j - 1) as nat);
        }
    } else {
        lemma_mending_fits::<O, P>(w, s, j, (i - 1) as nat);
        let before = mending::<O, P>(w, s, j, (i - 1) as nat);
        let n = race_note::<O, P>(w, before.0, i - 1, j as int);
        assert(fits::<O, P>(w, n)) by {
            if let Told::Race { i: a, j: b, e, ep, notdep, v, outcome } = n.told {
                assert(v.drop_last() =~= notdep);
            }
        }
    }
}

proof fn lemma_all_fit<O: Object, P: Process<Op = O::Op, Reply = O::Reply>>(
    w: WorldModel<O::Model, P::Model, P::Reply>,
    n: nat,
)
    ensures
        all_fit::<O, P>(w, saga::<O, P>(w, n).notes),
        saga::<O, P>(w, n).now.sleeps.len() == saga::<O, P>(w, n).now.prefix.len() + 1,
    decreases n,
{
    if n > 0 {
        let s = saga::<O, P>(w, (n - 1) as nat);
        lemma_all_fit::<O, P>(w, (n - 1) as nat);
        if s.end is None {
            let d = s.now.prefix.len();
            let top = at(s.now.tree, d);
            if top.kids.len() == 0 {
                assert(d > 0 ==> fits::<O, P>(w, pop_note(s.now)));
            } else {
                let objs = reached::<O, P>(w, s.now.prefix).world.objs;
                let p = top.kids[0].0.pid;
                let r = refreshed(s);
                assert(all_fit::<O, P>(w, r.notes));
                if offers::<O>(objs, p) {
                    lemma_all_fit_down::<O, P>(w, r, op_for::<O>(objs, p));
                }
            }
        }
    }
}

proof fn lemma_all_fit_down<O: Object, P: Process<Op = O::Op, Reply = O::Reply>>(
    w: WorldModel<O::Model, P::Model, P::Reply>,
    s: Saga,
    t: Transition,
)
    requires
        all_fit::<O, P>(w, s.notes),
        s.now.sleeps.len() == s.now.prefix.len() + 1,
    ensures
        all_fit::<O, P>(w, advance::<O, P>(w, s, t).notes),
        advance::<O, P>(w, s, t).now.sleeps.len() == advance::<O, P>(w, s, t).now.prefix.len() + 1,
{
    let r = advance::<O, P>(w, s, t);
    let trace = s.now.prefix.push(t);
    let down = lowered::<O, P>(w, s.now, t);
    let ns = descent_notes::<O, P>(w, s.now, t);
    assert(trace.drop_last() =~= s.now.prefix);
    assert(fits::<O, P>(w, ns[0]));
    assert(fits::<O, P>(w, ns[1]));
    let notes = s.notes + ns;
    assert(all_fit::<O, P>(w, notes));
    if reached::<O, P>(w, trace).failure is None {
        if ready_all::<O>(reached::<O, P>(w, trace).world.objs).len() == 0 {
            let m = Note { told: Told::Maximal { trace, failure: false }, stand: down };
            lemma_mending_fits::<O, P>(w, down, trace.len() + 1, 1);
            lemma_mending::<O, P>(w, down, trace.len() + 1, 1);
            assert(fits::<O, P>(w, m));
            assert(all_fit::<O, P>(w, notes.push(m)));
        } else {
            assert(fits::<O, P>(w, seed_note::<O, P>(w, down)));
        }
    }
}

/// All that a search tells fits where it stood when it told it.
pub proof fn law_fits<O: Object, P: Process<Op = O::Op, Reply = O::Reply>>(
    w: WorldModel<O::Model, P::Model, P::Reply>,
    notes: Seq<Note>,
    end: Option<Seq<Transition>>,
    k: int,
)
    requires
        tells::<O, P>(w, notes, end),
        0 <= k < notes.len(),
    ensures
        fits::<O, P>(w, notes[k]),
{
    let n = choose|n: nat|
        (#[trigger] saga::<O, P>(w, n)).end == Some(end) && saga::<O, P>(w, n).notes == notes;
    lemma_all_fit::<O, P>(w, n);
}

/// Swapping two steps next to each other that do not conflict leads from a schedule to one of its
/// class, which ends where it ends.
pub proof fn law_swap(b: Beh, w: Word, p: ProcessID, q: ProcessID, z: Word)
    requires
        lawful(b),
        p != q,
        ok(b, w),
        en(after(b, w), p),
        en(after(b, w), q),
        !dep(after(b, w), q, p),
        ok(b, w + seq![p, q] + z),
    ensures
        eqv(b, w + seq![q, p] + z, w + seq![p, q] + z),
        after(b, w + seq![q, p] + z) == after(b, w + seq![p, q] + z),
{
    let c = after(b, w);
    let pq = seq![p, q];
    let qp = seq![q, p];
    lemma_lawful_after(b, w);
    lemma_lawful(c);
    assert(commutes(c, p, q));
    assert(commutes(c, q, p));
    assert(pq.drop_first() =~= seq![q]);
    assert(qp.drop_first() =~= seq![p]);
    assert(seq![p].drop_first() =~= Seq::<ProcessID>::empty());
    assert(seq![q].drop_first() =~= Seq::<ProcessID>::empty());
    assert(rem(seq![q], q) =~= Seq::<ProcessID>::empty());
    assert(rem(pq, q) =~= seq![p]);
    assert(rem(seq![p], p) =~= Seq::<ProcessID>::empty());
    assert(pq[1] == q && pq.contains(q));
    assert(seq![p][0] == p && seq![p].contains(p));
    assert(wi(step(c, p), seq![q], q));
    assert(wi(c, pq, q));
    assert(wi(step(c, q), seq![p], p));
    assert(eqv(step(step(c, q), p), Seq::<ProcessID>::empty(), Seq::<ProcessID>::empty()));
    assert(eqv(step(c, q), seq![p], seq![p]));
    assert(eqv(c, qp, pq));
    assert(ok(step(step(c, p), q), Seq::<ProcessID>::empty()));
    assert(ok(step(c, p), seq![q]));
    assert(ok(c, pq));
    lemma_eqv_prefix(b, w, qp, pq);
    lemma_after_concat(b, w, pq);
    lemma_eqv_grow(b, w + qp, w + pq, z);
    lemma_eqv_ok(b, w + qp + z, w + pq + z);
}

/// The schedule `u` comes before `v`: `v` goes on from it, or the two part where `u` goes on with an
/// operation that comes before the one that `v` goes on with.
pub open spec fn earlier<O: Object, P: Process<Op = O::Op, Reply = O::Reply>>(
    w: WorldModel<O::Model, P::Model, P::Reply>,
    u: Seq<Transition>,
    v: Seq<Transition>,
) -> bool {
    ||| u.is_prefix_of(v) && u.len() < v.len()
    ||| exists|m: int, i: int, j: int| #[trigger] parts::<O, P>(w, u, v, m, i, j)
}

/// After `m` common steps, `u` goes on with the `i`-th of what is ready then, and `v` with the `j`-th,
/// which comes later.
pub open spec fn parts<O: Object, P: Process<Op = O::Op, Reply = O::Reply>>(
    w: WorldModel<O::Model, P::Model, P::Reply>,
    u: Seq<Transition>,
    v: Seq<Transition>,
    m: int,
    i: int,
    j: int,
) -> bool {
    &&& 0 <= m < u.len()
    &&& m < v.len()
    &&& u.take(m) == v.take(m)
    &&& 0 <= i < j < ready_at::<O, P>(w, u, m).len()
    &&& u[m] == ready_at::<O, P>(w, u, m)[i]
    &&& v[m] == ready_at::<O, P>(w, u, m)[j]
}

/// Each schedule comes before those behind it.
pub open spec fn sorted<O: Object, P: Process<Op = O::Op, Reply = O::Reply>>(
    w: WorldModel<O::Model, P::Model, P::Reply>,
    xs: Seq<Seq<Transition>>,
) -> bool {
    forall|a: int, b: int|
        0 <= a < b < xs.len() ==> earlier::<O, P>(w, #[trigger] xs[a], #[trigger] xs[b])
}

/// The exhaustive search visits schedules in their order: each before those that go on from it, and
/// those that go on with an earlier operation before those that go on with a later one.
pub proof fn law_survey_order<O: Object, P: Process<Op = O::Op, Reply = O::Reply>>(
    w: WorldModel<O::Model, P::Model, P::Reply>,
    trace: Seq<Transition>,
)
    requires
        world_sound::<O, P>(w),
        feasible::<O, P>(w, trace),
    ensures
        sorted::<O, P>(w, survey::<O, P>(w, trace)),
    decreases weight::<P>(w.sched.procs) - trace.len(), 1nat, 0nat,
{
    let all = survey::<O, P>(w, trace);
    if reached::<O, P>(w, trace).failure is Some {
        assert(all =~= seq![trace]);
    } else {
        let rest = survey_rest::<O, P>(w, trace, 0);
        lemma_rest_order::<O, P>(w, trace, 0);
        lemma_survey_rest::<O, P>(w, trace, 0);
        assert(all =~= seq![trace] + rest);
        assert forall|a: int, b: int| 0 <= a < b < all.len() implies earlier::<O, P>(
            w,
            #[trigger] all[a],
            #[trigger] all[b],
        ) by {
            assert(all[b] == rest[b - 1]);
            if a == 0 {
                assert(rest.contains(rest[b - 1]));
                let i = choose|i: int| #[trigger]
                    through::<O, P>(w, trace, 0, i, rest[b - 1]);
                let ready = ready_all::<O>(reached::<O, P>(w, trace).world.objs);
                lemma_prefix(trace, ready[i], rest[b - 1]);
            } else {
                assert(all[a] == rest[a - 1]);
                assert(earlier::<O, P>(w, rest[a - 1], rest[b - 1]));
            }
        }
    }
}

proof fn lemma_rest_order<O: Object, P: Process<Op = O::Op, Reply = O::Reply>>(
    w: WorldModel<O::Model, P::Model, P::Reply>,
    trace: Seq<Transition>,
    from: nat,
)
    requires
        world_sound::<O, P>(w),
        feasible::<O, P>(w, trace),
        reached::<O, P>(w, trace).failure is None,
    ensures
        sorted::<O, P>(w, survey_rest::<O, P>(w, trace, from)),
    decreases
            weight::<P>(w.sched.procs) - trace.len(),
            0nat,
            ready_all::<O>(reached::<O, P>(w, trace).world.objs).len() - from,
{
    let s = reached::<O, P>(w, trace);
    let ready = ready_all::<O>(s.world.objs);
    let all = survey_rest::<O, P>(w, trace, from);
    let n = trace.len() as int;
    lemma_reached_sound::<O, P>(w, trace);
    if from >= ready.len() {
        assert(all =~= Seq::empty());
    } else {
        let t = ready[from as int];
        let next = trace.push(t);
        assert(ready.contains(t));
        assert(next.drop_last() =~= trace);
        assert(feasible::<O, P>(w, next));
        lemma_reached_sound::<O, P>(w, next);
        law_survey::<O, P>(w, next);
        law_survey_order::<O, P>(w, next);
        let first = survey::<O, P>(w, next);
        if reached::<O, P>(w, first.last()).failure is None {
            let later: nat = from + 1;
            let rest = survey_rest::<O, P>(w, trace, later);
            lemma_rest_order::<O, P>(w, trace, later);
            lemma_survey_rest::<O, P>(w, trace, later);
            assert(all =~= first + rest);
            assert forall|a: int, b: int| 0 <= a < b < all.len() implies earlier::<O, P>(
                w,
                #[trigger] all[a],
                #[trigger] all[b],
            ) by {
                let l = first.len() as int;
                if b < l {
                    assert(all[a] == first[a] && all[b] == first[b]);
                } else if a >= l {
                    assert(all[a] == rest[a - l] && all[b] == rest[b - l]);
                } else {
                    let u = first[a];
                    let v = rest[b - l];
                    assert(all[a] == u && all[b] == v);
                    assert(first.contains(u) && rest.contains(v));
                    assert(goes_through::<O, P>(w, next, u));
                    lemma_prefix(trace, t, u);
                    assert(below::<O, P>(w, trace, later, v));
                    let j = choose|j: int| #[trigger] through::<O, P>(w, trace, later, j, v);
                    lemma_prefix(trace, ready[j], v);
                    assert(u.take(n) =~= trace);
                    assert(v.take(n) =~= trace);
                    assert(parts::<O, P>(w, u, v, n, from as int, j));
                }
            }
        }
    }
}

} // verus!
