//! The search's books: what has been explored, and what every prefix on the stack still owes.

use vstd::prelude::*;

use crate::model::object::Transition;
use crate::model::process::ProcessID;
use crate::search::clocks::pids;
use crate::search::reversal::{grown, pick, still_asleep, walkable};
use crate::search::wakeup::{node, reaches, replaced, Wut};
use crate::theory::behaviour::{
    after, bounded, commutes, done, en, fails, lawful, lemma_after_concat, lemma_after_push,
    lemma_lawful, lemma_lawful_after, lemma_unfailing_concat, live, maximal, ok, step, unfailing,
    Beh, Word,
};
use crate::theory::cover::{
    answered, blocks, child_goals, covers, explored, goals_met, lemma_bounded_step, lemma_enter,
    lemma_exhausted, lemma_finish_obliged, lemma_finish_slept, lemma_leave, obliged, raced,
    ready_sleepers, reversal, slept, someone, stems,
};
use crate::theory::initials::{eqv, lemma_eqv_wi, starts, wi};
use crate::theory::planting::{
    covered, fit, heads, held, kid, kid_sleep, lemma_asleep, lemma_fit, lemma_grown_busy,
    lemma_pick, lemma_picked, lemma_walkable_ok,
};
use crate::theory::taint::{lemma_one, racy};

verus! {

/// The search's books.
pub struct Ledger {
    /// The complete schedules explored.
    pub xs: Seq<Word>,
    /// The fragments that each prefix on the stack has to see to.
    pub goals: Seq<Set<Word>>,
    /// How many of a prefix's sleepers it was entered with.
    pub entry: Seq<nat>,
}

/// The children from `from` on can be explored.
pub open spec fn kids_fit(b: Beh, sleep: Word, w: Wut, from: int) -> bool {
    forall|k: int| from <= k < w.len() ==> #[trigger] kid(b, sleep, w, k)
}

/// Explored schedules through `e` go on with a sleeper, or with `h` where that is under way.
pub open spec fn visited(xs: Seq<Word>, e: Word, sleep: Word, busy: bool, h: ProcessID) -> bool {
    forall|i: int|
        0 <= i < xs.len() && stems(#[trigger] xs[i], e) && xs[i].len() > e.len()
            ==> sleep.contains(xs[i][e.len() as int]) || busy && xs[i][e.len() as int] == h
}

/// The first child, `h`, is under way: it is awake, and its own sleepers are those that stay
/// asleep.
pub open spec fn under_way(b: Beh, sleep: Word, w: Wut, h: ProcessID, below: Word) -> bool {
    &&& w.len() > 0
    &&& w.head(0) == h
    &&& en(b, h)
    &&& !sleep.contains(h)
    &&& below == still_asleep(b, sleep, h)
}

/// The books are right at depth `m`.
pub open spec fn level(
    b0: Beh,
    tree: Wut,
    sleeps: Seq<Word>,
    e: Word,
    led: Ledger,
    m: int,
) -> bool {
    let em = e.take(m);
    let b = after(b0, em);
    let sleep = sleeps[m];
    let w = node(tree, m as nat);
    let busy = m < e.len();
    &&& led.entry[m] <= sleep.len()
    &&& ready_sleepers(b, sleep)
    &&& obliged(b, sleep, led.goals[m])
    &&& goals_met(b, sleep, led.goals[m], w, busy)
    &&& slept(b, led.xs, em, sleep, sleep.take(led.entry[m] as int))
    &&& raced(b, led.xs, em, led.goals[m])
    &&& kids_fit(
        b,
        sleep,
        w,
        if busy {
            1
        } else {
            0
        },
    )
    &&& visited(led.xs, em, sleep, busy, e[m])
    &&& busy ==> under_way(b, sleep, w, e[m], sleeps[m + 1].take(led.entry[m + 1] as int))
}

/// What is explored are complete schedules that end cleanly, no two of one class.
pub open spec fn fair(b0: Beh, xs: Seq<Word>) -> bool {
    &&& forall|i: int|
        0 <= i < xs.len() ==> maximal(b0, #[trigger] xs[i]) && unfailing(b0, xs[i]) && !live(
            after(b0, xs[i]),
        )
    &&& forall|i: int, j: int|
        0 <= i < j < xs.len() ==> !eqv(b0, #[trigger] xs[i], #[trigger] xs[j])
}

/// The books are right.
pub open spec fn balanced(
    b0: Beh,
    n: nat,
    tree: Wut,
    sleeps: Seq<Word>,
    e: Word,
    led: Ledger,
) -> bool {
    &&& lawful(b0)
    &&& bounded(b0, n)
    &&& ok(b0, e)
    &&& unfailing(b0, e)
    &&& reaches(tree, e.len())
    &&& sleeps.len() == e.len() + 1
    &&& led.goals.len() == e.len() + 1
    &&& led.entry.len() == e.len() + 1
    &&& led.entry[0] == 0
    &&& fair(b0, led.xs)
    &&& forall|m: int| 0 <= m <= e.len() ==> #[trigger] level(b0, tree, sleeps, e, led, m)
}

/// The top of the stack is explored, or there is or was something to explore.
pub open spec fn topped(b0: Beh, tree: Wut, sleeps: Seq<Word>, e: Word, led: Ledger) -> bool {
    if done(after(b0, e)) {
        led.xs.contains(e)
    } else {
        node(tree, e.len()).len() > 0 || sleeps.last().len() > 0
    }
}

/// A schedule through the stack's prefixes goes on from each of them.
proof fn lemma_take(b0: Beh, e: Word, m: int)
    requires
        ok(b0, e),
        0 <= m <= e.len(),
    ensures
        ok(b0, e.take(m)),
        ok(after(b0, e.take(m)), e.skip(m)),
        after(after(b0, e.take(m)), e.skip(m)) == after(b0, e),
{
    assert(e =~= e.take(m) + e.skip(m));
    lemma_after_concat(b0, e.take(m), e.skip(m));
}

/// Schedules stay bounded.
proof fn lemma_bounded_after(b: Beh, n: nat, w: Word)
    requires
        bounded(b, n),
        ok(b, w),
    ensures
        bounded(after(b, w), n),
    decreases w.len(),
{
    if w.len() > 0 {
        lemma_bounded_step(b, n, w[0]);
        lemma_bounded_after(step(b, w[0]), n, w.drop_first());
    }
}

/// The explored schedules through `e` can be run on from there.
proof fn lemma_fair_skip(b0: Beh, xs: Seq<Word>, e: Word)
    requires
        fair(b0, xs),
    ensures
        forall|i: int|
            0 <= i < xs.len() && stems(#[trigger] xs[i], e) ==> ok(
                after(b0, e),
                xs[i].skip(e.len() as int),
            ),
{
    assert forall|i: int| 0 <= i < xs.len() && stems(#[trigger] xs[i], e) implies ok(
        after(b0, e),
        xs[i].skip(e.len() as int),
    ) by {
        lemma_take(b0, xs[i], e.len() as int);
    }
}

/// What is covered is covered also while the first child is under way.
proof fn lemma_covered_held(b: Beh, sleep: Word, goals: Set<Word>, w: Wut)
    requires
        goals_met(b, sleep, goals, w, false),
    ensures
        goals_met(b, sleep, goals, w, true),
{
    assert forall|v: Word| #[trigger] goals.contains(v) implies ok(b, v) && (someone(b, sleep, v)
        || held(b, w, v)) by {
        if covered(b, w, v) {
            lemma_pick(b, w, v, 0);
        }
    }
}

/// No explored schedule goes through a child that is awake and not under way.
proof fn lemma_unvisited(xs: Seq<Word>, e: Word, sleep: Word, h: ProcessID)
    requires
        visited(xs, e, sleep, false, h),
        !sleep.contains(h),
    ensures
        forall|i: int| 0 <= i < xs.len() ==> !stems(#[trigger] xs[i], e.push(h)),
{
    assert forall|i: int| 0 <= i < xs.len() implies !stems(#[trigger] xs[i], e.push(h)) by {
        let x = xs[i];
        let m = e.len() as int;
        if stems(x, e.push(h)) {
            assert(x.take(m) =~= x.take(m + 1).take(m));
            assert(e.push(h).take(m) =~= e);
            assert(x.take(m + 1)[m] == h);
            assert(stems(x, e));
        }
    }
}

/// The search descends into the first child.
pub proof fn lemma_descended(
    b0: Beh,
    n: nat,
    tree: Wut,
    sleeps: Seq<Word>,
    e: Word,
    led: Ledger,
) -> (led2: Ledger)
    requires
        balanced(b0, n, tree, sleeps, e, led),
        node(tree, e.len()).len() > 0,
        !fails(after(b0, e), node(tree, e.len()).head(0)),
    ensures
        ({
            let b = after(b0, e);
            let h = node(tree, e.len()).head(0);
            let e2 = e.push(h);
            let s2 = still_asleep(b, sleeps.last(), h);
            let sub = node(tree, e2.len());
            &&& balanced(b0, n, tree, sleeps.push(s2), e2, led2)
            &&& led2.xs == led.xs
            &&& forall|i: int| 0 <= i < led.xs.len() ==> !stems(#[trigger] led.xs[i], e2)
            &&& fit(step(b, h), s2, sub)
            &&& sub.len() == 0 ==> led2.goals.last() == Set::<Word>::empty()
        }),
{
    let m = e.len() as int;
    let b = after(b0, e);
    let w = node(tree, m as nat);
    let h = w.head(0);
    let e2 = e.push(h);
    let s = sleeps[m];
    let s2 = still_asleep(b, s, h);
    let sub = node(tree, (m + 1) as nat);
    let sleeps2 = sleeps.push(s2);
    let g2 = child_goals(b, led.goals[m], h, sub);
    let led2 = Ledger {
        xs: led.xs,
        goals: led.goals.push(g2),
        entry: led.entry.push(s2.len()),
    };
    assert(e.take(m) =~= e);
    assert(level(b0, tree, sleeps, e, led, m));
    assert(kid(b, s, w, 0));
    lemma_lawful_after(b0, e);
    lemma_enter(b, s, led.goals[m], w);
    lemma_after_push(b0, e, h);
    lemma_one(b, h);
    lemma_unfailing_concat(b0, e, seq![h]);
    assert(e + seq![h] =~= e2);
    assert(unfailing(b, seq![h])) by {
        assert(unfailing(step(b, h), seq![h].drop_first()));
    }
    lemma_unvisited(led.xs, e, s, h);
    assert forall|k: int| 0 <= k <= e2.len() implies #[trigger] level(
        b0,
        tree,
        sleeps2,
        e2,
        led2,
        k,
    ) by {
        if k <= m {
            assert(e2.take(k) =~= e.take(k));
            assert(level(b0, tree, sleeps, e, led, k));
        }
        if k == m {
            lemma_covered_held(b, s, led.goals[m], w);
            assert(s2.take(s2.len() as int) =~= s2);
        }
        if k == m + 1 {
            assert(e2.take(k) =~= e2);
            assert(s2.take(s2.len() as int) =~= s2);
            if sub.len() > 0 {
                lemma_fit(step(b, h), s2, sub);
            }
        }
    }
    led2
}

/// A node that has nothing planted gets its first child.
pub proof fn lemma_seeded(
    b0: Beh,
    n: nat,
    tree: Wut,
    tree2: Wut,
    sleeps: Seq<Word>,
    e: Word,
    led: Ledger,
)
    requires
        balanced(b0, n, tree, sleeps, e, led),
        node(tree, e.len()).len() == 0,
        sleeps.last().len() == 0,
        led.goals.last() == Set::<Word>::empty(),
        replaced(tree, tree2, e.len(), node(tree2, e.len())),
        node(tree2, e.len()).len() == 1,
        node(tree2, e.len()).sub(0).len() == 0,
        en(after(b0, e), node(tree2, e.len()).head(0)),
    ensures
        balanced(b0, n, tree2, sleeps, e, led),
{
    let m = e.len() as int;
    let b = after(b0, e);
    let w = node(tree2, m as nat);
    let s = sleeps[m];
    assert(e.take(m) =~= e);
    assert forall|k: int| 0 <= k <= e.len() implies #[trigger] level(
        b0,
        tree2,
        sleeps,
        e,
        led,
        k,
    ) by {
        assert(level(b0, tree, sleeps, e, led, k));
        if k < m {
            lemma_busy_frame(
                after(b0, e.take(k)),
                sleeps[k],
                led.goals[k],
                node(tree, k as nat),
                node(tree2, k as nat),
            );
        } else {
            assert(s =~= Seq::empty());
            assert(heads(w, 0) =~= Seq::<ProcessID>::empty());
            let h = w.head(0);
            assert(s + heads(w, 0) =~= Seq::<ProcessID>::empty());
            assert(kid_sleep(b, s, w, 0).len() == 0);
            assert(kid(b, s, w, 0));
        }
    }
}

/// A node whose first child is under way is right whatever happens below that child.
proof fn lemma_busy_frame(b: Beh, sleep: Word, goals: Set<Word>, w: Wut, after_w: Wut)
    requires
        w.len() > 0,
        after_w.len() == w.len(),
        after_w.children@[0].0 == w.children@[0].0,
        forall|k: int| 1 <= k < w.len() ==> after_w.children@[k] == w.children@[k],
        goals_met(b, sleep, goals, w, true),
        kids_fit(b, sleep, w, 1),
    ensures
        goals_met(b, sleep, goals, after_w, true),
        kids_fit(b, sleep, after_w, 1),
        after_w.head(0) == w.head(0),
{
    assert forall|k: int| 0 <= k < w.len() implies (#[trigger] after_w.children@[k]).0
        == w.children@[k].0 by {
        if k > 0 {
            assert(after_w.children@[k] == w.children@[k]);
        }
    }
    assert forall|v: Word| #[trigger] goals.contains(v) implies ok(b, v) && (someone(b, sleep, v)
        || held(b, after_w, v)) by {
        if held(b, w, v) {
            lemma_pick(b, w, v, 0);
            let k = pick(b, w, v, 0);
            assert(after_w.children@[k].0 == w.children@[k].0);
            assert forall|j: int| 0 <= j < k implies !wi(b, v, #[trigger] after_w.head(j)) by {
                assert(after_w.children@[j].0 == w.children@[j].0);
                assert(!wi(b, v, w.head(j)));
            }
            lemma_picked(b, after_w, v, k);
        }
    }
    assert forall|k: int| 1 <= k < after_w.len() implies #[trigger] kid(b, sleep, after_w, k) by {
        assert(kid(b, sleep, w, k));
        assert(heads(after_w, k) =~= heads(w, k)) by {
            assert forall|j: int| 0 <= j < k implies heads(after_w, k)[j] == heads(w, k)[j] by {
                assert(after_w.children@[j].0 == w.children@[j].0);
            }
        }
    }
}

/// More goals leave what was looked after looked after.
proof fn lemma_more_goals(b: Beh, xs: Seq<Word>, e: Word, sleep: Word, goals: Set<Word>, v: Word)
    requires
        obliged(b, sleep, goals),
        raced(b, xs, e, goals),
    ensures
        obliged(b, sleep, goals.insert(v)),
        raced(b, xs, e, goals.insert(v)),
{
    let more = goals.insert(v);
    assert forall|r: ProcessID, u: Word, p: ProcessID|
        sleep.contains(r) && #[trigger] blocks(b, u, p, r) implies answered(
        b,
        sleep,
        more,
        u.push(p),
    ) by {
        assert(answered(b, sleep, goals, u.push(p)));
        if !someone(b, sleep, u.push(p)) {
            let y = choose|y: Word| goals.contains(y) && #[trigger] starts(b, u.push(p), y);
            assert(more.contains(y));
        }
    }
    assert forall|i: int, p: ProcessID|
        0 <= i < xs.len() && stems(xs[i], e) && xs[i].len() > e.len() && p
            != xs[i][e.len() as int] && racy(
            b,
            seq![xs[i][e.len() as int]],
            xs[i].skip(e.len() as int + 1),
            p,
        ) && ok(b, reversal(b, xs[i], e, p)) implies #[trigger] more.contains(
        reversal(b, xs[i], e, p),
    ) by {
        assert(goals.contains(reversal(b, xs[i], e, p)));
    }
}

/// A fragment is seen to at depth `d`: a sleeper covers it, or it has been planted there.
pub proof fn lemma_planned(
    b0: Beh,
    n: nat,
    tree: Wut,
    tree2: Wut,
    sleeps: Seq<Word>,
    e: Word,
    led: Ledger,
    d: int,
    v: Seq<Transition>,
) -> (led2: Ledger)
    requires
        balanced(b0, n, tree, sleeps, e, led),
        0 <= d < e.len(),
        v.len() > 0,
        walkable(after(b0, e.take(d)), pids(v)),
        ({
            ||| tree2 == tree && someone(after(b0, e.take(d)), sleeps[d], pids(v))
            ||| {
                &&& forall|q: ProcessID| #[trigger]
                    sleeps[d].contains(q) ==> !wi(after(b0, e.take(d)), pids(v), q)
                &&& replaced(tree, tree2, d as nat, node(tree2, d as nat))
                &&& grown(
                    after(b0, e.take(d)),
                    node(tree, d as nat),
                    node(tree2, d as nat),
                    true,
                    v,
                )
                &&& reaches(tree2, e.len())
                &&& forall|m: nat|
                    d < m <= e.len() ==> #[trigger] node(tree2, m) == node(tree, m)
            }
        }),
    ensures
        balanced(b0, n, tree2, sleeps, e, led2),
        led2 == (Ledger {
            goals: led.goals.update(d, led.goals[d].insert(pids(v))),
            ..led
        }),
{
    let b = after(b0, e.take(d));
    let word = pids(v);
    let w = node(tree, d as nat);
    let w2 = node(tree2, d as nat);
    let led2 = Ledger { goals: led.goals.update(d, led.goals[d].insert(word)), ..led };
    let s = sleeps[d];
    assert(level(b0, tree, sleeps, e, led, d));
    lemma_take(b0, e, d);
    lemma_lawful_after(b0, e.take(d));
    lemma_walkable_ok(b, word);
    lemma_more_goals(b, led.xs, e.take(d), s, led.goals[d], word);
    if !(tree2 == tree && someone(b, s, word)) {
        lemma_grown_busy(b, s, w, w2, v);
    }
    assert forall|k: int| 0 <= k <= e.len() implies #[trigger] level(
        b0,
        tree2,
        sleeps,
        e,
        led2,
        k,
    ) by {
        assert(level(b0, tree, sleeps, e, led, k));
        if k < d {
            if tree2 != tree {
                lemma_busy_frame(
                    after(b0, e.take(k)),
                    sleeps[k],
                    led.goals[k],
                    node(tree, k as nat),
                    node(tree2, k as nat),
                );
            }
        } else if k == d {
            let more = led.goals[d].insert(word);
            assert forall|u: Word| #[trigger] more.contains(u) implies ok(b, u) && (someone(
                b,
                s,
                u,
            ) || held(b, w2, u)) by {
                if u != word {
                    assert(led.goals[d].contains(u));
                }
            }
        } else {
            assert(node(tree2, k as nat) == node(tree, k as nat));
        }
    }
    led2
}

/// Schedules of one class that start alike go on in one class.
proof fn lemma_eqv_cancel(b: Beh, p: Word, u: Word, v: Word)
    requires
        eqv(b, p + u, p + v),
    ensures
        eqv(after(b, p), u, v),
    decreases p.len(),
{
    if p.len() == 0 {
        assert(p + u =~= u);
        assert(p + v =~= v);
    } else {
        let t = p.drop_first();
        assert((p + u).drop_first() =~= t + u);
        assert((p + v).drop_first() =~= t + v);
        assert((p + v)[0] == p[0]);
        lemma_eqv_cancel(step(b, p[0]), t, u, v);
    }
}

/// No sleeper is a weak initial of what the stack's complete schedule goes on with.
proof fn lemma_awake(
    b0: Beh,
    n: nat,
    tree: Wut,
    sleeps: Seq<Word>,
    e: Word,
    led: Ledger,
    m: int,
    q: ProcessID,
)
    requires
        balanced(b0, n, tree, sleeps, e, led),
        done(after(b0, e)),
        0 <= m <= e.len(),
        sleeps[m].contains(q),
    ensures
        !wi(after(b0, e.take(m)), e.skip(m), q),
    decreases e.len() - m,
{
    let b = after(b0, e.take(m));
    let rest = e.skip(m);
    assert(level(b0, tree, sleeps, e, led, m));
    lemma_take(b0, e, m);
    if wi(b, rest, q) {
        if m == e.len() {
            assert(e.take(m) =~= e);
        } else {
            let h = e[m];
            let s = sleeps[m];
            assert(rest[0] == h);
            assert(rest.drop_first() =~= e.skip(m + 1));
            lemma_lawful_after(b0, e.take(m));
            lemma_lawful(b);
            assert(q != h);
            assert(commutes(b, q, h) && commutes(b, h, q));
            lemma_asleep(b, s, h);
            let below = sleeps[m + 1];
            assert(level(b0, tree, sleeps, e, led, m + 1));
            let part = below.take(led.entry[m + 1] as int);
            assert(part.contains(q));
            let i = choose|i: int| 0 <= i < part.len() && part[i] == q;
            assert(below[i] == q);
            lemma_after_push(b0, e.take(m), h);
            assert(e.take(m).push(h) =~= e.take(m + 1));
            lemma_awake(b0, n, tree, sleeps, e, led, m + 1, q);
        }
    }
}

/// Where two schedules part.
proof fn lemma_parting(x: Word, e: Word, k: int) -> (p: int)
    requires
        0 <= k <= x.len(),
        k <= e.len(),
        stems(x, e.take(k)),
    ensures
        k <= p <= x.len(),
        p <= e.len(),
        stems(x, e.take(p)),
        p == x.len() || p == e.len() || x[p] != e[p],
    decreases e.len() - k,
{
    if k < x.len() && k < e.len() && x[k] == e[k] {
        assert(stems(x, e.take(k + 1))) by {
            assert(x.take(k + 1) =~= x.take(k).push(x[k]));
            assert(e.take(k + 1) =~= e.take(k).push(e[k]));
        }
        lemma_parting(x, e, k + 1)
    } else {
        k
    }
}

/// The stack's schedule is complete, and its races have been seen to: it joins what is explored.
pub proof fn lemma_completed(
    b0: Beh,
    n: nat,
    tree: Wut,
    sleeps: Seq<Word>,
    e: Word,
    led: Ledger,
) -> (led2: Ledger)
    requires
        balanced(b0, n, tree, sleeps, e, led),
        done(after(b0, e)),
        !live(after(b0, e)),
        forall|i: int| 0 <= i < led.xs.len() ==> !stems(#[trigger] led.xs[i], e),
        forall|m: int, p: ProcessID|
            0 <= m < e.len() && p != e[m] && racy(
                after(b0, e.take(m)),
                seq![e[m]],
                e.skip(m + 1),
                p,
            ) && ok(after(b0, e.take(m)), reversal(after(b0, e.take(m)), e, e.take(m), p))
                ==> #[trigger] led.goals[m].contains(
                reversal(after(b0, e.take(m)), e, e.take(m), p),
            ),
    ensures
        led2 == (Ledger { xs: led.xs.push(e), ..led }),
        balanced(b0, n, tree, sleeps, e, led2),
        topped(b0, tree, sleeps, e, led2),
{
    let xs2 = led.xs.push(e);
    let led2 = Ledger { xs: xs2, ..led };
    assert(xs2[led.xs.len() as int] == e);
    assert forall|k: int| 0 <= k <= e.len() implies #[trigger] level(
        b0,
        tree,
        sleeps,
        e,
        led2,
        k,
    ) by {
        assert(level(b0, tree, sleeps, e, led, k));
        let em = e.take(k);
        let b = after(b0, em);
        let s = sleeps[k];
        let entry = s.take(led.entry[k] as int);
        assert forall|w: Word| #[trigger] maximal(b, w) && someone(b, s, w) implies someone(
            b,
            entry,
            w,
        ) || covers(b, xs2, em, w) by {
            if covers(b, led.xs, em, w) {
                let i = choose|i: int|
                    0 <= i < led.xs.len() && stems(led.xs[i], em) && eqv(
                        b,
                        #[trigger] led.xs[i].skip(em.len() as int),
                        w,
                    );
                assert(xs2[i] == led.xs[i]);
                assert(eqv(b, xs2[i].skip(em.len() as int), w));
            }
        }
        assert(raced(b, xs2, em, led.goals[k])) by {
            assert forall|i: int, p: ProcessID|
                0 <= i < xs2.len() && stems(xs2[i], em) && xs2[i].len() > em.len() && p
                    != xs2[i][em.len() as int] && racy(
                    b,
                    seq![xs2[i][em.len() as int]],
                    xs2[i].skip(em.len() as int + 1),
                    p,
                ) && ok(b, reversal(b, xs2[i], em, p)) implies #[trigger] led.goals[k].contains(
                reversal(b, xs2[i], em, p),
            ) by {
                if i < led.xs.len() {
                    assert(xs2[i] == led.xs[i]);
                    assert(led.goals[k].contains(reversal(b, led.xs[i], em, p)));
                } else {
                    assert(xs2[i] == e);
                    assert(led.goals[k].contains(reversal(b, e, em, p)));
                }
            }
        }
        assert(visited(xs2, em, s, k < e.len(), e[k])) by {
            assert forall|i: int|
                0 <= i < xs2.len() && stems(#[trigger] xs2[i], em) && xs2[i].len()
                    > em.len() implies s.contains(xs2[i][em.len() as int]) || k < e.len()
                && xs2[i][em.len() as int] == e[k] by {
                if i < led.xs.len() {
                    assert(xs2[i] == led.xs[i]);
                }
            }
        }
    }
    assert forall|i: int, j: int| 0 <= i < j < xs2.len() implies !eqv(
        b0,
        #[trigger] xs2[i],
        #[trigger] xs2[j],
    ) by {
        assert(xs2[i] == led.xs[i]);
        if j < led.xs.len() {
            assert(xs2[j] == led.xs[j]);
        } else {
            lemma_new_class(b0, n, tree, sleeps, e, led, i);
        }
    }
    assert forall|i: int| 0 <= i < xs2.len() implies maximal(b0, #[trigger] xs2[i]) && unfailing(
        b0,
        xs2[i],
    ) && !live(after(b0, xs2[i])) by {
        if i < led.xs.len() {
            assert(xs2[i] == led.xs[i]);
        }
    }
    led2
}

/// The stack's complete schedule is of no class explored before.
proof fn lemma_new_class(
    b0: Beh,
    n: nat,
    tree: Wut,
    sleeps: Seq<Word>,
    e: Word,
    led: Ledger,
    i: int,
)
    requires
        balanced(b0, n, tree, sleeps, e, led),
        done(after(b0, e)),
        0 <= i < led.xs.len(),
        !stems(led.xs[i], e),
    ensures
        !eqv(b0, led.xs[i], e),
{
    let x = led.xs[i];
    assert(e.take(0) =~= Seq::<ProcessID>::empty());
    assert(x.take(0) =~= Seq::<ProcessID>::empty());
    assert(stems(x, e.take(0)));
    let k = lemma_parting(x, e, 0);
    assert(e.take(e.len() as int) =~= e);
    assert(k < e.len());
    assert(maximal(b0, x));
    lemma_take(b0, e, k);
    lemma_take(b0, x, k);
    let b = after(b0, e.take(k));
    assert(e.skip(k)[0] == e[k]);
    assert(en(b, e[k]));
    if k == x.len() {
        assert(x.take(k) =~= x);
    }
    assert(level(b0, tree, sleeps, e, led, k));
    let q = x[k];
    assert(sleeps[k].contains(q));
    lemma_awake(b0, n, tree, sleeps, e, led, k, q);
    if eqv(b0, x, e) {
        assert(x =~= e.take(k) + x.skip(k));
        assert(e =~= e.take(k) + e.skip(k));
        lemma_eqv_cancel(b0, e.take(k), x.skip(k), e.skip(k));
        lemma_lawful_after(b0, e.take(k));
        assert(x.skip(k)[0] == q);
        assert(wi(b, x.skip(k), q));
        lemma_eqv_wi(b, x.skip(k), e.skip(k), q);
    }
}

/// At an exhausted node all complete schedules are explored, but for those with a weak initial
/// among the sleepers it was entered with.
pub proof fn lemma_closed(
    b0: Beh,
    n: nat,
    tree: Wut,
    sleeps: Seq<Word>,
    e: Word,
    led: Ledger,
)
    requires
        balanced(b0, n, tree, sleeps, e, led),
        topped(b0, tree, sleeps, e, led),
        node(tree, e.len()).len() == 0,
    ensures
        explored(after(b0, e), led.xs, e, sleeps.last().take(led.entry.last() as int)),
{
    let m = e.len() as int;
    let b = after(b0, e);
    let s = sleeps[m];
    let goals = led.goals[m];
    assert(e.take(m) =~= e);
    assert(level(b0, tree, sleeps, e, led, m));
    lemma_lawful_after(b0, e);
    assert forall|w: Word| #[trigger] maximal(b, w) implies someone(
        b,
        s.take(led.entry[m] as int),
        w,
    ) || covers(b, led.xs, e, w) by {
        if done(b) {
            assert(w.len() == 0);
            let i = choose|i: int| 0 <= i < led.xs.len() && led.xs[i] == e;
            assert(e.skip(m) =~= Seq::<ProcessID>::empty());
            assert(stems(led.xs[i], e));
            assert(eqv(b, led.xs[i].skip(e.len() as int), w));
        } else {
            assert forall|v: Word| #[trigger] goals.contains(v) implies ok(b, v) && someone(
                b,
                s,
                v,
            ) by {
                assert(!covered(b, node(tree, m as nat), v));
            }
            lemma_exhausted(b, s, goals, w, w.len() as int);
            assert(w.take(w.len() as int) =~= w);
        }
    }
}

/// The search backs out of an exhausted node.
pub proof fn lemma_popped(
    b0: Beh,
    n: nat,
    tree: Wut,
    tree2: Wut,
    sleeps: Seq<Word>,
    e: Word,
    led: Ledger,
) -> (led2: Ledger)
    requires
        balanced(b0, n, tree, sleeps, e, led),
        topped(b0, tree, sleeps, e, led),
        node(tree, e.len()).len() == 0,
        e.len() > 0,
        replaced(tree, tree2, (e.len() - 1) as nat, node(tree2, (e.len() - 1) as nat)),
        node(tree2, (e.len() - 1) as nat).children@ == node(
            tree,
            (e.len() - 1) as nat,
        ).children@.remove(0),
    ensures
        led2.xs == led.xs,
        ({
            let d = e.len() - 1;
            let sleeps2 = sleeps.drop_last().update(d, sleeps[d].push(e[d]));
            &&& balanced(b0, n, tree2, sleeps2, e.drop_last(), led2)
            &&& topped(b0, tree2, sleeps2, e.drop_last(), led2)
        }),
{
    let d = e.len() - 1;
    let e2 = e.drop_last();
    let r = e[d];
    let s = sleeps[d];
    let s2 = s.push(r);
    let sleeps2 = sleeps.drop_last().update(d, s2);
    let led2 = Ledger {
        xs: led.xs,
        goals: led.goals.drop_last(),
        entry: led.entry.drop_last(),
    };
    let b = after(b0, e2);
    let w = node(tree, d as nat);
    let w2 = node(tree2, d as nat);
    lemma_closed(b0, n, tree, sleeps, e, led);
    assert(level(b0, tree, sleeps, e, led, d));
    assert(e.take(d) =~= e2);
    assert(e2.push(r) =~= e);
    lemma_take(b0, e, d);
    lemma_after_push(b0, e2, r);
    lemma_lawful_after(b0, e2);
    lemma_bounded_after(b0, n, e2);
    lemma_fair_skip(b0, led.xs, e2);
    assert(e =~= e2 + seq![r]);
    lemma_unfailing_concat(b0, e2, seq![r]);
    lemma_finish_obliged(b, n, led.xs, e2, s, led.goals[d], r);
    lemma_finish_slept(b, led.xs, e2, s, s.take(led.entry[d] as int), r);
    lemma_leave(b, s, led.goals[d], w, w2);
    assert(s2.take(led.entry[d] as int) =~= s.take(led.entry[d] as int));
    assert(sleeps2.last() == s2);
    assert(en(b, r));
    assert forall|k: int| 0 <= k <= e2.len() implies #[trigger] level(
        b0,
        tree2,
        sleeps2,
        e2,
        led2,
        k,
    ) by {
        assert(level(b0, tree, sleeps, e, led, k));
        assert(e2.take(k) =~= e.take(k));
        if k < d {
            lemma_busy_frame(
                after(b0, e.take(k)),
                sleeps[k],
                led.goals[k],
                node(tree, k as nat),
                node(tree2, k as nat),
            );
            if k + 1 == d {
                assert(sleeps2[d].take(led2.entry[d] as int) =~= sleeps[d].take(
                    led.entry[d] as int,
                ));
            }
        } else {
            assert(s2[s.len() as int] == r);
            assert forall|q: ProcessID| s.contains(q) implies s2.contains(q) by {
                let i = choose|i: int| 0 <= i < s.len() && s[i] == q;
                assert(s2[i] == q);
            }
            assert forall|q: ProcessID| #[trigger] s2.contains(q) implies en(b, q) by {
                let i = choose|i: int| 0 <= i < s2.len() && s2[i] == q;
                if i < s.len() {
                    assert(s[i] == q);
                    assert(s.contains(q));
                }
            }
        }
    }
    led2
}

/// The books at the start.
pub proof fn lemma_opened(b0: Beh, n: nat, tree: Wut) -> (led: Ledger)
    requires
        lawful(b0),
        bounded(b0, n),
        done(b0) ==> tree.len() == 0 && !live(b0),
        !done(b0) ==> tree.len() == 1 && tree.sub(0).len() == 0 && en(b0, tree.head(0)),
    ensures
        balanced(
            b0,
            n,
            tree,
            seq![Seq::<ProcessID>::empty()],
            Seq::empty(),
            led,
        ),
        topped(b0, tree, seq![Seq::<ProcessID>::empty()], Seq::empty(), led),
        led.xs == (if done(b0) {
            seq![Seq::<ProcessID>::empty()]
        } else {
            Seq::empty()
        }),
{
    let e = Seq::<ProcessID>::empty();
    let none = Seq::<ProcessID>::empty();
    let xs = if done(b0) {
        seq![none]
    } else {
        Seq::empty()
    };
    let led = Ledger { xs, goals: seq![Set::empty()], entry: seq![0nat] };
    assert(e.take(0) =~= e);
    assert(none.take(0) =~= none);
    assert(heads(tree, 0) =~= none);
    assert(none + heads(tree, 0) =~= none);
    if !done(b0) {
        assert(kid_sleep(b0, none, tree, 0).len() == 0);
        assert(kid(b0, none, tree, 0));
    }
    assert(level(b0, tree, seq![none], e, led, 0));
    if done(b0) {
        assert(xs[0] == e);
    }
    led
}

} // verus!
