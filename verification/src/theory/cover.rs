//! Why no class is missed: what the search owes at every prefix, and that it pays.

use vstd::prelude::*;

use crate::model::process::ProcessID;
use crate::search::reversal::{pick, still_asleep};
use crate::search::wakeup::Wut;
use crate::theory::behaviour::{
    after, bounded, commutes, dep, done, en, lawful, lemma_after_concat, lemma_after_push,
    lemma_lawful, lemma_lawful_after, maximal, ok, steady, step, Beh, Word,
};
use crate::theory::initials::{
    eqv, lemma_cons_contains, lemma_eqv_front, lemma_eqv_trans, lemma_eqv_wi, lemma_ok_rem,
    lemma_rem, lemma_wi_both, lemma_wi_grow, lemma_wi_shrink, lemma_wi_step, rem, starts, wi,
};
use crate::theory::planting::{
    covered, fit, heads, held, kid, lemma_asleep, lemma_pick, lemma_picked,
};
use crate::theory::taint::{kept, lemma_race, lemma_wi_push, passes, racy};

verus! {

/// Somebody in `sleep` is a weak initial of `w`.
pub open spec fn someone(b: Beh, sleep: Word, w: Word) -> bool {
    exists|s: ProcessID| sleep.contains(s) && #[trigger] wi(b, w, s)
}

/// The schedule `x` starts with `e`.
pub open spec fn stems(x: Word, e: Word) -> bool {
    e.len() <= x.len() && x.take(e.len() as int) == e
}

/// One of the schedules in `xs` starts with `e` and goes on in the class of `w`.
pub open spec fn covers(b: Beh, xs: Seq<Word>, e: Word, w: Word) -> bool {
    exists|i: int|
        0 <= i < xs.len() && stems(xs[i], e) && eqv(b, #[trigger] xs[i].skip(e.len() as int), w)
}

/// `r` is independent of `u`, and `p`, the next step, conflicts with it.
pub open spec fn blocks(b: Beh, u: Word, p: ProcessID, r: ProcessID) -> bool {
    ok(b, u.push(p)) && passes(b, u, r) && p != r && dep(after(b, u), r, p)
}

/// Schedules that start with `a` are looked after: somebody asleep is a weak initial of `a`, or
/// one of the goals starts with it.
pub open spec fn answered(b: Beh, sleep: Word, goals: Set<Word>, a: Word) -> bool {
    someone(b, sleep, a) || exists|v: Word| goals.contains(v) && #[trigger] starts(b, a, v)
}

/// Wherever a sleeper is blocked, the schedule is looked after.
pub open spec fn obliged(b: Beh, sleep: Word, goals: Set<Word>) -> bool {
    forall|r: ProcessID, u: Word, p: ProcessID|
        sleep.contains(r) && #[trigger] blocks(b, u, p, r) ==> answered(
            b,
            sleep,
            goals,
            u.push(p),
        )
}

/// The sleepers can all step.
pub open spec fn ready_sleepers(b: Beh, sleep: Word) -> bool {
    forall|s: ProcessID| #[trigger] sleep.contains(s) ==> en(b, s)
}

/// Every goal has somebody asleep as a weak initial or is covered by the tree, whose first child
/// may be in progress.
pub open spec fn goals_met(
    b: Beh,
    sleep: Word,
    goals: Set<Word>,
    w: Wut,
    busy: bool,
) -> bool {
    forall|v: Word| #[trigger]
        goals.contains(v) ==> ok(b, v) && (someone(b, sleep, v) || if busy {
            held(b, w, v)
        } else {
            covered(b, w, v)
        })
}

/// Complete schedules with a weak initial in `sleep` are explored, but for those with one in
/// `entry`.
pub open spec fn slept(b: Beh, xs: Seq<Word>, e: Word, sleep: Word, entry: Word) -> bool {
    forall|w: Word| #[trigger]
        maximal(b, w) && someone(b, sleep, w) ==> someone(b, entry, w) || covers(b, xs, e, w)
}

/// Complete schedules are explored, but for those with a weak initial in `entry`.
pub open spec fn explored(b: Beh, xs: Seq<Word>, e: Word, entry: Word) -> bool {
    forall|w: Word| #[trigger] maximal(b, w) ==> someone(b, entry, w) || covers(b, xs, e, w)
}

/// The race of the `i`-th explored schedule, at `e`, with process `p`: what it makes a goal.
pub open spec fn reversal(b: Beh, x: Word, e: Word, p: ProcessID) -> Word {
    kept(b, seq![x[e.len() as int]], x.skip(e.len() as int + 1)).push(p)
}

/// The reversals of all races at `e` are goals.
pub open spec fn raced(b: Beh, xs: Seq<Word>, e: Word, goals: Set<Word>) -> bool {
    forall|i: int, p: ProcessID|
        0 <= i < xs.len() && stems(xs[i], e) && xs[i].len() > e.len() && p != xs[i][e.len() as int]
            && racy(b, seq![xs[i][e.len() as int]], xs[i].skip(e.len() as int + 1), p) && ok(
            b,
            reversal(b, xs[i], e, p),
        ) ==> #[trigger] goals.contains(reversal(b, xs[i], e, p))
}

/// At an exhausted node every complete schedule has somebody asleep as a weak initial.
pub proof fn lemma_exhausted(b: Beh, sleep: Word, goals: Set<Word>, w: Word, k: int)
    requires
        lawful(b),
        sleep.len() > 0,
        ready_sleepers(b, sleep),
        obliged(b, sleep, goals),
        forall|v: Word| #[trigger] goals.contains(v) ==> ok(b, v) && someone(b, sleep, v),
        ok(b, w),
        0 <= k <= w.len(),
    ensures
        someone(b, sleep, w.take(k)),
    decreases k,
{
    if k == 0 {
        assert(sleep.contains(sleep[0]));
        assert(w.take(0) =~= Seq::<ProcessID>::empty());
        assert(wi(b, w.take(0), sleep[0]));
    } else {
        lemma_exhausted(b, sleep, goals, w, k - 1);
        let u = w.take(k - 1);
        let p = w[k - 1];
        assert(w.take(k) =~= u.push(p));
        assert(w =~= w.take(k) + w.skip(k));
        lemma_after_concat(b, w.take(k), w.skip(k));
        lemma_after_push(b, u, p);
        let s = choose|s: ProcessID| sleep.contains(s) && #[trigger] wi(b, u, s);
        if !wi(b, u.push(p), s) {
            if u.contains(s) {
                lemma_wi_grow(b, u, seq![p], s);
                assert(u + seq![p] =~= u.push(p));
            } else {
                lemma_wi_push(b, u, p, s);
                lemma_ok_rem(b, u, s);
                lemma_lawful_after(b, u);
                lemma_lawful(after(b, u));
                assert(commutes(after(b, u), s, p));
                assert(blocks(b, u, p, s));
                assert(answered(b, sleep, goals, u.push(p)));
                if !someone(b, sleep, u.push(p)) {
                    let v = choose|v: Word|
                        goals.contains(v) && #[trigger] starts(b, u.push(p), v);
                    let y = choose|y: Word| #[trigger] eqv(b, u.push(p) + y, v);
                    let s2 = choose|s2: ProcessID| sleep.contains(s2) && #[trigger] wi(b, v, s2);
                    lemma_eqv_wi(b, u.push(p) + y, v, s2);
                    lemma_wi_shrink(b, u.push(p), y, s2);
                    assert(someone(b, sleep, u.push(p)));
                }
            }
        }
    }
}

/// Every schedule can be completed.
pub proof fn lemma_complete(b: Beh, u: Word, n: nat) -> (z: Word)
    requires
        bounded(b, n),
        ok(b, u),
    ensures
        maximal(b, u + z),
    decreases n - u.len(),
{
    if done(after(b, u)) {
        let z = Seq::<ProcessID>::empty();
        assert(u + z =~= u);
        z
    } else {
        let p = choose|p: ProcessID| #[trigger] en(after(b, u), p);
        lemma_after_push(b, u, p);
        assert(ok(b, u.push(p)));
        let y = lemma_complete(b, u.push(p), n);
        let z = seq![p] + y;
        assert(u + z =~= u.push(p) + y);
        z
    }
}

/// A schedule bounded at the start is bounded after a step.
pub proof fn lemma_bounded_step(b: Beh, n: nat, p: ProcessID)
    requires
        bounded(b, n),
        en(b, p),
    ensures
        bounded(step(b, p), n),
{
    assert forall|w: Word| #[trigger] ok(step(b, p), w) implies w.len() <= n by {
        let v = seq![p] + w;
        assert(v.drop_first() =~= w);
        assert(ok(b, v));
    }
}

/// A finished branch joins the sleepers: what it blocks is looked after.
#[verifier::rlimit(30)]
pub proof fn lemma_finish_obliged(
    b: Beh,
    n: nat,
    xs: Seq<Word>,
    e: Word,
    sleep: Word,
    goals: Set<Word>,
    r: ProcessID,
)
    requires
        lawful(b),
        bounded(b, n),
        en(b, r),
        obliged(b, sleep, goals),
        raced(b, xs, e, goals),
        explored(step(b, r), xs, e.push(r), still_asleep(b, sleep, r)),
        forall|i: int| 0 <= i < xs.len() && stems(#[trigger] xs[i], e) ==> ok(
            b,
            xs[i].skip(e.len() as int),
        ),
    ensures
        obliged(b, sleep.push(r), goals),
{
    let more = sleep.push(r);
    let c = step(b, r);
    lemma_lawful(b);
    assert forall|q: ProcessID, u: Word, p: ProcessID|
        more.contains(q) && #[trigger] blocks(b, u, p, q) implies answered(
        b,
        more,
        goals,
        u.push(p),
    ) by {
        let a = u.push(p);
        assert forall|s: ProcessID| sleep.contains(s) implies more.contains(s) by {
            let i = choose|i: int| 0 <= i < sleep.len() && sleep[i] == s;
            assert(more[i] == s);
        }
        if sleep.contains(q) {
            assert(answered(b, sleep, goals, a));
            if someone(b, sleep, a) {
                let s = choose|s: ProcessID| sleep.contains(s) && #[trigger] wi(b, a, s);
                assert(more.contains(s) && wi(b, a, s));
            }
        } else {
            assert(q == r) by {
                let i = choose|i: int| 0 <= i < more.len() && more[i] == q;
                if i < sleep.len() {
                    assert(sleep[i] == q);
                }
            }
            let bu = after(b, u);
            lemma_after_push(b, u, p);
            lemma_ok_rem(b, u, r);
            lemma_rem(u, r);
            lemma_lawful_after(b, u);
            lemma_lawful(bu);
            assert(commutes(bu, p, r) && commutes(bu, r, p));
            lemma_after_push(c, u, p);
            assert(ok(c, a));
            lemma_bounded_step(b, n, r);
            let z = lemma_complete(c, a, n);
            let w = a + z;
            assert(maximal(c, w));
            let kept_asleep = still_asleep(b, sleep, r);
            if someone(c, kept_asleep, w) {
                let s = choose|s: ProcessID| kept_asleep.contains(s) && #[trigger] wi(c, w, s);
                lemma_asleep(b, sleep, r);
                lemma_wi_shrink(c, a, z, s);
                assert(u + seq![p] =~= a);
                lemma_wi_shrink(c, u, seq![p], s);
                assert(s != r) by {
                    if s == r {
                        assert(sleep.contains(r));
                    }
                }
                assert(commutes(b, s, r) && commutes(b, r, s));
                lemma_wi_step(b, u, r, s);
                if u.contains(s) {
                    lemma_wi_grow(b, u, seq![p], s);
                } else {
                    lemma_wi_push(c, u, p, s);
                    lemma_wi_push(b, u, p, s);
                    if p != s {
                        lemma_ok_rem(b, u, s);
                        assert(steady(bu, s, p, r));
                        assert(commutes(bu, s, p));
                    }
                }
                assert(wi(b, a, s));
                assert(more.contains(s));
            } else {
                assert(covers(c, xs, e.push(r), w));
                let er = e.push(r);
                let i = choose|i: int|
                    0 <= i < xs.len() && stems(xs[i], er) && eqv(
                        c,
                        #[trigger] xs[i].skip(er.len() as int),
                        w,
                    );
                let x = xs[i];
                let m = e.len() as int;
                assert(stems(x, e)) by {
                    assert(x.take(m) =~= x.take(m + 1).take(m));
                    assert(er.take(m) =~= e);
                }
                assert(x[m] == r) by {
                    assert(x.take(m + 1)[m] == r);
                }
                let t = x.skip(m + 1);
                assert(er.len() == m + 1);
                assert(x.skip(m).drop_first() =~= t);
                assert(x.skip(m)[0] == r);
                assert(ok(c, t));
                lemma_race(b, r, u, p, z, t);
                assert(reversal(b, x, e, p) == kept(b, seq![r], t).push(p));
                assert(goals.contains(reversal(b, x, e, p)));
                assert(starts(b, a, reversal(b, x, e, p)));
            }
        }
    }
}

/// A finished branch joins the sleepers: the complete schedules that it is a weak initial of are
/// explored.
pub proof fn lemma_finish_slept(
    b: Beh,
    xs: Seq<Word>,
    e: Word,
    sleep: Word,
    entry: Word,
    r: ProcessID,
)
    requires
        lawful(b),
        en(b, r),
        slept(b, xs, e, sleep, entry),
        explored(step(b, r), xs, e.push(r), still_asleep(b, sleep, r)),
        forall|i: int| 0 <= i < xs.len() && stems(#[trigger] xs[i], e) ==> ok(
            b,
            xs[i].skip(e.len() as int),
        ),
    ensures
        slept(b, xs, e, sleep.push(r), entry),
{
    let more = sleep.push(r);
    let c = step(b, r);
    let m = e.len() as int;
    lemma_lawful(b);
    assert forall|w: Word| #[trigger] maximal(b, w) && someone(b, more, w) implies someone(
        b,
        entry,
        w,
    ) || covers(b, xs, e, w) by {
        let s = choose|s: ProcessID| more.contains(s) && #[trigger] wi(b, w, s);
        if sleep.contains(s) {
            assert(someone(b, sleep, w));
        } else {
            assert(s == r) by {
                let i = choose|i: int| 0 <= i < more.len() && more[i] == s;
                if i < sleep.len() {
                    assert(sleep[i] == s);
                }
            }
            lemma_ok_rem(b, w, r);
            if !w.contains(r) {
                assert(en(after(b, w), r));
            }
            let y = rem(w, r);
            assert(maximal(c, y));
            lemma_eqv_front(b, w, r);
            let ry = seq![r] + y;
            assert(ry.drop_first() =~= y);
            let kept_asleep = still_asleep(b, sleep, r);
            if someone(c, kept_asleep, y) {
                let q = choose|q: ProcessID| kept_asleep.contains(q) && #[trigger] wi(c, y, q);
                lemma_asleep(b, sleep, r);
                assert(q != r);
                assert(commutes(b, q, r) && commutes(b, r, q));
                lemma_wi_step(b, w, r, q);
                assert(wi(b, w, q));
                assert(someone(b, sleep, w));
            } else {
                let er = e.push(r);
                let i = choose|i: int|
                    0 <= i < xs.len() && stems(xs[i], er) && eqv(
                        c,
                        #[trigger] xs[i].skip(er.len() as int),
                        y,
                    );
                let x = xs[i];
                assert(er.len() == m + 1);
                assert(stems(x, e)) by {
                    assert(x.take(m) =~= x.take(m + 1).take(m));
                    assert(er.take(m) =~= e);
                }
                assert(x[m] == r) by {
                    assert(x.take(m + 1)[m] == r);
                }
                let t = x.skip(m);
                assert(t.drop_first() =~= x.skip(m + 1));
                assert(t[0] == r);
                assert(eqv(b, t, w)) by {
                    assert(eqv(b, t, ry)) by {
                        assert(ry[0] == r);
                        assert(ry.contains(r));
                        assert(rem(ry, r) =~= y);
                    }
                    lemma_eqv_trans(b, t, ry, w);
                }
                assert(covers(b, xs, e, w));
            }
        }
    }
}

/// What a child inherits of its parent's goals.
pub open spec fn inherited(b: Beh, goals: Set<Word>, h: ProcessID) -> Set<Word> {
    Set::new(
        |y: Word|
            exists|v: Word|
                #[trigger] goals.contains(v) && v.contains(h) && wi(b, v, h) && y == rem(v, h),
    )
}

/// The goals of a child with the given subtree: a leaf has none.
pub open spec fn child_goals(b: Beh, goals: Set<Word>, h: ProcessID, sub: Wut) -> Set<Word> {
    if sub.len() == 0 {
        Set::empty()
    } else {
        inherited(b, goals, h)
    }
}

/// Entering the first child: what it owes follows from what its parent owes.
#[verifier::rlimit(30)]
pub proof fn lemma_enter(b: Beh, sleep: Word, goals: Set<Word>, w: Wut)
    requires
        lawful(b),
        w.len() > 0,
        kid(b, sleep, w, 0),
        ready_sleepers(b, sleep),
        obliged(b, sleep, goals),
        goals_met(b, sleep, goals, w, false),
    ensures
        ({
            let h = w.head(0);
            let c = step(b, h);
            let s2 = still_asleep(b, sleep, h);
            let g2 = child_goals(b, goals, h, w.sub(0));
            &&& ready_sleepers(c, s2)
            &&& obliged(c, s2, g2)
            &&& goals_met(c, s2, g2, w.sub(0), false)
            &&& fit(c, s2, w.sub(0))
        }),
{
    let h = w.head(0);
    let c = step(b, h);
    let s2 = still_asleep(b, sleep, h);
    let sub = w.sub(0);
    let g2 = child_goals(b, goals, h, sub);
    lemma_lawful(b);
    assert(heads(w, 0) =~= Seq::<ProcessID>::empty());
    assert(sleep + heads(w, 0) =~= sleep);
    lemma_asleep(b, sleep, h);
    assert forall|s: ProcessID| #[trigger] s2.contains(s) implies en(c, s) by {
        assert(s != h);
        assert(commutes(b, s, h));
    }
    assert forall|r: ProcessID, u: Word, p: ProcessID|
        s2.contains(r) && #[trigger] blocks(c, u, p, r) implies answered(
        c,
        s2,
        g2,
        u.push(p),
    ) by {
        assert(s2.len() > 0);
        assert(sub.len() > 0);
        let a = u.push(p);
        let hu = seq![h] + u;
        let ha = hu.push(p);
        assert(ha =~= seq![h] + a);
        assert(ha.drop_first() =~= a);
        assert(hu.drop_first() =~= u);
        assert(r != h);
        assert(commutes(b, r, h) && commutes(b, h, r));
        lemma_cons_contains(h, u);
        assert(blocks(b, hu, p, r)) by {
            assert(after(b, hu) == after(c, u));
            assert(wi(b, hu, r));
        }
        assert(answered(b, sleep, goals, ha));
        if someone(b, sleep, ha) {
            let s = choose|s: ProcessID| sleep.contains(s) && #[trigger] wi(b, ha, s);
            assert(s != h);
            assert(commutes(b, s, h) && commutes(b, h, s));
            assert(s2.contains(s));
            assert(wi(c, a, s));
        } else {
            let v = choose|v: Word| goals.contains(v) && #[trigger] starts(b, ha, v);
            let y = choose|y: Word| #[trigger] eqv(b, ha + y, v);
            let full = ha + y;
            assert(full[0] == h);
            assert(full.contains(h));
            assert(full.drop_first() =~= a + y);
            assert(ok(b, v));
            assert(v.contains(h) && wi(b, v, h));
            assert(g2.contains(rem(v, h)));
            assert(eqv(c, a + y, rem(v, h)));
            assert(starts(c, a, rem(v, h)));
        }
    }
    assert forall|y: Word| #[trigger] g2.contains(y) implies ok(c, y) && (someone(c, s2, y)
        || covered(c, sub, y)) by {
        let v = choose|v: Word|
            #[trigger] goals.contains(v) && v.contains(h) && wi(b, v, h) && y == rem(v, h);
        assert(ok(b, v));
        lemma_ok_rem(b, v, h);
        if someone(b, sleep, v) {
            let s = choose|s: ProcessID| sleep.contains(s) && #[trigger] wi(b, v, s);
            assert(s != h);
            lemma_wi_both(b, v, h, s);
            assert(commutes(b, s, h) && commutes(b, h, s));
            lemma_wi_step(b, v, h, s);
            assert(s2.contains(s) && wi(c, y, s));
        } else {
            lemma_picked(b, w, v, 0);
        }
    }
}

/// The first child is exhausted and asleep: what it covered has it as a weak initial, the others
/// move up.
pub proof fn lemma_leave(b: Beh, sleep: Word, goals: Set<Word>, w: Wut, rest: Wut)
    requires
        w.len() > 0,
        rest.children@ == w.children@.remove(0),
        goals_met(b, sleep, goals, w, true),
        forall|k: int| 1 <= k < w.len() ==> #[trigger] kid(b, sleep, w, k),
    ensures
        goals_met(b, sleep.push(w.head(0)), goals, rest, false),
        forall|k: int|
            0 <= k < rest.len() ==> #[trigger] kid(b, sleep.push(w.head(0)), rest, k),
{
    let h = w.head(0);
    let more = sleep.push(h);
    assert forall|v: Word| #[trigger] goals.contains(v) implies ok(b, v) && (someone(b, more, v)
        || covered(b, rest, v)) by {
        if someone(b, sleep, v) {
            let s = choose|s: ProcessID| sleep.contains(s) && #[trigger] wi(b, v, s);
            let i = choose|i: int| 0 <= i < sleep.len() && sleep[i] == s;
            assert(more[i] == s);
            assert(more.contains(s) && wi(b, v, s));
        } else {
            lemma_pick(b, w, v, 0);
            let k = pick(b, w, v, 0);
            if k == 0 {
                assert(more[sleep.len() as int] == h);
                assert(more.contains(h) && wi(b, v, h));
            } else {
                assert(rest.children@[k - 1] == w.children@[k]);
                assert forall|j: int| 0 <= j < k - 1 implies !wi(
                    b,
                    v,
                    #[trigger] rest.head(j),
                ) by {
                    assert(rest.children@[j] == w.children@[j + 1]);
                    assert(!wi(b, v, w.head(j + 1)));
                }
                lemma_picked(b, rest, v, k - 1);
            }
        }
    }
    assert forall|k: int| 0 <= k < rest.len() implies #[trigger] kid(b, more, rest, k) by {
        assert(kid(b, sleep, w, k + 1));
        assert(rest.children@[k] == w.children@[k + 1]);
        assert(more + heads(rest, k) =~= sleep + heads(w, k + 1)) by {
            assert forall|j: int| 0 <= j < k implies heads(rest, k)[j] == heads(w, k + 1)[j + 1] by {
                assert(rest.children@[j] == w.children@[j + 1]);
            }
        }
        let q = rest.head(k);
        assert(!more.contains(q)) by {
            if more.contains(q) {
                let i = choose|i: int| 0 <= i < more.len() && more[i] == q;
                if i < sleep.len() {
                    assert(sleep[i] == q);
                } else {
                    assert(heads(w, k + 1)[0] == q);
                }
            }
        }
        assert(!heads(rest, k).contains(q)) by {
            if heads(rest, k).contains(q) {
                let j = choose|j: int| 0 <= j < k && heads(rest, k)[j] == q;
                assert(rest.children@[j] == w.children@[j + 1]);
                assert(heads(w, k + 1)[j + 1] == q);
            }
        }
    }
}

} // verus!
