//! The wakeup tree: every branch can be run, none is asleep, and a planted fragment is covered.

use vstd::prelude::*;

use crate::model::object::Transition;
use crate::model::process::ProcessID;
use crate::search::clocks::pids;
use crate::search::reversal::{
    grown, lemma_push_contains, lemma_without, pick, still_asleep, stops, walkable, without,
};
use crate::search::wakeup::{is_chain, Wut};
use crate::theory::behaviour::{commutes, dep, en, fails, lawful, lemma_lawful, ok, step, Beh, Word};
use crate::theory::initials::{lemma_ok_rem, lemma_rem_cons, lemma_uncons, lemma_wi_step, rem, wi};

verus! {

/// The processes of the first `k` children.
pub open spec fn heads(w: Wut, k: int) -> Word {
    Seq::new(k as nat, |j: int| w.head(j))
}

/// Child `k` can be explored, as far as its own step goes: its process can step, is awake and
/// has no other branch, and its step does not fail if the branch goes on.
pub open spec fn viable(b: Beh, sleep: Word, w: Wut, k: int) -> bool {
    let h = w.children@[k].0.pid;
    &&& en(b, h)
    &&& !sleep.contains(h)
    &&& !heads(w, k).contains(h)
    &&& w.children@[k].1.len() > 0 ==> !fails(b, h)
}

/// The sleep set that child `k` will have.
pub open spec fn kid_sleep(b: Beh, sleep: Word, w: Wut, k: int) -> Word {
    still_asleep(b, sleep + heads(w, k), w.children@[k].0.pid)
}

/// A node fits a sleep set: all its children can be explored and their subtrees fit the sleep
/// sets they will have; a leaf has nobody asleep.
pub open spec fn fit(b: Beh, sleep: Word, w: Wut) -> bool
    decreases w,
{
    if w.children@.len() == 0 {
        sleep.len() == 0
    } else {
        forall|k: int|
            #![trigger w.children@[k]]
            0 <= k < w.children@.len() ==> viable(b, sleep, w, k) && fit(
                step(b, w.children@[k].0.pid),
                kid_sleep(b, sleep, w, k),
                w.children@[k].1,
            )
    }
}

/// Child `k` can be explored, and its subtree fits the sleep set it will have.
pub open spec fn kid(b: Beh, sleep: Word, w: Wut, k: int) -> bool {
    viable(b, sleep, w, k) && fit(
        step(b, w.children@[k].0.pid),
        kid_sleep(b, sleep, w, k),
        w.children@[k].1,
    )
}

/// A node with children fits exactly when they can all be explored.
pub proof fn lemma_fit(b: Beh, sleep: Word, w: Wut)
    requires
        w.len() > 0,
    ensures
        fit(b, sleep, w) <==> forall|k: int| 0 <= k < w.len() ==> #[trigger] kid(b, sleep, w, k),
{
    if fit(b, sleep, w) {
        assert forall|k: int| 0 <= k < w.len() implies #[trigger] kid(b, sleep, w, k) by {
            let c = w.children@[k];
        }
    }
    if forall|k: int| 0 <= k < w.len() ==> #[trigger] kid(b, sleep, w, k) {
        assert forall|k: int|
            #![trigger w.children@[k]]
            0 <= k < w.children@.len() implies viable(b, sleep, w, k) && fit(
            step(b, w.children@[k].0.pid),
            kid_sleep(b, sleep, w, k),
            w.children@[k].1,
        ) by {
            assert(kid(b, sleep, w, k));
        }
    }
}

/// The fragment `v` is covered by the tree: following its weak initials leads to a leaf.
pub open spec fn covered(b: Beh, w: Wut, v: Word) -> bool
    decreases w,
{
    let k = pick(b, w, v, 0);
    if 0 <= k < w.children@.len() {
        w.children@[k].1.len() == 0 || covered(
            step(b, w.children@[k].0.pid),
            w.children@[k].1,
            rem(v, w.children@[k].0.pid),
        )
    } else {
        false
    }
}

/// As [`covered`], while the first child is being explored.
pub open spec fn held(b: Beh, w: Wut, v: Word) -> bool {
    let k = pick(b, w, v, 0);
    0 <= k < w.len() && (k == 0 || w.sub(k).len() == 0 || covered(
        step(b, w.head(k)),
        w.sub(k),
        rem(v, w.head(k)),
    ))
}

/// What picking a child promises.
pub proof fn lemma_pick(b: Beh, w: Wut, v: Word, k: int)
    requires
        0 <= k <= w.len(),
    ensures
        k <= pick(b, w, v, k) <= w.len(),
        pick(b, w, v, k) < w.len() ==> wi(b, v, w.head(pick(b, w, v, k))),
        forall|j: int| k <= j < pick(b, w, v, k) ==> !wi(b, v, #[trigger] w.head(j)),
    decreases w.len() - k,
{
    if k < w.len() && !wi(b, v, w.head(k)) {
        lemma_pick(b, w, v, k + 1);
    }
}

/// The first child that is a weak initial is the one picked.
pub proof fn lemma_picked(b: Beh, w: Wut, v: Word, k: int)
    requires
        0 <= k < w.len(),
        wi(b, v, w.head(k)),
        forall|j: int| 0 <= j < k ==> !wi(b, v, #[trigger] w.head(j)),
    ensures
        pick(b, w, v, 0) == k,
{
    lemma_pick(b, w, v, 0);
    let p = pick(b, w, v, 0);
    if p < k {
        assert(wi(b, v, w.head(p)));
    } else if p > k {
        assert(!wi(b, v, w.head(k)));
    }
}

/// Who stays asleep.
pub proof fn lemma_asleep(b: Beh, sleep: Word, p: ProcessID)
    ensures
        forall|q: ProcessID| #[trigger]
            still_asleep(b, sleep, p).contains(q) <==> sleep.contains(q) && en(b, q) && !dep(
                b,
                p,
                q,
            ),
    decreases sleep.len(),
{
    if sleep.len() > 0 {
        let init = sleep.drop_last();
        lemma_asleep(b, init, p);
        lemma_push_contains(init, sleep.last());
        assert(init.push(sleep.last()) =~= sleep);
        lemma_push_contains(still_asleep(b, init, p), sleep.last());
    }
}

/// What two words hold together.
pub proof fn lemma_concat_contains(u: Word, v: Word)
    ensures
        forall|x: ProcessID| #[trigger] (u + v).contains(x) <==> u.contains(x) || v.contains(x),
{
    assert forall|x: ProcessID| #[trigger] (u + v).contains(x) <==> u.contains(x) || v.contains(
        x,
    ) by {
        if u.contains(x) {
            let i = choose|i: int| 0 <= i < u.len() && u[i] == x;
            assert((u + v)[i] == x);
        }
        if v.contains(x) {
            let i = choose|i: int| 0 <= i < v.len() && v[i] == x;
            assert((u + v)[u.len() + i] == x);
        }
        if (u + v).contains(x) {
            let i = choose|i: int| 0 <= i < (u + v).len() && (u + v)[i] == x;
            if i < u.len() {
                assert(u[i] == x);
            } else {
                assert(v[i - u.len()] == x);
            }
        }
    }
}

/// A fragment that can be walked can be run.
pub proof fn lemma_walkable_ok(b: Beh, v: Word)
    requires
        walkable(b, v),
    ensures
        ok(b, v),
    decreases v.len(),
{
    if v.len() > 1 {
        lemma_walkable_ok(step(b, v[0]), v.drop_first());
    } else if v.len() == 1 {
        assert(ok(step(b, v[0]), v.drop_first()));
    }
}

/// A fragment can still be walked when a weak initial has stepped first.
pub proof fn lemma_walkable_rem(b: Beh, v: Word, h: ProcessID)
    requires
        lawful(b),
        walkable(b, v),
        wi(b, v, h),
    ensures
        walkable(step(b, h), rem(v, h)),
    decreases v.len(),
{
    lemma_lawful(b);
    if v.len() > 0 {
        let c = v[0];
        let t = v.drop_first();
        lemma_uncons(v);
        if c == h {
            assert(t.len() == 0 ==> walkable(step(b, h), t));
        } else {
            assert(commutes(b, h, c) && commutes(b, c, h));
            lemma_rem_cons(c, t, h);
            let r = seq![c] + rem(t, h);
            assert(r.drop_first() =~= rem(t, h));
            assert(r[0] == c);
            if t.len() == 0 {
                assert(rem(t, h) =~= t);
            } else {
                lemma_walkable_rem(step(b, c), t, h);
            }
        }
    }
}

/// A chain fits where no sleeper is a weak initial of it.
pub proof fn lemma_chain_fit(b: Beh, sleep: Word, seq: Seq<Transition>, w: Wut)
    requires
        lawful(b),
        walkable(b, pids(seq)),
        is_chain(w, seq),
        forall|s: ProcessID| #[trigger]
            sleep.contains(s) ==> en(b, s) && !wi(b, pids(seq), s),
    ensures
        fit(b, sleep, w),
    decreases seq.len(),
{
    lemma_lawful(b);
    let v = pids(seq);
    if seq.len() == 0 {
        if sleep.len() > 0 {
            assert(sleep.contains(sleep[0]));
        }
    } else {
        let h = v[0];
        let t = seq.drop_first();
        assert(pids(t) =~= v.drop_first());
        assert(heads(w, 0) =~= Seq::<ProcessID>::empty());
        assert(sleep + heads(w, 0) =~= sleep);
        lemma_asleep(b, sleep, h);
        let s2 = still_asleep(b, sleep, h);
        assert(w.children@[0].0.pid == h);
        if sleep.contains(h) {
            assert(wi(b, v, h));
        }
        assert forall|s: ProcessID| #[trigger] s2.contains(s) implies en(step(b, h), s) && !wi(
            step(b, h),
            pids(t),
            s,
        ) by {
            assert(sleep.contains(s));
            assert(s != h);
            assert(commutes(b, s, h) && commutes(b, h, s));
        }
        if t.len() == 0 {
            assert(walkable(step(b, h), pids(t)));
        }
        lemma_fit(b, sleep, w);
        lemma_chain_fit(step(b, h), s2, t, w.children@[0].1);
        if w.children@[0].1.len() > 0 {
            assert(is_chain(w.children@[0].1, t));
            assert(t.len() > 0);
        }
        assert(kid(b, sleep, w, 0));
    }
}

/// Nobody who stays asleep when `h` steps is a weak initial of what is left of a fragment that
/// nobody asleep is a weak initial of.
proof fn lemma_sleepers_below(b: Beh, sleep: Word, v: Word, h: ProcessID)
    requires
        lawful(b),
        ok(b, v),
        wi(b, v, h),
        !sleep.contains(h),
        forall|s: ProcessID| #[trigger] sleep.contains(s) ==> !wi(b, v, s),
    ensures
        forall|s: ProcessID| #[trigger]
            still_asleep(b, sleep, h).contains(s) ==> en(step(b, h), s) && !wi(
                step(b, h),
                rem(v, h),
                s,
            ),
{
    lemma_lawful(b);
    lemma_asleep(b, sleep, h);
    assert forall|s: ProcessID| #[trigger] still_asleep(b, sleep, h).contains(s) implies en(
        step(b, h),
        s,
    ) && !wi(step(b, h), rem(v, h), s) by {
        assert(sleep.contains(s));
        assert(commutes(b, s, h) && commutes(b, h, s));
        lemma_wi_step(b, v, h, s);
    }
}

/// A fresh branch at the end fits.
proof fn lemma_fresh_kid(b: Beh, sleep: Word, w: Wut, after: Wut, v: Seq<Transition>)
    requires
        lawful(b),
        v.len() > 0,
        walkable(b, pids(v)),
        forall|s: ProcessID| #[trigger] sleep.contains(s) ==> !wi(b, pids(v), s),
        forall|j: int| 0 <= j < w.len() ==> !wi(b, pids(v), #[trigger] w.head(j)),
        after.len() == w.len() + 1,
        after.children@.drop_last() == w.children@,
        after.children@.last().0 == v[0],
        is_chain(after.children@.last().1, v.drop_first()),
    ensures
        kid(b, sleep, after, w.len() as int),
        heads(after, w.len() as int) == heads(w, w.len() as int),
        after.head(w.len() as int) == pids(v)[0],
{
    let word = pids(v);
    let n = w.len() as int;
    let h = word[0];
    lemma_walkable_ok(b, word);
    lemma_lawful(b);
    assert(after.children@[n] == after.children@.last());
    assert forall|j: int| 0 <= j < n implies after.children@[j] == w.children@[j] by {
        assert(after.children@.drop_last()[j] == after.children@[j]);
    }
    assert(heads(after, n) =~= heads(w, n));
    let all = sleep + heads(w, n);
    lemma_concat_contains(sleep, heads(w, n));
    assert forall|s: ProcessID| #[trigger] all.contains(s) implies !wi(b, word, s) by {
        if heads(w, n).contains(s) {
            let j = choose|j: int| 0 <= j < n && heads(w, n)[j] == s;
            assert(!wi(b, word, w.head(j)));
        }
    }
    assert(wi(b, word, h));
    assert(!all.contains(h));
    lemma_sleepers_below(b, all, word, h);
    let t = v.drop_first();
    assert(pids(t) =~= word.drop_first());
    assert(rem(word, h) == word.drop_first());
    if t.len() == 0 {
        assert(walkable(step(b, h), pids(t)));
    }
    lemma_chain_fit(step(b, h), still_asleep(b, all, h), t, after.children@[n].1);
    if after.children@[n].1.len() > 0 {
        assert(t.len() > 0);
    }
}

/// A child is not disturbed by what happens to later ones.
pub proof fn lemma_kid_same(b: Beh, sleep: Word, w: Wut, after: Wut, k: int)
    requires
        kid(b, sleep, w, k),
        0 <= k < w.len(),
        k < after.len(),
        after.children@[k] == w.children@[k],
        forall|j: int| 0 <= j < k ==> (#[trigger] after.children@[j]).0 == w.children@[j].0,
    ensures
        kid(b, sleep, after, k),
{
    assert(heads(after, k) =~= heads(w, k));
}

/// Planting a fragment that nobody asleep covers keeps the tree fit and covers the fragment;
/// what was covered stays covered.
pub proof fn lemma_grown(b: Beh, sleep: Word, w: Wut, after: Wut, v: Seq<Transition>)
    requires
        lawful(b),
        fit(b, sleep, w),
        w.len() > 0,
        walkable(b, pids(v)),
        forall|s: ProcessID| #[trigger] sleep.contains(s) ==> !wi(b, pids(v), s),
        grown(b, w, after, false, v),
    ensures
        fit(b, sleep, after),
        after.len() > 0,
        covered(b, after, pids(v)),
        forall|u: Word| ok(b, u) && covered(b, w, u) ==> #[trigger] covered(b, after, u),
    decreases w,
{
    let word = pids(v);
    let k = pick(b, w, word, 0);
    lemma_pick(b, w, word, 0);
    lemma_walkable_ok(b, word);
    lemma_fit(b, sleep, w);
    if after.len() > 0 {
        lemma_fit(b, sleep, after);
    }
    assert(kid(b, sleep, w, 0));
    if k >= w.len() {
        let n = w.len() as int;
        if v.len() == 0 {
            assert(word.len() == 0);
            assert(wi(b, word, w.head(0)));
            assert(false);
        }
        assert forall|j: int| 0 <= j < n implies #[trigger] after.children@[j]
            == w.children@[j] by {
            assert(after.children@.drop_last()[j] == after.children@[j]);
        }
        lemma_fresh_kid(b, sleep, w, after, v);
        assert forall|j: int| 0 <= j < after.len() implies #[trigger] kid(b, sleep, after, j) by {
            if j < n {
                assert(kid(b, sleep, w, j));
                lemma_kid_same(b, sleep, w, after, j);
            }
        }
        assert(covered(b, after, word)) by {
            assert(wi(b, word, after.head(n)));
            assert forall|j: int| 0 <= j < n implies !wi(b, word, #[trigger] after.head(j)) by {
                assert(after.children@[j] == w.children@[j]);
                assert(!wi(b, word, w.head(j)));
            }
            lemma_picked(b, after, word, n);
            lemma_chain_covered(b, sleep, after, v, n);
        }
        assert forall|u: Word| ok(b, u) && covered(b, w, u) implies #[trigger] covered(
            b,
            after,
            u,
        ) by {
            lemma_pick_same(b, w, after, u);
        }
    } else if stops(b, w, false, v) {
        let h = w.head(k);
        lemma_without(v, h);
        lemma_walkable_rem(b, word, h);
        assert(kid(b, sleep, w, k));
        if w.sub(k).len() > 0 {
            let s2 = still_asleep(b, sleep + heads(w, k), h);
            lemma_fit(step(b, h), s2, w.sub(k));
            assert(kid(step(b, h), s2, w.sub(k), 0));
            assert(en(step(b, h), w.sub(k).head(0)));
            assert(false);
        }
    } else {
        let h = w.head(k);
        let sub = w.children@[k].1;
        let sub2 = after.children@[k].1;
        assert(kid(b, sleep, w, k));
        lemma_without(v, h);
        lemma_walkable_rem(b, word, h);
        lemma_lawful(b);
        let all = sleep + heads(w, k);
        lemma_concat_contains(sleep, heads(w, k));
        assert forall|s: ProcessID| #[trigger] all.contains(s) implies !wi(b, word, s) by {
            if heads(w, k).contains(s) {
                let j = choose|j: int| 0 <= j < k && heads(w, k)[j] == s;
                assert(!wi(b, word, w.head(j)));
            }
        }
        lemma_sleepers_below(b, all, word, h);
        lemma_grown(step(b, h), still_asleep(b, all, h), sub, sub2, without(v, h));
        assert forall|j: int| 0 <= j < w.len() implies (#[trigger] after.children@[j]).0
            == w.children@[j].0 by {
            if j != k {
                assert(after.children@[j] == w.children@[j]);
            }
        }
        assert(heads(after, k) =~= heads(w, k));
        assert forall|j: int| 0 <= j < after.len() implies #[trigger] kid(b, sleep, after, j) by {
            assert(kid(b, sleep, w, j));
            if j != k {
                assert(after.children@[j] == w.children@[j]);
                lemma_kid_same(b, sleep, w, after, j);
            }
        }
        assert forall|u: Word| true implies pick(b, after, u, 0) == #[trigger] pick(b, w, u, 0) by {
            lemma_pick_heads(b, w, after, u);
        }
        assert(covered(b, after, word)) by {
            assert(pick(b, after, word, 0) == pick(b, w, word, 0));
        }
        assert forall|u: Word| ok(b, u) && covered(b, w, u) implies #[trigger] covered(
            b,
            after,
            u,
        ) by {
            let l = pick(b, w, u, 0);
            assert(pick(b, after, u, 0) == l);
            lemma_pick(b, w, u, 0);
            if l == k {
                lemma_ok_rem(b, u, h);
                assert(covered(step(b, h), sub, rem(u, h)));
                assert(covered(step(b, h), sub2, rem(u, h)));
            } else {
                assert(after.children@[l] == w.children@[l]);
            }
        }
    }
}

/// Trees with the same edges at their root pick alike.
proof fn lemma_pick_heads(b: Beh, w: Wut, after: Wut, u: Word)
    requires
        after.len() == w.len(),
        forall|j: int|
            0 <= j < w.len() ==> (#[trigger] after.children@[j]).0 == w.children@[j].0,
    ensures
        pick(b, after, u, 0) == pick(b, w, u, 0),
{
    lemma_pick(b, w, u, 0);
    lemma_pick(b, after, u, 0);
    let p = pick(b, w, u, 0);
    let q = pick(b, after, u, 0);
    if p < q {
        assert(after.children@[p].0 == w.children@[p].0);
        assert(!wi(b, u, after.head(p)));
    } else if q < p {
        assert(after.children@[q].0 == w.children@[q].0);
        assert(!wi(b, u, w.head(q)));
    }
}

/// A fresh branch at the end changes nothing for what was covered.
proof fn lemma_pick_same(b: Beh, w: Wut, after: Wut, u: Word)
    requires
        after.len() == w.len() + 1,
        forall|j: int| 0 <= j < w.len() ==> #[trigger] after.children@[j] == w.children@[j],
        pick(b, w, u, 0) < w.len(),
    ensures
        pick(b, after, u, 0) == pick(b, w, u, 0),
        0 <= pick(b, w, u, 0),
        after.children@[pick(b, w, u, 0)] == w.children@[pick(b, w, u, 0)],
{
    lemma_pick(b, w, u, 0);
    let p = pick(b, w, u, 0);
    assert(after.children@[p] == w.children@[p]);
    assert forall|j: int| 0 <= j < p implies !wi(b, u, #[trigger] after.head(j)) by {
        assert(after.children@[j] == w.children@[j]);
        assert(!wi(b, u, w.head(j)));
    }
    lemma_picked(b, after, u, p);
}

/// A fragment is covered by the branch grafted for it.
proof fn lemma_chain_covered(b: Beh, sleep: Word, w: Wut, v: Seq<Transition>, n: int)
    requires
        lawful(b),
        v.len() > 0,
        walkable(b, pids(v)),
        0 <= n < w.len(),
        pick(b, w, pids(v), 0) == n,
        w.head(n) == pids(v)[0],
        is_chain(w.children@[n].1, v.drop_first()),
    ensures
        covered(b, w, pids(v)),
    decreases v.len(),
{
    let word = pids(v);
    let h = word[0];
    let t = v.drop_first();
    assert(pids(t) =~= word.drop_first());
    lemma_lawful(b);
    let sub = w.children@[n].1;
    if t.len() > 0 {
        assert(wi(step(b, h), pids(t), sub.head(0))) by {
            assert(sub.children@[0].0 == t[0]);
            assert(sub.head(0) == pids(t)[0]);
            assert(walkable(step(b, h), word.drop_first()));
            assert(en(step(b, h), pids(t)[0]));
        }
        lemma_picked(step(b, h), sub, pids(t), 0);
        lemma_chain_covered(step(b, h), sleep, sub, t, 0);
        assert(rem(word, h) == word.drop_first());
    }
}

/// As [`lemma_grown`], at a node whose first child is being explored.
pub proof fn lemma_grown_busy(b: Beh, sleep: Word, w: Wut, after: Wut, v: Seq<Transition>)
    requires
        lawful(b),
        w.len() > 0,
        v.len() > 0,
        forall|k: int| 1 <= k < w.len() ==> #[trigger] kid(b, sleep, w, k),
        walkable(b, pids(v)),
        forall|s: ProcessID| #[trigger] sleep.contains(s) ==> !wi(b, pids(v), s),
        grown(b, w, after, true, v),
    ensures
        after.len() > 0,
        after.children@[0] == w.children@[0],
        forall|k: int| 1 <= k < after.len() ==> #[trigger] kid(b, sleep, after, k),
        held(b, after, pids(v)),
        forall|u: Word| ok(b, u) && held(b, w, u) ==> #[trigger] held(b, after, u),
{
    let word = pids(v);
    let k = pick(b, w, word, 0);
    lemma_pick(b, w, word, 0);
    lemma_walkable_ok(b, word);
    if k >= w.len() {
        let n = w.len() as int;
        assert forall|j: int| 0 <= j < n implies #[trigger] after.children@[j]
            == w.children@[j] by {
            assert(after.children@.drop_last()[j] == after.children@[j]);
        }
        lemma_fresh_kid(b, sleep, w, after, v);
        assert forall|j: int| 1 <= j < after.len() implies #[trigger] kid(b, sleep, after, j) by {
            if j < n {
                assert(kid(b, sleep, w, j));
                lemma_kid_same(b, sleep, w, after, j);
            }
        }
        assert(held(b, after, word)) by {
            assert(wi(b, word, after.head(n)));
            assert forall|j: int| 0 <= j < n implies !wi(b, word, #[trigger] after.head(j)) by {
                assert(after.children@[j] == w.children@[j]);
                assert(!wi(b, word, w.head(j)));
            }
            lemma_picked(b, after, word, n);
            lemma_chain_covered(b, sleep, after, v, n);
        }
        assert forall|u: Word| ok(b, u) && held(b, w, u) implies #[trigger] held(b, after, u) by {
            lemma_pick_same(b, w, after, u);
        }
    } else if stops(b, w, true, v) {
        let h = w.head(k);
        if k > 0 {
            lemma_without(v, h);
            lemma_walkable_rem(b, word, h);
            assert(kid(b, sleep, w, k));
            if w.sub(k).len() > 0 {
                let s2 = still_asleep(b, sleep + heads(w, k), h);
                lemma_fit(step(b, h), s2, w.sub(k));
                assert(kid(step(b, h), s2, w.sub(k), 0));
                assert(en(step(b, h), w.sub(k).head(0)));
                assert(false);
            }
        }
    } else {
        let h = w.head(k);
        let sub = w.children@[k].1;
        let sub2 = after.children@[k].1;
        assert(k > 0);
        assert(kid(b, sleep, w, k));
        lemma_without(v, h);
        lemma_walkable_rem(b, word, h);
        lemma_lawful(b);
        let all = sleep + heads(w, k);
        lemma_concat_contains(sleep, heads(w, k));
        assert forall|s: ProcessID| #[trigger] all.contains(s) implies !wi(b, word, s) by {
            if heads(w, k).contains(s) {
                let j = choose|j: int| 0 <= j < k && heads(w, k)[j] == s;
                assert(!wi(b, word, w.head(j)));
            }
        }
        lemma_sleepers_below(b, all, word, h);
        lemma_grown(step(b, h), still_asleep(b, all, h), sub, sub2, without(v, h));
        assert forall|j: int| 0 <= j < w.len() implies (#[trigger] after.children@[j]).0
            == w.children@[j].0 by {
            if j != k {
                assert(after.children@[j] == w.children@[j]);
            }
        }
        assert(heads(after, k) =~= heads(w, k));
        assert(after.children@[0] == w.children@[0]);
        assert forall|j: int| 1 <= j < after.len() implies #[trigger] kid(b, sleep, after, j) by {
            assert(kid(b, sleep, w, j));
            if j != k {
                assert(after.children@[j] == w.children@[j]);
                lemma_kid_same(b, sleep, w, after, j);
            }
        }
        assert forall|u: Word| true implies pick(b, after, u, 0) == #[trigger] pick(b, w, u, 0) by {
            lemma_pick_heads(b, w, after, u);
        }
        assert(held(b, after, word)) by {
            assert(pick(b, after, word, 0) == pick(b, w, word, 0));
        }
        assert forall|u: Word| ok(b, u) && held(b, w, u) implies #[trigger] held(b, after, u) by {
            let l = pick(b, w, u, 0);
            assert(pick(b, after, u, 0) == l);
            lemma_pick(b, w, u, 0);
            if l == k {
                lemma_ok_rem(b, u, h);
                assert(covered(step(b, h), sub, rem(u, h)));
                assert(covered(step(b, h), sub2, rem(u, h)));
            } else {
                assert(after.children@[l] == w.children@[l]);
            }
        }
    }
}

} // verus!
