//! Races: what of a schedule's future does not depend on its first step.
//!
//! After a step of `r`, a schedule is split into the steps that can be moved before `r` and
//! those that cannot, because they follow from `r`. The latter are *delayed*. How a schedule is
//! split does not depend on which schedule of its class it is.

use vstd::prelude::*;

use crate::model::process::ProcessID;
use crate::theory::behaviour::{
    after, commutes, dep, en, fails, lawful, lemma_after_concat, lemma_after_push, lemma_lawful,
    lemma_lawful_after, ok, stable, steady, step, unfailing, Beh, Word,
};
use crate::theory::initials::{
    eqv, lemma_cons_contains, lemma_eqv_front, lemma_eqv_grow, lemma_eqv_ok, lemma_eqv_prefix,
    lemma_eqv_refl, lemma_eqv_rem, lemma_eqv_sym, lemma_eqv_trans, lemma_eqv_wi, lemma_ok_rem,
    lemma_rem, lemma_rem_cons, lemma_uncons, lemma_wi_step, rem, starts, wi,
};

verus! {

/// A step of `e` after the delayed steps `t` can be moved before them.
pub open spec fn passes(b: Beh, t: Word, e: ProcessID) -> bool {
    !t.contains(e) && wi(b, t, e)
}

/// The steps of `u`, run after the delayed steps `t`, that can be moved before all that is
/// delayed.
pub open spec fn kept(b: Beh, t: Word, u: Word) -> Word
    decreases u.len(),
{
    if u.len() == 0 {
        u
    } else if passes(b, t, u[0]) {
        seq![u[0]] + kept(step(b, u[0]), t, u.drop_first())
    } else {
        kept(b, t.push(u[0]), u.drop_first())
    }
}

/// The first step of `p` in `u` that is delayed, is delayed by `t[0]` alone.
pub open spec fn racy(b: Beh, t: Word, u: Word, p: ProcessID) -> bool
    decreases u.len(),
{
    if u.len() == 0 {
        false
    } else if passes(b, t, u[0]) {
        racy(step(b, u[0]), t, u.drop_first(), p)
    } else if u[0] == p {
        passes(step(b, t[0]), t.drop_first(), p)
    } else {
        racy(b, t.push(u[0]), u.drop_first(), p)
    }
}

/// What one more delayed step at the end changes.
pub proof fn lemma_wi_push(b: Beh, t: Word, d: ProcessID, e: ProcessID)
    requires
        !t.contains(e),
    ensures
        wi(b, t.push(d), e) <==> wi(b, t, e) && (d == e || !dep(after(b, t), e, d) && en(
            step(after(b, t), d),
            e,
        )),
    decreases t.len(),
{
    if t.len() > 0 {
        lemma_uncons(t);
        assert(t.push(d).drop_first() =~= t.drop_first().push(d));
        lemma_wi_push(step(b, t[0]), t.drop_first(), d, e);
    } else {
        assert(t.push(d).drop_first() =~= Seq::<ProcessID>::empty());
        assert(wi(step(b, d), t.push(d).drop_first(), e) == en(step(b, d), e));
    }
}

/// A step that passes the delayed steps commutes with all of them.
pub proof fn lemma_pass(b: Beh, t: Word, e: ProcessID, u: Word)
    requires
        lawful(b),
        ok(b, t),
        ok(after(b, t), seq![e] + u),
        passes(b, t, e),
    ensures
        en(b, e),
        lawful(step(b, e)),
        ok(step(b, e), t),
        after(step(b, e), t) == step(after(b, t), e),
        ok(after(step(b, e), t), u),
{
    lemma_lawful(b);
    lemma_ok_rem(b, t, e);
    lemma_rem(t, e);
    assert((seq![e] + u).drop_first() =~= u);
}

/// A step that does not pass joins the delayed ones.
pub proof fn lemma_delay(b: Beh, t: Word, e: ProcessID, u: Word)
    requires
        ok(b, t),
        ok(after(b, t), seq![e] + u),
    ensures
        ok(b, t.push(e)),
        after(b, t.push(e)) == step(after(b, t), e),
        ok(after(b, t.push(e)), u),
{
    lemma_after_push(b, t, e);
    assert((seq![e] + u).drop_first() =~= u);
}

/// The steps that are kept can be run.
pub proof fn lemma_kept_ok(b: Beh, t: Word, u: Word)
    requires
        lawful(b),
        ok(b, t),
        ok(after(b, t), u),
    ensures
        ok(b, kept(b, t, u)),
    decreases u.len(),
{
    if u.len() > 0 {
        let e = u[0];
        let v = u.drop_first();
        lemma_uncons(u);
        if passes(b, t, e) {
            lemma_pass(b, t, e, v);
            lemma_kept_ok(step(b, e), t, v);
            let k = kept(step(b, e), t, v);
            assert((seq![e] + k).drop_first() =~= k);
        } else {
            lemma_delay(b, t, e, v);
            lemma_kept_ok(b, t.push(e), v);
        }
    }
}

/// A step that passes the delayed steps fails before them if it fails behind them.
proof fn lemma_pass_fails(b: Beh, t: Word, e: ProcessID)
    requires
        lawful(b),
        ok(b, t),
        passes(b, t, e),
    ensures
        fails(after(b, t), e) == fails(b, e),
    decreases t.len(),
{
    if t.len() > 0 {
        let d = t[0];
        lemma_lawful(b);
        lemma_uncons(t);
        assert(commutes(b, e, d));
        assert(commutes(b, d, e));
        lemma_pass_fails(step(b, d), t.drop_first(), e);
    }
}

/// Where no step fails, none of the steps that are kept does.
pub proof fn lemma_kept_unfailing(b: Beh, t: Word, u: Word)
    requires
        lawful(b),
        ok(b, t),
        ok(after(b, t), u),
        unfailing(after(b, t), u),
    ensures
        unfailing(b, kept(b, t, u)),
    decreases u.len(),
{
    if u.len() > 0 {
        let e = u[0];
        let v = u.drop_first();
        lemma_uncons(u);
        if passes(b, t, e) {
            lemma_pass(b, t, e, v);
            lemma_pass_fails(b, t, e);
            lemma_kept_unfailing(step(b, e), t, v);
            let k = kept(step(b, e), t, v);
            assert((seq![e] + k).drop_first() =~= k);
        } else {
            lemma_delay(b, t, e, v);
            lemma_kept_unfailing(b, t.push(e), v);
        }
    }
}

/// Two steps that both pass, and do not conflict behind the delayed steps, do not conflict
/// before them.
proof fn lemma_pass_apart(b: Beh, t: Word, c: ProcessID, d: ProcessID)
    requires
        lawful(b),
        ok(b, t),
        c != d,
        passes(b, t, c),
        passes(b, t, d),
    ensures
        dep(b, c, d) == dep(after(b, t), c, d),
    decreases t.len(),
{
    lemma_lawful(b);
    if t.len() > 0 {
        lemma_uncons(t);
        assert(steady(b, c, d, t[0]));
        lemma_pass_apart(step(b, t[0]), t.drop_first(), c, d);
    }
}

/// Whether `d` passes does not depend on an independent step `c` that passes.
proof fn lemma_pass_past(b: Beh, t: Word, c: ProcessID, d: ProcessID)
    requires
        lawful(b),
        ok(b, t),
        c != d,
        passes(b, t, c),
        en(after(b, t), c),
        en(after(b, t), d),
        !dep(after(b, t), c, d),
    ensures
        passes(step(b, c), t, d) <==> passes(b, t, d),
    decreases t.len(),
{
    lemma_lawful(b);
    assert(commutes(b, c, d) && commutes(b, d, c));
    if passes(b, t, d) {
        lemma_pass_apart(b, t, c, d);
        lemma_wi_step(b, t, c, d);
        lemma_rem(t, c);
    }
    if passes(step(b, c), t, d) {
        if t.len() > 0 {
            let x = t[0];
            lemma_uncons(t);
            assert(commutes(b, c, x) && commutes(b, x, c));
            assert(passes(step(b, x), t.drop_first(), c));
            assert(step(step(b, c), x) == step(step(b, x), c));
            assert(passes(step(step(b, x), c), t.drop_first(), d));
            lemma_pass_past(step(b, x), t.drop_first(), c, d);
            assert(stable(b, c, x, d));
            assert(en(b, d));
            assert(steady(b, d, x, c));
        }
    }
}

/// What is kept, and whether there is a race, depends on the class of the delayed steps alone.
proof fn lemma_delayed_class(b: Beh, t1: Word, t2: Word, u: Word)
    requires
        lawful(b),
        ok(b, t1),
        ok(b, t2),
        eqv(b, t1, t2),
        ok(after(b, t2), u),
    ensures
        kept(b, t1, u) == kept(b, t2, u),
    decreases u.len(),
{
    lemma_eqv_ok(b, t1, t2);
    if u.len() > 0 {
        let e = u[0];
        let v = u.drop_first();
        lemma_uncons(u);
        lemma_eqv_wi(b, t1, t2, e);
        lemma_after_push(b, t2, e);
        lemma_delay(b, t1, e, v);
        lemma_delay(b, t2, e, v);
        assert(t1 + seq![e] =~= t1.push(e));
        assert(t2 + seq![e] =~= t2.push(e));
        lemma_eqv_grow(b, t1, t2, seq![e]);
        if passes(b, t2, e) {
            lemma_pass(b, t1, e, v);
            lemma_pass(b, t2, e, v);
            lemma_pass_class(b, t1, t2, e);
            lemma_delayed_class(step(b, e), t1, t2, v);
        } else {
            lemma_delayed_class(b, t1.push(e), t2.push(e), v);
        }
    }
}

/// Delayed steps of one class stay so when a step has passed them.
proof fn lemma_pass_class(b: Beh, t1: Word, t2: Word, e: ProcessID)
    requires
        lawful(b),
        ok(b, t1),
        ok(b, t2),
        ok(b, t2.push(e)),
        eqv(b, t1, t2),
        passes(b, t1, e),
    ensures
        eqv(step(b, e), t1, t2),
{
    lemma_lawful(b);
    assert(t1 + seq![e] =~= t1.push(e));
    assert(t2 + seq![e] =~= t2.push(e));
    lemma_eqv_grow(b, t1, t2, seq![e]);
    lemma_eqv_ok(b, t1, t2);
    lemma_after_push(b, t1, e);
    lemma_after_push(b, t2, e);
    lemma_ok_rem(b, t1, e);
    lemma_rem(t1, e);
    lemma_wi_push(b, t1, e, e);
    assert(t1.push(e)[t1.len() as int] == e);
    lemma_eqv_rem(b, t1.push(e), t2.push(e), e);
    lemma_rem_last(t1, e);
    lemma_rem_last(t2, e);
}

/// Removing the last step, when it is the only one of its process.
pub proof fn lemma_rem_last(t: Word, e: ProcessID)
    requires
        !t.contains(e),
    ensures
        rem(t.push(e), e) == t,
    decreases t.len(),
{
    if t.len() > 0 {
        lemma_uncons(t);
        assert(t.push(e).drop_first() =~= t.drop_first().push(e));
        lemma_rem_last(t.drop_first(), e);
        assert(seq![t[0]] + t.drop_first() =~= t);
    } else {
        assert(t.push(e).drop_first() =~= t);
    }
}

/// Two independent steps in a row, in either order, are of one class.
proof fn lemma_eqv_swap(b: Beh, c: ProcessID, d: ProcessID, z: Word)
    requires
        lawful(b),
        c != d,
        en(b, c),
        en(b, d),
        !dep(b, c, d),
        ok(step(step(b, c), d), z),
    ensures
        eqv(b, seq![c, d] + z, seq![d, c] + z),
        ok(b, seq![c, d] + z),
        ok(b, seq![d, c] + z),
{
    lemma_lawful(b);
    assert(commutes(b, c, d) && commutes(b, d, c));
    let l = seq![c, d] + z;
    let r = seq![d, c] + z;
    assert(l.drop_first() =~= seq![d] + z);
    assert(r.drop_first() =~= seq![c] + z);
    assert((seq![d] + z).drop_first() =~= z);
    assert((seq![c] + z).drop_first() =~= z);
    assert(r[0] == d && r[1] == c);
    assert(r.contains(c));
    assert(wi(step(b, d), seq![c] + z, c));
    assert(r =~= seq![d] + (seq![c] + z));
    lemma_rem_cons(d, seq![c] + z, c);
    lemma_rem_cons(c, z, c);
    assert(rem(r, c) =~= seq![d] + z);
    assert(ok(step(b, c), seq![d] + z));
    assert(ok(step(b, d), seq![c] + z));
    lemma_eqv_refl(step(b, c), seq![d] + z);
}

/// How a schedule is split at its first step.
proof fn lemma_kept_cons(b: Beh, t: Word, e: ProcessID, u: Word)
    ensures
        passes(b, t, e) ==> kept(b, t, seq![e] + u) == seq![e] + kept(step(b, e), t, u),
        !passes(b, t, e) ==> kept(b, t, seq![e] + u) == kept(b, t.push(e), u),
{
    assert((seq![e] + u)[0] == e);
    assert((seq![e] + u).drop_first() =~= u);
}

/// What is kept of two schedules that differ in the order of their first two, independent steps.
#[verifier::rlimit(40)]
proof fn lemma_kept_swap(b: Beh, t: Word, c: ProcessID, d: ProcessID, z: Word)
    requires
        lawful(b),
        ok(b, t),
        c != d,
        en(after(b, t), c),
        en(after(b, t), d),
        !dep(after(b, t), c, d),
        ok(step(step(after(b, t), c), d), z),
    ensures
        eqv(b, kept(b, t, seq![c, d] + z), kept(b, t, seq![d, c] + z)),
        ok(b, kept(b, t, seq![c, d] + z)),
        ok(b, kept(b, t, seq![d, c] + z)),
{
    let e = after(b, t);
    lemma_lawful(b);
    lemma_lawful_after(b, t);
    lemma_lawful(e);
    assert(commutes(e, c, d) && commutes(e, d, c));
    let l = seq![c, d] + z;
    let r = seq![d, c] + z;
    let ld = seq![d] + z;
    let rc = seq![c] + z;
    assert(l.drop_first() =~= ld);
    assert(r.drop_first() =~= rc);
    assert(ld.drop_first() =~= z);
    assert(rc.drop_first() =~= z);
    lemma_eqv_swap(e, c, d, z);
    assert(l =~= seq![c] + ld);
    assert(r =~= seq![d] + rc);
    lemma_kept_ok(b, t, l);
    lemma_kept_ok(b, t, r);
    lemma_kept_cons(b, t, c, ld);
    lemma_kept_cons(b, t, d, rc);
    lemma_kept_cons(step(b, c), t, d, z);
    lemma_kept_cons(step(b, d), t, c, z);
    lemma_kept_cons(b, t.push(c), d, z);
    lemma_kept_cons(b, t.push(d), c, z);
    if passes(b, t, c) {
        lemma_pass(b, t, c, ld);
        lemma_pass_past(b, t, c, d);
        if passes(b, t, d) {
            lemma_pass(b, t, d, rc);
            lemma_pass_past(b, t, d, c);
            lemma_pass_apart(b, t, c, d);
            assert(commutes(b, c, d) && commutes(b, d, c));
            lemma_pass(step(b, c), t, d, z);
            let k = kept(step(step(b, c), d), t, z);
            lemma_kept_ok(step(step(b, c), d), t, z);
            lemma_eqv_swap(b, c, d, k);
            assert(seq![c] + (seq![d] + k) =~= seq![c, d] + k);
            assert(seq![d] + (seq![c] + k) =~= seq![d, c] + k);
        } else {
            lemma_delay(b, t, d, rc);
            lemma_wi_push(b, t, d, c);
            lemma_push_passes(t, d, c);
            assert(passes(b, t.push(d), c));
            assert(kept(b, t, l) == seq![c] + kept(step(b, c), t.push(d), z));
            assert(kept(b, t, r) == kept(b, t.push(d), rc));
            lemma_eqv_refl(b, kept(b, t, l));
        }
    } else if passes(b, t, d) {
        lemma_pass(b, t, d, rc);
        lemma_pass_past(b, t, d, c);
        lemma_delay(b, t, c, ld);
        lemma_wi_push(b, t, c, d);
        lemma_push_passes(t, c, d);
        assert(passes(b, t.push(c), d));
        assert(kept(b, t, r) == seq![d] + kept(step(b, d), t.push(c), z));
        assert(kept(b, t, l) == kept(b, t.push(c), ld));
        lemma_eqv_refl(b, kept(b, t, l));
    } else {
        lemma_delay(b, t, c, ld);
        lemma_delay(b, t, d, rc);
        lemma_push_passes(t, c, d);
        lemma_push_passes(t, d, c);
        if !t.contains(d) {
            lemma_wi_push(b, t, c, d);
        }
        if !t.contains(c) {
            lemma_wi_push(b, t, d, c);
        }
        let t1 = t.push(c).push(d);
        let t2 = t.push(d).push(c);
        lemma_delay(b, t.push(c), d, z);
        lemma_delay(b, t.push(d), c, z);
        assert(t1 =~= t + (seq![c, d] + Seq::<ProcessID>::empty()));
        assert(t2 =~= t + (seq![d, c] + Seq::<ProcessID>::empty()));
        lemma_eqv_swap(e, c, d, Seq::empty());
        lemma_eqv_prefix(
            b,
            t,
            seq![c, d] + Seq::<ProcessID>::empty(),
            seq![d, c] + Seq::<ProcessID>::empty(),
        );
        lemma_delayed_class(b, t1, t2, z);
        assert(kept(b, t, l) == kept(b, t1, z));
        assert(kept(b, t, r) == kept(b, t2, z));
        lemma_eqv_refl(b, kept(b, t, l));
    }
}

/// Whether a word with one more step at the end holds a process.
proof fn lemma_push_passes(t: Word, d: ProcessID, e: ProcessID)
    ensures
        t.push(d).contains(e) <==> t.contains(e) || d == e,
{
    assert(t.push(d)[t.len() as int] == d);
    if t.contains(e) {
        let i = choose|i: int| 0 <= i < t.len() && t[i] == e;
        assert(t.push(d)[i] == e);
    }
    if t.push(d).contains(e) {
        let i = choose|i: int| 0 <= i < t.push(d).len() && t.push(d)[i] == e;
        if i < t.len() {
            assert(t[i] == e);
        }
    }
}

/// How a race is found at the first step.
proof fn lemma_racy_cons(b: Beh, t: Word, e: ProcessID, u: Word, p: ProcessID)
    ensures
        passes(b, t, e) ==> racy(b, t, seq![e] + u, p) == racy(step(b, e), t, u, p),
        !passes(b, t, e) && e == p ==> racy(b, t, seq![e] + u, p) == passes(
            step(b, t[0]),
            t.drop_first(),
            p,
        ),
        !passes(b, t, e) && e != p ==> racy(b, t, seq![e] + u, p) == racy(b, t.push(e), u, p),
{
    assert((seq![e] + u)[0] == e);
    assert((seq![e] + u).drop_first() =~= u);
}

/// Whether there is a race depends on the class of the steps delayed behind the first.
proof fn lemma_racy_class(b: Beh, r: ProcessID, t1: Word, t2: Word, u: Word, p: ProcessID)
    requires
        lawful(b),
        en(b, r),
        ok(step(b, r), t1),
        ok(step(b, r), t2),
        eqv(step(b, r), t1, t2),
        ok(after(step(b, r), t2), u),
    ensures
        racy(b, seq![r] + t1, u, p) == racy(b, seq![r] + t2, u, p),
    decreases u.len(),
{
    let w1 = seq![r] + t1;
    let w2 = seq![r] + t2;
    assert(w1.drop_first() =~= t1);
    assert(w2.drop_first() =~= t2);
    lemma_lawful(b);
    let c = step(b, r);
    lemma_eqv_ok(c, t1, t2);
    assert(ok(b, w1) && ok(b, w2));
    assert(after(b, w1) == after(c, t1));
    assert(after(b, w2) == after(c, t2));
    assert(eqv(b, w1, w2)) by {
        assert(w2[0] == r);
        assert(w2.contains(r));
        lemma_rem_cons(r, t2, r);
    }
    lemma_eqv_ok(b, w1, w2);
    if u.len() > 0 {
        let e = u[0];
        let v = u.drop_first();
        lemma_uncons(u);
        lemma_eqv_wi(b, w1, w2, e);
        lemma_delay(c, t1, e, v);
        lemma_delay(c, t2, e, v);
        lemma_delay(b, w1, e, v);
        lemma_delay(b, w2, e, v);
        if passes(b, w2, e) {
            lemma_pass(b, w1, e, v);
            lemma_pass(b, w2, e, v);
            lemma_pass_class(b, w1, w2, e);
            assert(commutes(b, r, e) && commutes(b, e, r)) by {
                assert(r != e);
            }
            let d = step(b, e);
            assert(ok(d, w1) && ok(d, w2));
            assert(eqv(step(d, r), t1, t2)) by {
                lemma_rem_cons(r, t2, r);
            }
            assert(after(d, w2) == after(step(d, r), t2));
            lemma_racy_class(d, r, t1, t2, v, p);
        } else if e == p {
            lemma_eqv_wi(c, t1, t2, p);
        } else {
            assert(w1.push(e) =~= seq![r] + t1.push(e));
            assert(w2.push(e) =~= seq![r] + t2.push(e));
            assert(t1 + seq![e] =~= t1.push(e));
            assert(t2 + seq![e] =~= t2.push(e));
            lemma_eqv_grow(c, t1, t2, seq![e]);
            lemma_racy_class(b, r, t1.push(e), t2.push(e), v, p);
        }
    }
}

/// A race does not depend on the order of two independent first steps.
#[verifier::rlimit(60)]
proof fn lemma_racy_swap(
    b: Beh,
    r: ProcessID,
    t: Word,
    c: ProcessID,
    d: ProcessID,
    z: Word,
    p: ProcessID,
)
    requires
        lawful(b),
        en(b, r),
        ok(step(b, r), t),
        c != d,
        en(after(step(b, r), t), c),
        en(after(step(b, r), t), d),
        !dep(after(step(b, r), t), c, d),
        ok(step(step(after(step(b, r), t), c), d), z),
    ensures
        racy(b, seq![r] + t, seq![c, d] + z, p) == racy(b, seq![r] + t, seq![d, c] + z, p),
{
    let w = seq![r] + t;
    let s = step(b, r);
    let e = after(s, t);
    assert(w.drop_first() =~= t);
    lemma_lawful(b);
    assert(ok(b, w) && after(b, w) == e);
    lemma_lawful_after(b, w);
    lemma_lawful(e);
    assert(commutes(e, c, d) && commutes(e, d, c));
    let ld = seq![d] + z;
    let rc = seq![c] + z;
    lemma_eqv_swap(e, c, d, z);
    assert(seq![c, d] + z =~= seq![c] + ld);
    assert(seq![d, c] + z =~= seq![d] + rc);
    lemma_racy_cons(b, w, c, ld, p);
    lemma_racy_cons(b, w, d, rc, p);
    lemma_racy_cons(step(b, c), w, d, z, p);
    lemma_racy_cons(step(b, d), w, c, z, p);
    lemma_racy_cons(b, w.push(c), d, z, p);
    lemma_racy_cons(b, w.push(d), c, z, p);
    assert(w[0] == r);
    if passes(b, w, c) {
        lemma_pass(b, w, c, ld);
        lemma_pass_past(b, w, c, d);
        if passes(b, w, d) {
            lemma_pass(b, w, d, rc);
            lemma_pass_past(b, w, d, c);
            lemma_pass_apart(b, w, c, d);
            assert(commutes(b, c, d) && commutes(b, d, c));
        } else {
            lemma_wi_push(b, w, d, c);
            lemma_push_passes(w, d, c);
            assert(passes(b, w.push(d), c));
            lemma_race_past(b, r, t, c, d);
        }
    } else if passes(b, w, d) {
        lemma_pass(b, w, d, rc);
        lemma_pass_past(b, w, d, c);
        lemma_wi_push(b, w, c, d);
        lemma_push_passes(w, c, d);
        assert(passes(b, w.push(c), d));
        lemma_race_past(b, r, t, d, c);
    } else {
        lemma_push_passes(w, c, d);
        lemma_push_passes(w, d, c);
        if !w.contains(d) {
            lemma_wi_push(b, w, c, d);
        }
        if !w.contains(c) {
            lemma_wi_push(b, w, d, c);
        }
        assert(!passes(b, w.push(c), d));
        assert(!passes(b, w.push(d), c));
        assert(w.push(c).drop_first() =~= t.push(c));
        assert(w.push(d).drop_first() =~= t.push(d));
        lemma_push_passes(t, c, d);
        lemma_push_passes(t, d, c);
        lemma_cons_contains(r, t);
        if !t.contains(c) {
            lemma_wi_push(s, t, d, c);
        }
        if !t.contains(d) {
            lemma_wi_push(s, t, c, d);
        }
        let t1 = t.push(c).push(d);
        let t2 = t.push(d).push(c);
        lemma_delay(s, t, c, ld);
        lemma_delay(s, t, d, rc);
        lemma_delay(s, t.push(c), d, z);
        lemma_delay(s, t.push(d), c, z);
        assert(w.push(c).push(d) =~= seq![r] + t1);
        assert(w.push(d).push(c) =~= seq![r] + t2);
        assert(t1 =~= t + (seq![c, d] + Seq::<ProcessID>::empty()));
        assert(t2 =~= t + (seq![d, c] + Seq::<ProcessID>::empty()));
        lemma_eqv_swap(e, c, d, Seq::empty());
        lemma_eqv_prefix(
            s,
            t,
            seq![c, d] + Seq::<ProcessID>::empty(),
            seq![d, c] + Seq::<ProcessID>::empty(),
        );
        lemma_racy_class(b, r, t1, t2, z, p);
    }
}

/// Whether `d` passes what is delayed behind `r` does not depend on an independent step `c` that
/// passes all.
proof fn lemma_race_past(b: Beh, r: ProcessID, t: Word, c: ProcessID, d: ProcessID)
    requires
        lawful(b),
        en(b, r),
        ok(step(b, r), t),
        c != d,
        passes(b, seq![r] + t, c),
        en(after(step(b, r), t), c),
        en(after(step(b, r), t), d),
        !dep(after(step(b, r), t), c, d),
    ensures
        passes(step(step(b, c), r), t, d) <==> passes(step(b, r), t, d),
{
    let w = seq![r] + t;
    assert(w.drop_first() =~= t);
    assert(w[0] == r);
    assert(w.contains(r));
    lemma_cons_contains(r, t);
    lemma_lawful(b);
    assert(commutes(b, r, c) && commutes(b, c, r));
    assert(passes(step(b, r), t, c));
    lemma_pass_past(step(b, r), t, c, d);
}

/// What is kept does not change when a weak initial's step is moved to the front.
proof fn lemma_kept_front(b: Beh, t: Word, v: Word, a: ProcessID)
    requires
        lawful(b),
        ok(b, t),
        ok(after(b, t), v),
        wi(after(b, t), v, a),
        v.contains(a),
    ensures
        eqv(b, kept(b, t, seq![a] + rem(v, a)), kept(b, t, v)),
    decreases v.len(),
{
    let e = after(b, t);
    lemma_lawful(b);
    lemma_lawful_after(b, t);
    lemma_lawful(e);
    lemma_uncons(v);
    lemma_kept_ok(b, t, v);
    let c = v[0];
    let y = v.drop_first();
    if c == a {
        assert(seq![a] + rem(v, a) =~= v);
        lemma_eqv_refl(b, kept(b, t, v));
    } else {
        let z = rem(y, a);
        lemma_rem_cons(c, y, a);
        assert(commutes(e, a, c) && commutes(e, c, a));
        lemma_ok_rem(step(e, c), y, a);
        assert(seq![a] + rem(v, a) =~= seq![a, c] + z);
        assert(step(step(e, c), a) == step(step(e, a), c));
        lemma_kept_swap(b, t, c, a, z);
        lemma_kept_swap(b, t, a, c, z);
        let az = seq![a] + z;
        assert(seq![c, a] + z =~= seq![c] + az);
        lemma_kept_cons(b, t, c, y);
        lemma_kept_cons(b, t, c, az);
        if passes(b, t, c) {
            lemma_pass(b, t, c, y);
            lemma_kept_front(step(b, c), t, y, a);
            lemma_one(b, c);
            lemma_eqv_prefix(b, seq![c], kept(step(b, c), t, az), kept(step(b, c), t, y));
        } else {
            lemma_delay(b, t, c, y);
            lemma_kept_front(b, t.push(c), y, a);
        }
        lemma_eqv_trans(
            b,
            kept(b, t, seq![a, c] + z),
            kept(b, t, seq![c, a] + z),
            kept(b, t, v),
        );
    }
}

/// A schedule of one step.
pub proof fn lemma_one(b: Beh, c: ProcessID)
    ensures
        ok(b, seq![c]) == en(b, c),
        after(b, seq![c]) == step(b, c),
{
    assert(seq![c].drop_first() =~= Seq::<ProcessID>::empty());
    assert(after(step(b, c), Seq::empty()) == step(b, c));
    assert(ok(step(b, c), Seq::empty()));
    assert(after(b, seq![c]) == after(step(b, c), seq![c].drop_first()));
}

/// What is kept of schedules of one class is of one class.
proof fn lemma_kept_eqv(b: Beh, t: Word, u: Word, v: Word)
    requires
        lawful(b),
        ok(b, t),
        ok(after(b, t), v),
        eqv(after(b, t), u, v),
    ensures
        eqv(b, kept(b, t, u), kept(b, t, v)),
    decreases u.len(),
{
    let e = after(b, t);
    lemma_lawful_after(b, t);
    lemma_lawful(e);
    lemma_kept_ok(b, t, v);
    if u.len() == 0 {
        assert(u =~= v);
        lemma_eqv_refl(b, kept(b, t, v));
    } else {
        let a = u[0];
        let y = u.drop_first();
        let z = rem(v, a);
        lemma_uncons(u);
        lemma_ok_rem(e, v, a);
        lemma_kept_front(b, t, v, a);
        let az = seq![a] + z;
        assert(az.drop_first() =~= z);
        assert(ok(e, az));
        lemma_eqv_ok(step(e, a), y, z);
        assert(ok(e, u));
        lemma_kept_cons(b, t, a, y);
        lemma_kept_cons(b, t, a, z);
        if passes(b, t, a) {
            lemma_pass(b, t, a, y);
            lemma_pass(b, t, a, z);
            lemma_kept_eqv(step(b, a), t, y, z);
            lemma_one(b, a);
            lemma_eqv_prefix(b, seq![a], kept(step(b, a), t, y), kept(step(b, a), t, z));
        } else {
            lemma_delay(b, t, a, y);
            lemma_delay(b, t, a, z);
            lemma_kept_eqv(b, t.push(a), y, z);
        }
        lemma_eqv_trans(b, kept(b, t, u), kept(b, t, az), kept(b, t, v));
    }
}

/// A race does not depend on a weak initial's step being moved to the front.
proof fn lemma_racy_front(
    b: Beh,
    r: ProcessID,
    t: Word,
    v: Word,
    a: ProcessID,
    p: ProcessID,
)
    requires
        lawful(b),
        en(b, r),
        ok(step(b, r), t),
        ok(after(step(b, r), t), v),
        wi(after(step(b, r), t), v, a),
        v.contains(a),
    ensures
        racy(b, seq![r] + t, seq![a] + rem(v, a), p) == racy(b, seq![r] + t, v, p),
    decreases v.len(),
{
    let w = seq![r] + t;
    let s = step(b, r);
    let e = after(s, t);
    lemma_lawful(b);
    lemma_lawful_after(s, t);
    lemma_lawful(e);
    assert(w.drop_first() =~= t);
    assert(ok(b, w) && after(b, w) == e);
    lemma_uncons(v);
    let c = v[0];
    let y = v.drop_first();
    if c == a {
        assert(seq![a] + rem(v, a) =~= v);
    } else {
        let z = rem(y, a);
        lemma_rem_cons(c, y, a);
        assert(commutes(e, a, c) && commutes(e, c, a));
        lemma_ok_rem(step(e, c), y, a);
        assert(seq![a] + rem(v, a) =~= seq![a, c] + z);
        lemma_racy_swap(b, r, t, c, a, z, p);
        let az = seq![a] + z;
        assert(seq![c, a] + z =~= seq![c] + az);
        lemma_racy_cons(b, w, c, y, p);
        lemma_racy_cons(b, w, c, az, p);
        if passes(b, w, c) {
            lemma_pass(b, w, c, y);
            lemma_cons_contains(r, t);
            assert(commutes(b, c, r) && commutes(b, r, c)) by {
                assert(w.contains(r)) by {
                    assert(w[0] == r);
                }
            }
            assert(after(step(b, c), w) == after(step(step(b, c), r), t));
            assert(ok(step(step(b, c), r), t));
            lemma_racy_front(step(b, c), r, t, y, a, p);
        } else if c != p {
            lemma_delay(b, w, c, y);
            lemma_delay(s, t, c, y);
            assert(w.push(c) =~= seq![r] + t.push(c));
            lemma_racy_front(b, r, t.push(c), y, a, p);
        }
    }
}

/// Schedules of one class have the same races with the first step.
proof fn lemma_racy_eqv(b: Beh, r: ProcessID, t: Word, u: Word, v: Word, p: ProcessID)
    requires
        lawful(b),
        en(b, r),
        ok(step(b, r), t),
        ok(after(step(b, r), t), v),
        eqv(after(step(b, r), t), u, v),
    ensures
        racy(b, seq![r] + t, u, p) == racy(b, seq![r] + t, v, p),
    decreases u.len(),
{
    let w = seq![r] + t;
    let s = step(b, r);
    let e = after(s, t);
    lemma_lawful(b);
    lemma_lawful_after(s, t);
    lemma_lawful(e);
    assert(w.drop_first() =~= t);
    assert(ok(b, w) && after(b, w) == e);
    if u.len() == 0 {
        assert(u =~= v);
    } else {
        let a = u[0];
        let y = u.drop_first();
        let z = rem(v, a);
        lemma_uncons(u);
        lemma_ok_rem(e, v, a);
        lemma_racy_front(b, r, t, v, a, p);
        let az = seq![a] + z;
        assert(az.drop_first() =~= z);
        lemma_eqv_ok(step(e, a), y, z);
        lemma_racy_cons(b, w, a, y, p);
        lemma_racy_cons(b, w, a, z, p);
        if passes(b, w, a) {
            lemma_pass(b, w, a, z);
            assert(w.contains(r)) by {
                assert(w[0] == r);
            }
            assert(commutes(b, a, r) && commutes(b, r, a));
            assert(after(step(b, a), w) == after(step(step(b, a), r), t));
            assert(ok(step(step(b, a), r), t));
            lemma_racy_eqv(step(b, a), r, t, y, z, p);
        } else if a != p {
            lemma_delay(b, w, a, z);
            lemma_delay(s, t, a, z);
            assert(w.push(a) =~= seq![r] + t.push(a));
            lemma_racy_eqv(b, r, t.push(a), y, z, p);
        }
    }
}

/// A start that is independent of `r` is kept whole.
proof fn lemma_kept_start(b: Beh, r: ProcessID, u: Word, z: Word, p: ProcessID)
    requires
        lawful(b),
        ok(b, u),
        passes(b, u, r),
        ok(after(step(b, r), u), z),
    ensures
        en(b, r),
        ok(step(b, r), u),
        kept(b, seq![r], u + z) == u + kept(after(b, u), seq![r], z),
        racy(b, seq![r], u + z, p) == racy(after(b, u), seq![r], z, p),
        after(step(b, r), u) == step(after(b, u), r),
    decreases u.len(),
{
    lemma_lawful(b);
    lemma_ok_rem(b, u, r);
    lemma_rem(u, r);
    if u.len() == 0 {
        assert(u + z =~= z);
        assert(u + kept(after(b, u), seq![r], z) =~= kept(b, seq![r], z));
    } else {
        let c = u[0];
        let y = u.drop_first();
        lemma_uncons(u);
        assert(commutes(b, c, r) && commutes(b, r, c));
        lemma_kept_start(step(b, c), r, y, z, p);
        assert(u + z =~= seq![c] + (y + z));
        lemma_kept_cons(b, seq![r], c, y + z);
        lemma_racy_cons(b, seq![r], c, y + z, p);
        assert(passes(b, seq![r], c)) by {
            assert(seq![r].drop_first() =~= Seq::<ProcessID>::empty());
            assert(wi(step(b, r), Seq::empty(), c) == en(step(b, r), c));
            assert(!seq![r].contains(c));
        }
        assert(u + kept(after(b, u), seq![r], z) =~= seq![c] + (y + kept(
            after(b, u),
            seq![r],
            z,
        )));
    }
}

/// What is kept behind delayed steps that start with `r` and `p` is independent of `p`.
proof fn lemma_kept_apart(b: Beh, r: ProcessID, p: ProcessID, t: Word, u: Word)
    requires
        lawful(b),
        r != p,
        en(b, r),
        en(b, p),
        ok(b, seq![r, p] + t),
        ok(after(b, seq![r, p] + t), u),
    ensures
        passes(b, kept(b, seq![r, p] + t, u), p),
    decreases u.len(),
{
    let w = seq![r, p] + t;
    lemma_lawful(b);
    assert(commutes(b, p, r) && commutes(b, r, p));
    assert(w[0] == r && w[1] == p);
    assert(w.contains(r) && w.contains(p));
    if u.len() > 0 {
        let e = u[0];
        let v = u.drop_first();
        lemma_uncons(u);
        if passes(b, w, e) {
            lemma_pass(b, w, e, v);
            assert(commutes(b, e, r) && commutes(b, r, e));
            assert(commutes(b, e, p) && commutes(b, p, e));
            let x = w.drop_first();
            assert(x[0] == p);
            assert(wi(step(b, r), x, e));
            assert(!dep(step(b, r), e, p));
            assert(steady(b, e, p, r));
            assert(steady(b, p, e, r));
            lemma_kept_apart(step(b, e), r, p, t, v);
            let k = kept(step(b, e), w, v);
            assert((seq![e] + k).drop_first() =~= k);
            lemma_cons_contains(e, k);
        } else {
            lemma_delay(b, w, e, v);
            assert(w.push(e) =~= seq![r, p] + t.push(e));
            lemma_kept_apart(b, r, p, t.push(e), v);
        }
    }
}

/// The race lemma. Let `u` be independent of `r` and let `p` conflict with `r` behind it. Then
/// every complete schedule of the class of `r`, `u`, `p`, `z` has a race of `r` with `p`, and
/// what is kept of it, followed by `p`, is a schedule of a class that starts with `u` and `p`.
pub proof fn lemma_race(b: Beh, r: ProcessID, u: Word, p: ProcessID, z: Word, x: Word)
    requires
        lawful(b),
        ok(b, u),
        passes(b, u, r),
        p != r,
        en(after(b, u), p),
        dep(after(b, u), r, p),
        ok(step(b, r), u.push(p) + z),
        ok(step(b, r), x),
        eqv(step(b, r), x, u.push(p) + z),
    ensures
        racy(b, seq![r], x, p),
        ok(b, kept(b, seq![r], x).push(p)),
        starts(b, u.push(p), kept(b, seq![r], x).push(p)),
{
    lemma_lawful(b);
    lemma_one(b, r);
    let c = step(b, r);
    let pz = seq![p] + z;
    let y = u.push(p) + z;
    assert(y =~= u + pz);
    lemma_after_concat(c, u, pz);
    lemma_kept_start(b, r, u, pz, p);
    let bu = after(b, u);
    lemma_lawful_after(b, u);
    lemma_lawful(bu);
    assert(en(bu, r)) by {
        lemma_ok_rem(b, u, r);
    }
    assert(commutes(bu, r, p) && commutes(bu, p, r));
    lemma_one(bu, r);
    lemma_kept_cons(bu, seq![r], p, z);
    lemma_racy_cons(bu, seq![r], p, z, p);
    assert(!passes(bu, seq![r], p));
    assert(seq![r].drop_first() =~= Seq::<ProcessID>::empty());
    assert(passes(step(bu, r), Seq::empty(), p));
    assert(racy(b, seq![r], y, p));
    assert(seq![r] + Seq::<ProcessID>::empty() =~= seq![r]);
    assert(after(c, Seq::empty()) == c);
    assert(ok(c, Seq::empty()));
    lemma_racy_eqv(b, r, Seq::empty(), x, y, p);
    lemma_kept_eqv(b, seq![r], x, y);
    let t = seq![r].push(p);
    assert(t =~= seq![r, p] + Seq::<ProcessID>::empty());
    assert(pz.drop_first() =~= z);
    lemma_delay(bu, seq![r], p, z);
    let k = kept(bu, t, z);
    lemma_kept_ok(bu, t, z);
    lemma_kept_apart(bu, r, p, Seq::empty(), z);
    assert(kept(b, seq![r], y) == u + k);
    // after u, the step of p can be moved before all that is kept
    lemma_ok_rem(bu, k, p);
    lemma_rem(k, p);
    lemma_after_push(bu, k, p);
    lemma_wi_push(bu, k, p, p);
    assert(k.push(p)[k.len() as int] == p);
    lemma_eqv_front(bu, k.push(p), p);
    lemma_rem_last(k, p);
    lemma_eqv_prefix(b, u, seq![p] + k, k.push(p));
    let kx = kept(b, seq![r], x);
    lemma_kept_ok(b, seq![r], x);
    lemma_kept_ok(b, seq![r], y);
    lemma_eqv_ok(b, kx, u + k);
    lemma_after_push(b, kx, p);
    lemma_after_push(b, u + k, p);
    lemma_after_concat(b, u, k);
    assert((u + k) + seq![p] =~= (u + k).push(p));
    assert(kx + seq![p] =~= kx.push(p));
    assert(u + k.push(p) =~= (u + k).push(p));
    lemma_eqv_grow(b, kx, u + k, seq![p]);
    lemma_eqv_sym(b, kx.push(p), (u + k).push(p));
    lemma_after_concat(b, u, seq![p] + k);
    lemma_eqv_trans(b, u + (seq![p] + k), (u + k).push(p), kx.push(p));
    assert(u + (seq![p] + k) =~= u.push(p) + k);
    assert(eqv(b, u.push(p) + k, kx.push(p)));
}

} // verus!
