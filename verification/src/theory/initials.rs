//! Weak initials: the processes that can move to the front of a schedule.

use vstd::prelude::*;

use crate::model::process::ProcessID;
use crate::theory::behaviour::{
    after, commutes, dep, en, fails, lawful, lemma_lawful, ok, steady, step, unfailing, Beh, Word,
};

verus! {

/// `q` is a weak initial of `w`: walking `w`, `q` comes up before any step that conflicts with
/// its own, or no step does.
pub open spec fn wi(b: Beh, w: Word, q: ProcessID) -> bool
    decreases w.len(),
{
    en(b, q) && (w.len() == 0 || w[0] == q || !dep(b, q, w[0]) && wi(
        step(b, w[0]),
        w.drop_first(),
        q,
    ))
}

/// `w` without its first `q`.
pub open spec fn rem(w: Word, q: ProcessID) -> Word
    decreases w.len(),
{
    if w.len() == 0 {
        w
    } else if w[0] == q {
        w.drop_first()
    } else {
        seq![w[0]] + rem(w.drop_first(), q)
    }
}

/// Two schedules of one class: the first's steps can be moved to the front of the second one
/// by one, in their order.
pub open spec fn eqv(b: Beh, u: Word, v: Word) -> bool
    decreases u.len(),
{
    if u.len() == 0 {
        v.len() == 0
    } else {
        v.contains(u[0]) && wi(b, v, u[0]) && eqv(
            step(b, u[0]),
            u.drop_first(),
            rem(v, u[0]),
        )
    }
}

/// `a` starts a schedule of the class of `v`.
pub open spec fn starts(b: Beh, a: Word, v: Word) -> bool {
    exists|y: Word| #[trigger] eqv(b, a + y, v)
}

/// What removing the first `q` does to a word.
pub proof fn lemma_rem(w: Word, q: ProcessID)
    ensures
        w.contains(q) ==> rem(w, q).len() == w.len() - 1,
        !w.contains(q) ==> rem(w, q) == w,
        forall|x: ProcessID| x != q ==> (#[trigger] rem(w, q).contains(x) <==> w.contains(x)),
    decreases w.len(),
{
    if w.len() > 0 {
        let t = w.drop_first();
        lemma_rem(t, q);
        assert(w =~= seq![w[0]] + t);
        lemma_cons_contains(w[0], t);
        if w[0] == q {
            assert(w.contains(w[0]));
        } else {
            lemma_cons_contains(w[0], rem(t, q));
            if !t.contains(q) {
                assert(rem(w, q) =~= w);
            }
        }
    }
}

/// What a word with one more step in front holds.
pub proof fn lemma_cons_contains(p: ProcessID, w: Word)
    ensures
        forall|x: ProcessID| #[trigger]
            (seq![p] + w).contains(x) <==> x == p || w.contains(x),
{
    let s = seq![p] + w;
    assert forall|x: ProcessID| #[trigger] s.contains(x) <==> x == p || w.contains(x) by {
        assert(s[0] == p);
        if w.contains(x) {
            let i = choose|i: int| 0 <= i < w.len() && w[i] == x;
            assert(s[i + 1] == x);
        }
        if s.contains(x) {
            let i = choose|i: int| 0 <= i < s.len() && s[i] == x;
            if i > 0 {
                assert(w[i - 1] == x);
            }
        }
    }
}

/// Steps are removed in either order.
pub proof fn lemma_rem_comm(w: Word, a: ProcessID, q: ProcessID)
    requires
        a != q,
    ensures
        rem(rem(w, a), q) == rem(rem(w, q), a),
    decreases w.len(),
{
    if w.len() > 0 {
        let t = w.drop_first();
        lemma_rem_comm(t, a, q);
        let ta = seq![w[0]] + rem(t, a);
        let tq = seq![w[0]] + rem(t, q);
        assert(ta.drop_first() =~= rem(t, a));
        assert(tq.drop_first() =~= rem(t, q));
    }
}

/// Removing a step from a word that starts with another one.
pub proof fn lemma_rem_cons(p: ProcessID, w: Word, q: ProcessID)
    ensures
        p == q ==> rem(seq![p] + w, q) == w,
        p != q ==> rem(seq![p] + w, q) == seq![p] + rem(w, q),
{
    let s = seq![p] + w;
    assert(s.drop_first() =~= w);
    assert(s[0] == p);
}

/// A word is its first step and the rest.
pub proof fn lemma_uncons(w: Word)
    requires
        w.len() > 0,
    ensures
        w == seq![w[0]] + w.drop_first(),
        forall|x: ProcessID| #[trigger] w.contains(x) <==> x == w[0] || w.drop_first().contains(x),
{
    assert(w =~= seq![w[0]] + w.drop_first());
    lemma_cons_contains(w[0], w.drop_first());
}

/// Of two processes that are weak initials, one that does not conflict with the other stays one
/// when the other has stepped.
pub proof fn lemma_wi_step(b: Beh, v: Word, a: ProcessID, q: ProcessID)
    requires
        lawful(b),
        ok(b, v),
        wi(b, v, a),
        q != a,
        en(b, q),
        !dep(b, q, a),
    ensures
        wi(b, v, q) <==> wi(step(b, a), rem(v, a), q),
    decreases v.len(),
{
    lemma_lawful(b);
    assert(commutes(b, q, a) && commutes(b, a, q));
    if v.len() > 0 {
        let c = v[0];
        let t = v.drop_first();
        if c == a {
        } else {
            lemma_rem_cons(c, t, a);
            lemma_uncons(v);
            let r = rem(v, a);
            assert(r[0] == c);
            assert(r.drop_first() =~= rem(t, a));
            if c != q {
                assert(commutes(b, a, c) && commutes(b, c, a));
                assert(commutes(b, q, c) && commutes(b, c, q));
                assert(steady(b, q, c, a) && steady(b, q, a, c));
                lemma_wi_step(step(b, c), t, a, q);
            }
        }
    }
}

/// Two weak initials, one of which is in the word, do not conflict.
pub proof fn lemma_wi_both(b: Beh, v: Word, a: ProcessID, q: ProcessID)
    requires
        lawful(b),
        ok(b, v),
        wi(b, v, a),
        wi(b, v, q),
        q != a,
        v.contains(a) || v.contains(q),
    ensures
        !dep(b, q, a),
    decreases v.len(),
{
    lemma_lawful(b);
    assert(commutes(b, q, a) && commutes(b, a, q));
    lemma_uncons(v);
    let c = v[0];
    if c != a && c != q {
        assert(commutes(b, a, c) && commutes(b, q, c));
        assert(steady(b, q, a, c));
        lemma_wi_both(step(b, c), v.drop_first(), a, q);
    }
}

/// A weak initial can take its step first.
pub proof fn lemma_ok_rem(b: Beh, v: Word, a: ProcessID)
    requires
        lawful(b),
        ok(b, v),
        wi(b, v, a),
    ensures
        ok(step(b, a), rem(v, a)),
        v.contains(a) ==> after(step(b, a), rem(v, a)) == after(b, v),
        !v.contains(a) ==> en(after(b, v), a) && after(step(b, a), rem(v, a)) == step(
            after(b, v),
            a,
        ),
        v.contains(a) ==> unfailing(b, v) == (!fails(b, a) && unfailing(step(b, a), rem(v, a))),
    decreases v.len(),
{
    lemma_lawful(b);
    lemma_rem(v, a);
    if v.len() > 0 {
        let c = v[0];
        let t = v.drop_first();
        lemma_uncons(v);
        if c != a {
            lemma_rem_cons(c, t, a);
            assert(commutes(b, a, c) && commutes(b, c, a));
            lemma_ok_rem(step(b, c), t, a);
            let r = rem(v, a);
            assert(r[0] == c);
            assert(r.drop_first() =~= rem(t, a));
        }
    }
}

/// Schedules of one class have the same steps, can both be run, and lead to the same behaviour;
/// both fail or neither does.
pub proof fn lemma_eqv_ok(b: Beh, u: Word, v: Word)
    requires
        lawful(b),
        ok(b, v),
        eqv(b, u, v),
    ensures
        ok(b, u),
        after(b, u) == after(b, v),
        u.len() == v.len(),
        forall|x: ProcessID| #[trigger] u.contains(x) <==> v.contains(x),
        unfailing(b, u) == unfailing(b, v),
    decreases u.len(),
{
    lemma_lawful(b);
    if u.len() > 0 {
        let a = u[0];
        lemma_ok_rem(b, v, a);
        lemma_rem(v, a);
        lemma_uncons(u);
        lemma_eqv_ok(step(b, a), u.drop_first(), rem(v, a));
        assert forall|x: ProcessID| #[trigger] u.contains(x) <==> v.contains(x) by {
            if x != a {
                assert(rem(v, a).contains(x) <==> v.contains(x));
                assert(u.drop_first().contains(x) <==> rem(v, a).contains(x));
            }
        }
    } else {
        assert(u =~= v);
    }
}

/// Schedules of one class have the same weak initials.
pub proof fn lemma_eqv_wi(b: Beh, u: Word, v: Word, q: ProcessID)
    requires
        lawful(b),
        ok(b, v),
        eqv(b, u, v),
    ensures
        wi(b, u, q) <==> wi(b, v, q),
    decreases u.len(),
{
    lemma_lawful(b);
    if u.len() > 0 {
        let a = u[0];
        if q != a {
            lemma_ok_rem(b, v, a);
            lemma_eqv_wi(step(b, a), u.drop_first(), rem(v, a), q);
            if wi(b, v, q) {
                lemma_wi_both(b, v, a, q);
            }
            if en(b, q) && !dep(b, q, a) {
                lemma_wi_step(b, v, a, q);
            }
        }
    } else {
        assert(u =~= v);
    }
}

/// Taking a weak initial's step first leaves schedules of one class.
pub proof fn lemma_eqv_rem(b: Beh, u: Word, v: Word, q: ProcessID)
    requires
        lawful(b),
        ok(b, v),
        eqv(b, u, v),
        wi(b, u, q),
        u.contains(q),
    ensures
        wi(b, v, q),
        v.contains(q),
        eqv(step(b, q), rem(u, q), rem(v, q)),
    decreases u.len(),
{
    lemma_lawful(b);
    lemma_eqv_wi(b, u, v, q);
    lemma_eqv_ok(b, u, v);
    let a = u[0];
    if q != a {
        lemma_ok_rem(b, v, a);
        lemma_uncons(u);
        let t = u.drop_first();
        lemma_eqv_rem(step(b, a), t, rem(v, a), q);
        lemma_rem_comm(v, a, q);
        assert(commutes(b, a, q) && commutes(b, q, a));
        lemma_rem_cons(a, t, q);
        let r = rem(u, q);
        assert(r[0] == a);
        assert(r.drop_first() =~= rem(t, q));
        lemma_rem(v, q);
        lemma_wi_step(b, v, q, a);
    }
}

/// A schedule is of its own class.
pub proof fn lemma_eqv_refl(b: Beh, u: Word)
    requires
        ok(b, u),
    ensures
        eqv(b, u, u),
    decreases u.len(),
{
    if u.len() > 0 {
        lemma_uncons(u);
        lemma_eqv_refl(step(b, u[0]), u.drop_first());
    }
}

/// Being of one class is transitive.
pub proof fn lemma_eqv_trans(b: Beh, u: Word, v: Word, w: Word)
    requires
        lawful(b),
        ok(b, w),
        eqv(b, u, v),
        eqv(b, v, w),
    ensures
        eqv(b, u, w),
    decreases u.len(),
{
    lemma_lawful(b);
    lemma_eqv_ok(b, v, w);
    if u.len() > 0 {
        let a = u[0];
        lemma_eqv_rem(b, v, w, a);
        lemma_ok_rem(b, w, a);
        lemma_eqv_trans(step(b, a), u.drop_first(), rem(v, a), rem(w, a));
    }
}

/// Being of one class is symmetric.
pub proof fn lemma_eqv_sym(b: Beh, u: Word, v: Word)
    requires
        lawful(b),
        ok(b, v),
        eqv(b, u, v),
    ensures
        eqv(b, v, u),
    decreases v.len(),
{
    lemma_lawful(b);
    lemma_eqv_ok(b, u, v);
    if v.len() > 0 {
        let c = v[0];
        lemma_uncons(v);
        assert(wi(b, v, c));
        lemma_eqv_wi(b, u, v, c);
        lemma_eqv_rem(b, u, v, c);
        assert(rem(v, c) == v.drop_first());
        lemma_eqv_sym(step(b, c), rem(u, c), v.drop_first());
    }
}

/// A weak initial that comes up in a word stays one when the word grows.
pub proof fn lemma_wi_grow(b: Beh, v: Word, z: Word, q: ProcessID)
    requires
        wi(b, v, q),
        v.contains(q),
    ensures
        wi(b, v + z, q),
        (v + z).contains(q),
        rem(v + z, q) == rem(v, q) + z,
    decreases v.len(),
{
    lemma_uncons(v);
    let t = v.drop_first();
    assert((v + z).drop_first() =~= t + z);
    lemma_uncons(v + z);
    if v[0] != q {
        lemma_wi_grow(step(b, v[0]), t, z, q);
        assert(seq![v[0]] + (rem(t, q) + z) =~= (seq![v[0]] + rem(t, q)) + z);
    }
}

/// A weak initial of a word is one of every start of it.
pub proof fn lemma_wi_shrink(b: Beh, v: Word, z: Word, q: ProcessID)
    requires
        wi(b, v + z, q),
    ensures
        wi(b, v, q),
    decreases v.len(),
{
    if v.len() > 0 {
        let t = v.drop_first();
        assert((v + z).drop_first() =~= t + z);
        if v[0] != q {
            lemma_wi_shrink(step(b, v[0]), t, z, q);
        }
    }
}

/// Schedules of one class stay so when both go on in the same way.
pub proof fn lemma_eqv_grow(b: Beh, u: Word, v: Word, z: Word)
    requires
        lawful(b),
        ok(b, v + z),
        ok(b, v),
        eqv(b, u, v),
    ensures
        eqv(b, u + z, v + z),
    decreases u.len(),
{
    lemma_lawful(b);
    if u.len() > 0 {
        let a = u[0];
        lemma_wi_grow(b, v, z, a);
        lemma_ok_rem(b, v, a);
        lemma_ok_rem(b, v + z, a);
        lemma_eqv_grow(step(b, a), u.drop_first(), rem(v, a), z);
        assert((u + z).drop_first() =~= u.drop_first() + z);
    } else {
        assert(u + z =~= z);
        assert(v + z =~= z);
        lemma_eqv_refl(b, z);
    }
}

/// Schedules of one class stay so after a common start.
pub proof fn lemma_eqv_prefix(b: Beh, w: Word, u: Word, v: Word)
    requires
        ok(b, w),
        eqv(after(b, w), u, v),
    ensures
        eqv(b, w + u, w + v),
    decreases w.len(),
{
    if w.len() > 0 {
        let t = w.drop_first();
        lemma_eqv_prefix(step(b, w[0]), t, u, v);
        assert((w + u).drop_first() =~= t + u);
        assert((w + v).drop_first() =~= t + v);
        lemma_uncons(w + v);
    } else {
        assert(w + u =~= u);
        assert(w + v =~= v);
    }
}

/// A weak initial that is in the word can be moved to its front.
pub proof fn lemma_eqv_front(b: Beh, v: Word, a: ProcessID)
    requires
        lawful(b),
        ok(b, v),
        wi(b, v, a),
        v.contains(a),
    ensures
        eqv(b, seq![a] + rem(v, a), v),
        ok(b, seq![a] + rem(v, a)),
{
    lemma_ok_rem(b, v, a);
    let s = seq![a] + rem(v, a);
    assert(s.drop_first() =~= rem(v, a));
    lemma_eqv_refl(step(b, a), rem(v, a));
}

} // verus!
