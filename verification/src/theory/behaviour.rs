//! Behaviours: what can be seen of a program while its processes are scheduled one step at a
//! time. A schedule is a word of process ids, since every process has at most one operation
//! ready.

use vstd::prelude::*;

use crate::model::process::ProcessID;

verus! {

/// A schedule: the processes in the order of their steps.
pub type Word = Seq<ProcessID>;

/// What can be seen of a program between two steps.
pub struct Obs {
    /// Whether a process has an operation ready.
    pub en: spec_fn(ProcessID) -> bool,
    /// Whether the ready operations of two processes conflict.
    pub dep: spec_fn(ProcessID, ProcessID) -> bool,
    /// Whether the next step of a process ends in a process error.
    pub fails: spec_fn(ProcessID) -> bool,
    /// Whether some process is live.
    pub live: bool,
}

/// A behaviour: what can be seen after every schedule.
pub type Beh = spec_fn(Word) -> Obs;

/// Process `p` can take a step.
pub open spec fn en(b: Beh, p: ProcessID) -> bool {
    (b(Seq::empty()).en)(p)
}

/// The next steps of `p` and `q` conflict.
pub open spec fn dep(b: Beh, p: ProcessID, q: ProcessID) -> bool {
    (b(Seq::empty()).dep)(p, q)
}

/// The next step of `p` ends in an error.
pub open spec fn fails(b: Beh, p: ProcessID) -> bool {
    (b(Seq::empty()).fails)(p)
}

/// Some process is live.
pub open spec fn live(b: Beh) -> bool {
    b(Seq::empty()).live
}

/// The behaviour after one step of `p`.
pub open spec fn step(b: Beh, p: ProcessID) -> Beh {
    |w: Word| b(seq![p] + w)
}

/// The behaviour after the schedule `w`.
pub open spec fn after(b: Beh, w: Word) -> Beh
    decreases w.len(),
{
    if w.len() == 0 {
        b
    } else {
        after(step(b, w[0]), w.drop_first())
    }
}

/// `w` can be run: each process can take its step when its turn comes.
pub open spec fn ok(b: Beh, w: Word) -> bool
    decreases w.len(),
{
    w.len() == 0 || en(b, w[0]) && ok(step(b, w[0]), w.drop_first())
}

/// No process can take a step.
pub open spec fn done(b: Beh) -> bool {
    forall|p: ProcessID| !#[trigger] en(b, p)
}

/// `w` is a complete schedule.
pub open spec fn maximal(b: Beh, w: Word) -> bool {
    ok(b, w) && done(after(b, w))
}

/// No step of `w` ends in an error.
pub open spec fn unfailing(b: Beh, w: Word) -> bool
    decreases w.len(),
{
    w.len() == 0 || !fails(b, w[0]) && unfailing(step(b, w[0]), w.drop_first())
}

/// What independence promises of two processes that can both take a step: neither disables
/// the other, conflict is symmetric, and steps that do not conflict commute and fail alike in
/// either order.
pub open spec fn commutes(b: Beh, p: ProcessID, q: ProcessID) -> bool {
    p != q && en(b, p) && en(b, q) ==> {
        &&& en(step(b, q), p)
        &&& dep(b, p, q) == dep(b, q, p)
        &&& !dep(b, p, q) ==> step(step(b, p), q) == step(step(b, q), p)
        &&& !dep(b, p, q) ==> fails(step(b, q), p) == fails(b, p)
    }
}

/// Whether two processes conflict is not changed by a step of a third.
pub open spec fn steady(b: Beh, p: ProcessID, q: ProcessID, r: ProcessID) -> bool {
    p != q && q != r && p != r && en(b, p) && en(b, q) && en(b, r) ==> dep(step(b, r), p, q)
        == dep(b, p, q)
}

/// A process is not enabled by either of two independent steps: if it can step after the one
/// and after the other, it can step before them.
pub open spec fn stable(b: Beh, p: ProcessID, q: ProcessID, r: ProcessID) -> bool {
    p != q && q != r && p != r && en(b, p) && en(b, q) && !dep(b, p, q) && en(step(b, p), r) && en(
        step(b, q),
        r,
    ) ==> en(b, r)
}

/// The dependency relation tells the truth here.
pub open spec fn honest(b: Beh) -> bool {
    &&& forall|p: ProcessID, q: ProcessID, r: ProcessID| #[trigger] stable(b, p, q, r)
    &&& forall|p: ProcessID, q: ProcessID| #[trigger] commutes(b, p, q)
    &&& forall|p: ProcessID, q: ProcessID, r: ProcessID| #[trigger] steady(b, p, q, r)
}

/// The dependency relation tells the truth after every schedule.
pub open spec fn lawful(b: Beh) -> bool {
    forall|w: Word| ok(b, w) ==> honest(#[trigger] after(b, w))
}

/// Schedules have at most `n` steps.
pub open spec fn bounded(b: Beh, n: nat) -> bool {
    forall|w: Word| #[trigger] ok(b, w) ==> w.len() <= n
}

/// Running a concatenation is running its parts.
pub proof fn lemma_after_concat(b: Beh, u: Word, v: Word)
    ensures
        after(b, u + v) == after(after(b, u), v),
        ok(b, u + v) == (ok(b, u) && ok(after(b, u), v)),
    decreases u.len(),
{
    if u.len() == 0 {
        assert(u + v =~= v);
    } else {
        lemma_after_concat(step(b, u[0]), u.drop_first(), v);
        assert((u + v).drop_first() =~= u.drop_first() + v);
    }
}

/// As [`lemma_after_concat`], for one more step at the end.
pub proof fn lemma_after_push(b: Beh, u: Word, p: ProcessID)
    ensures
        after(b, u.push(p)) == step(after(b, u), p),
        ok(b, u.push(p)) == (ok(b, u) && en(after(b, u), p)),
{
    lemma_after_concat(b, u, seq![p]);
    assert(u + seq![p] =~= u.push(p));
    assert(seq![p].drop_first() =~= Seq::<ProcessID>::empty());
    assert(after(step(after(b, u), p), Seq::empty()) == step(after(b, u), p));
    assert(after(after(b, u), seq![p]) == after(step(after(b, u), p), seq![p].drop_first()));
    assert(ok(after(b, u), seq![p]) == (en(after(b, u), p) && ok(
        step(after(b, u), p),
        seq![p].drop_first(),
    )));
}

/// As [`lemma_after_concat`], for errors.
pub proof fn lemma_unfailing_concat(b: Beh, u: Word, v: Word)
    ensures
        unfailing(b, u + v) == (unfailing(b, u) && unfailing(after(b, u), v)),
    decreases u.len(),
{
    if u.len() == 0 {
        assert(u + v =~= v);
    } else {
        lemma_unfailing_concat(step(b, u[0]), u.drop_first(), v);
        assert((u + v).drop_first() =~= u.drop_first() + v);
    }
}

/// A lawful behaviour is honest now, and lawful after every step.
pub proof fn lemma_lawful(b: Beh)
    requires
        lawful(b),
    ensures
        honest(b),
        forall|p: ProcessID| en(b, p) ==> lawful(#[trigger] step(b, p)),
{
    assert(after(b, Seq::empty()) == b);
    assert(ok(b, Seq::empty()));
    assert forall|p: ProcessID| en(b, p) implies lawful(#[trigger] step(b, p)) by {
        assert forall|w: Word| ok(step(b, p), w) implies honest(
            #[trigger] after(step(b, p), w),
        ) by {
            let v = seq![p] + w;
            assert(v.drop_first() =~= w);
            assert(ok(b, v));
            assert(after(b, v) == after(step(b, p), w));
        }
    }
}

/// As [`lemma_lawful`], after a whole schedule.
pub proof fn lemma_lawful_after(b: Beh, w: Word)
    requires
        lawful(b),
        ok(b, w),
    ensures
        lawful(after(b, w)),
    decreases w.len(),
{
    lemma_lawful(b);
    if w.len() > 0 {
        lemma_lawful_after(step(b, w[0]), w.drop_first());
    }
}

} // verus!
