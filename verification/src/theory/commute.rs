//! A world of reliable objects tells the truth about which steps commute.

use vstd::prelude::*;

use crate::model::object::Object;
use crate::model::process::{Process, ProcessID, Turn};
use crate::model::world::{conflicting, WorldModel};
use crate::theory::behaviour::{
    after, commutes, dep, en, fails, honest, lawful, ok, stable, steady, step, Word,
};
use crate::theory::effect::{
    asked, lemma_effect, lemma_offers, lemma_single, outcome, rested, single, spot, wish,
};
use crate::theory::program::{
    behaviour, lemma_after, lemma_seen, lemma_step, offers, op_for, seen, stepped, world_after,
};
use crate::theory::reliable::Reliable;

verus! {

/// Two worlds differ in the numbering of operations and in their past alone.
pub open spec fn alike<O: Reliable, P: Process<Op = O::Op, Reply = O::Reply>>(
    a: WorldModel<O::Model, P::Model, P::Reply>,
    b: WorldModel<O::Model, P::Model, P::Reply>,
) -> bool {
    &&& a.objs.len() == b.objs.len()
    &&& a.sched.procs == b.sched.procs
    &&& a.sched.replies == b.sched.replies
    &&& forall|k: int|
        0 <= k < a.objs.len() ==> #[trigger] O::essence(a.objs[k]) == O::essence(b.objs[k])
    &&& forall|k: int, p: ProcessID|
        0 <= k < a.objs.len() ==> #[trigger] O::wants(a.objs[k], p) == O::wants(b.objs[k], p)
}

/// No two processes wait for operations of one object that are meant for one process at a time.
pub open spec fn apart<O: Reliable>(objs: Seq<O::Model>) -> bool {
    forall|k: int, p: ProcessID, q: ProcessID|
        0 <= k < objs.len() && p != q && #[trigger] O::wants(objs[k], p) is Some
            && #[trigger] O::wants(objs[k], q) is Some ==> !(O::lone(O::wants(objs[k], p)->0)
            && O::lone(O::wants(objs[k], q)->0))
}

/// Where a process with a pending operation waits.
pub proof fn lemma_seated<O: Reliable, P: Process<Op = O::Op, Reply = O::Reply>>(
    w: WorldModel<O::Model, P::Model, P::Reply>,
    p: ProcessID,
    k: int,
)
    requires
        rested::<O, P>(w),
        0 <= k < w.objs.len(),
        O::wants(w.objs[k], p) is Some,
    ensures
        spot::<O>(w.objs, p) == k,
        wish::<O>(w.objs, p) == O::wants(w.objs[k], p)->0,
        offers::<O>(w.objs, p) <==> O::open(O::essence(w.objs[k]), O::wants(w.objs[k], p)->0),
{
    lemma_single::<O, P>(w.sched, w.objs);
    lemma_offers::<O, P>(w.sched, w.objs, p);
}

/// In worlds that are alike, the same processes can step, with the same operations.
pub proof fn lemma_alike_offers<O: Reliable, P: Process<Op = O::Op, Reply = O::Reply>>(
    a: WorldModel<O::Model, P::Model, P::Reply>,
    b: WorldModel<O::Model, P::Model, P::Reply>,
    p: ProcessID,
)
    requires
        rested::<O, P>(a),
        rested::<O, P>(b),
        alike::<O, P>(a, b),
    ensures
        offers::<O>(a.objs, p) == offers::<O>(b.objs, p),
        offers::<O>(a.objs, p) ==> spot::<O>(a.objs, p) == spot::<O>(b.objs, p) && wish::<O>(
            a.objs,
            p,
        ) == wish::<O>(b.objs, p) && 0 <= spot::<O>(a.objs, p) < a.objs.len() && outcome::<O, P>(
            a,
            p,
        ) == outcome::<O, P>(b, p),
{
    lemma_offers::<O, P>(a.sched, a.objs, p);
    lemma_offers::<O, P>(b.sched, b.objs, p);
    if offers::<O>(a.objs, p) {
        let k = spot::<O>(a.objs, p);
        assert(O::wants(a.objs[k], p) is Some);
        lemma_seated::<O, P>(b, p, k);
    }
    if offers::<O>(b.objs, p) {
        let k = spot::<O>(b.objs, p);
        assert(O::wants(a.objs[k], p) == O::wants(b.objs[k], p));
        lemma_seated::<O, P>(a, p, k);
    }
}

/// Two ready operations conflict when they are of one object and clash.
pub proof fn lemma_conflicting<O: Reliable, P: Process<Op = O::Op, Reply = O::Reply>>(
    w: WorldModel<O::Model, P::Model, P::Reply>,
    p: ProcessID,
    q: ProcessID,
)
    requires
        rested::<O, P>(w),
        offers::<O>(w.objs, p),
        offers::<O>(w.objs, q),
    ensures
        conflicting::<O>(w.objs, op_for::<O>(w.objs, p), op_for::<O>(w.objs, q)) <==> spot::<O>(
            w.objs,
            p,
        ) == spot::<O>(w.objs, q) && O::clash(wish::<O>(w.objs, p), wish::<O>(w.objs, q)),
{
    lemma_offers::<O, P>(w.sched, w.objs, p);
    lemma_offers::<O, P>(w.sched, w.objs, q);
    lemma_single::<O, P>(w.sched, w.objs);
    let k = spot::<O>(w.objs, p);
    if spot::<O>(w.objs, q) == k {
        assert(O::valid(w.objs[k]) && single::<O>(w.objs[k]));
        O::law_clash(w.objs[k], op_for::<O>(w.objs, p), op_for::<O>(w.objs, q));
    }
}

/// Worlds that are alike look alike.
proof fn lemma_alike_seen<O: Reliable, P: Process<Op = O::Op, Reply = O::Reply>>(
    a: WorldModel<O::Model, P::Model, P::Reply>,
    b: WorldModel<O::Model, P::Model, P::Reply>,
)
    requires
        rested::<O, P>(a),
        rested::<O, P>(b),
        alike::<O, P>(a, b),
    ensures
        seen::<O, P>(a) == seen::<O, P>(b),
{
    let sa = seen::<O, P>(a);
    let sb = seen::<O, P>(b);
    assert forall|p: ProcessID| #[trigger] (sa.en)(p) == (sb.en)(p) by {
        lemma_alike_offers::<O, P>(a, b, p);
    }
    assert(sa.en =~= sb.en);
    assert forall|p: ProcessID, q: ProcessID| #[trigger] (sa.dep)(p, q) == (sb.dep)(p, q) by {
        lemma_alike_offers::<O, P>(a, b, p);
        lemma_alike_offers::<O, P>(a, b, q);
        if offers::<O>(a.objs, p) && offers::<O>(a.objs, q) {
            lemma_conflicting::<O, P>(a, p, q);
            lemma_conflicting::<O, P>(b, p, q);
        }
    }
    assert(sa.dep =~= sb.dep);
    assert forall|p: ProcessID| #[trigger] (sa.fails)(p) == (sb.fails)(p) by {
        lemma_alike_offers::<O, P>(a, b, p);
        if offers::<O>(a.objs, p) {
            lemma_effect::<O, P>(a, p);
            lemma_effect::<O, P>(b, p);
        }
    }
    assert(sa.fails =~= sb.fails);
}

/// Worlds that are alike stay alike.
pub proof fn lemma_alike_step<O: Reliable, P: Process<Op = O::Op, Reply = O::Reply>>(
    a: WorldModel<O::Model, P::Model, P::Reply>,
    b: WorldModel<O::Model, P::Model, P::Reply>,
    p: ProcessID,
)
    requires
        rested::<O, P>(a),
        rested::<O, P>(b),
        alike::<O, P>(a, b),
    ensures
        rested::<O, P>(stepped::<O, P>(a, p)),
        rested::<O, P>(stepped::<O, P>(b, p)),
        alike::<O, P>(stepped::<O, P>(a, p), stepped::<O, P>(b, p)),
{
    lemma_alike_offers::<O, P>(a, b, p);
    if offers::<O>(a.objs, p) {
        lemma_effect::<O, P>(a, p);
        lemma_effect::<O, P>(b, p);
        let a2 = stepped::<O, P>(a, p);
        let b2 = stepped::<O, P>(b, p);
        let turn = outcome::<O, P>(a, p).1;
        assert forall|k: int| 0 <= k < a2.objs.len() implies #[trigger] O::essence(a2.objs[k])
            == O::essence(b2.objs[k]) by {
            assert(O::essence(a.objs[k]) == O::essence(b.objs[k]));
        }
        assert forall|k: int, q: ProcessID| 0 <= k < a2.objs.len() implies #[trigger] O::wants(
            a2.objs[k],
            q,
        ) == O::wants(b2.objs[k], q) by {
            assert(O::wants(a.objs[k], q) == O::wants(b.objs[k], q));
            assert(O::essence(a.objs[k]) == O::essence(b.objs[k]));
            assert(asked::<O>(a.objs, turn, k) == asked::<O>(b.objs, turn, k));
        }
    }
}

/// Worlds that are alike are alike after every schedule.
pub proof fn lemma_alike_after<O: Reliable, P: Process<Op = O::Op, Reply = O::Reply>>(
    a: WorldModel<O::Model, P::Model, P::Reply>,
    b: WorldModel<O::Model, P::Model, P::Reply>,
    word: Word,
)
    requires
        rested::<O, P>(a),
        rested::<O, P>(b),
        alike::<O, P>(a, b),
    ensures
        rested::<O, P>(world_after::<O, P>(a, word)),
        rested::<O, P>(world_after::<O, P>(b, word)),
        alike::<O, P>(world_after::<O, P>(a, word), world_after::<O, P>(b, word)),
    decreases word.len(),
{
    if word.len() > 0 {
        lemma_alike_step::<O, P>(a, b, word[0]);
        lemma_alike_after::<O, P>(
            stepped::<O, P>(a, word[0]),
            stepped::<O, P>(b, word[0]),
            word.drop_first(),
        );
    }
}

/// Worlds that are alike behave alike.
pub proof fn lemma_alike<O: Reliable, P: Process<Op = O::Op, Reply = O::Reply>>(
    a: WorldModel<O::Model, P::Model, P::Reply>,
    b: WorldModel<O::Model, P::Model, P::Reply>,
)
    requires
        rested::<O, P>(a),
        rested::<O, P>(b),
        alike::<O, P>(a, b),
    ensures
        behaviour::<O, P>(a) == behaviour::<O, P>(b),
{
    let l = behaviour::<O, P>(a);
    let r = behaviour::<O, P>(b);
    assert forall|word: Word| #[trigger] l(word) == r(word) by {
        lemma_alike_after::<O, P>(a, b, word);
        lemma_alike_seen::<O, P>(world_after::<O, P>(a, word), world_after::<O, P>(b, word));
    }
    assert(l =~= r);
}

/// A world stays rested along a schedule.
pub proof fn lemma_rested_after<O: Reliable, P: Process<Op = O::Op, Reply = O::Reply>>(
    w: WorldModel<O::Model, P::Model, P::Reply>,
    word: Word,
)
    requires
        rested::<O, P>(w),
    ensures
        rested::<O, P>(world_after::<O, P>(w, word)),
{
    lemma_alike_after::<O, P>(w, w, word);
}

/// A step of `p` leaves the pending operation of `q` alone; it can commit afterwards if it could
/// before, and does the same unless the two conflict.
pub proof fn lemma_beside<O: Reliable, P: Process<Op = O::Op, Reply = O::Reply>>(
    w: WorldModel<O::Model, P::Model, P::Reply>,
    p: ProcessID,
    q: ProcessID,
)
    requires
        rested::<O, P>(w),
        apart::<O>(w.objs),
        p != q,
        offers::<O>(w.objs, p),
        offers::<O>(w.objs, q),
    ensures
        ({
            let next = stepped::<O, P>(w, p);
            let clear = !(spot::<O>(w.objs, p) == spot::<O>(w.objs, q) && O::clash(
                wish::<O>(w.objs, p),
                wish::<O>(w.objs, q),
            ));
            &&& offers::<O>(next.objs, q)
            &&& spot::<O>(next.objs, q) == spot::<O>(w.objs, q)
            &&& wish::<O>(next.objs, q) == wish::<O>(w.objs, q)
            &&& clear ==> outcome::<O, P>(next, q) == outcome::<O, P>(w, q)
            &&& 0 <= spot::<O>(w.objs, q) < w.objs.len()
        }),
{
    let next = stepped::<O, P>(w, p);
    let o = spot::<O>(w.objs, p);
    let k = spot::<O>(w.objs, q);
    lemma_offers::<O, P>(w.sched, w.objs, p);
    lemma_offers::<O, P>(w.sched, w.objs, q);
    lemma_effect::<O, P>(w, p);
    lemma_effect::<O, P>(w, q);
    assert(O::wants(next.objs[k], q) == O::wants(w.objs[k], q));
    assert(O::essence(next.objs[k]) == if k == o {
        O::does(O::essence(w.objs[k]), wish::<O>(w.objs, p)).0
    } else {
        O::essence(w.objs[k])
    });
    if k == o {
        assert(O::wants(w.objs[k], p) is Some && O::wants(w.objs[k], q) is Some);
        O::law_commute(O::essence(w.objs[k]), wish::<O>(w.objs, p), wish::<O>(w.objs, q));
    }
    lemma_seated::<O, P>(next, q, k);
    assert(next.sched.procs[q as int] == w.sched.procs[q as int]);
}

/// Steps that do not conflict commute.
pub proof fn lemma_diamond<O: Reliable, P: Process<Op = O::Op, Reply = O::Reply>>(
    w: WorldModel<O::Model, P::Model, P::Reply>,
    p: ProcessID,
    q: ProcessID,
)
    requires
        rested::<O, P>(w),
        apart::<O>(w.objs),
        p != q,
        offers::<O>(w.objs, p),
        offers::<O>(w.objs, q),
        !(spot::<O>(w.objs, p) == spot::<O>(w.objs, q) && O::clash(
            wish::<O>(w.objs, p),
            wish::<O>(w.objs, q),
        )),
    ensures
        alike::<O, P>(
            stepped::<O, P>(stepped::<O, P>(w, p), q),
            stepped::<O, P>(stepped::<O, P>(w, q), p),
        ),
        rested::<O, P>(stepped::<O, P>(stepped::<O, P>(w, p), q)),
        rested::<O, P>(stepped::<O, P>(stepped::<O, P>(w, q), p)),
{
    let wp = stepped::<O, P>(w, p);
    let wq = stepped::<O, P>(w, q);
    let l = stepped::<O, P>(wp, q);
    let r = stepped::<O, P>(wq, p);
    let op = spot::<O>(w.objs, p);
    let oq = spot::<O>(w.objs, q);
    if op == oq {
        lemma_offers::<O, P>(w.sched, w.objs, p);
        lemma_offers::<O, P>(w.sched, w.objs, q);
        assert(O::wants(w.objs[op], p) is Some && O::wants(w.objs[op], q) is Some);
        O::law_commute(O::essence(w.objs[op]), wish::<O>(w.objs, p), wish::<O>(w.objs, q));
    }
    lemma_beside::<O, P>(w, p, q);
    lemma_beside::<O, P>(w, q, p);
    lemma_effect::<O, P>(w, p);
    lemma_effect::<O, P>(w, q);
    lemma_effect::<O, P>(wp, q);
    lemma_effect::<O, P>(wq, p);
    assert(l.sched.procs =~= r.sched.procs);
    assert(l.sched.replies =~= r.sched.replies);
    assert forall|k: int| 0 <= k < l.objs.len() implies #[trigger] O::essence(l.objs[k])
        == O::essence(r.objs[k]) by {
        assert(O::essence(wp.objs[k]) == if k == op {
            O::does(O::essence(w.objs[k]), wish::<O>(w.objs, p)).0
        } else {
            O::essence(w.objs[k])
        });
        assert(O::essence(wq.objs[k]) == if k == oq {
            O::does(O::essence(w.objs[k]), wish::<O>(w.objs, q)).0
        } else {
            O::essence(w.objs[k])
        });
    }
    let tp = outcome::<O, P>(w, p).1;
    let tq = outcome::<O, P>(w, q).1;
    assert forall|k: int, z: ProcessID| 0 <= k < l.objs.len() implies #[trigger] O::wants(
        l.objs[k],
        z,
    ) == O::wants(r.objs[k], z) by {
        assert(O::wants(wp.objs[k], z) == if z == p {
            asked::<O>(w.objs, tp, k)
        } else {
            O::wants(w.objs[k], z)
        });
        assert(O::wants(wq.objs[k], z) == if z == q {
            asked::<O>(w.objs, tq, k)
        } else {
            O::wants(w.objs[k], z)
        });
        assert(O::essence(wp.objs[k]) == if k == op {
            O::does(O::essence(w.objs[k]), wish::<O>(w.objs, p)).0
        } else {
            O::essence(w.objs[k])
        });
        assert(O::essence(wq.objs[k]) == if k == oq {
            O::does(O::essence(w.objs[k]), wish::<O>(w.objs, q)).0
        } else {
            O::essence(w.objs[k])
        });
        if let Turn::Request(_, op2) = tp {
            O::law_suits(O::essence(w.objs[k]), wish::<O>(w.objs, q), op2);
        }
        if let Turn::Request(_, op2) = tq {
            O::law_suits(O::essence(w.objs[k]), wish::<O>(w.objs, p), op2);
        }
        assert(asked::<O>(wq.objs, tp, k) == asked::<O>(w.objs, tp, k));
        assert(asked::<O>(wp.objs, tq, k) == asked::<O>(w.objs, tq, k));
    }
}

/// What independence promises of two processes holds.
proof fn lemma_commutes<O: Reliable, P: Process<Op = O::Op, Reply = O::Reply>>(
    w: WorldModel<O::Model, P::Model, P::Reply>,
    p: ProcessID,
    q: ProcessID,
)
    requires
        rested::<O, P>(w),
        apart::<O>(w.objs),
    ensures
        commutes(behaviour::<O, P>(w), p, q),
{
    let b = behaviour::<O, P>(w);
    lemma_seen::<O, P>(w, p, q);
    lemma_seen::<O, P>(w, q, p);
    if p != q && en(b, p) && en(b, q) {
        let wp = stepped::<O, P>(w, p);
        let wq = stepped::<O, P>(w, q);
        lemma_step::<O, P>(w, p);
        lemma_step::<O, P>(w, q);
        lemma_step::<O, P>(wp, q);
        lemma_step::<O, P>(wq, p);
        lemma_conflicting::<O, P>(w, p, q);
        lemma_conflicting::<O, P>(w, q, p);
        lemma_beside::<O, P>(w, q, p);
        lemma_effect::<O, P>(w, q);
        lemma_seen::<O, P>(wq, p, p);
        if spot::<O>(w.objs, p) == spot::<O>(w.objs, q) {
            let k = spot::<O>(w.objs, p);
            lemma_offers::<O, P>(w.sched, w.objs, p);
            lemma_offers::<O, P>(w.sched, w.objs, q);
            assert(O::wants(w.objs[k], p) is Some && O::wants(w.objs[k], q) is Some);
            O::law_commute(O::essence(w.objs[k]), wish::<O>(w.objs, p), wish::<O>(w.objs, q));
        }
        if !dep(b, p, q) {
            lemma_diamond::<O, P>(w, p, q);
            lemma_alike::<O, P>(stepped::<O, P>(wp, q), stepped::<O, P>(wq, p));
            lemma_effect::<O, P>(w, p);
            lemma_effect::<O, P>(wq, p);
        }
    }
}

/// Whether two processes conflict is not changed by a step of a third.
proof fn lemma_steady<O: Reliable, P: Process<Op = O::Op, Reply = O::Reply>>(
    w: WorldModel<O::Model, P::Model, P::Reply>,
    p: ProcessID,
    q: ProcessID,
    r: ProcessID,
)
    requires
        rested::<O, P>(w),
        apart::<O>(w.objs),
    ensures
        steady(behaviour::<O, P>(w), p, q, r),
{
    let b = behaviour::<O, P>(w);
    lemma_seen::<O, P>(w, p, q);
    lemma_seen::<O, P>(w, q, r);
    lemma_seen::<O, P>(w, r, p);
    if p != q && q != r && p != r && en(b, p) && en(b, q) && en(b, r) {
        let wr = stepped::<O, P>(w, r);
        lemma_step::<O, P>(w, r);
        lemma_seen::<O, P>(wr, p, q);
        lemma_beside::<O, P>(w, r, p);
        lemma_beside::<O, P>(w, r, q);
        lemma_effect::<O, P>(w, r);
        lemma_conflicting::<O, P>(w, p, q);
        lemma_conflicting::<O, P>(wr, p, q);
    }
}

/// Where a process that can step after a step of another one waits, before that step.
pub proof fn lemma_waits<O: Reliable, P: Process<Op = O::Op, Reply = O::Reply>>(
    w: WorldModel<O::Model, P::Model, P::Reply>,
    p: ProcessID,
    r: ProcessID,
)
    requires
        rested::<O, P>(w),
        p != r,
        offers::<O>(w.objs, p),
        offers::<O>(stepped::<O, P>(w, p).objs, r),
    ensures
        ({
            let k = spot::<O>(w.objs, r);
            &&& 0 <= k < w.objs.len()
            &&& O::wants(w.objs[k], r) == Some(wish::<O>(w.objs, r))
            &&& spot::<O>(stepped::<O, P>(w, p).objs, r) == k
            &&& wish::<O>(stepped::<O, P>(w, p).objs, r) == wish::<O>(w.objs, r)
            &&& O::open(
                O::essence(stepped::<O, P>(w, p).objs[k]),
                wish::<O>(w.objs, r),
            )
            &&& offers::<O>(w.objs, r) <==> O::open(O::essence(w.objs[k]), wish::<O>(w.objs, r))
        }),
{
    let next = stepped::<O, P>(w, p);
    lemma_effect::<O, P>(w, p);
    lemma_offers::<O, P>(next.sched, next.objs, r);
    let k = spot::<O>(next.objs, r);
    assert(O::wants(next.objs[k], r) == O::wants(w.objs[k], r));
    lemma_seated::<O, P>(w, r, k);
}

/// A process is not enabled by either of two independent steps.
proof fn lemma_stable<O: Reliable, P: Process<Op = O::Op, Reply = O::Reply>>(
    w: WorldModel<O::Model, P::Model, P::Reply>,
    p: ProcessID,
    q: ProcessID,
    r: ProcessID,
)
    requires
        rested::<O, P>(w),
    ensures
        stable(behaviour::<O, P>(w), p, q, r),
{
    let b = behaviour::<O, P>(w);
    lemma_seen::<O, P>(w, p, q);
    lemma_seen::<O, P>(w, q, r);
    lemma_seen::<O, P>(w, r, p);
    lemma_step::<O, P>(w, p);
    lemma_step::<O, P>(w, q);
    let wp = stepped::<O, P>(w, p);
    let wq = stepped::<O, P>(w, q);
    lemma_seen::<O, P>(wp, r, r);
    lemma_seen::<O, P>(wq, r, r);
    if p != q && q != r && p != r && en(b, p) && en(b, q) && !dep(b, p, q) && en(step(b, p), r)
        && en(step(b, q), r) {
        lemma_waits::<O, P>(w, p, r);
        lemma_waits::<O, P>(w, q, r);
        lemma_effect::<O, P>(w, p);
        lemma_effect::<O, P>(w, q);
        lemma_conflicting::<O, P>(w, p, q);
        lemma_offers::<O, P>(w.sched, w.objs, p);
        lemma_offers::<O, P>(w.sched, w.objs, q);
        let k = spot::<O>(w.objs, r);
        let e = O::essence(w.objs[k]);
        assert(O::essence(wp.objs[k]) == if k == spot::<O>(w.objs, p) {
            O::does(e, wish::<O>(w.objs, p)).0
        } else {
            e
        });
        assert(O::essence(wq.objs[k]) == if k == spot::<O>(w.objs, q) {
            O::does(e, wish::<O>(w.objs, q)).0
        } else {
            e
        });
        if k == spot::<O>(w.objs, p) && k == spot::<O>(w.objs, q) {
            O::law_stable(e, wish::<O>(w.objs, p), wish::<O>(w.objs, q), wish::<O>(w.objs, r));
        }
    }
}

/// Along no schedule do two processes wait for operations of one object that are meant for one
/// process at a time.
pub open spec fn orderly<O: Reliable, P: Process<Op = O::Op, Reply = O::Reply>>(
    w: WorldModel<O::Model, P::Model, P::Reply>,
) -> bool {
    forall|x: Word|
        ok(behaviour::<O, P>(w), x) ==> apart::<O>((#[trigger] world_after::<O, P>(w, x)).objs)
}

/// An orderly world of reliable objects tells the truth about which steps commute.
pub proof fn lemma_lawful_world<O: Reliable, P: Process<Op = O::Op, Reply = O::Reply>>(
    w: WorldModel<O::Model, P::Model, P::Reply>,
)
    requires
        rested::<O, P>(w),
        orderly::<O, P>(w),
    ensures
        lawful(behaviour::<O, P>(w)),
{
    let b0 = behaviour::<O, P>(w);
    assert forall|x: Word| ok(b0, x) implies honest(#[trigger] after(b0, x)) by {
        let v = world_after::<O, P>(w, x);
        lemma_after::<O, P>(w, x);
        lemma_rested_after::<O, P>(w, x);
        let b = behaviour::<O, P>(v);
        assert forall|p: ProcessID, q: ProcessID, r: ProcessID| #[trigger] stable(b, p, q, r) by {
            lemma_stable::<O, P>(v, p, q, r);
        }
        assert forall|p: ProcessID, q: ProcessID| #[trigger] commutes(b, p, q) by {
            lemma_commutes::<O, P>(v, p, q);
        }
        assert forall|p: ProcessID, q: ProcessID, r: ProcessID| #[trigger] steady(b, p, q, r) by {
            lemma_steady::<O, P>(v, p, q, r);
        }
    }
}

} // verus!
