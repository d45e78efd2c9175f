//! A world of reliable objects judges its past as it judged it when it was the future.

use vstd::prelude::*;

use crate::model::object::Object;
use crate::model::process::{Process, ProcessID};
use crate::model::world::WorldModel;
use crate::theory::behaviour::{after, dep, en, lemma_after_concat, lemma_after_push, ok, Word};
use crate::theory::commute::{
    alike, apart, lemma_alike, lemma_alike_offers, lemma_alike_step, lemma_beside,
    lemma_conflicting, lemma_diamond, lemma_rested_after, lemma_waits, orderly,
};
use crate::theory::effect::{effect, lemma_effect, lemma_offers, rested, spot, wish};
use crate::theory::history::{faithful, kept_by_swap, neighbours, settled_by, swapped};
use crate::theory::program::{
    behaviour, history, lemma_after, lemma_seen, lemma_step, lemma_world_push, offers, op_for,
    stepped, trace_at, world_after,
};
use crate::theory::reliable::{deeds, Reliable};

verus! {

/// The object that event `i` of a schedule operates on.
spec fn place<O: Reliable, P: Process<Op = O::Op, Reply = O::Reply>>(
    w: WorldModel<O::Model, P::Model, P::Reply>,
    x: Word,
    i: int,
) -> int {
    spot::<O>(world_after::<O, P>(w, x.take(i)).objs, x[i])
}

/// How many operations have committed on object `k` after a schedule.
spec fn count<O: Reliable, P: Process<Op = O::Op, Reply = O::Reply>>(
    w: WorldModel<O::Model, P::Model, P::Reply>,
    x: Word,
    k: int,
) -> int {
    O::log(world_after::<O, P>(w, x).objs[k]).len() as int
}

/// The position of event `i` in the log of its object.
spec fn nth<O: Reliable, P: Process<Op = O::Op, Reply = O::Reply>>(
    w: WorldModel<O::Model, P::Model, P::Reply>,
    x: Word,
    i: int,
) -> int {
    count::<O, P>(w, x.take(i), place::<O, P>(w, x, i))
}

/// The operations that have committed on object `k` after a schedule.
spec fn past<O: Reliable, P: Process<Op = O::Op, Reply = O::Reply>>(
    w: WorldModel<O::Model, P::Model, P::Reply>,
    x: Word,
    k: int,
) -> Seq<O::Deed> {
    deeds(O::log(world_after::<O, P>(w, x).objs[k]))
}

/// The last step of a schedule.
proof fn lemma_last<O: Reliable, P: Process<Op = O::Op, Reply = O::Reply>>(
    w: WorldModel<O::Model, P::Model, P::Reply>,
    x: Word,
    c: ProcessID,
)
    requires
        rested::<O, P>(w),
        ok(behaviour::<O, P>(w), x.push(c)),
    ensures
        ({
            let before = world_after::<O, P>(w, x);
            let k = spot::<O>(before.objs, c);
            &&& ok(behaviour::<O, P>(w), x)
            &&& rested::<O, P>(before)
            &&& offers::<O>(before.objs, c)
            &&& 0 <= k < before.objs.len()
            &&& op_for::<O>(before.objs, c).oid == k
            &&& rested::<O, P>(world_after::<O, P>(w, x.push(c)))
            &&& world_after::<O, P>(w, x.push(c)) == stepped::<O, P>(before, c)
            &&& effect::<O, P>(before, c, world_after::<O, P>(w, x.push(c)))
            &&& past::<O, P>(w, x.push(c), k) == past::<O, P>(w, x, k).push(
                O::deed(wish::<O>(before.objs, c)),
            )
            &&& forall|l: int|
                0 <= l < before.objs.len() && l != k ==> #[trigger] past::<O, P>(w, x.push(c), l)
                    == past::<O, P>(w, x, l)
            &&& trace_at::<O, P>(w, x.push(c)) == trace_at::<O, P>(w, x).push(
                op_for::<O>(before.objs, c),
            )
        }),
{
    let b = behaviour::<O, P>(w);
    let before = world_after::<O, P>(w, x);
    lemma_after_push(b, x, c);
    lemma_after::<O, P>(w, x);
    lemma_rested_after::<O, P>(w, x);
    lemma_step::<O, P>(before, c);
    lemma_world_push::<O, P>(w, x, c);
    lemma_effect::<O, P>(before, c);
    lemma_offers::<O, P>(before.sched, before.objs, c);
    assert(x.push(c).drop_last() =~= x);
    let next = stepped::<O, P>(before, c);
    let k = spot::<O>(before.objs, c);
    assert(O::log(next.objs[k]) == O::log(before.objs[k]).push(
        (op_for::<O>(before.objs, c), O::deed(wish::<O>(before.objs, c))),
    ));
    assert(past::<O, P>(w, x.push(c), k) =~= past::<O, P>(w, x, k).push(
        O::deed(wish::<O>(before.objs, c)),
    ));
    assert forall|l: int| 0 <= l < before.objs.len() && l != k implies #[trigger] past::<O, P>(
        w,
        x.push(c),
        l,
    ) == past::<O, P>(w, x, l) by {
        assert(O::log(next.objs[l]) == O::log(before.objs[l]));
    }
}

/// Event `i` stands in the log of its object, at its position.
proof fn lemma_logged<O: Reliable, P: Process<Op = O::Op, Reply = O::Reply>>(
    w: WorldModel<O::Model, P::Model, P::Reply>,
    x: Word,
    i: int,
)
    requires
        rested::<O, P>(w),
        ok(behaviour::<O, P>(w), x),
        0 <= i < x.len(),
    ensures
        ({
            let k = place::<O, P>(w, x, i);
            let n = nth::<O, P>(w, x, i);
            let log = O::log(world_after::<O, P>(w, x).objs[k]);
            &&& 0 <= k < world_after::<O, P>(w, x).objs.len()
            &&& trace_at::<O, P>(w, x).len() == x.len()
            &&& trace_at::<O, P>(w, x)[i].oid == k
            &&& 0 <= n < log.len()
            &&& log[n].0 == trace_at::<O, P>(w, x)[i]
        }),
    decreases x.len(),
{
    let y = x.drop_last();
    let c = x.last();
    assert(x =~= y.push(c));
    lemma_last::<O, P>(w, y, c);
    lemma_trace_len::<O, P>(w, y);
    let k = place::<O, P>(w, x, i);
    let before = world_after::<O, P>(w, y);
    let next = world_after::<O, P>(w, x);
    if i == y.len() {
        assert(x.take(i) =~= y);
        assert(O::log(next.objs[k]) == O::log(before.objs[k]).push(
            (op_for::<O>(before.objs, c), O::deed(wish::<O>(before.objs, c))),
        ));
    } else {
        lemma_logged::<O, P>(w, y, i);
        assert(x.take(i) =~= y.take(i));
        assert(O::log(next.objs[k]) == if k == spot::<O>(before.objs, c) {
            O::log(before.objs[k]).push((op_for::<O>(before.objs, c), O::deed(wish::<O>(before.objs, c))))
        } else {
            O::log(before.objs[k])
        });
    }
}

proof fn lemma_trace_len<O: Object, P: Process<Op = O::Op, Reply = O::Reply>>(
    w: WorldModel<O::Model, P::Model, P::Reply>,
    x: Word,
)
    ensures
        trace_at::<O, P>(w, x).len() == x.len(),
    decreases x.len(),
{
    if x.len() > 0 {
        lemma_trace_len::<O, P>(w, x.drop_last());
    }
}

/// Logs only grow; an event on an object makes its log grow.
proof fn lemma_grows<O: Reliable, P: Process<Op = O::Op, Reply = O::Reply>>(
    w: WorldModel<O::Model, P::Model, P::Reply>,
    x: Word,
    i: int,
    k: int,
)
    requires
        rested::<O, P>(w),
        ok(behaviour::<O, P>(w), x),
        0 <= i <= x.len(),
        0 <= k < w.objs.len(),
    ensures
        world_after::<O, P>(w, x).objs.len() == w.objs.len(),
        count::<O, P>(w, x.take(i), k) <= count::<O, P>(w, x, k),
        i < x.len() && place::<O, P>(w, x, i) == k ==> count::<O, P>(w, x.take(i), k) < count::<
            O,
            P,
        >(w, x, k),
    decreases x.len(),
{
    if x.len() > 0 {
        let y = x.drop_last();
        let c = x.last();
        assert(x =~= y.push(c));
        lemma_last::<O, P>(w, y, c);
        let before = world_after::<O, P>(w, y);
        let next = world_after::<O, P>(w, x);
        lemma_grows::<O, P>(w, y, if i < x.len() { i } else { 0 }, k);
        assert(O::log(next.objs[k]) == if k == spot::<O>(before.objs, c) {
            O::log(before.objs[k]).push((op_for::<O>(before.objs, c), O::deed(wish::<O>(before.objs, c))))
        } else {
            O::log(before.objs[k])
        });
        if i < x.len() {
            assert(x.take(i) =~= y.take(i));
            if i == y.len() {
                assert(y.take(i) =~= y);
            }
        } else {
            assert(x.take(i) =~= x);
        }
    } else {
        assert(x.take(i) =~= x);
    }
}

/// Events on one object are logged in their order.
proof fn lemma_order<O: Reliable, P: Process<Op = O::Op, Reply = O::Reply>>(
    w: WorldModel<O::Model, P::Model, P::Reply>,
    x: Word,
    i: int,
    j: int,
)
    requires
        rested::<O, P>(w),
        ok(behaviour::<O, P>(w), x),
        0 <= i < j < x.len(),
        place::<O, P>(w, x, i) == place::<O, P>(w, x, j),
    ensures
        nth::<O, P>(w, x, i) < nth::<O, P>(w, x, j),
{
    let k = place::<O, P>(w, x, i);
    let y = x.take(j);
    assert(x =~= y + x.skip(j));
    lemma_after_concat(behaviour::<O, P>(w), y, x.skip(j));
    lemma_logged::<O, P>(w, x, i);
    assert(y.take(i) =~= x.take(i));
    assert(place::<O, P>(w, y, i) == k);
    lemma_objs_len::<O, P>(w, x);
    lemma_grows::<O, P>(w, y, i, k);
}

proof fn lemma_objs_len<O: Reliable, P: Process<Op = O::Op, Reply = O::Reply>>(
    w: WorldModel<O::Model, P::Model, P::Reply>,
    x: Word,
)
    requires
        rested::<O, P>(w),
        ok(behaviour::<O, P>(w), x),
    ensures
        world_after::<O, P>(w, x).objs.len() == w.objs.len(),
    decreases x.len(),
{
    if x.len() > 0 {
        let y = x.drop_last();
        assert(x =~= y.push(x.last()));
        lemma_last::<O, P>(w, y, x.last());
        lemma_objs_len::<O, P>(w, y);
    }
}

/// Two events conflict exactly when they are of one object, whose log says so.
proof fn lemma_told<O: Reliable, P: Process<Op = O::Op, Reply = O::Reply>>(
    w: WorldModel<O::Model, P::Model, P::Reply>,
    x: Word,
    i: int,
    j: int,
)
    requires
        rested::<O, P>(w),
        ok(behaviour::<O, P>(w), x),
        0 <= i < j < x.len(),
    ensures
        history::<O, P>(w)(x, i, j) <==> place::<O, P>(w, x, i) == place::<O, P>(w, x, j)
            && O::clashed(
            past::<O, P>(w, x, place::<O, P>(w, x, i)),
            nth::<O, P>(w, x, i),
            nth::<O, P>(w, x, j),
        ),
{
    lemma_logged::<O, P>(w, x, i);
    lemma_logged::<O, P>(w, x, j);
    lemma_rested_after::<O, P>(w, x);
    if place::<O, P>(w, x, i) == place::<O, P>(w, x, j) {
        lemma_order::<O, P>(w, x, i, j);
        let m = world_after::<O, P>(w, x).objs[place::<O, P>(w, x, i)];
        assert(O::valid(m));
        O::law_log(m, nth::<O, P>(w, x, i), nth::<O, P>(w, x, j));
    }
}

/// Two events keep their conflict when the schedule goes on.
proof fn lemma_settled_by<O: Reliable, P: Process<Op = O::Op, Reply = O::Reply>>(
    w: WorldModel<O::Model, P::Model, P::Reply>,
    x: Word,
    c: ProcessID,
    i: int,
    j: int,
)
    requires
        rested::<O, P>(w),
    ensures
        settled_by(behaviour::<O, P>(w), history::<O, P>(w), x, c, i, j),
{
    let y = x.push(c);
    if ok(behaviour::<O, P>(w), y) && 0 <= i < j < x.len() {
        lemma_last::<O, P>(w, x, c);
        assert(y.take(i) =~= x.take(i));
        assert(y.take(j) =~= x.take(j));
        lemma_told::<O, P>(w, x, i, j);
        lemma_told::<O, P>(w, y, i, j);
        lemma_logged::<O, P>(w, x, i);
        lemma_logged::<O, P>(w, x, j);
        let before = world_after::<O, P>(w, x);
        let k = place::<O, P>(w, x, i);
        if place::<O, P>(w, x, j) == k {
            lemma_order::<O, P>(w, x, i, j);
            if k == spot::<O>(before.objs, c) {
                O::law_settled(
                    past::<O, P>(w, x, k),
                    O::deed(wish::<O>(before.objs, c)),
                    nth::<O, P>(w, x, i),
                    nth::<O, P>(w, x, j),
                );
            } else {
                assert(past::<O, P>(w, y, k) == past::<O, P>(w, x, k));
            }
        }
    }
}

/// Neighbours are independent exactly when the later one was enabled and did not conflict.
proof fn lemma_neighbours<O: Reliable, P: Process<Op = O::Op, Reply = O::Reply>>(
    w: WorldModel<O::Model, P::Model, P::Reply>,
    x: Word,
    a: ProcessID,
    c: ProcessID,
)
    requires
        rested::<O, P>(w),
        orderly::<O, P>(w),
    ensures
        neighbours(behaviour::<O, P>(w), history::<O, P>(w), x, a, c),
{
    let b = behaviour::<O, P>(w);
    let y = x.push(a);
    let z = y.push(c);
    if ok(b, z) && a != c {
        let n = x.len() as int;
        lemma_last::<O, P>(w, y, c);
        lemma_last::<O, P>(w, x, a);
        let v = world_after::<O, P>(w, x);
        assert(z.take(n) =~= x);
        assert(z.take(n + 1) =~= y);
        lemma_told::<O, P>(w, z, n, n + 1);
        lemma_after::<O, P>(w, x);
        lemma_seen::<O, P>(v, a, c);
        lemma_waits::<O, P>(v, a, c);
        lemma_offers::<O, P>(v.sched, v.objs, a);
        let oa = spot::<O>(v.objs, a);
        let oc = spot::<O>(v.objs, c);
        let e = O::essence(v.objs[oc]);
        let va = world_after::<O, P>(w, y);
        assert(O::essence(va.objs[oc]) == if oc == oa {
            O::does(e, wish::<O>(v.objs, a)).0
        } else {
            e
        });
        if offers::<O>(v.objs, c) {
            lemma_conflicting::<O, P>(v, a, c);
        }
        if oa == oc {
            assert(apart::<O>(v.objs));
            assert(O::wants(v.objs[oa], a) is Some && O::wants(v.objs[oa], c) is Some);
            assert(O::valid(v.objs[oa]));
            O::law_log(v.objs[oa], 0, 0);
            O::law_neighbours(e, past::<O, P>(w, x, oa), wish::<O>(v.objs, a), wish::<O>(v.objs, c));
        }
    }
}

/// Independent neighbours in either order: what each of them does is logged either way, and the
/// worlds afterwards are alike.
proof fn lemma_pair<O: Reliable, P: Process<Op = O::Op, Reply = O::Reply>>(
    w: WorldModel<O::Model, P::Model, P::Reply>,
    x: Word,
    a: ProcessID,
    c: ProcessID,
)
    requires
        rested::<O, P>(w),
        orderly::<O, P>(w),
        ok(behaviour::<O, P>(w), x + seq![a, c]),
        a != c,
        en(after(behaviour::<O, P>(w), x), c),
        !dep(after(behaviour::<O, P>(w), x), a, c),
    ensures
        ({
            let v = world_after::<O, P>(w, x);
            let oa = spot::<O>(v.objs, a);
            let oc = spot::<O>(v.objs, c);
            let pa = wish::<O>(v.objs, a);
            let pc = wish::<O>(v.objs, c);
            let l = x + seq![a, c];
            let r = x + seq![c, a];
            &&& ok(behaviour::<O, P>(w), r)
            &&& rested::<O, P>(v)
            &&& alike::<O, P>(world_after::<O, P>(w, l), world_after::<O, P>(w, r))
            &&& 0 <= oa < w.objs.len()
            &&& 0 <= oc < w.objs.len()
            &&& v.objs.len() == w.objs.len()
            &&& spot::<O>(world_after::<O, P>(w, x.push(a)).objs, c) == oc
            &&& spot::<O>(world_after::<O, P>(w, x.push(c)).objs, a) == oa
            &&& count::<O, P>(w, x.push(a), oc) == count::<O, P>(w, x, oc) + (if oa == oc {
                1int
            } else {
                0
            })
            &&& count::<O, P>(w, x.push(c), oa) == count::<O, P>(w, x, oa) + (if oa == oc {
                1int
            } else {
                0
            })
            &&& oa == oc ==> {
                &&& past::<O, P>(w, l, oa) == past::<O, P>(w, x, oa) + seq![O::deed(pa), O::deed(pc)]
                &&& past::<O, P>(w, r, oa) == past::<O, P>(w, x, oa) + seq![O::deed(pc), O::deed(pa)]
                &&& O::open(O::essence(v.objs[oa]), pa)
                &&& O::open(O::essence(v.objs[oa]), pc)
                &&& !O::clash(pa, pc)
                &&& !(O::lone(pa) && O::lone(pc))
            }
            &&& forall|k: int|
                0 <= k < w.objs.len() && !(oa == oc && k == oa) ==> #[trigger] past::<O, P>(w, l, k)
                    == past::<O, P>(w, r, k)
        }),
{
    let b = behaviour::<O, P>(w);
    let v = world_after::<O, P>(w, x);
    let l = x + seq![a, c];
    let r = x + seq![c, a];
    assert(l =~= x.push(a).push(c));
    assert(r =~= x.push(c).push(a));
    lemma_last::<O, P>(w, x.push(a), c);
    lemma_last::<O, P>(w, x, a);
    lemma_after::<O, P>(w, x);
    lemma_seen::<O, P>(v, a, c);
    lemma_step::<O, P>(v, c);
    assert(apart::<O>(v.objs));
    lemma_beside::<O, P>(v, a, c);
    lemma_beside::<O, P>(v, c, a);
    lemma_conflicting::<O, P>(v, a, c);
    lemma_after_push(b, x, c);
    lemma_after_push(b, x.push(c), a);
    lemma_after::<O, P>(w, x.push(c));
    lemma_world_push::<O, P>(w, x, c);
    lemma_step::<O, P>(stepped::<O, P>(v, c), a);
    lemma_last::<O, P>(w, x.push(c), a);
    lemma_last::<O, P>(w, x, c);
    lemma_diamond::<O, P>(v, a, c);
    lemma_objs_len::<O, P>(w, x);
    let oa = spot::<O>(v.objs, a);
    let oc = spot::<O>(v.objs, c);
    let va = world_after::<O, P>(w, x.push(a));
    let vc = world_after::<O, P>(w, x.push(c));
    assert(O::log(va.objs[oc]) == if oc == oa {
        O::log(v.objs[oc]).push((op_for::<O>(v.objs, a), O::deed(wish::<O>(v.objs, a))))
    } else {
        O::log(v.objs[oc])
    });
    assert(O::log(vc.objs[oa]) == if oa == oc {
        O::log(v.objs[oa]).push((op_for::<O>(v.objs, c), O::deed(wish::<O>(v.objs, c))))
    } else {
        O::log(v.objs[oa])
    });
    if oa == oc {
        lemma_offers::<O, P>(v.sched, v.objs, a);
        lemma_offers::<O, P>(v.sched, v.objs, c);
        assert(O::wants(v.objs[oa], a) is Some && O::wants(v.objs[oa], c) is Some);
        assert(past::<O, P>(w, l, oa) =~= past::<O, P>(w, x, oa) + seq![
            O::deed(wish::<O>(v.objs, a)),
            O::deed(wish::<O>(v.objs, c)),
        ]);
        assert(past::<O, P>(w, r, oa) =~= past::<O, P>(w, x, oa) + seq![
            O::deed(wish::<O>(v.objs, c)),
            O::deed(wish::<O>(v.objs, a)),
        ]);
    }
    assert forall|k: int|
        0 <= k < w.objs.len() && !(oa == oc && k == oa) implies #[trigger] past::<O, P>(w, l, k)
        == past::<O, P>(w, r, k) by {
        assert(k != oa ==> past::<O, P>(w, x.push(a), k) == past::<O, P>(w, x, k));
        assert(k != oc ==> past::<O, P>(w, x.push(c), k) == past::<O, P>(w, x, k));
    }
}

/// From worlds that are alike, a schedule logs the same operations.
proof fn lemma_same_log<O: Reliable, P: Process<Op = O::Op, Reply = O::Reply>>(
    w: WorldModel<O::Model, P::Model, P::Reply>,
    l: Word,
    r: Word,
    z: Word,
    k: int,
) -> (more: Seq<O::Deed>)
    requires
        rested::<O, P>(w),
        ok(behaviour::<O, P>(w), l + z),
        ok(behaviour::<O, P>(w), r + z),
        alike::<O, P>(world_after::<O, P>(w, l), world_after::<O, P>(w, r)),
        0 <= k < w.objs.len(),
    ensures
        alike::<O, P>(world_after::<O, P>(w, l + z), world_after::<O, P>(w, r + z)),
        past::<O, P>(w, l + z, k) == past::<O, P>(w, l, k) + more,
        past::<O, P>(w, r + z, k) == past::<O, P>(w, r, k) + more,
    decreases z.len(),
{
    if z.len() == 0 {
        assert(l + z =~= l);
        assert(r + z =~= r);
        assert(past::<O, P>(w, l, k) + Seq::<O::Deed>::empty() =~= past::<O, P>(w, l, k));
        assert(past::<O, P>(w, r, k) + Seq::<O::Deed>::empty() =~= past::<O, P>(w, r, k));
        Seq::empty()
    } else {
        let y = z.drop_last();
        let d = z.last();
        assert(l + z =~= (l + y).push(d));
        assert(r + z =~= (r + y).push(d));
        lemma_last::<O, P>(w, l + y, d);
        lemma_last::<O, P>(w, r + y, d);
        let more = lemma_same_log::<O, P>(w, l, r, y, k);
        let va = world_after::<O, P>(w, l + y);
        let vb = world_after::<O, P>(w, r + y);
        lemma_alike_offers::<O, P>(va, vb, d);
        lemma_alike_step::<O, P>(va, vb, d);
        lemma_objs_len::<O, P>(w, l + y);
        if k == spot::<O>(va.objs, d) {
            let op = O::deed(wish::<O>(va.objs, d));
            assert((past::<O, P>(w, l, k) + more).push(op) =~= past::<O, P>(w, l, k) + more.push(
                op,
            ));
            assert((past::<O, P>(w, r, k) + more).push(op) =~= past::<O, P>(w, r, k) + more.push(
                op,
            ));
            more.push(op)
        } else {
            assert(past::<O, P>(w, (l + y).push(d), k) == past::<O, P>(w, l + y, k));
            assert(past::<O, P>(w, (r + y).push(d), k) == past::<O, P>(w, r + y, k));
            more
        }
    }
}

/// Where an event stands in its log, when two independent neighbours have changed places.
proof fn lemma_event<O: Reliable, P: Process<Op = O::Op, Reply = O::Reply>>(
    w: WorldModel<O::Model, P::Model, P::Reply>,
    x: Word,
    a: ProcessID,
    c: ProcessID,
    z: Word,
    i: int,
)
    requires
        rested::<O, P>(w),
        orderly::<O, P>(w),
        ok(behaviour::<O, P>(w), x + seq![a, c] + z),
        ok(behaviour::<O, P>(w), x + seq![c, a] + z),
        a != c,
        en(after(behaviour::<O, P>(w), x), c),
        !dep(after(behaviour::<O, P>(w), x), a, c),
        0 <= i < x.len() + 2 + z.len(),
    ensures
        ({
            let l = x + seq![a, c] + z;
            let r = x + seq![c, a] + z;
            let v = world_after::<O, P>(w, x);
            let o = spot::<O>(v.objs, a);
            let both = o == spot::<O>(v.objs, c);
            let n = x.len() as int;
            let u = count::<O, P>(w, x, o);
            let j = swapped(n, i);
            let k = place::<O, P>(w, r, i);
            &&& place::<O, P>(w, l, j) == k
            &&& 0 <= k < w.objs.len()
            &&& !(both && k == o) ==> nth::<O, P>(w, l, j) == nth::<O, P>(w, r, i)
            &&& both && k == o ==> {
                &&& nth::<O, P>(w, l, j) == swapped(u, nth::<O, P>(w, r, i))
                &&& nth::<O, P>(w, r, i) == u <==> i == n
                &&& nth::<O, P>(w, r, i) == u + 1 <==> i == n + 1
            }
        }),
{
    let b = behaviour::<O, P>(w);
    let la = x + seq![a, c];
    let ra = x + seq![c, a];
    let l = la + z;
    let r = ra + z;
    let v = world_after::<O, P>(w, x);
    let o = spot::<O>(v.objs, a);
    let n = x.len() as int;
    let u = count::<O, P>(w, x, o);
    lemma_after_concat(b, la, z);
    lemma_after_concat(b, ra, z);
    lemma_pair::<O, P>(w, x, a, c);
    lemma_after_concat(b, x, seq![a, c]);
    if i < n {
        assert(l.take(i) =~= x.take(i));
        assert(r.take(i) =~= x.take(i));
        lemma_logged::<O, P>(w, x, i);
        lemma_grows::<O, P>(w, x, i, place::<O, P>(w, x, i));
    } else if i == n {
        assert(r.take(n) =~= x);
        assert(l.take(n + 1) =~= x.push(a));
    } else if i == n + 1 {
        assert(l.take(n) =~= x);
        assert(r.take(n + 1) =~= x.push(c));
    } else {
        let y = z.take(i - n - 2);
        let d = z[i - n - 2];
        assert(l.take(i) =~= la + y);
        assert(r.take(i) =~= ra + y);
        assert(l =~= (la + y) + z.skip(i - n - 2));
        assert(r =~= (ra + y) + z.skip(i - n - 2));
        lemma_after_concat(b, la + y, z.skip(i - n - 2));
        lemma_after_concat(b, ra + y, z.skip(i - n - 2));
        lemma_after::<O, P>(w, la + y);
        lemma_after::<O, P>(w, ra + y);
        let va = world_after::<O, P>(w, la + y);
        let vb = world_after::<O, P>(w, ra + y);
        lemma_rested_after::<O, P>(w, la + y);
        lemma_rested_after::<O, P>(w, ra + y);
        lemma_step::<O, P>(va, d);
        lemma_objs_len::<O, P>(w, la + y);
        let more0 = lemma_same_log::<O, P>(w, la, ra, y, 0);
        lemma_alike_offers::<O, P>(va, vb, d);
        let k = spot::<O>(vb.objs, d);
        let more = lemma_same_log::<O, P>(w, la, ra, y, k);
        assert(past::<O, P>(w, la + y, k).len() == count::<O, P>(w, la + y, k));
        assert(past::<O, P>(w, ra + y, k).len() == count::<O, P>(w, ra + y, k));
    }
}

/// Two events keep their conflict when two independent neighbours change places.
proof fn lemma_kept_by_swap<O: Reliable, P: Process<Op = O::Op, Reply = O::Reply>>(
    w: WorldModel<O::Model, P::Model, P::Reply>,
    x: Word,
    a: ProcessID,
    c: ProcessID,
    z: Word,
    i: int,
    j: int,
)
    requires
        rested::<O, P>(w),
        orderly::<O, P>(w),
    ensures
        kept_by_swap(behaviour::<O, P>(w), history::<O, P>(w), x, a, c, z, i, j),
{
    let b = behaviour::<O, P>(w);
    let la = x + seq![a, c];
    let ra = x + seq![c, a];
    let l = la + z;
    let r = ra + z;
    let n = x.len() as int;
    if ok(b, l) && a != c && en(after(b, x), c) && !dep(after(b, x), a, c) && 0 <= i < j < n + 2
        + z.len() && !(i == n && j == n + 1) {
        lemma_after_concat(b, la, z);
        lemma_pair::<O, P>(w, x, a, c);
        lemma_after::<O, P>(w, la);
        lemma_after::<O, P>(w, ra);
        lemma_rested_after::<O, P>(w, la);
        lemma_rested_after::<O, P>(w, ra);
        lemma_alike::<O, P>(
            world_after::<O, P>(w, la),
            world_after::<O, P>(w, ra),
        );
        lemma_after_concat(b, ra, z);
        lemma_event::<O, P>(w, x, a, c, z, i);
        lemma_event::<O, P>(w, x, a, c, z, j);
        let i2 = swapped(n, i);
        let j2 = swapped(n, j);
        lemma_told::<O, P>(w, r, i, j);
        lemma_told::<O, P>(w, l, i2, j2);
        let k = place::<O, P>(w, r, i);
        let v = world_after::<O, P>(w, x);
        let o = spot::<O>(v.objs, a);
        let more = lemma_same_log::<O, P>(w, la, ra, z, k);
        if k == place::<O, P>(w, r, j) && o == spot::<O>(v.objs, c) && k == o {
            lemma_order::<O, P>(w, r, i, j);
            lemma_logged::<O, P>(w, r, i);
            lemma_logged::<O, P>(w, r, j);
            assert(O::valid(v.objs[o]));
            O::law_log(v.objs[o], 0, 0);
            let u = past::<O, P>(w, x, o);
            assert(past::<O, P>(w, r, o).len() == u.len() + 2 + more.len());
            O::law_swap(
                O::essence(v.objs[o]),
                u,
                wish::<O>(v.objs, a),
                wish::<O>(v.objs, c),
                more,
                nth::<O, P>(w, r, i),
                nth::<O, P>(w, r, j),
            );
        }
    }
}

/// An orderly world of reliable objects judges its past as it judged it when it was the future.
pub proof fn lemma_faithful_world<O: Reliable, P: Process<Op = O::Op, Reply = O::Reply>>(
    w: WorldModel<O::Model, P::Model, P::Reply>,
)
    requires
        rested::<O, P>(w),
        orderly::<O, P>(w),
    ensures
        faithful(behaviour::<O, P>(w), history::<O, P>(w)),
{
    let b = behaviour::<O, P>(w);
    let h = history::<O, P>(w);
    assert forall|x: Word, c: ProcessID, i: int, j: int| #[trigger]
        settled_by(b, h, x, c, i, j) by {
        lemma_settled_by::<O, P>(w, x, c, i, j);
    }
    assert forall|x: Word, a: ProcessID, c: ProcessID, z: Word, i: int, j: int| #[trigger]
        kept_by_swap(b, h, x, a, c, z, i, j) by {
        lemma_kept_by_swap::<O, P>(w, x, a, c, z, i, j);
    }
    assert forall|x: Word, a: ProcessID, c: ProcessID| #[trigger] neighbours(b, h, x, a, c) by {
        lemma_neighbours::<O, P>(w, x, a, c);
    }
}

} // verus!
