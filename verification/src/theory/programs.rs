//! Programs whose dependency relation can be relied on.

use vstd::prelude::*;

use crate::model::coherence::{
    coherent, holding, lemma_flush_coherent, lemma_poll_coherent, lemma_popped,
};
use crate::model::executor::{lemma_poll_spends, polled, settled, weight, ExecModel};
use crate::model::object::ObjectID;
use crate::model::process::{Process, ProcessID, Turn};
use crate::model::state::{lemma_started_sound, started};
use crate::model::world::{world_sound, WorldModel};
use crate::theory::behaviour::{ok, Word};
use crate::theory::commute::{apart, lemma_lawful_world, orderly};
use crate::theory::effect::{course, lemma_effect, lemma_single, outcome, reply, rested, single};
use crate::theory::program::{behaviour, dependable, offers, stepped, world_after};
use crate::theory::record::lemma_faithful_world;
use crate::theory::reliable::Reliable;

verus! {

/// The objects have room for every operation that the processes can ask for.
pub open spec fn roomy<O: Reliable, P: Process>(
    m: ExecModel<P::Model, P::Reply>,
    objs: Seq<O::Model>,
) -> bool {
    forall|k: int|
        0 <= k < objs.len() ==> O::used(#[trigger] objs[k]) + weight::<P>(m.procs) <= usize::MAX
}

/// The objects do not differ in their essence.
pub open spec fn same_essence<O: Reliable>(a: Seq<O::Model>, b: Seq<O::Model>) -> bool {
    &&& a.len() == b.len()
    &&& forall|k: int| 0 <= k < a.len() ==> #[trigger] O::essence(b[k]) == O::essence(a[k])
}

/// What an invariant of processes says: it is kept by every resume, and a process asks for an
/// operation that is meant for one process at a time only where it is that process.
pub open spec fn disciplined<O: Reliable, P: Process<Op = O::Op, Reply = O::Reply>>(
    good: spec_fn(ProcessID, P::Model) -> bool,
    owner: spec_fn(ObjectID) -> ProcessID,
) -> bool {
    forall|p: ProcessID, code: P::Model, answer: Option<P::Reply>|
        good(p, code) ==> {
            let (next, turn) = #[trigger] kept_turn::<P>(p, code, answer);
            &&& good(p, next)
            &&& turn matches Turn::Request(oid, op) ==> O::lone(op) ==> owner(oid) == p
        }
}

/// One resume of process `p`.
pub open spec fn kept_turn<P: Process>(p: ProcessID, code: P::Model, answer: Option<P::Reply>) -> (
    P::Model,
    Turn<P::Op>,
) {
    P::turn(code, answer)
}

/// The invariant holds of all processes, and operations that are meant for one process at a time
/// are pending for that process alone.
pub open spec fn owned<O: Reliable, P: Process<Op = O::Op, Reply = O::Reply>>(
    good: spec_fn(ProcessID, P::Model) -> bool,
    owner: spec_fn(ObjectID) -> ProcessID,
    m: ExecModel<P::Model, P::Reply>,
    objs: Seq<O::Model>,
) -> bool {
    &&& forall|p: ProcessID| m.is_live(p) ==> #[trigger] good(p, m.procs[p as int]->0)
    &&& forall|k: int, p: ProcessID|
        0 <= k < objs.len() && #[trigger] O::wants(objs[k], p) is Some && O::lone(
            O::wants(objs[k], p)->0,
        ) ==> owner(k as ObjectID) == p
}

/// A resume leaves room, and keeps the invariant.
proof fn lemma_polled<O: Reliable, P: Process<Op = O::Op, Reply = O::Reply>>(
    m: ExecModel<P::Model, P::Reply>,
    objs: Seq<O::Model>,
    id: ProcessID,
    good: spec_fn(ProcessID, P::Model) -> bool,
    owner: spec_fn(ObjectID) -> ProcessID,
)
    requires
        coherent::<O, P>(m, objs),
        m.is_live(id),
        m.replies.len() == m.procs.len(),
        holding::<O>(objs, id) == 0,
        roomy::<O, P>(m, objs),
    ensures
        ({
            let (h, objs2, turn) = polled::<O, P>(m, objs, id);
            &&& roomy::<O, P>(h, objs2)
            &&& same_essence::<O>(objs, objs2)
            &&& disciplined::<O, P>(good, owner) && owned::<O, P>(good, owner, m, objs)
                ==> owned::<O, P>(good, owner, h, objs2)
        }),
{
    let (h, objs2, turn) = polled::<O, P>(m, objs, id);
    lemma_poll_spends::<O, P>(m, objs, id);
    lemma_single::<O, P>(m, objs);
    if let Turn::Request(oid, op) = turn {
        if oid < objs.len() && O::takes(objs[oid as int], op) {
            let k = oid as int;
            assert(O::valid(objs[k]) && single::<O>(objs[k]));
            O::law_wants(objs[k]);
            assert(O::wants(objs[k], id) is None);
            O::law_asked(objs[k], id, op);
        }
    }
    assert forall|k: int| 0 <= k < objs2.len() implies O::used(#[trigger] objs2[k]) + weight::<P>(
        h.procs,
    ) <= usize::MAX by {
        assert(O::used(objs[k]) + weight::<P>(m.procs) <= usize::MAX);
    }
    if disciplined::<O, P>(good, owner) && owned::<O, P>(good, owner, m, objs) {
        assert(good(id, m.procs[id as int]->0));
        let (next, _) = kept_turn::<P>(id, m.procs[id as int]->0, m.replies[id as int]);
        assert forall|p: ProcessID| h.is_live(p) implies #[trigger] good(
            p,
            h.procs[p as int]->0,
        ) by {
            if p != id {
                assert(good(p, m.procs[p as int]->0));
            }
        }
        assert forall|k: int, p: ProcessID|
            0 <= k < objs2.len() && #[trigger] O::wants(objs2[k], p) is Some && O::lone(
                O::wants(objs2[k], p)->0,
            ) implies owner(k as ObjectID) == p by {
            assert(O::wants(objs[k], id) is None);
            if O::wants(objs[k], p) is Some && O::wants(objs2[k], p) == O::wants(objs[k], p) {
                assert(owner(k as ObjectID) == p);
            }
        }
    }
}

/// A run of the poll loop leaves room, and keeps the invariant.
proof fn lemma_settled<O: Reliable, P: Process<Op = O::Op, Reply = O::Reply>>(
    m: ExecModel<P::Model, P::Reply>,
    objs: Seq<O::Model>,
    good: spec_fn(ProcessID, P::Model) -> bool,
    owner: spec_fn(ObjectID) -> ProcessID,
)
    requires
        coherent::<O, P>(m, objs),
        roomy::<O, P>(m, objs),
    ensures
        ({
            let (h, objs2, failed) = settled::<O, P>(m, objs);
            &&& roomy::<O, P>(h, objs2)
            &&& same_essence::<O>(objs, objs2)
            &&& disciplined::<O, P>(good, owner) && owned::<O, P>(good, owner, m, objs)
                ==> owned::<O, P>(good, owner, h, objs2)
        }),
    decreases weight::<P>(m.procs),
{
    lemma_flush_coherent::<O, P>(m, objs);
    let f = m.flushed();
    if disciplined::<O, P>(good, owner) && owned::<O, P>(good, owner, m, objs) {
        assert(owned::<O, P>(good, owner, f, objs)) by {
            assert forall|p: ProcessID| f.is_live(p) implies #[trigger] good(
                p,
                f.procs[p as int]->0,
            ) by {
                assert(m.is_live(p));
            }
        }
    }
    if f.queue.len() > 0 {
        let id = f.queue[0];
        let g = ExecModel { queue: f.queue.drop_first(), ..f };
        lemma_popped::<O, P>(f, objs);
        if disciplined::<O, P>(good, owner) && owned::<O, P>(good, owner, m, objs) {
            assert(owned::<O, P>(good, owner, g, objs)) by {
                assert forall|p: ProcessID| g.is_live(p) implies #[trigger] good(
                    p,
                    g.procs[p as int]->0,
                ) by {
                    assert(f.is_live(p));
                }
            }
        }
        lemma_polled::<O, P>(g, objs, id, good, owner);
        lemma_poll_spends::<O, P>(g, objs, id);
        lemma_poll_coherent::<O, P>(g, objs, id);
        let (h, objs2, turn) = polled::<O, P>(g, objs, id);
        if !(turn is Failed) {
            lemma_settled::<O, P>(h, objs2, good, owner);
            let last = settled::<O, P>(h, objs2).1;
            assert forall|k: int| 0 <= k < objs.len() implies #[trigger] O::essence(last[k])
                == O::essence(objs[k]) by {
                assert(O::essence(objs2[k]) == O::essence(objs[k]));
            }
        }
    }
}

/// A program that starts without an error rests then.
pub proof fn lemma_started_rested<O: Reliable, P: Process<Op = O::Op, Reply = O::Reply>>(
    w: WorldModel<O::Model, P::Model, P::Reply>,
)
    requires
        world_sound::<O, P>(w),
        roomy::<O, P>(w.sched, w.objs),
        started::<O, P>(w).failure is None,
    ensures
        rested::<O, P>(started::<O, P>(w).world),
        same_essence::<O>(w.objs, started::<O, P>(w).world.objs),
{
    lemma_started_sound::<O, P>(w);
    let good = |p: ProcessID, code: P::Model| true;
    let owner = |k: ObjectID| 0 as ProcessID;
    lemma_settled::<O, P>(w.sched, w.objs, good, owner);
}

/// The dependency relation of an orderly program of reliable objects tells the truth.
pub proof fn lemma_dependable<O: Reliable, P: Process<Op = O::Op, Reply = O::Reply>>(
    w: WorldModel<O::Model, P::Model, P::Reply>,
)
    requires
        world_sound::<O, P>(w),
        roomy::<O, P>(w.sched, w.objs),
        orderly::<O, P>(started::<O, P>(w).world),
    ensures
        dependable::<O, P>(w),
{
    if started::<O, P>(w).failure is None {
        lemma_started_rested::<O, P>(w);
        lemma_lawful_world::<O, P>(started::<O, P>(w).world);
        lemma_faithful_world::<O, P>(started::<O, P>(w).world);
    }
}

/// A process stays in the invariant over a whole course.
proof fn lemma_course<O: Reliable, P: Process<Op = O::Op, Reply = O::Reply>>(
    good: spec_fn(ProcessID, P::Model) -> bool,
    owner: spec_fn(ObjectID) -> ProcessID,
    p: ProcessID,
    code: P::Model,
    answer: Option<P::Reply>,
)
    requires
        disciplined::<O, P>(good, owner),
        good(p, code),
    ensures
        ({
            let (next, turn) = course::<P>(code, answer);
            &&& good(p, next)
            &&& turn matches Turn::Request(oid, op) ==> O::lone(op) ==> owner(oid) == p
        }),
    decreases P::budget(code),
{
    let (next, turn) = kept_turn::<P>(p, code, answer);
    P::law_budget(code, answer);
    if turn is Yield {
        lemma_course::<O, P>(good, owner, p, next, None);
    }
}

/// The invariant is kept along every schedule.
proof fn lemma_owned_after<O: Reliable, P: Process<Op = O::Op, Reply = O::Reply>>(
    good: spec_fn(ProcessID, P::Model) -> bool,
    owner: spec_fn(ObjectID) -> ProcessID,
    w: WorldModel<O::Model, P::Model, P::Reply>,
    x: Word,
)
    requires
        rested::<O, P>(w),
        disciplined::<O, P>(good, owner),
        owned::<O, P>(good, owner, w.sched, w.objs),
    ensures
        owned::<O, P>(
            good,
            owner,
            world_after::<O, P>(w, x).sched,
            world_after::<O, P>(w, x).objs,
        ),
    decreases x.len(),
{
    if x.len() > 0 {
        let p = x[0];
        let next = stepped::<O, P>(w, p);
        if offers::<O>(w.objs, p) {
            lemma_effect::<O, P>(w, p);
            let (code, turn) = outcome::<O, P>(w, p);
            assert(good(p, w.sched.procs[p as int]->0));
            lemma_course::<O, P>(
                good,
                owner,
                p,
                w.sched.procs[p as int]->0,
                Some(reply::<O>(w.objs, p)),
            );
            assert forall|q: ProcessID| next.sched.is_live(q) implies #[trigger] good(
                q,
                next.sched.procs[q as int]->0,
            ) by {
                if q != p {
                    assert(good(q, w.sched.procs[q as int]->0));
                }
            }
            assert forall|k: int, q: ProcessID|
                0 <= k < next.objs.len() && #[trigger] O::wants(next.objs[k], q) is Some && O::lone(
                    O::wants(next.objs[k], q)->0,
                ) implies owner(k as ObjectID) == q by {
                if q != p {
                    assert(O::wants(w.objs[k], q) is Some);
                }
            }
        }
        lemma_owned_after::<O, P>(good, owner, next, x.drop_first());
    }
}

/// A program is orderly if its processes keep to an assignment of the operations that are meant
/// for one process at a time: a process asks for such an operation of an object only if the
/// object is assigned to it.
pub proof fn lemma_orderly<O: Reliable, P: Process<Op = O::Op, Reply = O::Reply>>(
    w: WorldModel<O::Model, P::Model, P::Reply>,
    good: spec_fn(ProcessID, P::Model) -> bool,
    owner: spec_fn(ObjectID) -> ProcessID,
)
    requires
        world_sound::<O, P>(w),
        roomy::<O, P>(w.sched, w.objs),
        started::<O, P>(w).failure is None,
        disciplined::<O, P>(good, owner),
        owned::<O, P>(good, owner, w.sched, w.objs),
    ensures
        orderly::<O, P>(started::<O, P>(w).world),
{
    let root = started::<O, P>(w).world;
    lemma_started_rested::<O, P>(w);
    lemma_settled::<O, P>(w.sched, w.objs, good, owner);
    assert forall|x: Word| ok(behaviour::<O, P>(root), x) implies apart::<O>(
        (#[trigger] world_after::<O, P>(root, x)).objs,
    ) by {
        lemma_owned_after::<O, P>(good, owner, root, x);
        let objs = world_after::<O, P>(root, x).objs;
        assert forall|k: int, p: ProcessID, q: ProcessID|
            0 <= k < objs.len() && p != q && #[trigger] O::wants(objs[k], p) is Some
                && #[trigger] O::wants(objs[k], q) is Some implies !(O::lone(
            O::wants(objs[k], p)->0,
        ) && O::lone(O::wants(objs[k], q)->0)) by {}
    }
}

} // verus!
