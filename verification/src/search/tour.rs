//! The states that the driver visits: each of them once, and with every state the states on the way
//! to it.

use vstd::prelude::*;

use crate::model::object::{Object, Transition};
use crate::model::process::Process;
use crate::model::state::{feasible, lemma_feasible_prefix, started};
use crate::model::world::{ready_all, WorldModel};
use crate::search::reversal::lemma_push_contains;
use crate::search::wakeup::Frame;
use crate::theory::traces::{finished, one_per_class, same_class};

verus! {

/// The states visited: the starting state first, schedules of the program alone, each of them
/// once, and with every state the states on the way to it.
pub open spec fn toured<O: Object, P: Process<Op = O::Op, Reply = O::Reply>>(
    w: WorldModel<O::Model, P::Model, P::Reply>,
    vs: Seq<Seq<Transition>>,
) -> bool {
    &&& vs.len() > 0
    &&& vs[0].len() == 0
    &&& vs.no_duplicates()
    &&& forall|i: int| 0 <= i < vs.len() ==> feasible::<O, P>(w, #[trigger] vs[i])
    &&& forall|i: int, m: int|
        0 <= i < vs.len() && 0 <= m <= vs[i].len() ==> vs.contains(#[trigger] vs[i].take(m))
}

/// The visited state `v`, if it lies below the prefix of length `m`, goes on with a process that
/// has been explored there or with the one that is under way.
pub open spec fn charted(
    v: Seq<Transition>,
    frames: Seq<Frame>,
    prefix: Seq<Transition>,
    m: int,
) -> bool {
    v.len() > m && v.take(m) == prefix.take(m) ==> frames[m].explored@.contains(v[m].pid)
        || m < prefix.len() && v[m].pid == prefix[m].pid
}

/// All visited states below the stack are accounted for.
pub open spec fn mapped(
    vs: Seq<Seq<Transition>>,
    frames: Seq<Frame>,
    prefix: Seq<Transition>,
) -> bool {
    forall|i: int, m: int|
        0 <= i < vs.len() && 0 <= m <= prefix.len() ==> #[trigger] charted(
            vs[i],
            frames,
            prefix,
            m,
        )
}

/// A state below the top of the stack, by a process not explored there, has not been visited.
pub proof fn lemma_unmapped(
    vs: Seq<Seq<Transition>>,
    frames: Seq<Frame>,
    prefix: Seq<Transition>,
    t: Transition,
)
    requires
        mapped(vs, frames, prefix),
        frames.len() == prefix.len() + 1,
        !frames.last().explored@.contains(t.pid),
    ensures
        !vs.contains(prefix.push(t)),
{
    if vs.contains(prefix.push(t)) {
        let i = choose|i: int| 0 <= i < vs.len() && vs[i] == prefix.push(t);
        let m = prefix.len() as int;
        assert(vs[i].take(m) =~= prefix.take(m));
        assert(charted(vs[i], frames, prefix, m));
    }
}

/// Descending keeps the visited states accounted for.
pub proof fn lemma_mapped_down<O: Object, P: Process<Op = O::Op, Reply = O::Reply>>(
    w: WorldModel<O::Model, P::Model, P::Reply>,
    vs: Seq<Seq<Transition>>,
    frames: Seq<Frame>,
    frames2: Seq<Frame>,
    prefix: Seq<Transition>,
    t: Transition,
)
    requires
        toured::<O, P>(w, vs),
        mapped(vs, frames, prefix),
        frames.len() == prefix.len() + 1,
        frames2.len() == frames.len() + 1,
        forall|m: int| 0 <= m < frames.len() ==> #[trigger] frames2[m] == frames[m],
        !vs.contains(prefix.push(t)),
    ensures
        mapped(vs.push(prefix.push(t)), frames2, prefix.push(t)),
{
    let e = prefix.push(t);
    let all = vs.push(e);
    assert forall|i: int, m: int| 0 <= i < all.len() && 0 <= m <= e.len() implies #[trigger] charted(
        all[i],
        frames2,
        e,
        m,
    ) by {
        let v = all[i];
        if v.len() > m && v.take(m) == e.take(m) {
            if i < vs.len() {
                if m == e.len() {
                    assert(vs.contains(vs[i].take(m)));
                    assert(e.take(m) =~= e);
                } else {
                    assert(e.take(m) =~= prefix.take(m));
                    assert(charted(vs[i], frames, prefix, m));
                    assert(frames2[m] == frames[m]);
                }
            }
        }
    }
}

/// Backing out keeps the visited states accounted for.
pub proof fn lemma_mapped_up(
    vs: Seq<Seq<Transition>>,
    frames: Seq<Frame>,
    frames2: Seq<Frame>,
    prefix: Seq<Transition>,
)
    requires
        mapped(vs, frames, prefix),
        prefix.len() > 0,
        frames.len() == prefix.len() + 1,
        frames2.len() == frames.len() - 1,
        forall|m: int| 0 <= m < prefix.len() - 1 ==> #[trigger] frames2[m] == frames[m],
        frames2.last().explored@ == frames[prefix.len() - 1].explored@.push(prefix.last().pid),
    ensures
        mapped(vs, frames2, prefix.drop_last()),
{
    let up = prefix.drop_last();
    let d = prefix.len() - 1;
    assert forall|i: int, m: int| 0 <= i < vs.len() && 0 <= m <= up.len() implies #[trigger] charted(
        vs[i],
        frames2,
        up,
        m,
    ) by {
        assert(up.take(m) =~= prefix.take(m));
        assert(charted(vs[i], frames, prefix, m));
        if m == d {
            lemma_push_contains(frames[d].explored@, prefix.last().pid);
        } else {
            assert(frames2[m] == frames[m]);
        }
    }
}

/// Visiting a state one step on from a visited one.
pub proof fn lemma_toured<O: Object, P: Process<Op = O::Op, Reply = O::Reply>>(
    w: WorldModel<O::Model, P::Model, P::Reply>,
    vs: Seq<Seq<Transition>>,
    prefix: Seq<Transition>,
    t: Transition,
)
    requires
        toured::<O, P>(w, vs),
        vs.contains(prefix),
        !vs.contains(prefix.push(t)),
        feasible::<O, P>(w, prefix.push(t)),
    ensures
        toured::<O, P>(w, vs.push(prefix.push(t))),
        vs.push(prefix.push(t)).contains(prefix.push(t)),
        forall|v: Seq<Transition>| #[trigger]
            vs.contains(v) ==> vs.push(prefix.push(t)).contains(v),
{
    let e = prefix.push(t);
    let all = vs.push(e);
    let k = choose|k: int| 0 <= k < vs.len() && vs[k] == prefix;
    assert(all[vs.len() as int] == e);
    assert forall|v: Seq<Transition>| #[trigger] vs.contains(v) implies all.contains(v) by {
        let i = choose|i: int| 0 <= i < vs.len() && vs[i] == v;
        assert(all[i] == v);
    }
    assert forall|i: int, m: int| 0 <= i < all.len() && 0 <= m <= all[i].len() implies all.contains(
        #[trigger] all[i].take(m),
    ) by {
        if i < vs.len() {
            assert(vs.contains(vs[i].take(m)));
        } else if m == e.len() {
            assert(e.take(m) =~= e);
        } else {
            assert(e.take(m) =~= vs[k].take(m));
            assert(vs.contains(vs[k].take(m)));
        }
    }
}

/// Visiting the starting state.
pub proof fn lemma_tour_start<O: Object, P: Process<Op = O::Op, Reply = O::Reply>>(
    w: WorldModel<O::Model, P::Model, P::Reply>,
    start: Seq<Transition>,
)
    requires
        start.len() == 0,
    ensures
        toured::<O, P>(w, seq![start]),
        seq![start].contains(start),
{
    let vs = seq![start];
    assert(vs[0] == start);
    assert forall|i: int, m: int| 0 <= i < vs.len() && 0 <= m <= vs[i].len() implies vs.contains(
        #[trigger] vs[i].take(m),
    ) by {
        assert(vs[i].take(m) =~= start);
    }
}

/// On the way to a visited state is a visited state.
pub proof fn lemma_on_tour<O: Object, P: Process<Op = O::Op, Reply = O::Reply>>(
    w: WorldModel<O::Model, P::Model, P::Reply>,
    vs: Seq<Seq<Transition>>,
    prefix: Seq<Transition>,
)
    requires
        toured::<O, P>(w, vs),
        vs.contains(prefix),
        prefix.len() > 0,
    ensures
        vs.contains(prefix.drop_last()),
{
    let k = choose|k: int| 0 <= k < vs.len() && vs[k] == prefix;
    assert(prefix.drop_last() =~= vs[k].take(prefix.len() - 1));
}

/// Where all classes are explored, all are visited.
pub proof fn lemma_all_visited<O: Object, P: Process<Op = O::Op, Reply = O::Reply>>(
    w: WorldModel<O::Model, P::Model, P::Reply>,
    vs: Seq<Seq<Transition>>,
    ts: Seq<Seq<Transition>>,
)
    requires
        toured::<O, P>(w, vs),
        forall|i: int| 0 <= i < ts.len() ==> vs.contains(#[trigger] ts[i]),
        ready_all::<O>(started::<O, P>(w).world.objs).len() > 0 ==> one_per_class::<O, P>(w, ts),
    ensures
        all_classes_visited::<O, P>(w, vs),
{
    assert forall|u: Seq<Transition>| #[trigger] finished::<O, P>(w, u) implies exists|i: int|
        0 <= i < vs.len() && same_class::<O, P>(w, #[trigger] vs[i], u) by {
        if ready_all::<O>(started::<O, P>(w).world.objs).len() > 0 {
            let k = choose|k: int| 0 <= k < ts.len() && same_class::<O, P>(w, #[trigger] ts[k], u);
            let i = choose|i: int| 0 <= i < vs.len() && vs[i] == ts[k];
            assert(same_class::<O, P>(w, vs[i], u));
        } else {
            if u.len() > 0 {
                lemma_feasible_prefix::<O, P>(w, u, 1);
                let first = u.take(1);
                assert(first.drop_last() =~= Seq::<Transition>::empty());
                assert(feasible::<O, P>(w, first));
            }
            assert(same_class::<O, P>(w, vs[0], u));
        }
    }
}

/// Every complete schedule that ends cleanly has a visited one of its class.
pub open spec fn all_classes_visited<O: Object, P: Process<Op = O::Op, Reply = O::Reply>>(
    w: WorldModel<O::Model, P::Model, P::Reply>,
    vs: Seq<Seq<Transition>>,
) -> bool {
    forall|u: Seq<Transition>| #[trigger]
        finished::<O, P>(w, u) ==> exists|i: int|
            0 <= i < vs.len() && same_class::<O, P>(w, #[trigger] vs[i], u)
}

} // verus!
