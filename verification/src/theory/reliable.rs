//! Objects whose dependency relation can be relied on.
//!
//! What such an object does is a function of its *essence*, which leaves the numbering of its
//! operations out, and of the operation. Two operations that do not clash commute on every
//! essence; which operations of the past conflict is a function of the operations committed.

use vstd::prelude::*;

use crate::model::object::{Object, Transition};
use crate::model::process::ProcessID;
use crate::theory::history::swapped;

verus! {

/// What was done, according to a log.
pub open spec fn deeds<D>(log: Seq<(Transition, D)>) -> Seq<D> {
    Seq::new(log.len(), |i: int| log[i].1)
}

/// An object whose dependency relation tells the truth.
pub trait Reliable: Object {
    /// What the object's future depends on, besides the pending operations.
    type Essence;

    /// What is remembered of a committed operation.
    type Deed;

    /// What is remembered of an operation.
    spec fn deed(op: Self::Op) -> Self::Deed;

    /// The object's essence.
    spec fn essence(m: Self::Model) -> Self::Essence;

    /// The pending operation of a process.
    spec fn wants(m: Self::Model, p: ProcessID) -> Option<Self::Op>;

    /// How many operations have been registered.
    spec fn used(m: Self::Model) -> nat;

    /// The committed operations, in commit order.
    spec fn log(m: Self::Model) -> Seq<(Transition, Self::Deed)>;

    /// The operation is of the kind that the object performs.
    spec fn suits(c: Self::Essence, op: Self::Op) -> bool;

    /// The operation can commit.
    spec fn open(c: Self::Essence, op: Self::Op) -> bool;

    /// What the operation does to the essence, and what it hands back.
    spec fn does(c: Self::Essence, op: Self::Op) -> (Self::Essence, Self::Reply);

    /// Two pending operations conflict.
    spec fn clash(o1: Self::Op, o2: Self::Op) -> bool;

    /// The operation is meant for one process at a time.
    spec fn lone(op: Self::Op) -> bool;

    /// The `i`-th and the `j`-th of the committed operations conflict.
    spec fn clashed(past: Seq<Self::Deed>, i: int, j: int) -> bool;

    /// The essence is what the committed operations have made of it.
    spec fn agrees(c: Self::Essence, past: Seq<Self::Deed>) -> bool;

    /// Whose operations are pending, and which of them can commit.
    proof fn law_wants(m: Self::Model)
        requires
            Self::valid(m),
            forall|p: ProcessID| #[trigger] Self::holders(m).count(p) <= 1,
        ensures
            forall|p: ProcessID| #[trigger]
                Self::wants(m, p) is Some <==> Self::holders(m).count(p) == 1,
            forall|t: Transition| #[trigger]
                Self::ready(m).contains(t) ==> Self::wants(m, t.pid) is Some && Self::open(
                    Self::essence(m),
                    Self::wants(m, t.pid)->0,
                ),
            forall|p: ProcessID| #[trigger]
                Self::wants(m, p) is Some && Self::open(Self::essence(m), Self::wants(m, p)->0)
                    ==> exists|t: Transition| #[trigger] Self::ready(m).contains(t) && t.pid == p,
            forall|op: Self::Op| #[trigger]
                Self::takes(m, op) <==> Self::suits(Self::essence(m), op) && Self::used(m)
                    < usize::MAX,
    ;

    /// Registering an operation makes it pending, and changes nothing else.
    proof fn law_asked(m: Self::Model, p: ProcessID, op: Self::Op)
        requires
            Self::valid(m),
            Self::takes(m, op),
            Self::holders(m).count(p) == 0,
            forall|q: ProcessID| #[trigger] Self::holders(m).count(q) <= 1,
        ensures
            ({
                let n = Self::with_request(m, p, op);
                &&& Self::essence(n) == Self::essence(m)
                &&& Self::used(n) == Self::used(m) + 1
                &&& Self::log(n) == Self::log(m)
                &&& forall|q: ProcessID| #[trigger]
                    Self::wants(n, q) == if q == p {
                        Some(op)
                    } else {
                        Self::wants(m, q)
                    }
            }),
    ;

    /// Committing an operation does to the essence what the operation does.
    proof fn law_done(m: Self::Model, t: Transition)
        requires
            Self::valid(m),
            Self::ready(m).contains(t),
            forall|q: ProcessID| #[trigger] Self::holders(m).count(q) <= 1,
        ensures
            ({
                let op = Self::wants(m, t.pid)->0;
                let (n, reply) = Self::with_commit(m, t);
                &&& (Self::essence(n), reply) == Self::does(Self::essence(m), op)
                &&& Self::used(n) == Self::used(m)
                &&& Self::log(n) == Self::log(m).push((t, Self::deed(op)))
                &&& forall|q: ProcessID| #[trigger]
                    Self::wants(n, q) == if q == t.pid {
                        None
                    } else {
                        Self::wants(m, q)
                    }
            }),
    ;

    /// Ready operations conflict exactly when they clash.
    proof fn law_clash(m: Self::Model, t: Transition, u: Transition)
        requires
            Self::valid(m),
            Self::ready(m).contains(t),
            Self::ready(m).contains(u),
            forall|q: ProcessID| #[trigger] Self::holders(m).count(q) <= 1,
        ensures
            Self::conflict(m, t, u) == Self::clash(
                Self::wants(m, t.pid)->0,
                Self::wants(m, u.pid)->0,
            ),
    ;

    /// Committed operations conflict as the log says, and the log accounts for the essence.
    proof fn law_log(m: Self::Model, i: int, j: int)
        requires
            Self::valid(m),
        ensures
            Self::agrees(Self::essence(m), deeds(Self::log(m))),
            0 <= i < j < Self::log(m).len() ==> Self::conflict(
                m,
                Self::log(m)[i].0,
                Self::log(m)[j].0,
            ) == Self::clashed(deeds(Self::log(m)), i, j),
    ;

    /// An operation does not change which operations the object performs.
    proof fn law_suits(c: Self::Essence, op: Self::Op, other: Self::Op)
        ensures
            Self::suits(Self::does(c, op).0, other) == Self::suits(c, other),
    ;

    /// Two operations that can commit stay able to, and commute unless they clash.
    proof fn law_commute(c: Self::Essence, o1: Self::Op, o2: Self::Op)
        requires
            Self::open(c, o1),
            Self::open(c, o2),
            !(Self::lone(o1) && Self::lone(o2)),
        ensures
            Self::open(Self::does(c, o1).0, o2),
            Self::clash(o1, o2) == Self::clash(o2, o1),
            !Self::clash(o1, o2) ==> Self::does(Self::does(c, o1).0, o2).0 == Self::does(
                Self::does(c, o2).0,
                o1,
            ).0,
            !Self::clash(o1, o2) ==> Self::does(Self::does(c, o1).0, o2).1 == Self::does(c, o2).1,
    ;

    /// What each of two operations that do not clash enables, was enabled before.
    proof fn law_stable(c: Self::Essence, o1: Self::Op, o2: Self::Op, o3: Self::Op)
        requires
            Self::open(c, o1),
            Self::open(c, o2),
            !Self::clash(o1, o2),
            Self::open(Self::does(c, o1).0, o3),
            Self::open(Self::does(c, o2).0, o3),
        ensures
            Self::open(c, o3),
    ;

    /// Conflicts of the past stay.
    proof fn law_settled(past: Seq<Self::Deed>, d: Self::Deed, i: int, j: int)
        requires
            0 <= i < j < past.len(),
        ensures
            Self::clashed(past.push(d), i, j) == Self::clashed(past, i, j),
    ;

    /// Conflicts of the past do not depend on the order of operations that do not clash.
    proof fn law_swap(
        c: Self::Essence,
        past: Seq<Self::Deed>,
        o1: Self::Op,
        o2: Self::Op,
        more: Seq<Self::Deed>,
        i: int,
        j: int,
    )
        requires
            Self::agrees(c, past),
            Self::open(c, o1),
            Self::open(c, o2),
            !Self::clash(o1, o2),
            !(Self::lone(o1) && Self::lone(o2)),
            0 <= i < j < past.len() + 2 + more.len(),
            !(i == past.len() && j == past.len() + 1),
        ensures
            Self::clashed(past + seq![Self::deed(o2), Self::deed(o1)] + more, i, j) == Self::clashed(
                past + seq![Self::deed(o1), Self::deed(o2)] + more,
                swapped(past.len() as int, i),
                swapped(past.len() as int, j),
            ),
    ;

    /// Neighbours of the past conflict unless the later one could have committed first, and they
    /// did not clash.
    proof fn law_neighbours(c: Self::Essence, past: Seq<Self::Deed>, o1: Self::Op, o2: Self::Op)
        requires
            Self::agrees(c, past),
            Self::open(c, o1),
            Self::open(Self::does(c, o1).0, o2),
            !(Self::lone(o1) && Self::lone(o2)),
        ensures
            Self::clashed(
                past.push(Self::deed(o1)).push(Self::deed(o2)),
                past.len() as int,
                past.len() as int + 1,
            ) <==> !(
            Self::open(c, o2) && !Self::clash(o1, o2)),
    ;
}

} // verus!
