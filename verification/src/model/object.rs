//! The [`Object`] trait every synchronization primitive implements, and the
//! [`Transition`] a strategy picks.

use vstd::multiset::Multiset;
use vstd::prelude::*;

use crate::model::process::ProcessID;

verus! {

/// Index of an object in the world's object table; doubles as its identity.
pub type ObjectID = usize;

/// One schedulable step: process `pid` operating on object `oid`, with a per-object `seq`
/// that tells the operations registered on one object apart.
#[derive(Eq, PartialEq, Structural, Hash, Clone, Copy, Debug)]
pub struct Transition {
    /// The operating process.
    pub pid: ProcessID,
    /// The object operated on.
    pub oid: ObjectID,
    /// The operation's position in the object's registration order.
    pub seq: usize,
}

impl Transition {
    /// The operation that process `pid` registered on object `oid` as its `seq`-th.
    pub fn new(pid: ProcessID, oid: ObjectID, seq: usize) -> (t: Transition)
        ensures
            t == (Transition { pid, oid, seq }),
    {
        Transition { pid, oid, seq }
    }

    /// The operating process.
    pub fn pid(&self) -> (p: ProcessID)
        ensures
            p == self.pid,
    {
        self.pid
    }

    /// The object operated on.
    pub fn oid(&self) -> (o: ObjectID)
        ensures
            o == self.oid,
    {
        self.oid
    }
}

/// A synchronization primitive seen by the model: a state machine whose every observable
/// operation is a schedulable [`Transition`].
///
/// An operation is first registered, on behalf of the process that asked for it; it commits
/// when the strategy picks its transition. `depends` is the dependency relation that drives
/// the reduction: two transitions for which it is false commute. It is only ever asked about
/// transitions of this object; different objects are independent.
///
/// Each executable method is described by a function on the object's view, so that what an
/// object does can be replayed.
pub trait Object: Sized {
    /// The mathematical reading of the object.
    type Model;

    /// The operations this object performs.
    type Op;

    /// What a committed operation hands back to its process.
    type Reply;

    /// The object's mathematical reading.
    spec fn view(&self) -> Self::Model;

    /// The object's invariant.
    spec fn valid(m: Self::Model) -> bool;

    /// The identity the object was registered under.
    spec fn ident(m: Self::Model) -> ObjectID;

    /// The processes with a pending operation on the object, one occurrence per operation.
    spec fn holders(m: Self::Model) -> Multiset<ProcessID>;

    /// Whether the object can take one more operation, of the kind of `op`.
    spec fn takes(m: Self::Model, op: Self::Op) -> bool;

    /// The object after process `pid` registered `op`.
    spec fn with_request(m: Self::Model, pid: ProcessID, op: Self::Op) -> Self::Model;

    /// The transitions that can commit now, in registration order.
    spec fn ready(m: Self::Model) -> Seq<Transition>;

    /// The object after `t` committed, and what `t` hands back.
    spec fn with_commit(m: Self::Model, t: Transition) -> (Self::Model, Self::Reply);

    /// `t` was registered: it is pending or has committed.
    spec fn knows(m: Self::Model, t: Transition) -> bool;

    /// `t` has committed.
    spec fn has_committed(m: Self::Model, t: Transition) -> bool;

    /// Whether two transitions conflict.
    spec fn conflict(m: Self::Model, t1: Transition, t2: Transition) -> bool;

    /// The label of a committed transition.
    spec fn label_text(m: Self::Model, t: Transition) -> Seq<char>;

    /// Some operation of this object can be pending without being ready.
    spec fn can_block(m: Self::Model) -> bool;

    /// A ready transition is one of this object's, known, and held by its process; a process
    /// with two ready transitions holds two.
    proof fn law_ready(m: Self::Model)
        requires
            Self::valid(m),
        ensures
            Self::ready(m).no_duplicates(),
            forall|t: Transition| #[trigger]
                Self::ready(m).contains(t) ==> t.oid == Self::ident(m) && Self::knows(m, t)
                    && Self::holders(m).count(t.pid) >= 1,
            forall|t: Transition, u: Transition| #[trigger]
                Self::ready(m).contains(t) && #[trigger] Self::ready(m).contains(u) && t != u
                    && t.pid == u.pid ==> Self::holders(m).count(t.pid) >= 2,
            forall|t: Transition| #[trigger] Self::has_committed(m, t) ==> Self::knows(m, t),
    ;

    /// Registering an operation keeps the object valid and forgets nothing.
    proof fn law_request(m: Self::Model, pid: ProcessID, op: Self::Op)
        requires
            Self::valid(m),
            Self::takes(m, op),
        ensures
            Self::valid(Self::with_request(m, pid, op)),
            Self::ident(Self::with_request(m, pid, op)) == Self::ident(m),
            Self::holders(Self::with_request(m, pid, op)) == Self::holders(m).insert(pid),
            Self::can_block(Self::with_request(m, pid, op)) == Self::can_block(m),
            forall|t: Transition| #[trigger]
                Self::knows(m, t) ==> Self::knows(Self::with_request(m, pid, op), t),
            forall|t: Transition| #[trigger]
                Self::has_committed(Self::with_request(m, pid, op), t) <==> Self::has_committed(
                    m,
                    t,
                ),
    ;

    /// Committing a ready transition keeps the object valid, forgets nothing, and makes
    /// exactly that transition committed.
    proof fn law_commit(m: Self::Model, t: Transition)
        requires
            Self::valid(m),
            Self::ready(m).contains(t),
        ensures
            Self::valid(Self::with_commit(m, t).0),
            Self::ident(Self::with_commit(m, t).0) == Self::ident(m),
            Self::holders(Self::with_commit(m, t).0) == Self::holders(m).remove(t.pid),
            Self::can_block(Self::with_commit(m, t).0) == Self::can_block(m),
            forall|u: Transition| #[trigger]
                Self::knows(m, u) ==> Self::knows(Self::with_commit(m, t).0, u),
            forall|u: Transition| #[trigger]
                Self::has_committed(Self::with_commit(m, t).0, u) <==> Self::has_committed(m, u)
                    || u == t,
    ;

    /// Whether the object can take `op`.
    fn accepts(&self, op: &Self::Op) -> (b: bool)
        requires
            Self::valid(self@),
        ensures
            b == Self::takes(self@, *op),
    ;

    /// Registers `op` on behalf of process `pid`.
    fn register(&mut self, pid: ProcessID, op: Self::Op)
        requires
            Self::valid(old(self)@),
            Self::takes(old(self)@, op),
        ensures
            final(self)@ == Self::with_request(old(self)@, pid, op),
    ;

    /// Commits the pending operation `t`, returning what it hands back to its process.
    fn apply(&mut self, t: Transition) -> (reply: Self::Reply)
        requires
            Self::valid(old(self)@),
            Self::ready(old(self)@).contains(t),
        ensures
            (final(self)@, reply) == Self::with_commit(old(self)@, t),
    ;

    /// The transitions that can commit now.
    fn enabled(&self) -> (ts: Vec<Transition>)
        requires
            Self::valid(self@),
        ensures
            ts@ == Self::ready(self@),
    ;

    /// A human-readable label for a committed transition, e.g. `"load -> 123"`.
    fn label(&self, t: Transition) -> (s: String)
        requires
            Self::valid(self@),
            Self::has_committed(self@, t),
        ensures
            s@ == Self::label_text(self@, t),
    ;

    /// Whether two transitions conflict (do not commute).
    fn depends(&self, t1: Transition, t2: Transition) -> (b: bool)
        requires
            Self::valid(self@),
            Self::knows(self@, t1),
            Self::knows(self@, t2),
        ensures
            b == Self::conflict(self@, t1, t2),
    ;

    /// Whether this object can make a process wait for another one.
    fn may_block(&self) -> (b: bool)
        requires
            Self::valid(self@),
        ensures
            b == Self::can_block(self@),
    ;
}

} // verus!
