//! One object type for programs that use both primitives, and the handles that processes
//! address their operations with.

use std::marker::PhantomData;

use vstd::multiset::Multiset;
use vstd::prelude::*;

use crate::model::object::{Object, ObjectID, Transition};
use crate::model::process::{Outcome, Process, ProcessID};
use crate::model::world::{World, WorldModel};
use crate::sync::atomic;
use crate::sync::atomic::{Atomic, AtomicModel};
use crate::sync::channel;
use crate::sync::channel::{Channel, ChannelModel, Reply};
use crate::sync::request::Request;
use crate::sync::value::{Render, Value};

verus! {

/// A built-in primitive: an atomic cell of `A` values or a channel of `M` messages.
pub enum Shared<A: Value, M: Render> {
    /// An atomic cell.
    Atomic(Atomic<A>),
    /// A channel.
    Channel(Channel<M>),
}

/// The mathematical reading of a [`Shared`].
pub enum SharedModel<A, M> {
    /// An atomic cell.
    Atomic(AtomicModel<A>),
    /// A channel.
    Channel(ChannelModel<M>),
}

/// An operation on a built-in primitive.
pub enum SharedOp<A, M> {
    /// An operation on an atomic cell.
    Atomic(atomic::Op<A>),
    /// An operation on a channel.
    Channel(channel::Op<M>),
}

/// What a committed operation on a built-in primitive hands back.
pub enum Answer<A, M> {
    /// The value that an atomic operation observed at its commit.
    Observed(A),
    /// What a channel operation handed back.
    Channel(Reply<M>),
}

impl<A: Value, M: Render> Object for Shared<A, M> {
    type Model = SharedModel<A, M>;

    type Op = SharedOp<A, M>;

    type Reply = Answer<A, M>;

    open spec fn view(&self) -> SharedModel<A, M> {
        match *self {
            Shared::Atomic(a) => SharedModel::Atomic(a@),
            Shared::Channel(c) => SharedModel::Channel(c@),
        }
    }

    open spec fn valid(m: SharedModel<A, M>) -> bool {
        match m {
            SharedModel::Atomic(a) => Atomic::<A>::valid(a),
            SharedModel::Channel(c) => Channel::<M>::valid(c),
        }
    }

    open spec fn ident(m: SharedModel<A, M>) -> ObjectID {
        match m {
            SharedModel::Atomic(a) => Atomic::<A>::ident(a),
            SharedModel::Channel(c) => Channel::<M>::ident(c),
        }
    }

    open spec fn holders(m: SharedModel<A, M>) -> Multiset<ProcessID> {
        match m {
            SharedModel::Atomic(a) => Atomic::<A>::holders(a),
            SharedModel::Channel(c) => Channel::<M>::holders(c),
        }
    }

    open spec fn takes(m: SharedModel<A, M>, op: SharedOp<A, M>) -> bool {
        match (m, op) {
            (SharedModel::Atomic(a), SharedOp::Atomic(op)) => Atomic::<A>::takes(a, op),
            (SharedModel::Channel(c), SharedOp::Channel(op)) => Channel::<M>::takes(c, op),
            _ => false,
        }
    }

    open spec fn with_request(
        m: SharedModel<A, M>,
        pid: ProcessID,
        op: SharedOp<A, M>,
    ) -> SharedModel<A, M> {
        match (m, op) {
            (SharedModel::Atomic(a), SharedOp::Atomic(op)) => SharedModel::Atomic(
                Atomic::<A>::with_request(a, pid, op),
            ),
            (SharedModel::Channel(c), SharedOp::Channel(op)) => SharedModel::Channel(
                Channel::<M>::with_request(c, pid, op),
            ),
            _ => m,
        }
    }

    open spec fn ready(m: SharedModel<A, M>) -> Seq<Transition> {
        match m {
            SharedModel::Atomic(a) => Atomic::<A>::ready(a),
            SharedModel::Channel(c) => Channel::<M>::ready(c),
        }
    }

    open spec fn with_commit(m: SharedModel<A, M>, t: Transition) -> (
        SharedModel<A, M>,
        Answer<A, M>,
    ) {
        match m {
            SharedModel::Atomic(a) => {
                let (after, reply) = Atomic::<A>::with_commit(a, t);
                (SharedModel::Atomic(after), Answer::Observed(reply))
            },
            SharedModel::Channel(c) => {
                let (after, reply) = Channel::<M>::with_commit(c, t);
                (SharedModel::Channel(after), Answer::Channel(reply))
            },
        }
    }

    open spec fn knows(m: SharedModel<A, M>, t: Transition) -> bool {
        match m {
            SharedModel::Atomic(a) => Atomic::<A>::knows(a, t),
            SharedModel::Channel(c) => Channel::<M>::knows(c, t),
        }
    }

    open spec fn has_committed(m: SharedModel<A, M>, t: Transition) -> bool {
        match m {
            SharedModel::Atomic(a) => Atomic::<A>::has_committed(a, t),
            SharedModel::Channel(c) => Channel::<M>::has_committed(c, t),
        }
    }

    open spec fn conflict(m: SharedModel<A, M>, t1: Transition, t2: Transition) -> bool {
        match m {
            SharedModel::Atomic(a) => Atomic::<A>::conflict(a, t1, t2),
            SharedModel::Channel(c) => Channel::<M>::conflict(c, t1, t2),
        }
    }

    open spec fn label_text(m: SharedModel<A, M>, t: Transition) -> Seq<char> {
        match m {
            SharedModel::Atomic(a) => Atomic::<A>::label_text(a, t),
            SharedModel::Channel(c) => Channel::<M>::label_text(c, t),
        }
    }

    open spec fn can_block(m: SharedModel<A, M>) -> bool {
        m is Channel
    }

    proof fn law_ready(m: SharedModel<A, M>) {
        match m {
            SharedModel::Atomic(a) => {
                Atomic::<A>::law_ready(a);
                assert forall|t: Transition, u: Transition| #[trigger]
                    Self::ready(m).contains(t) && #[trigger] Self::ready(m).contains(u) && t != u
                        && t.pid == u.pid implies Self::holders(m).count(t.pid) >= 2 by {
                    assert(Atomic::<A>::ready(a).contains(t) && Atomic::<A>::ready(a).contains(u));
                }
                assert forall|t: Transition| #[trigger]
                    Self::has_committed(m, t) implies Self::knows(m, t) by {
                    assert(Atomic::<A>::has_committed(a, t));
                }
            },
            SharedModel::Channel(c) => {
                Channel::<M>::law_ready(c);
                assert forall|t: Transition, u: Transition| #[trigger]
                    Self::ready(m).contains(t) && #[trigger] Self::ready(m).contains(u) && t != u
                        && t.pid == u.pid implies Self::holders(m).count(t.pid) >= 2 by {
                    assert(Channel::<M>::ready(c).contains(t) && Channel::<M>::ready(c).contains(
                        u,
                    ));
                }
                assert forall|t: Transition| #[trigger]
                    Self::has_committed(m, t) implies Self::knows(m, t) by {
                    assert(Channel::<M>::has_committed(c, t));
                }
            },
        }
    }

    proof fn law_request(m: SharedModel<A, M>, pid: ProcessID, op: SharedOp<A, M>) {
        match (m, op) {
            (SharedModel::Atomic(a), SharedOp::Atomic(op)) => {
                Atomic::<A>::law_request(a, pid, op);
                let r = Atomic::<A>::with_request(a, pid, op);
                assert forall|t: Transition| #[trigger]
                    Self::knows(m, t) implies Atomic::<A>::knows(r, t) by {
                    assert(Atomic::<A>::knows(a, t));
                }
                assert forall|t: Transition|
                    Atomic::<A>::has_committed(r, t) <==> #[trigger] Self::has_committed(m, t) by {
                    assert(Atomic::<A>::has_committed(r, t) <==> Atomic::<A>::has_committed(a, t));
                }
            },
            (SharedModel::Channel(c), SharedOp::Channel(op)) => {
                Channel::<M>::law_request(c, pid, op);
                let r = Channel::<M>::with_request(c, pid, op);
                assert forall|t: Transition| #[trigger]
                    Self::knows(m, t) implies Channel::<M>::knows(r, t) by {
                    assert(Channel::<M>::knows(c, t));
                }
                assert forall|t: Transition|
                    Channel::<M>::has_committed(r, t) <==> #[trigger] Self::has_committed(m, t) by {
                    assert(Channel::<M>::has_committed(r, t) <==> Channel::<M>::has_committed(c, t));
                }
            },
            _ => {},
        }
    }

    proof fn law_commit(m: SharedModel<A, M>, t: Transition) {
        match m {
            SharedModel::Atomic(a) => {
                Atomic::<A>::law_commit(a, t);
                let r = Atomic::<A>::with_commit(a, t).0;
                assert forall|u: Transition| #[trigger]
                    Self::knows(m, u) implies Atomic::<A>::knows(r, u) by {
                    assert(Atomic::<A>::knows(a, u));
                }
                assert forall|u: Transition|
                    Atomic::<A>::has_committed(r, u) <==> #[trigger] Self::has_committed(m, u) || u
                        == t by {
                    assert(Atomic::<A>::has_committed(r, u) <==> Atomic::<A>::has_committed(a, u)
                        || u == t);
                }
            },
            SharedModel::Channel(c) => {
                Channel::<M>::law_commit(c, t);
                let r = Channel::<M>::with_commit(c, t).0;
                assert forall|u: Transition| #[trigger]
                    Self::knows(m, u) implies Channel::<M>::knows(r, u) by {
                    assert(Channel::<M>::knows(c, u));
                }
                assert forall|u: Transition|
                    Channel::<M>::has_committed(r, u) <==> #[trigger] Self::has_committed(m, u) || u
                        == t by {
                    assert(Channel::<M>::has_committed(r, u) <==> Channel::<M>::has_committed(c, u)
                        || u == t);
                }
            },
        }
    }

    fn accepts(&self, op: &SharedOp<A, M>) -> (b: bool) {
        match (self, op) {
            (Shared::Atomic(a), SharedOp::Atomic(op)) => a.accepts(op),
            (Shared::Channel(c), SharedOp::Channel(op)) => c.accepts(op),
            _ => false,
        }
    }

    fn register(&mut self, pid: ProcessID, op: SharedOp<A, M>) {
        match self {
            Shared::Atomic(a) => {
                if let SharedOp::Atomic(op) = op {
                    a.register(pid, op);
                }
            },
            Shared::Channel(c) => {
                if let SharedOp::Channel(op) = op {
                    c.register(pid, op);
                }
            },
        }
    }

    fn apply(&mut self, t: Transition) -> (reply: Answer<A, M>) {
        match self {
            Shared::Atomic(a) => Answer::Observed(a.apply(t)),
            Shared::Channel(c) => Answer::Channel(c.apply(t)),
        }
    }

    fn enabled(&self) -> (ts: Vec<Transition>) {
        match self {
            Shared::Atomic(a) => a.enabled(),
            Shared::Channel(c) => c.enabled(),
        }
    }

    fn label(&self, t: Transition) -> (s: String) {
        match self {
            Shared::Atomic(a) => a.label(t),
            Shared::Channel(c) => c.label(t),
        }
    }

    fn depends(&self, t1: Transition, t2: Transition) -> (b: bool) {
        match self {
            Shared::Atomic(a) => a.depends(t1, t2),
            Shared::Channel(c) => c.depends(t1, t2),
        }
    }

    fn may_block(&self) -> (b: bool) {
        matches!(self, Shared::Channel(_))
    }
}

/// A copyable handle to a shared atomic cell.
///
/// Every operation ([`store`](Handle::store), [`load`](Handle::load),
/// [`compare_exchange`](Handle::compare_exchange)) gives the [`Outcome`] that a process hands
/// back to register it and wait, turning the commit into a [`Transition`] the search strategy
/// schedules against other processes' operations on the same cell. The process is then
/// resumed with the value the cell held just before the commit, as [`Answer::Observed`].
pub struct Handle<T> {
    id: ObjectID,
    value: PhantomData<T>,
}

impl<T> Clone for Handle<T> {
    fn clone(&self) -> (c: Self)
        ensures
            c == *self,
    {
        Handle { id: self.id, value: PhantomData }
    }
}

impl<T> Copy for Handle<T> {

}

impl<T: Value> Handle<T> {
    /// The cell the handle stands for.
    pub closed spec fn cell(&self) -> ObjectID {
        self.id
    }

    /// A handle to the cell registered under `id`.
    pub fn new(id: ObjectID) -> (h: Self)
        ensures
            h.cell() == id,
    {
        Handle { id, value: PhantomData }
    }

    /// Writes `value` into the cell; the reply is the value it overwrote.
    pub fn store<M>(&self, value: T) -> (o: Outcome<SharedOp<T, M>>)
        ensures
            o == Outcome::<SharedOp<T, M>>::Request(
                self.cell(),
                SharedOp::Atomic(atomic::Op::Store(value)),
            ),
    {
        Outcome::Request(self.id, SharedOp::Atomic(atomic::Op::Store(value)))
    }

    /// Reads the cell's current value without modifying it. Two loads on the same cell are
    /// independent (they commute), so the search need not explore both of their orderings.
    pub fn load<M>(&self) -> (o: Outcome<SharedOp<T, M>>)
        ensures
            o == Outcome::<SharedOp<T, M>>::Request(
                self.cell(),
                SharedOp::Atomic(atomic::Op::Load),
            ),
    {
        Outcome::Request(self.id, SharedOp::Atomic(atomic::Op::Load))
    }

    /// Stores `new` if, at commit time, the cell still equals `current`. The reply is the
    /// value seen at commit; [`exchanged`] tells from it whether the swap happened.
    ///
    /// The operation is treated as a potential write, dependent with other writes and loads,
    /// even when the swap ultimately fails.
    pub fn compare_exchange<M>(&self, current: T, new: T) -> (o: Outcome<SharedOp<T, M>>)
        ensures
            o == Outcome::<SharedOp<T, M>>::Request(
                self.cell(),
                SharedOp::Atomic(atomic::Op::CompareExchange { current, new }),
            ),
    {
        Outcome::Request(self.id, SharedOp::Atomic(atomic::Op::CompareExchange { current, new }))
    }
}

/// The result of a compare-exchange that saw `prev`: `Ok(current)` if the swap happened,
/// `Err(actual)` otherwise.
pub fn exchanged<T: Value>(current: T, prev: T) -> (r: Result<T, T>)
    ensures
        r == (if prev == current {
            Ok::<T, T>(current)
        } else {
            Err::<T, T>(prev)
        }),
{
    if prev.same(&current) {
        Ok(prev)
    } else {
        Err(prev)
    }
}

/// The sending half of an MPSC channel; copyable, so several producers can share it.
pub struct Sender<T> {
    id: ObjectID,
    message: PhantomData<T>,
}

impl<T> Clone for Sender<T> {
    fn clone(&self) -> (c: Self)
        ensures
            c == *self,
    {
        Sender { id: self.id, message: PhantomData }
    }
}

impl<T> Copy for Sender<T> {

}

impl<T: Render> Sender<T> {
    /// The channel the half belongs to.
    pub closed spec fn channel(&self) -> ObjectID {
        self.id
    }

    /// Enqueues `value` at the back of the channel. The value is enqueued when the strategy
    /// selects this send's [`Transition`]. Always succeeds: the channel is unbounded.
    pub fn send<A>(&self, value: T) -> (o: Outcome<SharedOp<A, T>>)
        ensures
            o == Outcome::<SharedOp<A, T>>::Request(
                self.channel(),
                SharedOp::Channel(channel::Op::Send(value)),
            ),
    {
        Outcome::Request(self.id, SharedOp::Channel(channel::Op::Send(value)))
    }
}

/// The receiving half of an MPSC channel. Deliberately **not** copyable: the dependency
/// relation relies on there being a single consumer.
pub struct Receiver<T> {
    id: ObjectID,
    message: PhantomData<T>,
}

impl<T: Render> Receiver<T> {
    /// The channel the half belongs to.
    pub closed spec fn channel(&self) -> ObjectID {
        self.id
    }

    /// Removes the message at the front of the channel, blocking while it is empty. The reply
    /// is that message, as [`Reply::Received`].
    pub fn recv<A>(&self) -> (o: Outcome<SharedOp<A, T>>)
        ensures
            o == Outcome::<SharedOp<A, T>>::Request(
                self.channel(),
                SharedOp::Channel(channel::Op::Recv),
            ),
    {
        Outcome::Request(self.id, SharedOp::Channel(channel::Op::Recv))
    }
}

/// The two halves of the channel registered under `id`.
pub fn split<T: Render>(id: ObjectID) -> (r: (Sender<T>, Receiver<T>))
    ensures
        r.0.channel() == id,
        r.1.channel() == id,
{
    (Sender { id, message: PhantomData }, Receiver { id, message: PhantomData })
}

/// A fresh cell holding `value`.
pub open spec fn fresh_atomic<A, M>(id: ObjectID, value: A) -> SharedModel<A, M> {
    SharedModel::Atomic(
        AtomicModel { value, id, requests: Seq::empty(), history: Seq::empty(), seq: 0 },
    )
}

/// A fresh channel.
pub open spec fn fresh_channel<A, M>(id: ObjectID) -> SharedModel<A, M> {
    SharedModel::Channel(
        ChannelModel {
            id,
            seq: 0,
            queue: Seq::empty(),
            requests: Seq::empty(),
            history: Seq::empty(),
        },
    )
}

impl<A: Value, M: Render, P: Process<Op = SharedOp<A, M>, Reply = Answer<A, M>>> World<
    Shared<A, M>,
    P,
> {
    /// Creates a named shared atomic cell, returning a copyable handle whose `load` / `store` /
    /// `compare_exchange` operations are scheduling points.
    pub fn atomic(&mut self, name: &str, value: A) -> (h: Handle<A>)
        requires
            old(self).valid(),
            old(self)@.objs.len() < usize::MAX,
        ensures
            final(self).valid(),
            h.cell() == old(self)@.objs.len(),
            final(self)@ == (WorldModel {
                objs: old(self)@.objs.push(fresh_atomic(old(self)@.objs.len() as usize, value)),
                onames: old(self)@.onames.push(name@),
                ..old(self)@
            }),
    {
        let ghost before = self@;
        let build = |id: ObjectID| -> (o: Shared<A, M>)
            ensures
                o@ == fresh_atomic::<A, M>(id, value),
                Shared::<A, M>::valid(o@),
                Shared::<A, M>::holders(o@).len() == 0,
            { Shared::Atomic(Atomic::new(id, value)) };
        let id: ObjectID = self.register(name, build);
        assert(self@.objs =~= before.objs.push(fresh_atomic(id, value)));
        Handle::new(id)
    }

    /// Creates a named unbounded MPSC channel, returning a copyable [`Sender`]
    /// (multi-producer) and a single [`Receiver`]. Every `send` and `recv` is a scheduling
    /// point; a `recv` on an empty channel blocks.
    pub fn channel(&mut self, name: &str) -> (r: (Sender<M>, Receiver<M>))
        requires
            old(self).valid(),
            old(self)@.objs.len() < usize::MAX,
        ensures
            final(self).valid(),
            r.0.channel() == old(self)@.objs.len(),
            r.1.channel() == old(self)@.objs.len(),
            final(self)@ == (WorldModel {
                objs: old(self)@.objs.push(fresh_channel(old(self)@.objs.len() as usize)),
                onames: old(self)@.onames.push(name@),
                ..old(self)@
            }),
    {
        let ghost before = self@;
        let build = |id: ObjectID| -> (o: Shared<A, M>)
            ensures
                o@ == fresh_channel::<A, M>(id),
                Shared::<A, M>::valid(o@),
                Shared::<A, M>::holders(o@).len() == 0,
            { Shared::Channel(Channel::new(id)) };
        let id: ObjectID = self.register(name, build);
        assert(self@.objs =~= before.objs.push(fresh_channel(id)));
        split(id)
    }
}

} // verus!
