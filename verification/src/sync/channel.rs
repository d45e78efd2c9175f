//! An unbounded MPSC channel whose send / recv operations are scheduling points.
//!
//! Every operation registers itself and hands control back, so the search strategy decides
//! *when* each send or recv commits relative to operations on the same channel. Each commit is
//! a distinct scheduling point with a [`Transition`] the model checker can reorder.
//!
//! Operations are split into registration and commit exactly like those of an atomic cell: a
//! commit mutates the queue and answers the committing process. A recv registered against an
//! empty queue is withheld from the enabled set; that is how the consumer blocks, and a live
//! consumer with nothing enabled is a deadlock.

use std::collections::VecDeque;

use vstd::multiset::Multiset;
use vstd::prelude::*;

use crate::model::object::{Object, ObjectID, Transition};
use crate::model::process::ProcessID;
use crate::sync::laws::{awaits, law_channel_conflict, sends, took};
use crate::sync::request::{
    lemma_one_requester, lemma_push_multiset, lemma_remove_multiset, lemma_two_requesters,
    requesters, Request,
};
use crate::sync::value::{append_decimal, decimal, Render};

verus! {

/// An operation on a channel.
pub enum Op<T> {
    /// Enqueue a message.
    Send(T),
    /// Take the message at the front.
    Recv,
}

/// What a committed channel operation hands back.
pub enum Reply<T> {
    /// The message was enqueued.
    Sent,
    /// The message taken.
    Received(T),
}

/// The kind of an operation, for dependency tests. A recv carries the number of the send whose
/// message it consumed, `None` while it is pending.
pub enum Kind {
    /// A send.
    Send,
    /// A recv.
    Recv(Option<usize>),
}

/// A committed operation. The message is kept as printed, for labels.
pub enum Record {
    /// A send of the message shown.
    Send(String),
    /// A recv of the message shown, sent by the operation with the given number.
    Recv(usize, String),
}

/// The mathematical reading of a [`Record`].
pub enum Event {
    /// See [`Record::Send`].
    Send(Seq<char>),
    /// See [`Record::Recv`].
    Recv(usize, Seq<char>),
}

impl View for Record {
    type V = Event;

    open spec fn view(&self) -> Event {
        match *self {
            Record::Send(value) => Event::Send(value@),
            Record::Recv(consumed, value) => Event::Recv(consumed, value@),
        }
    }
}

/// The mathematical reading of a [`Channel`].
pub struct ChannelModel<T> {
    /// The channel's identity.
    pub id: ObjectID,
    /// How many operations have been registered.
    pub seq: nat,
    /// The messages sent and not yet received, each with the number of its send.
    pub queue: Seq<(usize, T)>,
    /// The pending operations, in registration order.
    pub requests: Seq<Request<Op<T>>>,
    /// The committed operations, in commit order.
    pub history: Seq<(Transition, Event)>,
}

/// The requests that can commit on a channel whose queue is as empty as said: sends never
/// block, a recv blocks while the queue is empty.
pub open spec fn unblocked<T>(requests: Seq<Request<Op<T>>>, empty: bool) -> Seq<Transition>
    decreases requests.len(),
{
    if requests.len() == 0 {
        Seq::empty()
    } else {
        let rest = unblocked(requests.drop_last(), empty);
        if requests.last().op is Send || !empty {
            rest.push(requests.last().transition)
        } else {
            rest
        }
    }
}

/// The label of a committed operation.
pub open spec fn event_text(e: Event) -> Seq<char> {
    match e {
        Event::Send(value) => "send "@ + value,
        Event::Recv(consumed, value) => "recv -> "@ + value + " (#"@ + decimal(consumed as nat)
            + ")"@,
    }
}

/// The messages sent, in the order of their commits: the number of the send, and the message as
/// printed.
pub open spec fn sent(history: Seq<(Transition, Event)>) -> Seq<(usize, Seq<char>)>
    decreases history.len(),
{
    if history.len() == 0 {
        Seq::empty()
    } else {
        let rest = sent(history.drop_last());
        match history.last().1 {
            Event::Send(value) => rest.push((history.last().0.seq, value)),
            Event::Recv(_, _) => rest,
        }
    }
}

/// The messages received, in the order of their commits.
pub open spec fn received(history: Seq<(Transition, Event)>) -> Seq<(usize, Seq<char>)>
    decreases history.len(),
{
    if history.len() == 0 {
        Seq::empty()
    } else {
        let rest = received(history.drop_last());
        match history.last().1 {
            Event::Send(_) => rest,
            Event::Recv(consumed, value) => rest.push((consumed, value)),
        }
    }
}

/// The messages in a queue, as printed.
pub open spec fn queued<T: Render>(queue: Seq<(usize, T)>) -> Seq<(usize, Seq<char>)> {
    Seq::new(queue.len(), |i: int| (queue[i].0, queue[i].1.text()))
}

impl<T: Render> ChannelModel<T> {
    /// `t` is pending.
    pub open spec fn pends(self, t: Transition) -> bool {
        exists|i: int| 0 <= i < self.requests.len() && #[trigger] self.requests[i].transition == t
    }

    /// `t` has committed.
    pub open spec fn committed(self, t: Transition) -> bool {
        exists|i: int| 0 <= i < self.history.len() && (#[trigger] self.history[i]).0 == t
    }

    /// The position of the pending operation `t`.
    pub open spec fn slot(self, t: Transition) -> int {
        choose|i: int| 0 <= i < self.requests.len() && #[trigger] self.requests[i].transition == t
    }

    /// The position of the committed operation `t`.
    pub open spec fn entry(self, t: Transition) -> int {
        choose|i: int| 0 <= i < self.history.len() && (#[trigger] self.history[i]).0 == t
    }

    /// The kind of `t`.
    pub open spec fn kind(self, t: Transition) -> Kind {
        if self.pends(t) {
            match self.requests[self.slot(t)].op {
                Op::Send(_) => Kind::Send,
                Op::Recv => Kind::Recv(None),
            }
        } else {
            match self.history[self.entry(t)].1 {
                Event::Send(_) => Kind::Send,
                Event::Recv(consumed, _) => Kind::Recv(Some(consumed)),
            }
        }
    }

    /// First in, first out: what has been received, followed by what is queued, is what has been
    /// sent.
    pub open spec fn fifo(self) -> bool {
        sent(self.history) == received(self.history) + queued(self.queue)
    }

    /// The operations are this channel's, and numbered apart, and messages come out in the order
    /// in which they went in.
    pub open spec fn sound(self) -> bool {
        &&& self.fifo()
        &&& self.seq <= usize::MAX
        &&& forall|i: int|
            0 <= i < self.requests.len() ==> (#[trigger] self.requests[i]).transition.oid
                == self.id && self.requests[i].transition.seq < self.seq
        &&& forall|i: int|
            0 <= i < self.history.len() ==> (#[trigger] self.history[i]).0.oid == self.id
                && self.history[i].0.seq < self.seq
        &&& forall|i: int, j: int|
            0 <= i < j < self.requests.len() ==> (#[trigger] self.requests[i]).transition.seq != (
            #[trigger] self.requests[j]).transition.seq
        &&& forall|i: int, j: int|
            0 <= i < j < self.history.len() ==> (#[trigger] self.history[i]).0.seq != (
            #[trigger] self.history[j]).0.seq
        &&& forall|i: int, j: int|
            0 <= i < self.requests.len() && 0 <= j < self.history.len() ==> (
            #[trigger] self.requests[i]).transition.seq != (#[trigger] self.history[j]).0.seq
    }

    /// The channel after process `pid` registered `op`.
    pub open spec fn requested(self, pid: ProcessID, op: Op<T>) -> Self {
        let transition = Transition { pid, oid: self.id, seq: self.seq as usize };
        ChannelModel {
            requests: self.requests.push(Request { transition, op }),
            seq: self.seq + 1,
            ..self
        }
    }

    /// The channel after the pending operation `t` committed, and what `t` hands back: a send
    /// enqueues its message, a recv takes the one at the front.
    pub open spec fn after(self, t: Transition) -> (Self, Reply<T>) {
        let i = self.slot(t);
        let requests = self.requests.remove(i);
        match self.requests[i].op {
            Op::Send(value) => (
                ChannelModel {
                    requests,
                    queue: self.queue.push((t.seq, value)),
                    history: self.history.push((t, Event::Send(value.text()))),
                    ..self
                },
                Reply::Sent,
            ),
            Op::Recv => (
                ChannelModel {
                    requests,
                    queue: self.queue.drop_first(),
                    history: self.history.push(
                        (t, Event::Recv(self.queue[0].0, self.queue[0].1.text())),
                    ),
                    ..self
                },
                Reply::Received(self.queue[0].1),
            ),
        }
    }
}

/// What is unblocked is requested; a recv among it needs a message.
pub(crate) proof fn lemma_unblocked<T>(requests: Seq<Request<Op<T>>>, empty: bool)
    ensures
        forall|t: Transition| #[trigger]
            unblocked(requests, empty).contains(t) <==> exists|i: int|
                0 <= i < requests.len() && #[trigger] requests[i].transition == t && (
                requests[i].op is Send || !empty),
    decreases requests.len(),
{
    if requests.len() > 0 {
        let init = requests.drop_last();
        let rest = unblocked(init, empty);
        lemma_unblocked(init, empty);
        assert forall|t: Transition| #[trigger]
            unblocked(requests, empty).contains(t) <==> exists|i: int|
                0 <= i < requests.len() && #[trigger] requests[i].transition == t && (
                requests[i].op is Send || !empty) by {
            let all = unblocked(requests, empty);
            if all.contains(t) {
                let k = choose|k: int| 0 <= k < all.len() && all[k] == t;
                if k < rest.len() {
                    assert(rest[k] == t);
                    assert(rest.contains(t));
                    let i = choose|i: int|
                        0 <= i < init.len() && #[trigger] init[i].transition == t && (
                        init[i].op is Send || !empty);
                    assert(requests[i].transition == t);
                } else {
                    assert(requests[requests.len() - 1].transition == t);
                }
            }
            if exists|i: int|
                0 <= i < requests.len() && #[trigger] requests[i].transition == t && (
                requests[i].op is Send || !empty) {
                let i = choose|i: int|
                    0 <= i < requests.len() && #[trigger] requests[i].transition == t && (
                    requests[i].op is Send || !empty);
                if i < init.len() {
                    assert(init[i].transition == t);
                    assert(rest.contains(t));
                    let k = choose|k: int| 0 <= k < rest.len() && rest[k] == t;
                    assert(all[k] == t);
                } else {
                    assert(all[all.len() - 1] == t);
                }
            }
        }
    }
}

proof fn lemma_unblocked_distinct<T>(requests: Seq<Request<Op<T>>>, empty: bool)
    requires
        forall|i: int, j: int|
            0 <= i < j < requests.len() ==> (#[trigger] requests[i]).transition.seq != (
            #[trigger] requests[j]).transition.seq,
    ensures
        unblocked(requests, empty).no_duplicates(),
    decreases requests.len(),
{
    if requests.len() > 0 {
        let init = requests.drop_last();
        let rest = unblocked(init, empty);
        lemma_unblocked_distinct(init, empty);
        lemma_unblocked(init, empty);
        assert forall|k: int| 0 <= k < rest.len() implies #[trigger] rest[k]
            != requests.last().transition by {
            assert(rest.contains(rest[k]));
            let i = choose|i: int|
                0 <= i < init.len() && #[trigger] init[i].transition == rest[k] && (
                init[i].op is Send || !empty);
            assert(requests[i].transition.seq != requests[requests.len() - 1].transition.seq);
        }
    }
}

/// Committing an operation that is not blocked keeps the messages in order.
proof fn lemma_fifo<T: Render>(m: ChannelModel<T>, t: Transition)
    requires
        m.fifo(),
        m.requests[m.slot(t)].op is Send || m.queue.len() != 0,
    ensures
        m.after(t).0.fifo(),
{
    let c = m.after(t).0;
    assert(c.history.drop_last() =~= m.history);
    match m.requests[m.slot(t)].op {
        Op::Send(value) => {
            assert(queued(c.queue) =~= queued(m.queue).push((t.seq, value.text())));
            assert(sent(c.history) =~= received(c.history) + queued(c.queue));
        },
        Op::Recv => {
            assert(queued(m.queue) =~= seq![(m.queue[0].0, m.queue[0].1.text())] + queued(c.queue));
            assert(sent(c.history) =~= received(c.history) + queued(c.queue));
        },
    }
}

/// An unbounded MPSC channel.
pub struct Channel<T: Render> {
    id: ObjectID,
    seq: usize,
    queue: VecDeque<(usize, T)>,
    requests: Vec<Request<Op<T>>>,
    history: Vec<(Transition, Record)>,
}

impl<T: Render> Channel<T> {
    /// An empty channel with no operation registered on it.
    pub fn new(id: ObjectID) -> (c: Self)
        ensures
            c@ == (ChannelModel {
                id,
                seq: 0,
                queue: Seq::<(usize, T)>::empty(),
                requests: Seq::<Request<Op<T>>>::empty(),
                history: Seq::<(Transition, Event)>::empty(),
            }),
            c@.sound(),
            requesters(c@.requests).len() == 0,
    {
        let c = Channel {
            id,
            seq: 0,
            queue: VecDeque::new(),
            requests: Vec::new(),
            history: Vec::new(),
        };
        proof {
            broadcast use vstd::seq_lib::group_to_multiset_ensures;

            assert(c@.history =~= Seq::empty());
            assert(queued(c@.queue) =~= Seq::empty());
            assert(c@.requests.map_values(|r: Request<Op<T>>| r.transition.pid) =~= Seq::empty());
        }
        c
    }

    /// The position of the pending operation `t`.
    fn position(&self, t: Transition) -> (i: Option<usize>)
        requires
            self@.sound(),
        ensures
            match i {
                Some(i) => i < self@.requests.len() && self@.requests[i as int].transition == t
                    && self@.slot(t) == i,
                None => !self@.pends(t),
            },
    {
        let mut i: usize = 0;
        while i < self.requests.len()
            invariant
                i <= self@.requests.len(),
                self@.sound(),
                forall|j: int| 0 <= j < i ==> (#[trigger] self@.requests[j]).transition != t,
            decreases self@.requests.len() - i,
        {
            if self.requests[i].transition == t {
                assert(self@.requests[i as int].transition == t);
                assert(self@.pends(t));
                return Some(i);
            }
            i = i + 1;
        }
        None
    }

    /// The position of the committed operation `t`.
    fn position_in_history(&self, t: Transition) -> (i: usize)
        requires
            self@.sound(),
            self@.committed(t),
        ensures
            i < self@.history.len(),
            self@.history[i as int].0 == t,
            self@.entry(t) == i,
    {
        let mut i: usize = 0;
        let n: usize = self.history.len();
        loop
            invariant
                i <= n,
                n == self@.history.len(),
                self@.sound(),
                self@.committed(t),
                forall|j: int| 0 <= j < i ==> (#[trigger] self@.history[j]).0 != t,
            decreases n - i,
        {
            assert(i < n);
            if self.history[i].0 == t {
                assert(self@.history[i as int].0 == t);
                return i;
            }
            i = i + 1;
        }
    }

    /// Resolves a transition's kind whether still pending or already committed; the search
    /// asks about a past transition against a process's next operation.
    fn kind_of(&self, t: Transition) -> (k: Kind)
        requires
            self@.sound(),
            self@.pends(t) || self@.committed(t),
        ensures
            k == self@.kind(t),
    {
        match self.position(t) {
            Some(i) => {
                match &self.requests[i].op {
                    Op::Send(_) => Kind::Send,
                    Op::Recv => Kind::Recv(None),
                }
            },
            None => {
                let i: usize = self.position_in_history(t);
                match &self.history[i].1 {
                    Record::Send(_) => Kind::Send,
                    Record::Recv(consumed, _) => Kind::Recv(Some(*consumed)),
                }
            },
        }
    }
}

/// Whether two operations of the given kinds, with the given numbers, conflict.
pub open spec fn kinds_conflict(k1: Kind, seq1: usize, k2: Kind, seq2: usize) -> bool {
    match (k1, k2) {
        (Kind::Send, Kind::Send) => true,
        (Kind::Recv(_), Kind::Recv(_)) => false,
        (Kind::Send, Kind::Recv(consumed)) => consumed == Some(seq1),
        (Kind::Recv(consumed), Kind::Send) => consumed == Some(seq2),
    }
}

impl<T: Render> Object for Channel<T> {
    type Model = ChannelModel<T>;

    type Op = Op<T>;

    type Reply = Reply<T>;

    closed spec fn view(&self) -> ChannelModel<T> {
        ChannelModel {
            id: self.id,
            seq: self.seq as nat,
            queue: self.queue@,
            requests: self.requests@,
            history: Seq::new(
                self.history@.len(),
                |i: int| (self.history@[i].0, self.history@[i].1@),
            ),
        }
    }

    open spec fn valid(m: ChannelModel<T>) -> bool {
        m.sound()
    }

    open spec fn ident(m: ChannelModel<T>) -> ObjectID {
        m.id
    }

    open spec fn holders(m: ChannelModel<T>) -> Multiset<ProcessID> {
        requesters(m.requests)
    }

    open spec fn takes(m: ChannelModel<T>, op: Op<T>) -> bool {
        m.seq < usize::MAX
    }

    open spec fn with_request(m: ChannelModel<T>, pid: ProcessID, op: Op<T>) -> ChannelModel<T> {
        m.requested(pid, op)
    }

    open spec fn ready(m: ChannelModel<T>) -> Seq<Transition> {
        unblocked(m.requests, m.queue.len() == 0)
    }

    open spec fn with_commit(m: ChannelModel<T>, t: Transition) -> (ChannelModel<T>, Reply<T>) {
        m.after(t)
    }

    open spec fn knows(m: ChannelModel<T>, t: Transition) -> bool {
        m.pends(t) || m.committed(t)
    }

    open spec fn has_committed(m: ChannelModel<T>, t: Transition) -> bool {
        m.committed(t)
    }

    /// Two sends into one FIFO are dependent (the single consumer reads them in enqueue order,
    /// so the order is observable). A send and a recv are dependent only when the recv consumed
    /// *this* send; a concurrent send appended behind the popped message commutes with the
    /// recv. Two recvs share the one consumer (program order handles them), and a pending recv
    /// has consumed nothing yet, so it is independent.
    open spec fn conflict(m: ChannelModel<T>, t1: Transition, t2: Transition) -> bool {
        kinds_conflict(m.kind(t1), t1.seq, m.kind(t2), t2.seq)
    }

    open spec fn label_text(m: ChannelModel<T>, t: Transition) -> Seq<char> {
        event_text(m.history[m.entry(t)].1)
    }

    open spec fn can_block(m: ChannelModel<T>) -> bool {
        true
    }

    proof fn law_ready(m: ChannelModel<T>) {
        let ready = Self::ready(m);
        lemma_unblocked(m.requests, m.queue.len() == 0);
        lemma_unblocked_distinct(m.requests, m.queue.len() == 0);
        assert forall|t: Transition| #[trigger] ready.contains(t) implies t.oid == m.id && m.pends(
            t,
        ) && requesters(m.requests).count(t.pid) >= 1 by {
            let i = choose|i: int|
                0 <= i < m.requests.len() && #[trigger] m.requests[i].transition == t;
            lemma_one_requester(m.requests, i);
        }
        assert forall|t: Transition, u: Transition| #[trigger]
            ready.contains(t) && #[trigger] ready.contains(u) && t != u && t.pid
                == u.pid implies requesters(m.requests).count(t.pid) >= 2 by {
            let i = choose|i: int|
                0 <= i < m.requests.len() && #[trigger] m.requests[i].transition == t;
            let j = choose|j: int|
                0 <= j < m.requests.len() && #[trigger] m.requests[j].transition == u;
            lemma_two_requesters(m.requests, i, j);
        }
    }

    proof fn law_request(m: ChannelModel<T>, pid: ProcessID, op: Op<T>) {
        let r = m.requested(pid, op);
        lemma_push_multiset(m.requests, r.requests.last());
        assert forall|t: Transition| #[trigger] Self::knows(m, t) implies Self::knows(r, t) by {
            if m.pends(t) {
                let i = m.slot(t);
                assert(r.requests[i].transition == t);
            } else {
                let i = m.entry(t);
                assert(r.history[i].0 == t);
            }
        }
        assert forall|t: Transition| #[trigger]
            Self::has_committed(r, t) <==> Self::has_committed(m, t) by {
            assert(r.history == m.history);
        }
    }

    proof fn law_commit(m: ChannelModel<T>, t: Transition) {
        let c = m.after(t).0;
        lemma_unblocked(m.requests, m.queue.len() == 0);
        let k = choose|i: int|
            0 <= i < m.requests.len() && #[trigger] m.requests[i].transition == t && (
            m.requests[i].op is Send || m.queue.len() != 0);
        let i = m.slot(t);
        lemma_fifo(m, t);
        lemma_remove_multiset(m.requests, i);
        assert forall|a: int| 0 <= a < c.requests.len() implies c.requests[a] == m.requests[if a < i {
            a
        } else {
            a + 1
        }] by {}
        assert(c.history[m.history.len() as int].0 == t);
        assert(forall|a: int| 0 <= a < m.history.len() ==> c.history[a] == m.history[a]);
        assert forall|u: Transition| #[trigger] Self::knows(m, u) implies Self::knows(c, u) by {
            if m.pends(u) {
                if u != t {
                    let j = m.slot(u);
                    assert(c.requests[if j < i {
                        j
                    } else {
                        j - 1
                    }].transition == u);
                }
            } else {
                let j = m.entry(u);
                assert(c.history[j].0 == u);
            }
        }
        assert forall|u: Transition| #[trigger]
            Self::has_committed(c, u) <==> Self::has_committed(m, u) || u == t by {
            if m.committed(u) {
                let j = m.entry(u);
                assert(c.history[j].0 == u);
            }
            if c.committed(u) {
                let j = c.entry(u);
                if j < m.history.len() {
                    assert(m.history[j].0 == u);
                }
            }
        }
    }

    fn accepts(&self, op: &Op<T>) -> (b: bool) {
        self.seq < usize::MAX
    }

    fn register(&mut self, pid: ProcessID, op: Op<T>)
        ensures
            final(self)@.requests == old(self)@.requests.push(
                Request {
                    transition: Transition {
                        pid,
                        oid: old(self)@.id,
                        seq: old(self)@.seq as usize,
                    },
                    op,
                },
            ),
            final(self)@.seq == old(self)@.seq + 1,
            final(self)@.queue == old(self)@.queue,
            final(self)@.history == old(self)@.history,
    {
        let transition = Transition::new(pid, self.id, self.seq);
        self.seq = self.seq + 1;
        self.requests.push(Request { transition, op });
    }

    /// Commits one pending operation: a send enqueues its message; a recv pops the head. Only
    /// the committing operation's process is woken; a blocked recv becomes selectable through
    /// `enabled` reading the queue.
    fn apply(&mut self, t: Transition) -> (reply: Reply<T>)
        ensures
            forall|i: int|
                0 <= i < old(self)@.requests.len() && (#[trigger] old(self)@.requests[i]).transition
                    == t ==> match old(self)@.requests[i].op {
                    Op::Send(value) => {
                        &&& reply is Sent
                        &&& final(self)@.queue == old(self)@.queue.push((t.seq, value))
                        &&& final(self)@.history == old(self)@.history.push(
                            (t, Event::Send(value.text())),
                        )
                    },
                    Op::Recv => {
                        let (number, value) = old(self)@.queue[0];
                        &&& old(self)@.queue.len() > 0
                        &&& reply == Reply::Received(value)
                        &&& final(self)@.queue == old(self)@.queue.drop_first()
                        &&& final(self)@.history == old(self)@.history.push(
                            (t, Event::Recv(number, value.text())),
                        )
                    },
                },
    {
        let ghost before = self@;
        proof {
            lemma_unblocked(before.requests, before.queue.len() == 0);
            let k = choose|i: int|
                0 <= i < before.requests.len() && #[trigger] before.requests[i].transition == t;
            assert(before.pends(t));
        }
        let found = self.position(t);
        let i: usize = match found {
            Some(i) => i,
            None => 0,
        };
        let req = self.requests.remove(i);
        match req.op {
            Op::Send(value) => {
                self.history.push((t, Record::Send(value.render())));
                self.queue.push_back((t.seq, value));
                assert(self@.history =~= before.history.push((t, Event::Send(value.text()))));
                Reply::Sent
            },
            Op::Recv => {
                proof {
                    let k = choose|i: int|
                        0 <= i < before.requests.len() && #[trigger] before.requests[i].transition
                            == t && (before.requests[i].op is Send || before.queue.len() != 0);
                    assert(k == i);
                }
                let head = self.queue.pop_front();
                match head {
                    Some((send_seq, value)) => {
                        self.history.push((t, Record::Recv(send_seq, value.render())));
                        assert(self@.history =~= before.history.push(
                            (t, Event::Recv(send_seq, value.text())),
                        ));
                        assert(self@.queue =~= before.queue.drop_first());
                        Reply::Received(value)
                    },
                    None => Reply::Sent,
                }
            },
        }
    }

    /// Sends never block; a recv blocks while the queue is empty. Insertion order is fixed for
    /// replay determinism.
    fn enabled(&self) -> (ts: Vec<Transition>) {
        let empty = self.queue.len() == 0;
        let mut ts: Vec<Transition> = Vec::new();
        let mut i: usize = 0;
        while i < self.requests.len()
            invariant
                i <= self@.requests.len(),
                empty == (self@.queue.len() == 0),
                ts@ == unblocked(self@.requests.take(i as int), empty),
            decreases self@.requests.len() - i,
        {
            let can_commit = match &self.requests[i].op {
                Op::Send(_) => true,
                Op::Recv => !empty,
            };
            if can_commit {
                ts.push(self.requests[i].transition);
            }
            proof {
                let next = self@.requests.take(i + 1);
                assert(next.drop_last() =~= self@.requests.take(i as int));
            }
            i = i + 1;
        }
        assert(self@.requests.take(i as int) =~= self@.requests);
        ts
    }

    fn label(&self, t: Transition) -> (s: String)
        ensures
            forall|i: int|
                0 <= i < self@.history.len() && (#[trigger] self@.history[i]).0 == t
                    ==> match self@.history[i].1 {
                    Event::Send(value) => s@ == "send "@ + value,
                    Event::Recv(number, value) => s@ == "recv -> "@ + value + " (#"@ + decimal(
                        number as nat,
                    ) + ")"@,
                },
    {
        proof {
            assert forall|i: int|
                0 <= i < self@.history.len() && (#[trigger] self@.history[i]).0 == t implies i
                == self@.entry(t) by {
                let k = self@.entry(t);
                if i < k {
                    assert(self@.history[i].0.seq != self@.history[k].0.seq);
                } else if k < i {
                    assert(self@.history[k].0.seq != self@.history[i].0.seq);
                }
            }
        }
        let i: usize = self.position_in_history(t);
        match &self.history[i].1 {
            Record::Send(value) => {
                let mut s = String::from_str("send ");
                s.append(value.as_str());
                s
            },
            Record::Recv(consumed, value) => {
                let mut s = String::from_str("recv -> ");
                s.append(value.as_str());
                s.append(" (#");
                append_decimal(&mut s, *consumed as u64);
                s.append(")");
                s
            },
        }
    }

    fn depends(&self, t1: Transition, t2: Transition) -> (b: bool)
        ensures
            sends(self@, t1) && sends(self@, t2) ==> b,
            sends(self@, t1) && awaits(self@, t2) || awaits(self@, t1) && sends(self@, t2) ==> !b,
            forall|n: usize| sends(self@, t1) && #[trigger] took(self@, t2, n) ==> b == (n == t1.seq),
            forall|n: usize| sends(self@, t2) && #[trigger] took(self@, t1, n) ==> b == (n == t2.seq),
            forall|n: usize, k: usize|
                (awaits(self@, t1) || #[trigger] took(self@, t1, n)) && (awaits(self@, t2)
                    || #[trigger] took(self@, t2, k)) ==> !b,
    {
        proof {
            law_channel_conflict(self@, t1, t2, 0, 0);
            law_channel_conflict(self@, t2, t1, 0, 0);
            assert forall|n: usize| sends(self@, t1) && #[trigger] took(self@, t2, n) implies (
            Self::conflict(self@, t1, t2) == (n == t1.seq)) by {
                law_channel_conflict(self@, t1, t2, n, n);
            }
            assert forall|n: usize| sends(self@, t2) && #[trigger] took(self@, t1, n) implies (
            Self::conflict(self@, t1, t2) == (n == t2.seq)) by {
                law_channel_conflict(self@, t2, t1, n, n);
            }
            assert forall|n: usize, k: usize|
                (awaits(self@, t1) || #[trigger] took(self@, t1, n)) && (awaits(self@, t2)
                    || #[trigger] took(self@, t2, k)) implies !Self::conflict(self@, t1, t2) by {
                law_channel_conflict(self@, t1, t2, n, k);
            }
        }
        match (self.kind_of(t1), self.kind_of(t2)) {
            (Kind::Send, Kind::Send) => true,
            (Kind::Recv(_), Kind::Recv(_)) => false,
            (Kind::Send, Kind::Recv(consumed)) => is_number(consumed, t1.seq),
            (Kind::Recv(consumed), Kind::Send) => is_number(consumed, t2.seq),
        }
    }

    fn may_block(&self) -> (b: bool) {
        true
    }
}

fn is_number(consumed: Option<usize>, seq: usize) -> (b: bool)
    ensures
        b == (consumed == Some(seq)),
{
    match consumed {
        Some(n) => n == seq,
        None => false,
    }
}

} // verus!
