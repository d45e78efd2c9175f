//! The built-in primitives can be relied on: operations that they call independent commute.

use vstd::prelude::*;

use crate::model::object::{Object, ObjectID, Transition};
use crate::model::process::{Process, ProcessID};
use crate::model::state::started;
use crate::model::world::{world_sound, WorldModel};
use crate::sync::atomic;
use crate::sync::atomic::{written, Atomic, AtomicModel};
use crate::sync::channel;
use crate::sync::channel::{
    kinds_conflict, lemma_unblocked, received, sent, Channel, ChannelModel, Event, Kind, Reply,
};
use crate::sync::request::{
    lemma_wanted, lemma_wanted_count, lemma_wanted_push, lemma_wanted_remove, one_each, requesters,
    wanted,
};
use crate::sync::shared::{Answer, Shared, SharedModel, SharedOp};
use crate::sync::value::{Render, Value};
use crate::theory::behaviour::{ok, Word};
use crate::theory::commute::apart;
use crate::theory::effect::{lemma_effect, rested};
use crate::theory::history::swapped;
use crate::theory::program::{behaviour, dependable, offers, stepped, world_after};
use crate::theory::programs::{
    disciplined, lemma_dependable, lemma_orderly, lemma_started_rested, owned, roomy,
};
use crate::theory::reliable::{deeds, Reliable};

verus! {

/// What the future of a primitive depends on: the value of a cell, or the messages in a channel.
pub enum SharedEssence<A, M> {
    /// The value of a cell.
    Atomic(A),
    /// The messages in a channel.
    Channel(Seq<M>),
}

/// What is remembered of a committed operation.
pub enum Deed {
    /// A load of a cell.
    Load,
    /// A store or a compare-exchange.
    Write,
    /// A send.
    Send,
    /// A recv.
    Recv,
}

/// How many of the first `n` deeds are `d`.
pub open spec fn tally(past: Seq<Deed>, d: Deed, n: int) -> nat
    decreases n,
{
    if n <= 0 {
        0
    } else {
        tally(past, d, n - 1) + if past[n - 1] == d {
            1nat
        } else {
            0nat
        }
    }
}

/// How many deeds of its kind came before the `i`-th.
pub open spec fn rank(past: Seq<Deed>, i: int) -> nat {
    tally(past, past[i], i)
}

/// Whether two deeds of one object conflict: loads do not, sends do, and a recv conflicts with
/// the send whose message it took.
pub open spec fn deeds_clash(past: Seq<Deed>, i: int, j: int) -> bool {
    match (past[i], past[j]) {
        (Deed::Load, Deed::Load) => false,
        (Deed::Recv, Deed::Recv) => false,
        (Deed::Send, Deed::Recv) => rank(past, i) == rank(past, j),
        (Deed::Recv, Deed::Send) => rank(past, i) == rank(past, j),
        _ => true,
    }
}

/// What was done by a committed channel operation.
pub open spec fn event_deed(e: Event) -> Deed {
    match e {
        Event::Send(_) => Deed::Send,
        Event::Recv(_, _) => Deed::Recv,
    }
}

/// What is remembered of an operation on a cell.
pub open spec fn atomic_deed<A>(op: atomic::Op<A>) -> Deed {
    if op is Load {
        Deed::Load
    } else {
        Deed::Write
    }
}

/// The log of a channel.
pub open spec fn channel_log(history: Seq<(Transition, Event)>) -> Seq<(Transition, Deed)> {
    Seq::new(history.len(), |i: int| (history[i].0, event_deed(history[i].1)))
}

/// The log of a cell.
pub open spec fn atomic_log<A>(history: Seq<atomic::Record<A>>) -> Seq<(Transition, Deed)> {
    Seq::new(history.len(), |i: int| (history[i].transition, atomic_deed(history[i].op)))
}

/// The messages in a queue.
pub open spec fn messages<M>(queue: Seq<(usize, M)>) -> Seq<M> {
    Seq::new(queue.len(), |i: int| queue[i].1)
}

/// Counting looks at the deeds counted alone.
proof fn lemma_tally_same(a: Seq<Deed>, b: Seq<Deed>, d: Deed, n: int)
    requires
        forall|i: int| 0 <= i < n ==> a[i] == b[i],
    ensures
        tally(a, d, n) == tally(b, d, n),
    decreases n,
{
    if n > 0 {
        lemma_tally_same(a, b, d, n - 1);
    }
}

/// Behind the place where two neighbours have changed places, as many deeds of each kind have
/// been done.
proof fn lemma_tally_swap(
    past: Seq<Deed>,
    d1: Deed,
    d2: Deed,
    more: Seq<Deed>,
    d: Deed,
    n: int,
)
    requires
        past.len() + 2 <= n <= past.len() + 2 + more.len(),
    ensures
        tally(past + seq![d2, d1] + more, d, n) == tally(past + seq![d1, d2] + more, d, n),
    decreases n,
{
    let x = past + seq![d1, d2] + more;
    let y = past + seq![d2, d1] + more;
    let m = past.len() as int;
    if n > m + 2 {
        lemma_tally_swap(past, d1, d2, more, d, n - 1);
        assert(x[n - 1] == y[n - 1]);
    } else {
        lemma_tally_same(x, y, d, m);
        assert(tally(x, d, m + 2) == tally(x, d, m + 1) + if x[m + 1] == d {
            1nat
        } else {
            0nat
        });
        assert(tally(y, d, m + 2) == tally(y, d, m + 1) + if y[m + 1] == d {
            1nat
        } else {
            0nat
        });
    }
}

/// The rank of a deed does not depend on the order of neighbours of different kinds.
proof fn lemma_rank_swap(past: Seq<Deed>, d1: Deed, d2: Deed, more: Seq<Deed>, i: int)
    requires
        0 <= i < past.len() + 2 + more.len(),
    ensures
        ({
            let x = past + seq![d1, d2] + more;
            let y = past + seq![d2, d1] + more;
            let j = swapped(past.len() as int, i);
            &&& y[i] == x[j]
            &&& d1 != d2 || i < past.len() || i >= past.len() + 2 ==> rank(y, i) == rank(x, j)
        }),
{
    let x = past + seq![d1, d2] + more;
    let y = past + seq![d2, d1] + more;
    let n = past.len() as int;
    lemma_tally_same(x, y, y[i], if i <= n { i } else { n });
    if i >= n + 2 {
        lemma_tally_swap(past, d1, d2, more, y[i], i);
    }
}

/// A send stands among the messages sent at its rank.
proof fn lemma_sent_rank(history: Seq<(Transition, Event)>, i: int)
    requires
        0 <= i < history.len(),
    ensures
        ({
            let past = deeds(channel_log(history));
            &&& sent(history).len() == tally(past, Deed::Send, history.len() as int)
            &&& received(history).len() == tally(past, Deed::Recv, history.len() as int)
            &&& history[i].1 is Send ==> rank(past, i) < sent(history).len() && sent(
                history,
            )[rank(past, i) as int].0 == history[i].0.seq
            &&& history[i].1 is Recv ==> rank(past, i) < received(history).len() && received(
                history,
            )[rank(past, i) as int].0 == history[i].1->Recv_0
        }),
    decreases history.len(),
{
    let init = history.drop_last();
    let n = init.len() as int;
    let past = deeds(channel_log(history));
    let before = deeds(channel_log(init));
    assert forall|k: int| 0 <= k < n implies before[k] == past[k] by {}
    lemma_tally_same(before, past, Deed::Send, n);
    lemma_tally_same(before, past, Deed::Recv, n);
    lemma_lens(init);
    if i < n {
        lemma_sent_rank(init, i);
        lemma_tally_same(before, past, past[i], i);
    }
}

proof fn lemma_lens(history: Seq<(Transition, Event)>)
    ensures
        sent(history).len() == tally(
            deeds(channel_log(history)),
            Deed::Send,
            history.len() as int,
        ),
        received(history).len() == tally(
            deeds(channel_log(history)),
            Deed::Recv,
            history.len() as int,
        ),
    decreases history.len(),
{
    if history.len() > 0 {
        let init = history.drop_last();
        let n = init.len() as int;
        let past = deeds(channel_log(history));
        let before = deeds(channel_log(init));
        assert forall|k: int| 0 <= k < n implies before[k] == past[k] by {}
        lemma_lens(init);
        lemma_tally_same(before, past, Deed::Send, n);
        lemma_tally_same(before, past, Deed::Recv, n);
    }
}

/// Sends of different ranks have different numbers.
proof fn lemma_sent_apart(history: Seq<(Transition, Event)>, a: int, b: int)
    requires
        forall|i: int, j: int|
            0 <= i < j < history.len() ==> (#[trigger] history[i]).0.seq != (
            #[trigger] history[j]).0.seq,
        0 <= a < b < sent(history).len(),
    ensures
        sent(history)[a].0 != sent(history)[b].0,
    decreases history.len(),
{
    let init = history.drop_last();
    assert forall|i: int, j: int| 0 <= i < j < init.len() implies (#[trigger] init[i]).0.seq != (
    #[trigger] init[j]).0.seq by {
        assert(history[i].0.seq != history[j].0.seq);
    }
    if b < sent(init).len() {
        lemma_sent_apart(init, a, b);
    } else {
        lemma_sent_from(init, a);
        let i = choose|i: int| 0 <= i < init.len() && (#[trigger] init[i]).0.seq == sent(init)[a].0;
        assert(history[i].0.seq != history[history.len() - 1].0.seq);
    }
}

/// Every message sent has the number of a committed operation.
proof fn lemma_sent_from(history: Seq<(Transition, Event)>, a: int)
    requires
        0 <= a < sent(history).len(),
    ensures
        exists|i: int|
            0 <= i < history.len() && (#[trigger] history[i]).0.seq == sent(history)[a].0,
    decreases history.len(),
{
    let init = history.drop_last();
    if a < sent(init).len() {
        lemma_sent_from(init, a);
        let i = choose|i: int| 0 <= i < init.len() && (#[trigger] init[i]).0.seq == sent(init)[a].0;
        assert(history[i].0.seq == sent(history)[a].0);
    } else {
        assert(history[history.len() - 1].0.seq == sent(history)[a].0);
    }
}

/// A channel's past conflicts as its log says.
proof fn lemma_channel_past<M: Render>(m: ChannelModel<M>, i: int, j: int)
    requires
        m.sound(),
        0 <= i < j < m.history.len(),
    ensures
        kinds_conflict(
            m.kind(m.history[i].0),
            m.history[i].0.seq,
            m.kind(m.history[j].0),
            m.history[j].0.seq,
        ) == deeds_clash(deeds(channel_log(m.history)), i, j),
{
    let past = deeds(channel_log(m.history));
    lemma_channel_kind(m, i);
    lemma_channel_kind(m, j);
    lemma_sent_rank(m.history, i);
    lemma_sent_rank(m.history, j);
    let a = rank(past, i) as int;
    let b = rank(past, j) as int;
    if m.history[i].1 is Send && m.history[j].1 is Recv {
        assert(sent(m.history)[b] == received(m.history)[b]);
        if a < b {
            lemma_sent_apart(m.history, a, b);
        } else if b < a {
            lemma_sent_apart(m.history, b, a);
        }
    }
    if m.history[i].1 is Recv && m.history[j].1 is Send {
        assert(sent(m.history)[a] == received(m.history)[a]);
        if a < b {
            lemma_sent_apart(m.history, a, b);
        } else if b < a {
            lemma_sent_apart(m.history, b, a);
        }
    }
}

/// The kind of a committed channel operation is as its history says.
proof fn lemma_channel_kind<M: Render>(m: ChannelModel<M>, i: int)
    requires
        m.sound(),
        0 <= i < m.history.len(),
    ensures
        m.kind(m.history[i].0) == match m.history[i].1 {
            Event::Send(_) => Kind::Send,
            Event::Recv(consumed, _) => Kind::Recv(Some(consumed)),
        },
{
    let t = m.history[i].0;
    if m.pends(t) {
        let k = m.slot(t);
        assert(m.requests[k].transition.seq != m.history[i].0.seq);
    }
    let e = m.entry(t);
    assert(m.history[e].0 == t);
    if e < i {
        assert(m.history[e].0.seq != m.history[i].0.seq);
    } else if i < e {
        assert(m.history[i].0.seq != m.history[e].0.seq);
    }
}

/// The operation of a committed transition of a cell is as its history says.
proof fn lemma_atomic_op<A>(m: AtomicModel<A>, i: int)
    requires
        m.sound(),
        0 <= i < m.history.len(),
    ensures
        m.op(m.history[i].transition) == m.history[i].op,
{
    let t = m.history[i].transition;
    if m.pends(t) {
        let k = m.slot(t);
        assert(m.requests[k].transition.seq != m.history[i].transition.seq);
    }
    let e = m.entry(t);
    assert(m.history[e].transition == t);
    if e < i {
        assert(m.history[e].transition.seq != m.history[i].transition.seq);
    } else if i < e {
        assert(m.history[i].transition.seq != m.history[e].transition.seq);
    }
}

impl<A: Value, M: Render> Reliable for Shared<A, M> {
    type Essence = SharedEssence<A, M>;

    type Deed = Deed;

    open spec fn deed(op: SharedOp<A, M>) -> Deed {
        match op {
            SharedOp::Atomic(op) => atomic_deed(op),
            SharedOp::Channel(channel::Op::Send(_)) => Deed::Send,
            SharedOp::Channel(channel::Op::Recv) => Deed::Recv,
        }
    }

    open spec fn essence(m: SharedModel<A, M>) -> SharedEssence<A, M> {
        match m {
            SharedModel::Atomic(a) => SharedEssence::Atomic(a.value),
            SharedModel::Channel(c) => SharedEssence::Channel(messages(c.queue)),
        }
    }

    open spec fn wants(m: SharedModel<A, M>, p: ProcessID) -> Option<SharedOp<A, M>> {
        match m {
            SharedModel::Atomic(a) => match wanted(a.requests, p) {
                Some(op) => Some(SharedOp::Atomic(op)),
                None => None,
            },
            SharedModel::Channel(c) => match wanted(c.requests, p) {
                Some(op) => Some(SharedOp::Channel(op)),
                None => None,
            },
        }
    }

    open spec fn used(m: SharedModel<A, M>) -> nat {
        match m {
            SharedModel::Atomic(a) => a.seq,
            SharedModel::Channel(c) => c.seq,
        }
    }

    open spec fn log(m: SharedModel<A, M>) -> Seq<(Transition, Deed)> {
        match m {
            SharedModel::Atomic(a) => atomic_log(a.history),
            SharedModel::Channel(c) => channel_log(c.history),
        }
    }

    open spec fn suits(c: SharedEssence<A, M>, op: SharedOp<A, M>) -> bool {
        match (c, op) {
            (SharedEssence::Atomic(_), SharedOp::Atomic(_)) => true,
            (SharedEssence::Channel(_), SharedOp::Channel(_)) => true,
            _ => false,
        }
    }

    open spec fn open(c: SharedEssence<A, M>, op: SharedOp<A, M>) -> bool {
        match (c, op) {
            (SharedEssence::Atomic(_), SharedOp::Atomic(_)) => true,
            (SharedEssence::Channel(_), SharedOp::Channel(channel::Op::Send(_))) => true,
            (SharedEssence::Channel(queue), SharedOp::Channel(channel::Op::Recv)) => queue.len()
                > 0,
            _ => false,
        }
    }

    open spec fn does(c: SharedEssence<A, M>, op: SharedOp<A, M>) -> (
        SharedEssence<A, M>,
        Answer<A, M>,
    ) {
        match (c, op) {
            (SharedEssence::Atomic(value), SharedOp::Atomic(op)) => (
                SharedEssence::Atomic(written(op, value)),
                Answer::Observed(value),
            ),
            (SharedEssence::Channel(queue), SharedOp::Channel(channel::Op::Send(message))) => (
                SharedEssence::Channel(queue.push(message)),
                Answer::Channel(Reply::Sent),
            ),
            (SharedEssence::Channel(queue), SharedOp::Channel(channel::Op::Recv)) => (
                SharedEssence::Channel(queue.drop_first()),
                Answer::Channel(Reply::Received(queue[0])),
            ),
            _ => (c, Answer::Channel(Reply::Sent)),
        }
    }

    open spec fn clash(o1: SharedOp<A, M>, o2: SharedOp<A, M>) -> bool {
        match (o1, o2) {
            (SharedOp::Atomic(o1), SharedOp::Atomic(o2)) => !(o1 is Load && o2 is Load),
            (SharedOp::Channel(o1), SharedOp::Channel(o2)) => o1 is Send && o2 is Send,
            _ => false,
        }
    }

    /// A channel has one consumer.
    open spec fn lone(op: SharedOp<A, M>) -> bool {
        op matches SharedOp::Channel(op) && op is Recv
    }

    open spec fn clashed(past: Seq<Deed>, i: int, j: int) -> bool {
        deeds_clash(past, i, j)
    }

    /// What is in a channel has been sent, and not received.
    open spec fn agrees(c: SharedEssence<A, M>, past: Seq<Deed>) -> bool {
        match c {
            SharedEssence::Atomic(_) => true,
            SharedEssence::Channel(queue) => queue.len() + tally(
                past,
                Deed::Recv,
                past.len() as int,
            ) == tally(past, Deed::Send, past.len() as int),
        }
    }

    proof fn law_wants(m: SharedModel<A, M>) {
        match m {
            SharedModel::Atomic(a) => {
                assert(one_each(a.requests)) by {
                    assert forall|p: ProcessID| #[trigger] requesters(a.requests).count(p) <= 1 by {
                        assert(Self::holders(m).count(p) <= 1);
                    }
                }
                assert forall|p: ProcessID| #[trigger]
                    Self::wants(m, p) is Some <==> Self::holders(m).count(p) == 1 by {
                    lemma_wanted_count(a.requests, p);
                }
                let ready = Atomic::<A>::ready(a);
                assert forall|t: Transition| #[trigger] Self::ready(m).contains(t) implies Self::wants(
                    m,
                    t.pid,
                ) is Some && Self::open(Self::essence(m), Self::wants(m, t.pid)->0) by {
                    let i = choose|i: int| 0 <= i < ready.len() && ready[i] == t;
                    lemma_wanted(a.requests, i);
                }
                assert forall|p: ProcessID| #[trigger]
                    Self::wants(m, p) is Some && Self::open(
                        Self::essence(m),
                        Self::wants(m, p)->0,
                    ) implies exists|t: Transition| #[trigger]
                    Self::ready(m).contains(t) && t.pid == p by {
                    let i = choose|i: int|
                        0 <= i < a.requests.len() && #[trigger] a.requests[i].transition.pid == p;
                    assert(ready[i] == a.requests[i].transition);
                    assert(Self::ready(m).contains(ready[i]));
                }
            },
            SharedModel::Channel(c) => {
                let empty = c.queue.len() == 0;
                lemma_unblocked(c.requests, empty);
                assert(one_each(c.requests)) by {
                    assert forall|p: ProcessID| #[trigger] requesters(c.requests).count(p) <= 1 by {
                        assert(Self::holders(m).count(p) <= 1);
                    }
                }
                assert forall|p: ProcessID| #[trigger]
                    Self::wants(m, p) is Some <==> Self::holders(m).count(p) == 1 by {
                    lemma_wanted_count(c.requests, p);
                }
                assert forall|t: Transition| #[trigger] Self::ready(m).contains(t) implies Self::wants(
                    m,
                    t.pid,
                ) is Some && Self::open(Self::essence(m), Self::wants(m, t.pid)->0) by {
                    let i = choose|i: int|
                        0 <= i < c.requests.len() && #[trigger] c.requests[i].transition == t && (
                        c.requests[i].op is Send || !empty);
                    lemma_wanted(c.requests, i);
                }
                assert forall|p: ProcessID| #[trigger]
                    Self::wants(m, p) is Some && Self::open(
                        Self::essence(m),
                        Self::wants(m, p)->0,
                    ) implies exists|t: Transition| #[trigger]
                    Self::ready(m).contains(t) && t.pid == p by {
                    let i = choose|i: int|
                        0 <= i < c.requests.len() && #[trigger] c.requests[i].transition.pid == p;
                    lemma_wanted(c.requests, i);
                    let t = c.requests[i].transition;
                    assert(Self::ready(m).contains(t));
                }
            },
        }
    }

    proof fn law_asked(m: SharedModel<A, M>, p: ProcessID, op: SharedOp<A, M>) {
        let n = Self::with_request(m, p, op);
        match (m, op) {
            (SharedModel::Atomic(a), SharedOp::Atomic(op)) => {
                let r = a.requested(p, op).requests.last();
                assert(one_each(a.requests)) by {
                    assert forall|q: ProcessID| #[trigger] requesters(a.requests).count(q) <= 1 by {
                        assert(Self::holders(m).count(q) <= 1);
                    }
                }
                assert forall|q: ProcessID| #[trigger]
                    wanted(a.requested(p, op).requests, q) == if q == p {
                        Some(op)
                    } else {
                        wanted(a.requests, q)
                    } by {
                    lemma_wanted_push(a.requests, r, q);
                }
            },
            (SharedModel::Channel(c), SharedOp::Channel(op)) => {
                let r = c.requested(p, op).requests.last();
                assert(one_each(c.requests)) by {
                    assert forall|q: ProcessID| #[trigger] requesters(c.requests).count(q) <= 1 by {
                        assert(Self::holders(m).count(q) <= 1);
                    }
                }
                assert forall|q: ProcessID| #[trigger]
                    wanted(c.requested(p, op).requests, q) == if q == p {
                        Some(op)
                    } else {
                        wanted(c.requests, q)
                    } by {
                    lemma_wanted_push(c.requests, r, q);
                }
            },
            _ => {},
        }
    }

    proof fn law_done(m: SharedModel<A, M>, t: Transition) {
        match m {
            SharedModel::Atomic(a) => {
                assert(one_each(a.requests)) by {
                    assert forall|q: ProcessID| #[trigger] requesters(a.requests).count(q) <= 1 by {
                        assert(Self::holders(m).count(q) <= 1);
                    }
                }
                let ready = Atomic::<A>::ready(a);
                let k = choose|i: int| 0 <= i < ready.len() && ready[i] == t;
                assert(a.requests[k].transition == t);
                let i = a.slot(t);
                lemma_wanted(a.requests, i);
                assert forall|q: ProcessID| #[trigger]
                    wanted(a.after(t).requests, q) == if q == t.pid {
                        None
                    } else {
                        wanted(a.requests, q)
                    } by {
                    lemma_wanted_remove(a.requests, i, q);
                }
                assert(atomic_log(a.after(t).history) =~= atomic_log(a.history).push(
                    (t, atomic_deed(a.requests[i].op)),
                ));
            },
            SharedModel::Channel(c) => {
                assert(one_each(c.requests)) by {
                    assert forall|q: ProcessID| #[trigger] requesters(c.requests).count(q) <= 1 by {
                        assert(Self::holders(m).count(q) <= 1);
                    }
                }
                let empty = c.queue.len() == 0;
                lemma_unblocked(c.requests, empty);
                let k = choose|i: int|
                    0 <= i < c.requests.len() && #[trigger] c.requests[i].transition == t && (
                    c.requests[i].op is Send || !empty);
                let i = c.slot(t);
                lemma_wanted(c.requests, i);
                lemma_wanted(c.requests, k);
                assert(c.requests[k].transition.pid == c.requests[i].transition.pid);
                let n = c.after(t).0;
                assert forall|q: ProcessID| #[trigger]
                    wanted(n.requests, q) == if q == t.pid {
                        None
                    } else {
                        wanted(c.requests, q)
                    } by {
                    lemma_wanted_remove(c.requests, i, q);
                }
                assert(channel_log(n.history) =~= channel_log(c.history).push(
                    (t, event_deed(n.history.last().1)),
                ));
                match c.requests[i].op {
                    channel::Op::Send(value) => {
                        assert(messages(n.queue) =~= messages(c.queue).push(value));
                    },
                    channel::Op::Recv => {
                        assert(messages(n.queue) =~= messages(c.queue).drop_first());
                    },
                }
            },
        }
    }

    proof fn law_clash(m: SharedModel<A, M>, t: Transition, u: Transition) {
        match m {
            SharedModel::Atomic(a) => {
                assert(one_each(a.requests)) by {
                    assert forall|q: ProcessID| #[trigger] requesters(a.requests).count(q) <= 1 by {
                        assert(Self::holders(m).count(q) <= 1);
                    }
                }
                let ready = Atomic::<A>::ready(a);
                let i = choose|i: int| 0 <= i < ready.len() && ready[i] == t;
                let j = choose|j: int| 0 <= j < ready.len() && ready[j] == u;
                assert(a.requests[i].transition == t && a.requests[j].transition == u);
                lemma_wanted(a.requests, a.slot(t));
                lemma_wanted(a.requests, a.slot(u));
            },
            SharedModel::Channel(c) => {
                assert(one_each(c.requests)) by {
                    assert forall|q: ProcessID| #[trigger] requesters(c.requests).count(q) <= 1 by {
                        assert(Self::holders(m).count(q) <= 1);
                    }
                }
                let empty = c.queue.len() == 0;
                lemma_unblocked(c.requests, empty);
                let i = choose|i: int|
                    0 <= i < c.requests.len() && #[trigger] c.requests[i].transition == t && (
                    c.requests[i].op is Send || !empty);
                let j = choose|i: int|
                    0 <= i < c.requests.len() && #[trigger] c.requests[i].transition == u && (
                    c.requests[i].op is Send || !empty);
                assert(c.requests[i].transition == t && c.requests[j].transition == u);
                lemma_wanted(c.requests, c.slot(t));
                lemma_wanted(c.requests, c.slot(u));
            },
        }
    }

    proof fn law_log(m: SharedModel<A, M>, i: int, j: int) {
        match m {
            SharedModel::Atomic(a) => {
                if 0 <= i < j < a.history.len() {
                    lemma_atomic_op(a, i);
                    lemma_atomic_op(a, j);
                }
            },
            SharedModel::Channel(c) => {
                lemma_lens(c.history);
                if 0 <= i < j < c.history.len() {
                    lemma_channel_past(c, i, j);
                }
            },
        }
    }

    proof fn law_suits(c: SharedEssence<A, M>, op: SharedOp<A, M>, other: SharedOp<A, M>) {
    }

    proof fn law_commute(c: SharedEssence<A, M>, o1: SharedOp<A, M>, o2: SharedOp<A, M>) {
        if let SharedEssence::Channel(queue) = c {
            match (o1, o2) {
                (
                    SharedOp::Channel(channel::Op::Send(message)),
                    SharedOp::Channel(channel::Op::Recv),
                ) => {
                    assert(queue.push(message).drop_first() =~= queue.drop_first().push(message));
                },
                (
                    SharedOp::Channel(channel::Op::Recv),
                    SharedOp::Channel(channel::Op::Send(message)),
                ) => {
                    assert(queue.push(message).drop_first() =~= queue.drop_first().push(message));
                },
                _ => {},
            }
        }
    }

    proof fn law_stable(
        c: SharedEssence<A, M>,
        o1: SharedOp<A, M>,
        o2: SharedOp<A, M>,
        o3: SharedOp<A, M>,
    ) {
    }

    proof fn law_settled(past: Seq<Deed>, d: Deed, i: int, j: int) {
        lemma_tally_same(past, past.push(d), past[i], i);
        lemma_tally_same(past, past.push(d), past[j], j);
    }

    proof fn law_swap(
        c: SharedEssence<A, M>,
        past: Seq<Deed>,
        o1: SharedOp<A, M>,
        o2: SharedOp<A, M>,
        more: Seq<Deed>,
        i: int,
        j: int,
    ) {
        lemma_rank_swap(past, Self::deed(o1), Self::deed(o2), more, i);
        lemma_rank_swap(past, Self::deed(o1), Self::deed(o2), more, j);
    }

    proof fn law_neighbours(
        c: SharedEssence<A, M>,
        past: Seq<Deed>,
        o1: SharedOp<A, M>,
        o2: SharedOp<A, M>,
    ) {
        let n = past.len() as int;
        let d1 = Self::deed(o1);
        let d2 = Self::deed(o2);
        let all = past.push(d1).push(d2);
        assert(all[n] == d1);
        assert(all[n + 1] == d2);
        lemma_tally_same(past, all, d1, n);
        lemma_tally_same(past, all, d2, n);
        assert(tally(all, d2, n + 1) == tally(all, d2, n) + if all[n] == d2 {
            1nat
        } else {
            0nat
        });
    }
}

/// All objects are atomic cells.
pub open spec fn all_cells<A: Value, M: Render>(objs: Seq<SharedModel<A, M>>) -> bool {
    forall|k: int| 0 <= k < objs.len() ==> #[trigger] objs[k] is Atomic
}

/// Cells stay cells along every schedule.
proof fn lemma_cells_after<A, M, P>(
    w: WorldModel<SharedModel<A, M>, P::Model, P::Reply>,
    x: Word,
) where A: Value, M: Render, P: Process<Op = SharedOp<A, M>, Reply = Answer<A, M>>
    requires
        rested::<Shared<A, M>, P>(w),
        all_cells::<A, M>(w.objs),
    ensures
        all_cells::<A, M>(world_after::<Shared<A, M>, P>(w, x).objs),
    decreases x.len(),
{
    if x.len() > 0 {
        let p = x[0];
        let next = stepped::<Shared<A, M>, P>(w, p);
        if offers::<Shared<A, M>>(w.objs, p) {
            lemma_effect::<Shared<A, M>, P>(w, p);
            assert forall|k: int| 0 <= k < next.objs.len() implies #[trigger] next.objs[k] is Atomic by {
                assert(w.objs[k] is Atomic);
                assert(Shared::<A, M>::essence(next.objs[k]) is Atomic);
            }
        }
        lemma_cells_after::<A, M, P>(next, x.drop_first());
    }
}

/// Programs that share atomic cells alone can be relied on.
pub proof fn lemma_cells_dependable<A, M, P>(
    w: WorldModel<SharedModel<A, M>, P::Model, P::Reply>,
) where A: Value, M: Render, P: Process<Op = SharedOp<A, M>, Reply = Answer<A, M>>
    requires
        world_sound::<Shared<A, M>, P>(w),
        roomy::<Shared<A, M>, P>(w.sched, w.objs),
        all_cells::<A, M>(w.objs),
    ensures
        dependable::<Shared<A, M>, P>(w),
{
    let root = started::<Shared<A, M>, P>(w).world;
    if started::<Shared<A, M>, P>(w).failure is None {
        lemma_started_rested::<Shared<A, M>, P>(w);
        assert(all_cells::<A, M>(root.objs)) by {
            assert forall|k: int| 0 <= k < root.objs.len() implies #[trigger] root.objs[k] is Atomic by {
                assert(w.objs[k] is Atomic);
                assert(Shared::<A, M>::essence(root.objs[k]) is Atomic);
            }
        }
        assert forall|x: Word| ok(behaviour::<Shared<A, M>, P>(root), x) implies apart::<
            Shared<A, M>,
        >((#[trigger] world_after::<Shared<A, M>, P>(root, x)).objs) by {
            lemma_cells_after::<A, M, P>(root, x);
            let objs = world_after::<Shared<A, M>, P>(root, x).objs;
            assert forall|k: int, p: ProcessID, q: ProcessID|
                0 <= k < objs.len() && p != q && #[trigger] Shared::<A, M>::wants(
                    objs[k],
                    p,
                ) is Some && #[trigger] Shared::<A, M>::wants(objs[k], q) is Some implies !(
            Shared::<A, M>::lone(Shared::<A, M>::wants(objs[k], p)->0) && Shared::<A, M>::lone(
                Shared::<A, M>::wants(objs[k], q)->0,
            )) by {
                assert(objs[k] is Atomic);
            }
        }
        lemma_dependable::<Shared<A, M>, P>(w);
    }
}

/// Programs that share atomic cells and channels can be relied on if every channel has one
/// consumer: by an invariant of the processes, a process asks to receive from a channel only if
/// the channel is its own.
pub proof fn lemma_consumers_dependable<A, M, P>(
    w: WorldModel<SharedModel<A, M>, P::Model, P::Reply>,
    good: spec_fn(ProcessID, P::Model) -> bool,
    owner: spec_fn(ObjectID) -> ProcessID,
) where A: Value, M: Render, P: Process<Op = SharedOp<A, M>, Reply = Answer<A, M>>
    requires
        world_sound::<Shared<A, M>, P>(w),
        roomy::<Shared<A, M>, P>(w.sched, w.objs),
        disciplined::<Shared<A, M>, P>(good, owner),
        owned::<Shared<A, M>, P>(good, owner, w.sched, w.objs),
    ensures
        dependable::<Shared<A, M>, P>(w),
{
    if started::<Shared<A, M>, P>(w).failure is None {
        lemma_orderly::<Shared<A, M>, P>(w, good, owner);
        lemma_dependable::<Shared<A, M>, P>(w);
    }
}

} // verus!
