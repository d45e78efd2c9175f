//! Laws of the built-in primitives: what their operations do to what they hold, which of them
//! conflict, and how they and their values read.

use vstd::prelude::*;

use crate::model::object::{Object, ObjectID, Transition};
use crate::model::process::ProcessID;
use crate::sync::atomic;
use crate::sync::atomic::{Atomic, AtomicModel};
use crate::sync::channel;
use crate::sync::channel::{
    lemma_unblocked, queued, received, sent, unblocked, Channel, ChannelModel, Event, Reply,
};
use crate::sync::request::Request;
use crate::sync::shared::{fresh_atomic, fresh_channel, Answer, Shared, SharedModel, SharedOp};
use crate::sync::value::{decimal, digit, signed_decimal, Render, Value};

verus! {

/// The value of a decimal figure, if it is one.
pub open spec fn figure(c: char) -> Option<nat> {
    if c == '0' {
        Some(0)
    } else if c == '1' {
        Some(1)
    } else if c == '2' {
        Some(2)
    } else if c == '3' {
        Some(3)
    } else if c == '4' {
        Some(4)
    } else if c == '5' {
        Some(5)
    } else if c == '6' {
        Some(6)
    } else if c == '7' {
        Some(7)
    } else if c == '8' {
        Some(8)
    } else if c == '9' {
        Some(9)
    } else {
        None
    }
}

/// The number that a row of figures denotes, by place value.
pub open spec fn denotes(s: Seq<char>) -> nat
    decreases s.len(),
{
    if s.len() == 0 {
        0
    } else {
        10 * denotes(s.drop_last()) + figure(s.last())->0
    }
}

/// A number as it is written: figures alone, with no needless zero in front.
pub open spec fn written_out(s: Seq<char>) -> bool {
    &&& s.len() > 0
    &&& forall|i: int| 0 <= i < s.len() ==> figure(#[trigger] s[i]) is Some
    &&& s.len() > 1 ==> s[0] != '0'
}

proof fn lemma_digit(d: nat)
    requires
        d < 10,
    ensures
        digit(d).len() == 1,
        figure(digit(d)[0]) == Some(d),
{
    reveal_strlit("0");
    reveal_strlit("1");
    reveal_strlit("2");
    reveal_strlit("3");
    reveal_strlit("4");
    reveal_strlit("5");
    reveal_strlit("6");
    reveal_strlit("7");
    reveal_strlit("8");
    reveal_strlit("9");
}

/// The decimal form of a number is written out and denotes the number.
pub proof fn law_decimal(n: nat)
    ensures
        written_out(decimal(n)),
        denotes(decimal(n)) == n,
        n > 0 ==> decimal(n)[0] != '0',
    decreases n,
{
    if n < 10 {
        lemma_digit(n);
        assert(decimal(n).drop_last() =~= Seq::empty());
        assert(denotes(decimal(n).drop_last()) == 0);
    } else {
        law_decimal(n / 10);
        lemma_digit(n % 10);
        let s = decimal(n);
        assert(s.drop_last() =~= decimal(n / 10));
        assert(s.last() == digit(n % 10)[0]);
        assert(n == 10 * (n / 10) + n % 10);
    }
}

/// Different numbers have different decimal forms.
pub proof fn law_decimal_distinct(a: nat, b: nat)
    ensures
        decimal(a) == decimal(b) <==> a == b,
{
    law_decimal(a);
    law_decimal(b);
}

/// The decimal form of an integer is that of its magnitude, after a minus sign if it is negative.
pub proof fn law_signed_decimal(n: int)
    ensures
        n >= 0 ==> written_out(signed_decimal(n)) && denotes(signed_decimal(n)) == n,
        n < 0 ==> signed_decimal(n)[0] == '-' && written_out(signed_decimal(n).skip(1)) && denotes(
            signed_decimal(n).skip(1),
        ) == -n,
{
    if n >= 0 {
        law_decimal(n as nat);
    } else {
        law_decimal((-n) as nat);
        reveal_strlit("-");
        assert(signed_decimal(n).skip(1) =~= decimal((-n) as nat));
    }
}

/// What an integer prints as reads back as that integer.
pub open spec fn reads_back(s: Seq<char>, n: int) -> bool {
    if n < 0 {
        s.len() > 0 && s[0] == '-' && written_out(s.skip(1)) && denotes(s.skip(1)) == -n
    } else {
        written_out(s) && denotes(s) == n
    }
}

/// Unsigned values print as numbers that read back.
pub proof fn law_unsigned_text(a: u8, b: u16, c: u32, d: u64, e: usize)
    ensures
        reads_back(a.text(), a as int),
        reads_back(b.text(), b as int),
        reads_back(c.text(), c as int),
        reads_back(d.text(), d as int),
        reads_back(e.text(), e as int),
{
    law_decimal(a as nat);
    law_decimal(b as nat);
    law_decimal(c as nat);
    law_decimal(d as nat);
    law_decimal(e as nat);
}

/// Signed values print as numbers that read back.
pub proof fn law_signed_text(a: i8, b: i16, c: i32, d: i64, e: isize)
    ensures
        reads_back(a.text(), a as int),
        reads_back(b.text(), b as int),
        reads_back(c.text(), c as int),
        reads_back(d.text(), d as int),
        reads_back(e.text(), e as int),
{
    lemma_signed_reads(a as int);
    lemma_signed_reads(b as int);
    lemma_signed_reads(c as int);
    lemma_signed_reads(d as int);
    lemma_signed_reads(e as int);
}

proof fn lemma_signed_reads(n: int)
    ensures
        reads_back(signed_decimal(n), n),
{
    law_signed_decimal(n);
    if n < 0 {
        reveal_strlit("-");
    }
}

/// Truth values print by name, the empty value as an empty pair of brackets, and a pair as its parts
/// between brackets.
pub proof fn law_text<A: Render, B: Render>(b: bool, x: A, y: B)
    ensures
        b ==> b.text() =~= seq!['t', 'r', 'u', 'e'],
        !b ==> b.text() =~= seq!['f', 'a', 'l', 's', 'e'],
        ().text() =~= seq!['(', ')'],
        (x, y).text() =~= seq!['('] + x.text() + seq![',', ' '] + y.text() + seq![')'],
{
    reveal_strlit("true");
    reveal_strlit("false");
    reveal_strlit("()");
    reveal_strlit("(");
    reveal_strlit(", ");
    reveal_strlit(")");
    assert("("@ =~= seq!['(']);
    assert(", "@ =~= seq![',', ' ']);
    assert(")"@ =~= seq![')']);
}

/// Operation `t` of the cell is `op`: it is pending or has committed as that.
pub open spec fn cell_does<T>(m: AtomicModel<T>, t: Transition, op: atomic::Op<T>) -> bool {
    ||| exists|i: int|
        0 <= i < m.requests.len() && #[trigger] m.requests[i] == (Request { transition: t, op })
    ||| exists|i: int|
        0 <= i < m.history.len() && (#[trigger] m.history[i]).transition == t && m.history[i].op
            == op
}

proof fn lemma_cell_ready<T: Value>(m: AtomicModel<T>, i: int)
    requires
        Atomic::<T>::valid(m),
        0 <= i < m.requests.len(),
    ensures
        Atomic::<T>::ready(m).contains(m.requests[i].transition),
        m.slot(m.requests[i].transition) == i,
{
    assert(Atomic::<T>::ready(m)[i] == m.requests[i].transition);
}

/// A committed store leaves its value in the cell, and hands back what the cell held.
pub proof fn law_store<T: Value>(m: AtomicModel<T>, i: int, new: T)
    requires
        Atomic::<T>::valid(m),
        0 <= i < m.requests.len(),
        m.requests[i].op == atomic::Op::Store(new),
    ensures
        Atomic::<T>::with_commit(m, m.requests[i].transition).0.value == new,
        Atomic::<T>::with_commit(m, m.requests[i].transition).1 == m.value,
{
    lemma_cell_ready(m, i);
}

/// A committed load leaves the cell alone, and hands back what it holds.
pub proof fn law_load<T: Value>(m: AtomicModel<T>, i: int)
    requires
        Atomic::<T>::valid(m),
        0 <= i < m.requests.len(),
        m.requests[i].op is Load,
    ensures
        Atomic::<T>::with_commit(m, m.requests[i].transition).0.value == m.value,
        Atomic::<T>::with_commit(m, m.requests[i].transition).1 == m.value,
{
    lemma_cell_ready(m, i);
}

/// A committed compare-exchange hands back what the cell held. If that is `current`, the cell then
/// holds `new`; if it is not, the cell holds what it held.
pub proof fn law_compare_exchange<T: Value>(m: AtomicModel<T>, i: int, current: T, new: T)
    requires
        Atomic::<T>::valid(m),
        0 <= i < m.requests.len(),
        m.requests[i].op == (atomic::Op::CompareExchange { current, new }),
    ensures
        Atomic::<T>::with_commit(m, m.requests[i].transition).1 == m.value,
        m.value == current ==> Atomic::<T>::with_commit(
            m,
            m.requests[i].transition,
        ).0.value == new,
        m.value != current ==> Atomic::<T>::with_commit(
            m,
            m.requests[i].transition,
        ).0.value == m.value,
{
    lemma_cell_ready(m, i);
}

/// A commit takes the operation from the pending ones to the end of the history, where it stands with
/// the value it observed. The other pending operations stay, in their order, and so does all that is
/// in the history.
pub proof fn law_cell_commit<T: Value>(m: AtomicModel<T>, i: int)
    requires
        Atomic::<T>::valid(m),
        0 <= i < m.requests.len(),
    ensures
        ({
            let c = Atomic::<T>::with_commit(m, m.requests[i].transition).0;
            &&& c.requests.len() == m.requests.len() - 1
            &&& forall|k: int| 0 <= k < i ==> c.requests[k] == m.requests[k]
            &&& forall|k: int| i <= k < c.requests.len() ==> c.requests[k] == m.requests[k + 1]
            &&& c.history.len() == m.history.len() + 1
            &&& forall|k: int| 0 <= k < m.history.len() ==> c.history[k] == m.history[k]
            &&& c.history.last().transition == m.requests[i].transition
            &&& c.history.last().op == m.requests[i].op
            &&& c.history.last().prev == m.value
            &&& c.id == m.id
            &&& c.seq == m.seq
        }),
{
    lemma_cell_ready(m, i);
}

/// What is written is read: a load that commits after a store hands back the value stored, whatever
/// the store handed back.
pub proof fn law_store_load<T: Value>(m: AtomicModel<T>, i: int, j: int, new: T)
    requires
        Atomic::<T>::valid(m),
        0 <= i < m.requests.len(),
        0 <= j < m.requests.len(),
        i != j,
        m.requests[i].op == atomic::Op::Store(new),
        m.requests[j].op is Load,
    ensures
        Atomic::<T>::with_commit(
            Atomic::<T>::with_commit(m, m.requests[i].transition).0,
            m.requests[j].transition,
        ).1 == new,
{
    law_store(m, i, new);
}

/// A load that commits after a compare-exchange hands back `new` if the compare-exchange saw
/// `current`, and what the compare-exchange saw if it did not.
pub proof fn law_compare_exchange_load<T: Value>(
    m: AtomicModel<T>,
    i: int,
    j: int,
    current: T,
    new: T,
)
    requires
        Atomic::<T>::valid(m),
        0 <= i < m.requests.len(),
        0 <= j < m.requests.len(),
        i != j,
        m.requests[i].op == (atomic::Op::CompareExchange { current, new }),
        m.requests[j].op is Load,
    ensures
        ({
            let (after, seen) = Atomic::<T>::with_commit(m, m.requests[i].transition);
            let read = Atomic::<T>::with_commit(after, m.requests[j].transition).1;
            &&& seen == current ==> read == new
            &&& seen != current ==> read == seen
        }),
{
    law_compare_exchange(m, i, current, new);
}

/// Registering an operation on a cell adds it behind the pending ones, under the process that asked
/// and the next number, and can commit at once; the value and the history stay.
pub proof fn law_cell_request<T: Value>(m: AtomicModel<T>, pid: ProcessID, op: atomic::Op<T>)
    requires
        Atomic::<T>::valid(m),
        m.seq < usize::MAX,
    ensures
        Atomic::<T>::takes(m, op),
        ({
            let r = Atomic::<T>::with_request(m, pid, op);
            &&& r.requests.len() == m.requests.len() + 1
            &&& forall|k: int| 0 <= k < m.requests.len() ==> r.requests[k] == m.requests[k]
            &&& r.requests.last().op == op
            &&& r.requests.last().transition.pid == pid
            &&& r.requests.last().transition.oid == m.id
            &&& r.requests.last().transition.seq == m.seq
            &&& r.seq == m.seq + 1
            &&& r.value == m.value
            &&& r.history == m.history
            &&& r.id == m.id
            &&& Atomic::<T>::ready(r).contains(r.requests.last().transition)
        }),
{
    Atomic::<T>::law_request(m, pid, op);
    let r = Atomic::<T>::with_request(m, pid, op);
    lemma_cell_ready(r, m.requests.len() as int);
}

/// On a cell every pending operation can commit, in the order of registration, and none waits for
/// another.
pub proof fn law_cell_ready<T: Value>(m: AtomicModel<T>)
    ensures
        Atomic::<T>::ready(m).len() == m.requests.len(),
        forall|i: int|
            0 <= i < m.requests.len() ==> #[trigger] Atomic::<T>::ready(m)[i]
                == m.requests[i].transition,
        !Atomic::<T>::can_block(m),
{
}

/// Two operations on a cell conflict unless both are loads, whether they are pending or have
/// committed, in any combination.
pub proof fn law_cell_conflict<T: Value>(
    m: AtomicModel<T>,
    t1: Transition,
    op1: atomic::Op<T>,
    t2: Transition,
    op2: atomic::Op<T>,
)
    requires
        Atomic::<T>::valid(m),
        cell_does(m, t1, op1),
        cell_does(m, t2, op2),
    ensures
        Atomic::<T>::knows(m, t1),
        Atomic::<T>::knows(m, t2),
        !Atomic::<T>::conflict(m, t1, t2) <==> op1 is Load && op2 is Load,
        Atomic::<T>::conflict(m, t1, t2) == Atomic::<T>::conflict(m, t2, t1),
{
    lemma_cell_op(m, t1, op1);
    lemma_cell_op(m, t2, op2);
}

proof fn lemma_cell_op<T: Value>(m: AtomicModel<T>, t: Transition, op: atomic::Op<T>)
    requires
        Atomic::<T>::valid(m),
        cell_does(m, t, op),
    ensures
        m.pends(t) || m.committed(t),
        m.op(t) == op,
{
    if exists|i: int|
        0 <= i < m.requests.len() && #[trigger] m.requests[i] == (Request { transition: t, op }) {
        let i = choose|i: int|
            0 <= i < m.requests.len() && #[trigger] m.requests[i] == (Request {
                transition: t,
                op,
            });
        assert(m.requests[i].transition == t);
        lemma_cell_ready(m, i);
    } else {
        let i = choose|i: int|
            0 <= i < m.history.len() && (#[trigger] m.history[i]).transition == t
                && m.history[i].op == op;
        assert(m.committed(t));
        assert(!m.pends(t));
        assert(m.entry(t) == i);
    }
}

/// Whether two operations on a cell conflict does not change when one of them, or another operation,
/// commits.
pub proof fn law_cell_conflict_stays<T: Value>(
    m: AtomicModel<T>,
    t: Transition,
    t1: Transition,
    t2: Transition,
)
    requires
        Atomic::<T>::valid(m),
        Atomic::<T>::ready(m).contains(t),
        Atomic::<T>::knows(m, t1),
        Atomic::<T>::knows(m, t2),
    ensures
        Atomic::<T>::conflict(Atomic::<T>::with_commit(m, t).0, t1, t2) == Atomic::<T>::conflict(
            m,
            t1,
            t2,
        ),
{
    let c = Atomic::<T>::with_commit(m, t).0;
    Atomic::<T>::law_commit(m, t);
    let k = choose|i: int|
        0 <= i < Atomic::<T>::ready(m).len() && Atomic::<T>::ready(m)[i] == t;
    assert(m.requests[k].transition == t);
    lemma_does_kept(m, k, t1);
    lemma_does_kept(m, k, t2);
    law_cell_conflict(m, t1, m.op(t1), t2, m.op(t2));
    law_cell_conflict(c, t1, m.op(t1), t2, m.op(t2));
}

/// Whether two operations on a cell conflict does not change when another one is registered.
pub proof fn law_cell_conflict_request<T: Value>(
    m: AtomicModel<T>,
    pid: ProcessID,
    op: atomic::Op<T>,
    t1: Transition,
    t2: Transition,
)
    requires
        Atomic::<T>::valid(m),
        m.seq < usize::MAX,
        Atomic::<T>::knows(m, t1),
        Atomic::<T>::knows(m, t2),
    ensures
        Atomic::<T>::conflict(Atomic::<T>::with_request(m, pid, op), t1, t2) == Atomic::<
            T,
        >::conflict(m, t1, t2),
{
    let r = Atomic::<T>::with_request(m, pid, op);
    Atomic::<T>::law_request(m, pid, op);
    lemma_does_requested(m, pid, op, t1);
    lemma_does_requested(m, pid, op, t2);
    law_cell_conflict(m, t1, m.op(t1), t2, m.op(t2));
    law_cell_conflict(r, t1, m.op(t1), t2, m.op(t2));
}

proof fn lemma_does_requested<T: Value>(
    m: AtomicModel<T>,
    pid: ProcessID,
    op: atomic::Op<T>,
    u: Transition,
)
    requires
        m.pends(u) || m.committed(u),
    ensures
        cell_does(m, u, m.op(u)),
        cell_does(Atomic::<T>::with_request(m, pid, op), u, m.op(u)),
{
    let r = Atomic::<T>::with_request(m, pid, op);
    if m.pends(u) {
        let i = m.slot(u);
        assert(m.requests[i] == (Request { transition: u, op: m.op(u) }));
        assert(r.requests[i] == m.requests[i]);
    } else {
        let i = m.entry(u);
        assert(m.history[i].transition == u && m.history[i].op == m.op(u));
        assert(r.history[i] == m.history[i]);
    }
}

proof fn lemma_does_kept<T: Value>(m: AtomicModel<T>, k: int, u: Transition)
    requires
        Atomic::<T>::valid(m),
        0 <= k < m.requests.len(),
        m.pends(u) || m.committed(u),
    ensures
        cell_does(m, u, m.op(u)),
        cell_does(Atomic::<T>::with_commit(m, m.requests[k].transition).0, u, m.op(u)),
{
    let c = Atomic::<T>::with_commit(m, m.requests[k].transition).0;
    law_cell_commit(m, k);
    if m.pends(u) {
        let i = m.slot(u);
        assert(m.requests[i] == (Request { transition: u, op: m.op(u) }));
        if i == k {
            let n = m.history.len() as int;
            assert(c.history[n].transition == u && c.history[n].op == m.op(u));
        } else if i < k {
            assert(c.requests[i] == (Request { transition: u, op: m.op(u) }));
        } else {
            assert(c.requests[i - 1] == (Request { transition: u, op: m.op(u) }));
        }
    } else {
        let i = m.entry(u);
        assert(m.history[i].transition == u && m.history[i].op == m.op(u));
        assert(c.history[i] == m.history[i]);
    }
}

/// The label of a committed operation on a cell names what it did, with which values, and what it
/// saw. A compare-exchange is said to have gone well exactly if it saw `current`.
pub proof fn law_cell_label<T: Value>(m: AtomicModel<T>, i: int)
    requires
        Atomic::<T>::valid(m),
        0 <= i < m.history.len(),
    ensures
        Atomic::<T>::has_committed(m, m.history[i].transition),
        ({
            let text = Atomic::<T>::label_text(m, m.history[i].transition);
            let seen = m.history[i].prev.text();
            match m.history[i].op {
                atomic::Op::Store(new) => text == "store "@ + new.text() + " (was "@ + seen + ")"@,
                atomic::Op::Load => text == "load -> "@ + seen,
                atomic::Op::CompareExchange { current, new } => {
                    let head = "cas("@ + current.text() + "->"@ + new.text();
                    &&& m.history[i].prev == current ==> text == head + ") ok"@
                    &&& m.history[i].prev != current ==> text == head + ") fail: "@ + seen
                }
            }
        }),
{
    let t = m.history[i].transition;
    assert(m.committed(t));
    assert(m.entry(t) == i);
}

/// The label of a load, and that of a store or a failed compare-exchange of the same values, tell
/// values apart that print differently.
pub proof fn law_cell_labels_differ<T: Value>(m: AtomicModel<T>, i: int, j: int)
    requires
        Atomic::<T>::valid(m),
        0 <= i < m.history.len(),
        0 <= j < m.history.len(),
        m.history[i].op == m.history[j].op,
        !(m.history[i].op is CompareExchange),
        m.history[i].prev.text() != m.history[j].prev.text(),
    ensures
        Atomic::<T>::label_text(m, m.history[i].transition) != Atomic::<T>::label_text(
            m,
            m.history[j].transition,
        ),
{
    law_cell_label(m, i);
    law_cell_label(m, j);
    let a = m.history[i].prev.text();
    let b = m.history[j].prev.text();
    let head = match m.history[i].op {
        atomic::Op::Store(new) => "store "@ + new.text() + " (was "@,
        _ => "load -> "@,
    };
    let tail = match m.history[i].op {
        atomic::Op::Store(_) => ")"@,
        _ => Seq::empty(),
    };
    assert(Atomic::<T>::label_text(m, m.history[i].transition) =~= head + a + tail);
    assert(Atomic::<T>::label_text(m, m.history[j].transition) =~= head + b + tail);
    if head + a + tail == head + b + tail {
        assert((head + a + tail).len() == head.len() + a.len() + tail.len());
        assert((head + b + tail).len() == head.len() + b.len() + tail.len());
        assert(a =~= (head + a + tail).subrange(head.len() as int, (head.len() + a.len()) as int));
        assert(b =~= (head + b + tail).subrange(head.len() as int, (head.len() + b.len()) as int));
    }
}

/// Operation `t` of the channel is a send: it is pending or has committed as one.
pub open spec fn sends<T>(m: ChannelModel<T>, t: Transition) -> bool {
    ||| exists|i: int|
        0 <= i < m.requests.len() && (#[trigger] m.requests[i]).transition == t
            && m.requests[i].op is Send
    ||| exists|i: int|
        0 <= i < m.history.len() && (#[trigger] m.history[i]).0 == t && m.history[i].1 is Send
}

/// Operation `t` of the channel is a pending recv.
pub open spec fn awaits<T>(m: ChannelModel<T>, t: Transition) -> bool {
    exists|i: int|
        0 <= i < m.requests.len() && (#[trigger] m.requests[i]).transition == t
            && m.requests[i].op is Recv
}

/// Operation `t` of the channel is a recv that took the message of the send with number `n`.
pub open spec fn took<T>(m: ChannelModel<T>, t: Transition, n: usize) -> bool {
    exists|i: int|
        0 <= i < m.history.len() && (#[trigger] m.history[i]).0 == t && (
        m.history[i].1 matches Event::Recv(consumed, _) && consumed == n)
}

proof fn lemma_channel_slot<T: Render>(m: ChannelModel<T>, i: int)
    requires
        Channel::<T>::valid(m),
        0 <= i < m.requests.len(),
    ensures
        m.pends(m.requests[i].transition),
        m.slot(m.requests[i].transition) == i,
{
    assert(m.pends(m.requests[i].transition));
}

/// A committed send puts its message, with its number, at the back of the queue.
pub proof fn law_send<T: Render>(m: ChannelModel<T>, i: int, value: T)
    requires
        Channel::<T>::valid(m),
        0 <= i < m.requests.len(),
        m.requests[i].op == channel::Op::Send(value),
    ensures
        ({
            let t = m.requests[i].transition;
            let (c, reply) = Channel::<T>::with_commit(m, t);
            &&& reply is Sent
            &&& c.queue.len() == m.queue.len() + 1
            &&& c.queue.last().0 == t.seq
            &&& c.queue.last().1 == value
            &&& forall|k: int| 0 <= k < m.queue.len() ==> c.queue[k] == m.queue[k]
            &&& c.history.len() == m.history.len() + 1
            &&& c.history.last().0 == t
            &&& c.history.last().1 == Event::Send(value.text())
        }),
{
    lemma_channel_slot(m, i);
}

/// A committed recv takes the message at the front of the queue and hands it out; the history has the
/// number of its send.
pub proof fn law_recv<T: Render>(m: ChannelModel<T>, i: int)
    requires
        Channel::<T>::valid(m),
        0 <= i < m.requests.len(),
        m.requests[i].op is Recv,
        m.queue.len() > 0,
    ensures
        ({
            let t = m.requests[i].transition;
            let (c, reply) = Channel::<T>::with_commit(m, t);
            &&& reply == Reply::Received(m.queue[0].1)
            &&& c.queue.len() == m.queue.len() - 1
            &&& forall|k: int| 0 <= k < c.queue.len() ==> c.queue[k] == m.queue[k + 1]
            &&& c.history.len() == m.history.len() + 1
            &&& c.history.last().0 == t
            &&& c.history.last().1 == Event::Recv(m.queue[0].0, m.queue[0].1.text())
        }),
{
    lemma_channel_slot(m, i);
}

/// A commit on a channel takes the operation from the pending ones to the history; the other pending
/// operations stay, in their order, and so does all that is in the history.
pub proof fn law_channel_commit<T: Render>(m: ChannelModel<T>, i: int)
    requires
        Channel::<T>::valid(m),
        0 <= i < m.requests.len(),
    ensures
        ({
            let c = Channel::<T>::with_commit(m, m.requests[i].transition).0;
            &&& c.requests.len() == m.requests.len() - 1
            &&& forall|k: int| 0 <= k < i ==> c.requests[k] == m.requests[k]
            &&& forall|k: int| i <= k < c.requests.len() ==> c.requests[k] == m.requests[k + 1]
            &&& c.history.len() == m.history.len() + 1
            &&& forall|k: int| 0 <= k < m.history.len() ==> c.history[k] == m.history[k]
            &&& c.id == m.id
            &&& c.seq == m.seq
        }),
{
    lemma_channel_slot(m, i);
}

/// First in, first out, by two commits: a message sent into an empty channel is the one received
/// next, and a message sent into another waits its turn.
pub proof fn law_send_recv<T: Render>(m: ChannelModel<T>, i: int, j: int, value: T)
    requires
        Channel::<T>::valid(m),
        0 <= i < m.requests.len(),
        0 <= j < m.requests.len(),
        i != j,
        m.requests[i].op == channel::Op::Send(value),
        m.requests[j].op is Recv,
    ensures
        ({
            let sent = Channel::<T>::with_commit(m, m.requests[i].transition).0;
            let (after, reply) = Channel::<T>::with_commit(sent, m.requests[j].transition);
            if m.queue.len() == 0 {
                reply == Reply::Received(value) && after.queue.len() == 0
            } else {
                reply == Reply::Received(m.queue[0].1) && after.queue.last().1 == value
            }
        }),
{
    let t = m.requests[i].transition;
    let sent = Channel::<T>::with_commit(m, t).0;
    law_send(m, i, value);
    law_channel_commit(m, i);
    lemma_unblocked(m.requests, m.queue.len() == 0);
    assert(Channel::<T>::ready(m).contains(t));
    Channel::<T>::law_commit(m, t);
    let k = if j < i {
        j
    } else {
        j - 1
    };
    assert(sent.requests[k] == m.requests[j]);
    law_recv(sent, k);
    let after = Channel::<T>::with_commit(sent, m.requests[j].transition).0;
    if m.queue.len() > 0 {
        assert(after.queue.last() == sent.queue.last());
    }
}

/// Registering an operation on a channel adds it behind the pending ones, under the process that
/// asked and the next number; the queue and the history stay.
pub proof fn law_channel_request<T: Render>(m: ChannelModel<T>, pid: ProcessID, op: channel::Op<T>)
    requires
        Channel::<T>::valid(m),
        m.seq < usize::MAX,
    ensures
        Channel::<T>::takes(m, op),
        ({
            let r = Channel::<T>::with_request(m, pid, op);
            &&& r.requests.len() == m.requests.len() + 1
            &&& forall|k: int| 0 <= k < m.requests.len() ==> r.requests[k] == m.requests[k]
            &&& r.requests.last().op == op
            &&& r.requests.last().transition.pid == pid
            &&& r.requests.last().transition.oid == m.id
            &&& r.requests.last().transition.seq == m.seq
            &&& r.seq == m.seq + 1
            &&& r.queue == m.queue
            &&& r.history == m.history
            &&& r.id == m.id
        }),
{
}

/// A send can always commit; a recv can exactly while there is a message. What can commit comes in the
/// order of registration.
pub proof fn law_channel_ready<T: Render>(m: ChannelModel<T>)
    requires
        Channel::<T>::valid(m),
    ensures
        forall|i: int|
            0 <= i < m.requests.len() ==> (Channel::<T>::ready(m).contains(
                (#[trigger] m.requests[i]).transition,
            ) <==> m.requests[i].op is Send || m.queue.len() > 0),
        in_order(m, m.requests.len(), Channel::<T>::ready(m)),
        Channel::<T>::can_block(m),
{
    let empty = m.queue.len() == 0;
    lemma_unblocked(m.requests, empty);
    assert forall|i: int| 0 <= i < m.requests.len() implies (Channel::<T>::ready(m).contains(
        (#[trigger] m.requests[i]).transition,
    ) <==> m.requests[i].op is Send || m.queue.len() > 0) by {
        let t = m.requests[i].transition;
        if Channel::<T>::ready(m).contains(t) {
            let k = choose|k: int|
                0 <= k < m.requests.len() && #[trigger] m.requests[k].transition == t && (
                m.requests[k].op is Send || !empty);
            if k != i {
                assert(m.requests[k].transition.seq != m.requests[i].transition.seq);
            }
        }
    }
    lemma_in_order(m, m.requests.len());
    assert(m.requests.take(m.requests.len() as int) =~= m.requests);
}

/// The operations `r` are among the first `n` pending ones, and in their order.
pub open spec fn in_order<T: Render>(m: ChannelModel<T>, n: nat, r: Seq<Transition>) -> bool {
    &&& forall|a: int| 0 <= a < r.len() ==> 0 <= m.slot(#[trigger] r[a]) < n
    &&& forall|a: int, b: int|
        0 <= a < b < r.len() ==> (#[trigger] r[a] != #[trigger] r[b]) && m.slot(r[a]) < m.slot(
            r[b],
        )
}

proof fn lemma_in_order<T: Render>(m: ChannelModel<T>, n: nat)
    requires
        Channel::<T>::valid(m),
        n <= m.requests.len(),
    ensures
        in_order(m, n, unblocked(m.requests.take(n as int), m.queue.len() == 0)),
    decreases n,
{
    let part = m.requests.take(n as int);
    let empty = m.queue.len() == 0;
    if n > 0 {
        let init = m.requests.take(n - 1);
        assert(part.drop_last() =~= init);
        lemma_in_order(m, (n - 1) as nat);
        lemma_channel_slot(m, n - 1);
        let r = unblocked(part, empty);
        let q = unblocked(init, empty);
        assert forall|a: int, b: int| 0 <= a < b < r.len() implies (#[trigger] r[a]
            != #[trigger] r[b]) && m.slot(r[a]) < m.slot(r[b]) by {
            if b == q.len() {
                assert(r[a] == q[a]);
                assert(r[b] == m.requests[n - 1].transition);
                assert(m.slot(r[a]) < n - 1);
            } else {
                assert(r[a] == q[a] && r[b] == q[b]);
            }
        }
        assert forall|a: int| 0 <= a < r.len() implies 0 <= m.slot(#[trigger] r[a]) < n by {
            if a < q.len() {
                assert(r[a] == q[a]);
            } else {
                assert(r[a] == m.requests[n - 1].transition);
            }
        }
    }
}

/// Which operations on a channel conflict: two sends always; two recvs never; a send and a recv that
/// has committed exactly if the recv took that send's message; a send and a pending recv never. Being
/// pending or having committed makes no difference to a send.
pub proof fn law_channel_conflict<T: Render>(
    m: ChannelModel<T>,
    t1: Transition,
    t2: Transition,
    n: usize,
    k: usize,
)
    requires
        Channel::<T>::valid(m),
    ensures
        sends(m, t1) && sends(m, t2) ==> Channel::<T>::conflict(m, t1, t2),
        sends(m, t1) && awaits(m, t2) ==> !Channel::<T>::conflict(m, t1, t2)
            && !Channel::<T>::conflict(m, t2, t1),
        sends(m, t1) && took(m, t2, n) ==> Channel::<T>::conflict(m, t1, t2) == (n == t1.seq)
            && Channel::<T>::conflict(m, t2, t1) == (n == t1.seq),
        (awaits(m, t1) || took(m, t1, n)) && (awaits(m, t2) || took(m, t2, k))
            ==> !Channel::<T>::conflict(m, t1, t2),
{
    lemma_channel_kinds(m, t1, n);
    lemma_channel_kinds(m, t1, k);
    lemma_channel_kinds(m, t2, n);
    lemma_channel_kinds(m, t2, k);
}

proof fn lemma_channel_kinds<T: Render>(m: ChannelModel<T>, t: Transition, n: usize)
    requires
        Channel::<T>::valid(m),
    ensures
        sends(m, t) ==> m.kind(t) is Send,
        awaits(m, t) ==> m.kind(t) == channel::Kind::Recv(None),
        took(m, t, n) ==> m.kind(t) == channel::Kind::Recv(Some(n)),
{
    if exists|i: int| 0 <= i < m.requests.len() && (#[trigger] m.requests[i]).transition == t {
        let i = choose|i: int|
            0 <= i < m.requests.len() && (#[trigger] m.requests[i]).transition == t;
        lemma_channel_slot(m, i);
        assert forall|k: int|
            0 <= k < m.requests.len() && (#[trigger] m.requests[k]).transition == t implies k
            == i by {
            lemma_channel_slot(m, k);
        }
        assert forall|k: int| 0 <= k < m.history.len() implies (#[trigger] m.history[k]).0 != t by {
            assert(m.requests[i].transition.seq != m.history[k].0.seq);
        }
    } else {
        assert(!m.pends(t));
        if exists|i: int| 0 <= i < m.history.len() && (#[trigger] m.history[i]).0 == t {
            let i = choose|i: int| 0 <= i < m.history.len() && (#[trigger] m.history[i]).0 == t;
            assert(m.committed(t));
            assert forall|k: int|
                0 <= k < m.history.len() && (#[trigger] m.history[k]).0 == t implies k == i by {
                if k < i {
                    assert(m.history[k].0.seq != m.history[i].0.seq);
                } else if i < k {
                    assert(m.history[i].0.seq != m.history[k].0.seq);
                }
            }
            assert(m.entry(t) == i);
        }
    }
}

/// The label of a committed send shows its message. That of a recv shows the message that it took and
/// ends with the number of its send.
pub proof fn law_channel_label<T: Render>(m: ChannelModel<T>, i: int)
    requires
        Channel::<T>::valid(m),
        0 <= i < m.history.len(),
    ensures
        Channel::<T>::has_committed(m, m.history[i].0),
        ({
            let text = Channel::<T>::label_text(m, m.history[i].0);
            match m.history[i].1 {
                Event::Send(value) => text == "send "@ + value,
                Event::Recv(n, value) => text == "recv -> "@ + value + " (#"@ + decimal(n as nat)
                    + ")"@,
            }
        }),
{
    let t = m.history[i].0;
    assert(m.committed(t));
    let k = m.entry(t);
    if k < i {
        assert(m.history[k].0.seq != m.history[i].0.seq);
    } else if i < k {
        assert(m.history[i].0.seq != m.history[k].0.seq);
    }
    assert(k == i);
}

/// Recvs of different sends have different labels, whatever the messages.
pub proof fn law_recv_labels_differ<T: Render>(m: ChannelModel<T>, i: int, j: int)
    requires
        Channel::<T>::valid(m),
        0 <= i < m.history.len(),
        0 <= j < m.history.len(),
        m.history[i].1 is Recv,
        m.history[j].1 is Recv,
        m.history[i].1->Recv_0 != m.history[j].1->Recv_0,
    ensures
        Channel::<T>::label_text(m, m.history[i].0) != Channel::<T>::label_text(m, m.history[j].0),
{
    law_channel_label(m, i);
    law_channel_label(m, j);
    let a = decimal(m.history[i].1->Recv_0 as nat);
    let b = decimal(m.history[j].1->Recv_0 as nat);
    law_decimal_distinct(m.history[i].1->Recv_0 as nat, m.history[j].1->Recv_0 as nat);
    law_decimal(m.history[i].1->Recv_0 as nat);
    law_decimal(m.history[j].1->Recv_0 as nat);
    lemma_numbered("recv -> "@ + m.history[i].1->Recv_1, a, "recv -> "@ + m.history[j].1->Recv_1, b);
}

/// A text that ends with a number in brackets has that number there alone.
proof fn lemma_numbered(x: Seq<char>, a: Seq<char>, y: Seq<char>, b: Seq<char>)
    requires
        written_out(a),
        written_out(b),
        a != b,
    ensures
        x + " (#"@ + a + ")"@ != y + " (#"@ + b + ")"@,
{
    reveal_strlit(" (#");
    reveal_strlit(")");
    let s = x + " (#"@ + a + ")"@;
    let r = y + " (#"@ + b + ")"@;
    if s == r {
        let n = s.len() as int;
        if a.len() < b.len() {
            assert(s[n - 2 - a.len()] == '#');
            assert(r[n - 2 - a.len()] == b[b.len() - 1 - a.len()]);
            assert(figure(b[b.len() - 1 - a.len()]) is Some);
        } else if b.len() < a.len() {
            assert(r[n - 2 - b.len()] == '#');
            assert(s[n - 2 - b.len()] == a[a.len() - 1 - b.len()]);
            assert(figure(a[a.len() - 1 - b.len()]) is Some);
        } else {
            assert(a =~= s.subrange(n - 1 - a.len(), n - 1));
            assert(b =~= r.subrange(n - 1 - b.len(), n - 1));
        }
    }
}

/// A send and the recv that takes its message from an empty channel show the same message, and the
/// recv the number of that send.
pub proof fn law_send_recv_labels<T: Render>(m: ChannelModel<T>, i: int, j: int, value: T)
    requires
        Channel::<T>::valid(m),
        0 <= i < m.requests.len(),
        0 <= j < m.requests.len(),
        i != j,
        m.requests[i].op == channel::Op::Send(value),
        m.requests[j].op is Recv,
        m.queue.len() == 0,
    ensures
        ({
            let t = m.requests[i].transition;
            let u = m.requests[j].transition;
            let sent = Channel::<T>::with_commit(m, t).0;
            let done = Channel::<T>::with_commit(sent, u).0;
            &&& Channel::<T>::label_text(done, t) == "send "@ + value.text()
            &&& Channel::<T>::label_text(done, u) == "recv -> "@ + value.text() + " (#"@ + decimal(
                t.seq as nat,
            ) + ")"@
        }),
{
    let t = m.requests[i].transition;
    let u = m.requests[j].transition;
    let sent = Channel::<T>::with_commit(m, t).0;
    law_send(m, i, value);
    law_channel_commit(m, i);
    lemma_unblocked(m.requests, true);
    assert(Channel::<T>::ready(m).contains(t));
    Channel::<T>::law_commit(m, t);
    let k = if j < i {
        j
    } else {
        j - 1
    };
    assert(sent.requests[k] == m.requests[j]);
    law_recv(sent, k);
    law_channel_commit(sent, k);
    lemma_unblocked(sent.requests, false);
    assert(Channel::<T>::ready(sent).contains(u));
    Channel::<T>::law_commit(sent, u);
    let done = Channel::<T>::with_commit(sent, u).0;
    let n = m.history.len() as int;
    assert(done.history[n] == sent.history[n]);
    law_channel_label(done, n);
    law_channel_label(done, n + 1);
}

/// A shared primitive is the cell or the channel that it holds, in all that it does.
pub proof fn law_shared_cell<A: Value, M: Render>(
    a: AtomicModel<A>,
    pid: ProcessID,
    op: atomic::Op<A>,
    t: Transition,
    u: Transition,
)
    ensures
        ({
            let m = SharedModel::<A, M>::Atomic(a);
            let (after, seen) = Atomic::<A>::with_commit(a, t);
            &&& Shared::<A, M>::with_commit(m, t) == (
                SharedModel::<A, M>::Atomic(after),
                Answer::<A, M>::Observed(seen),
            )
            &&& Shared::<A, M>::with_request(m, pid, SharedOp::Atomic(op)) == SharedModel::<
                A,
                M,
            >::Atomic(Atomic::<A>::with_request(a, pid, op))
            &&& Shared::<A, M>::takes(m, SharedOp::Atomic(op)) == Atomic::<A>::takes(a, op)
            &&& forall|other: channel::Op<M>| !#[trigger] Shared::<A, M>::takes(
                m,
                SharedOp::Channel(other),
            )
            &&& Shared::<A, M>::ready(m) == Atomic::<A>::ready(a)
            &&& Shared::<A, M>::conflict(m, t, u) == Atomic::<A>::conflict(a, t, u)
            &&& Shared::<A, M>::label_text(m, t) == Atomic::<A>::label_text(a, t)
            &&& Shared::<A, M>::knows(m, t) == Atomic::<A>::knows(a, t)
            &&& Shared::<A, M>::has_committed(m, t) == Atomic::<A>::has_committed(a, t)
            &&& Shared::<A, M>::valid(m) == Atomic::<A>::valid(a)
            &&& !Shared::<A, M>::can_block(m)
        }),
{
}

/// See [`law_shared_cell`].
pub proof fn law_shared_channel<A: Value, M: Render>(
    c: ChannelModel<M>,
    pid: ProcessID,
    op: channel::Op<M>,
    t: Transition,
    u: Transition,
)
    ensures
        ({
            let m = SharedModel::<A, M>::Channel(c);
            let (after, reply) = Channel::<M>::with_commit(c, t);
            &&& Shared::<A, M>::with_commit(m, t) == (
                SharedModel::<A, M>::Channel(after),
                Answer::<A, M>::Channel(reply),
            )
            &&& Shared::<A, M>::with_request(m, pid, SharedOp::Channel(op)) == SharedModel::<
                A,
                M,
            >::Channel(Channel::<M>::with_request(c, pid, op))
            &&& Shared::<A, M>::takes(m, SharedOp::Channel(op)) == Channel::<M>::takes(c, op)
            &&& forall|other: atomic::Op<A>| !#[trigger] Shared::<A, M>::takes(
                m,
                SharedOp::Atomic(other),
            )
            &&& Shared::<A, M>::ready(m) == Channel::<M>::ready(c)
            &&& Shared::<A, M>::conflict(m, t, u) == Channel::<M>::conflict(c, t, u)
            &&& Shared::<A, M>::label_text(m, t) == Channel::<M>::label_text(c, t)
            &&& Shared::<A, M>::knows(m, t) == Channel::<M>::knows(c, t)
            &&& Shared::<A, M>::has_committed(m, t) == Channel::<M>::has_committed(c, t)
            &&& Shared::<A, M>::valid(m) == Channel::<M>::valid(c)
            &&& Shared::<A, M>::can_block(m)
        }),
{
}

/// A fresh cell holds its first value, and a fresh channel nothing; neither has been used.
pub proof fn law_fresh<A, M>(id: ObjectID, value: A)
    ensures
        ({
            let a = fresh_atomic::<A, M>(id, value);
            &&& a is Atomic
            &&& a->Atomic_0.value == value
            &&& a->Atomic_0.id == id
            &&& a->Atomic_0.requests.len() == 0
            &&& a->Atomic_0.history.len() == 0
            &&& a->Atomic_0.seq == 0
        }),
        ({
            let c = fresh_channel::<A, M>(id);
            &&& c is Channel
            &&& c->Channel_0.queue.len() == 0
            &&& c->Channel_0.id == id
            &&& c->Channel_0.requests.len() == 0
            &&& c->Channel_0.history.len() == 0
            &&& c->Channel_0.seq == 0
        }),
{
}

/// A cell knows what is pending or has committed on it, and what has committed is what its history
/// has.
pub proof fn law_cell_known<T: Value>(m: AtomicModel<T>, t: Transition)
    ensures
        Atomic::<T>::has_committed(m, t) <==> exists|i: int|
            0 <= i < m.history.len() && (#[trigger] m.history[i]).transition == t,
        Atomic::<T>::knows(m, t) <==> Atomic::<T>::has_committed(m, t) || exists|i: int|
            0 <= i < m.requests.len() && (#[trigger] m.requests[i]).transition == t,
        Atomic::<T>::ident(m) == m.id,
{
}

/// See [`law_cell_known`].
pub proof fn law_channel_known<T: Render>(m: ChannelModel<T>, t: Transition)
    ensures
        Channel::<T>::has_committed(m, t) <==> exists|i: int|
            0 <= i < m.history.len() && (#[trigger] m.history[i]).0 == t,
        Channel::<T>::knows(m, t) <==> Channel::<T>::has_committed(m, t) || exists|i: int|
            0 <= i < m.requests.len() && (#[trigger] m.requests[i]).transition == t,
        Channel::<T>::ident(m) == m.id,
{
}

/// Messages come out in the order in which they went in: whenever the history of a channel shows that
/// the `k`-th recv took the message of some send, that send was the `k`-th.
pub proof fn law_fifo<T: Render>(m: ChannelModel<T>, k: int)
    requires
        Channel::<T>::valid(m),
        0 <= k < received(m.history).len(),
    ensures
        k < sent(m.history).len(),
        received(m.history)[k] == sent(m.history)[k],
        sent(m.history).len() == received(m.history).len() + m.queue.len(),
{
    assert(sent(m.history) == received(m.history) + queued(m.queue));
}

/// What a history says of sends and recvs: a committed send adds its number and message to what has
/// been sent, and a committed recv what it took to what has been received.
pub proof fn law_history(history: Seq<(Transition, Event)>, t: Transition, n: usize, value: Seq<char>)
    ensures
        sent(history.push((t, Event::Send(value)))) == sent(history).push((t.seq, value)),
        sent(history.push((t, Event::Recv(n, value)))) == sent(history),
        received(history.push((t, Event::Send(value)))) == received(history),
        received(history.push((t, Event::Recv(n, value)))) == received(history).push((n, value)),
        sent(Seq::empty()).len() == 0,
        received(Seq::empty()).len() == 0,
{
    assert(history.push((t, Event::Send(value))).drop_last() =~= history);
    assert(history.push((t, Event::Recv(n, value))).drop_last() =~= history);
}

} // verus!
