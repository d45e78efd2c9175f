//! An atomic cell whose load / store / compare-exchange operations are scheduling points.
//!
//! Every operation registers itself with the cell and then hands control back to the
//! executor, so the search strategy can decide *when* it commits relative to other processes'
//! operations on the same cell. Each commit is therefore a distinct scheduling point with a
//! [`Transition`] the model checker can reorder.
//!
//! Operations are split into registration and commit: registration records the intended
//! operation; commit reads the value present at that moment, applies any write, and hands the
//! observed value to the process. This is what makes a compare-exchange evaluate its
//! comparison at *commit* time rather than at registration time.

use vstd::multiset::Multiset;
use vstd::prelude::*;

use crate::model::object::{Object, ObjectID, Transition};
use crate::model::process::ProcessID;
use crate::sync::laws::{cell_does, law_cell_conflict};
use crate::sync::request::{
    lemma_one_requester, lemma_push_multiset, lemma_remove_multiset, lemma_two_requesters,
    requesters, Request,
};
use crate::sync::value::Value;

verus! {

/// An operation on an atomic cell.
#[derive(Clone, Copy)]
pub enum Op<T> {
    /// Write a value.
    Store(T),
    /// Read the value.
    Load,
    /// Write `new` if the cell holds `current`.
    CompareExchange {
        /// The value that allows the write.
        current: T,
        /// The value written.
        new: T,
    },
}

impl<T> Op<T> {
    /// Whether the operation only reads.
    pub fn is_load(&self) -> (b: bool)
        ensures
            b == (*self is Load),
    {
        matches!(self, Op::Load)
    }
}

/// A committed operation. `prev` is the value observed at commit time; for a store it is also
/// what was overwritten.
pub struct Record<T> {
    /// The operation's identity.
    pub transition: Transition,
    /// What it did.
    pub op: Op<T>,
    /// The value it observed.
    pub prev: T,
}

/// The mathematical reading of an [`Atomic`].
pub struct AtomicModel<T> {
    /// The value held.
    pub value: T,
    /// The cell's identity.
    pub id: ObjectID,
    /// The pending operations, in registration order.
    pub requests: Seq<Request<Op<T>>>,
    /// The committed operations, in commit order.
    pub history: Seq<Record<T>>,
    /// How many operations have been registered.
    pub seq: nat,
}

/// The value an operation leaves in a cell that held `prev`.
pub open spec fn written<T>(op: Op<T>, prev: T) -> T {
    match op {
        Op::Store(new) => new,
        Op::Load => prev,
        Op::CompareExchange { current, new } => if prev == current {
            new
        } else {
            prev
        },
    }
}

/// The label of an operation that observed `prev`.
pub open spec fn op_text<T: Value>(op: Op<T>, prev: T) -> Seq<char> {
    match op {
        Op::Store(new) => "store "@ + new.text() + " (was "@ + prev.text() + ")"@,
        Op::Load => "load -> "@ + prev.text(),
        Op::CompareExchange { current, new } => {
            let head = "cas("@ + current.text() + "->"@ + new.text();
            if prev == current {
                head + ") ok"@
            } else {
                head + ") fail: "@ + prev.text()
            }
        },
    }
}

impl<T> AtomicModel<T> {
    /// `t` is pending.
    pub open spec fn pends(self, t: Transition) -> bool {
        exists|i: int| 0 <= i < self.requests.len() && #[trigger] self.requests[i].transition == t
    }

    /// `t` has committed.
    pub open spec fn committed(self, t: Transition) -> bool {
        exists|i: int| 0 <= i < self.history.len() && #[trigger] self.history[i].transition == t
    }

    /// The position of the pending operation `t`.
    pub open spec fn slot(self, t: Transition) -> int {
        choose|i: int| 0 <= i < self.requests.len() && #[trigger] self.requests[i].transition == t
    }

    /// The position of the committed operation `t`.
    pub open spec fn entry(self, t: Transition) -> int {
        choose|i: int| 0 <= i < self.history.len() && #[trigger] self.history[i].transition == t
    }

    /// What `t` does or did.
    pub open spec fn op(self, t: Transition) -> Op<T> {
        if self.pends(t) {
            self.requests[self.slot(t)].op
        } else {
            self.history[self.entry(t)].op
        }
    }

    /// The operations are this cell's, and numbered apart.
    pub open spec fn sound(self) -> bool {
        &&& self.seq <= usize::MAX
        &&& forall|i: int|
            0 <= i < self.requests.len() ==> (#[trigger] self.requests[i]).transition.oid
                == self.id && self.requests[i].transition.seq < self.seq
        &&& forall|i: int|
            0 <= i < self.history.len() ==> (#[trigger] self.history[i]).transition.oid == self.id
                && self.history[i].transition.seq < self.seq
        &&& forall|i: int, j: int|
            0 <= i < j < self.requests.len() ==> (#[trigger] self.requests[i]).transition.seq != (
            #[trigger] self.requests[j]).transition.seq
        &&& forall|i: int, j: int|
            0 <= i < j < self.history.len() ==> (#[trigger] self.history[i]).transition.seq != (
            #[trigger] self.history[j]).transition.seq
        &&& forall|i: int, j: int|
            0 <= i < self.requests.len() && 0 <= j < self.history.len() ==> (
            #[trigger] self.requests[i]).transition.seq != (
            #[trigger] self.history[j]).transition.seq
    }

    /// The cell after process `pid` registered `op`.
    pub open spec fn requested(self, pid: ProcessID, op: Op<T>) -> Self {
        let transition = Transition { pid, oid: self.id, seq: self.seq as usize };
        AtomicModel {
            requests: self.requests.push(Request { transition, op }),
            seq: self.seq + 1,
            ..self
        }
    }

    /// The cell after the pending operation `t` committed.
    pub open spec fn after(self, t: Transition) -> Self {
        let i = self.slot(t);
        let op = self.requests[i].op;
        AtomicModel {
            value: written(op, self.value),
            requests: self.requests.remove(i),
            history: self.history.push(Record { transition: t, op, prev: self.value }),
            ..self
        }
    }
}

/// An atomic cell.
pub struct Atomic<T: Value> {
    value: T,
    id: ObjectID,
    requests: Vec<Request<Op<T>>>,
    history: Vec<Record<T>>,
    seq: usize,
}

impl<T: Value> Atomic<T> {
    /// A cell holding `value`, with no operation registered on it.
    pub fn new(id: ObjectID, value: T) -> (a: Self)
        ensures
            a@ == (AtomicModel {
                value,
                id,
                requests: Seq::<Request<Op<T>>>::empty(),
                history: Seq::<Record<T>>::empty(),
                seq: 0,
            }),
            a@.sound(),
            requesters(a@.requests).len() == 0,
    {
        let a = Atomic { value, id, requests: Vec::new(), history: Vec::new(), seq: 0 };
        proof {
            assert(a@.requests.map_values(|r: Request<Op<T>>| r.transition.pid) =~= Seq::empty());
            broadcast use vstd::seq_lib::group_to_multiset_ensures;

        }
        a
    }

    /// The position of the pending operation `t`.
    fn position(&self, t: Transition) -> (i: Option<usize>)
        requires
            self@.sound(),
        ensures
            match i {
                Some(i) => i < self@.requests.len() && self@.requests[i as int].transition == t
                    && self@.slot(t) == i,
                None => !self@.pends(t),
            },
    {
        let mut i: usize = 0;
        while i < self.requests.len()
            invariant
                i <= self@.requests.len(),
                self@.sound(),
                forall|j: int| 0 <= j < i ==> (#[trigger] self@.requests[j]).transition != t,
            decreases self@.requests.len() - i,
        {
            if self.requests[i].transition == t {
                assert(self@.requests[i as int].transition == t);
                assert(self@.pends(t));
                return Some(i);
            }
            i = i + 1;
        }
        None
    }

    /// The position of the committed operation `t`.
    fn position_in_history(&self, t: Transition) -> (i: usize)
        requires
            self@.sound(),
            self@.committed(t),
        ensures
            i < self@.history.len(),
            self@.history[i as int].transition == t,
            self@.entry(t) == i,
    {
        let mut i: usize = 0;
        let n: usize = self.history.len();
        loop
            invariant
                i <= n,
                n == self@.history.len(),
                self@.sound(),
                self@.committed(t),
                forall|j: int| 0 <= j < i ==> (#[trigger] self@.history[j]).transition != t,
            decreases n - i,
        {
            assert(i < n);
            if self.history[i].transition == t {
                assert(self@.history[i as int].transition == t);
                return i;
            }
            i = i + 1;
        }
    }

    /// Resolves a transition's operation whether it is still pending or already committed.
    /// The search asks about a past transition against a process's next operation, so both
    /// vectors must be searched.
    fn op_of(&self, t: Transition) -> (op: Op<T>)
        requires
            self@.sound(),
            self@.pends(t) || self@.committed(t),
        ensures
            op == self@.op(t),
    {
        match self.position(t) {
            Some(i) => self.requests[i].op,
            None => {
                let i: usize = self.position_in_history(t);
                self.history[i].op
            },
        }
    }
}

impl<T: Value> Object for Atomic<T> {
    type Model = AtomicModel<T>;

    type Op = Op<T>;

    type Reply = T;

    closed spec fn view(&self) -> AtomicModel<T> {
        AtomicModel {
            value: self.value,
            id: self.id,
            requests: self.requests@,
            history: self.history@,
            seq: self.seq as nat,
        }
    }

    open spec fn valid(m: AtomicModel<T>) -> bool {
        m.sound()
    }

    open spec fn ident(m: AtomicModel<T>) -> ObjectID {
        m.id
    }

    open spec fn holders(m: AtomicModel<T>) -> Multiset<ProcessID> {
        requesters(m.requests)
    }

    open spec fn takes(m: AtomicModel<T>, op: Op<T>) -> bool {
        m.seq < usize::MAX
    }

    open spec fn with_request(m: AtomicModel<T>, pid: ProcessID, op: Op<T>) -> AtomicModel<T> {
        m.requested(pid, op)
    }

    open spec fn ready(m: AtomicModel<T>) -> Seq<Transition> {
        Seq::new(m.requests.len(), |i: int| m.requests[i].transition)
    }

    open spec fn with_commit(m: AtomicModel<T>, t: Transition) -> (AtomicModel<T>, T) {
        (m.after(t), m.value)
    }

    open spec fn knows(m: AtomicModel<T>, t: Transition) -> bool {
        m.pends(t) || m.committed(t)
    }

    open spec fn has_committed(m: AtomicModel<T>, t: Transition) -> bool {
        m.committed(t)
    }

    /// Two operations on the same cell conflict unless both are loads: loads commute (each
    /// observes the same value, neither writes). A store always writes; a compare-exchange
    /// may write, and the operation's kind alone cannot rule that out, so it counts as a
    /// write unconditionally.
    open spec fn conflict(m: AtomicModel<T>, t1: Transition, t2: Transition) -> bool {
        !(m.op(t1) is Load && m.op(t2) is Load)
    }

    open spec fn label_text(m: AtomicModel<T>, t: Transition) -> Seq<char> {
        op_text(m.history[m.entry(t)].op, m.history[m.entry(t)].prev)
    }

    open spec fn can_block(m: AtomicModel<T>) -> bool {
        false
    }

    proof fn law_ready(m: AtomicModel<T>) {
        let ready = Self::ready(m);
        assert forall|t: Transition| #[trigger] ready.contains(t) implies t.oid == m.id && m.pends(
            t,
        ) && requesters(m.requests).count(t.pid) >= 1 by {
            let i = choose|i: int| 0 <= i < ready.len() && ready[i] == t;
            assert(m.requests[i].transition == t);
            lemma_one_requester(m.requests, i);
        }
        assert forall|t: Transition, u: Transition| #[trigger]
            ready.contains(t) && #[trigger] ready.contains(u) && t != u && t.pid
                == u.pid implies requesters(m.requests).count(t.pid) >= 2 by {
            let i = choose|i: int| 0 <= i < ready.len() && ready[i] == t;
            let j = choose|j: int| 0 <= j < ready.len() && ready[j] == u;
            lemma_two_requesters(m.requests, i, j);
        }
        assert forall|i: int, j: int|
            0 <= i < ready.len() && 0 <= j < ready.len() && i != j implies ready[i] != ready[j] by {
            assert(m.requests[i].transition.seq != m.requests[j].transition.seq);
        }
    }

    proof fn law_request(m: AtomicModel<T>, pid: ProcessID, op: Op<T>) {
        let r = m.requested(pid, op);
        lemma_push_multiset(m.requests, r.requests.last());
        assert forall|t: Transition| m.pends(t) implies r.pends(t) by {
            let i = m.slot(t);
            assert(r.requests[i].transition == t);
        }
        assert forall|t: Transition| #[trigger]
            Self::has_committed(r, t) <==> Self::has_committed(m, t) by {
            assert(r.history == m.history);
        }
    }

    proof fn law_commit(m: AtomicModel<T>, t: Transition) {
        let c = m.after(t);
        let ready = Self::ready(m);
        let k = choose|i: int| 0 <= i < ready.len() && ready[i] == t;
        assert(m.requests[k].transition == t);
        let i = m.slot(t);
        lemma_remove_multiset(m.requests, i);
        assert forall|a: int| 0 <= a < c.requests.len() implies c.requests[a] == m.requests[if a < i {
            a
        } else {
            a + 1
        }] by {}
        assert forall|u: Transition| m.pends(u) && u != t implies c.pends(u) by {
            let j = m.slot(u);
            assert(c.requests[if j < i {
                j
            } else {
                j - 1
            }].transition == u);
        }
        assert forall|u: Transition| #[trigger] Self::knows(m, u) implies Self::knows(c, u) by {
            assert(c.history[m.history.len() as int].transition == t);
            if m.committed(u) {
                let j = m.entry(u);
                assert(c.history[j].transition == u);
            }
        }
        assert forall|u: Transition| #[trigger]
            Self::has_committed(c, u) <==> Self::has_committed(m, u) || u == t by {
            if m.committed(u) {
                let j = m.entry(u);
                assert(c.history[j].transition == u);
            }
            assert(c.history[m.history.len() as int].transition == t);
            if c.committed(u) {
                let j = c.entry(u);
                if j < m.history.len() {
                    assert(m.history[j].transition == u);
                }
            }
        }
    }

    fn accepts(&self, op: &Op<T>) -> (b: bool) {
        self.seq < usize::MAX
    }

    fn register(&mut self, pid: ProcessID, op: Op<T>)
        ensures
            final(self)@.requests == old(self)@.requests.push(
                Request {
                    transition: Transition {
                        pid,
                        oid: old(self)@.id,
                        seq: old(self)@.seq as usize,
                    },
                    op,
                },
            ),
            final(self)@.seq == old(self)@.seq + 1,
            final(self)@.value == old(self)@.value,
            final(self)@.history == old(self)@.history,
    {
        let transition = Transition::new(pid, self.id, self.seq);
        self.seq = self.seq + 1;
        self.requests.push(Request { transition, op });
    }

    /// Commits one pending operation: a store (or a matching compare-exchange) writes the new
    /// value, every operation observes the value present just before it.
    fn apply(&mut self, t: Transition) -> (reply: T)
        ensures
            reply == old(self)@.value,
            forall|i: int|
                0 <= i < old(self)@.requests.len() && (#[trigger] old(self)@.requests[i]).transition
                    == t ==> match old(self)@.requests[i].op {
                    Op::Store(new) => final(self)@.value == new,
                    Op::Load => final(self)@.value == old(self)@.value,
                    Op::CompareExchange { current, new } => {
                        &&& old(self)@.value == current ==> final(self)@.value == new
                        &&& old(self)@.value != current ==> final(self)@.value == old(self)@.value
                    },
                },
    {
        let ghost before = self@;
        proof {
            let ready = Self::ready(before);
            let k = choose|i: int| 0 <= i < ready.len() && ready[i] == t;
            assert(before.requests[k].transition == t);
        }
        let prev = self.value;
        if let Some(i) = self.position(t) {
            let req = self.requests.remove(i);
            match req.op {
                Op::Store(new) => {
                    self.value = new;
                },
                Op::CompareExchange { current, new } => {
                    if prev.same(&current) {
                        self.value = new;
                    }
                },
                Op::Load => {},
            }
            self.history.push(Record { transition: t, op: req.op, prev });
        }
        prev
    }

    fn enabled(&self) -> (ts: Vec<Transition>) {
        let mut ts: Vec<Transition> = Vec::new();
        let mut i: usize = 0;
        while i < self.requests.len()
            invariant
                i <= self@.requests.len(),
                ts@ == Self::ready(self@).take(i as int),
            decreases self@.requests.len() - i,
        {
            ts.push(self.requests[i].transition);
            i = i + 1;
            assert(ts@ =~= Self::ready(self@).take(i as int));
        }
        assert(Self::ready(self@).take(i as int) =~= Self::ready(self@));
        ts
    }

    fn label(&self, t: Transition) -> (s: String)
        ensures
            forall|i: int|
                0 <= i < self@.history.len() && (#[trigger] self@.history[i]).transition == t
                    ==> match self@.history[i].op {
                    Op::Store(new) => s@ == "store "@ + new.text() + " (was "@
                        + self@.history[i].prev.text() + ")"@,
                    Op::Load => s@ == "load -> "@ + self@.history[i].prev.text(),
                    Op::CompareExchange { current, new } => {
                        let head = "cas("@ + current.text() + "->"@ + new.text();
                        &&& self@.history[i].prev == current ==> s@ == head + ") ok"@
                        &&& self@.history[i].prev != current ==> s@ == head + ") fail: "@
                            + self@.history[i].prev.text()
                    },
                },
    {
        proof {
            assert forall|i: int|
                0 <= i < self@.history.len() && (#[trigger] self@.history[i]).transition
                    == t implies i == self@.entry(t) by {}
        }
        let i: usize = self.position_in_history(t);
        let rec = &self.history[i];
        match rec.op {
            Op::Store(new) => {
                let mut s = String::from_str("store ");
                s.append(new.render().as_str());
                s.append(" (was ");
                s.append(rec.prev.render().as_str());
                s.append(")");
                s
            },
            Op::Load => {
                let mut s = String::from_str("load -> ");
                s.append(rec.prev.render().as_str());
                s
            },
            Op::CompareExchange { current, new } => {
                let mut s = String::from_str("cas(");
                s.append(current.render().as_str());
                s.append("->");
                s.append(new.render().as_str());
                if rec.prev.same(&current) {
                    s.append(") ok");
                } else {
                    s.append(") fail: ");
                    s.append(rec.prev.render().as_str());
                }
                s
            },
        }
    }

    fn depends(&self, t1: Transition, t2: Transition) -> (b: bool)
        ensures
            forall|op1: Op<T>, op2: Op<T>| #[trigger]
                cell_does(self@, t1, op1) && #[trigger] cell_does(self@, t2, op2) ==> b == !(
                op1 is Load && op2 is Load),
    {
        proof {
            assert forall|op1: Op<T>, op2: Op<T>| #[trigger]
                cell_does(self@, t1, op1) && #[trigger] cell_does(
                    self@,
                    t2,
                    op2,
                ) implies Self::conflict(self@, t1, t2) == !(op1 is Load && op2 is Load) by {
                law_cell_conflict(self@, t1, op1, t2, op2);
            }
        }
        !(self.op_of(t1).is_load() && self.op_of(t2).is_load())
    }

    fn may_block(&self) -> (b: bool) {
        false
    }
}

} // verus!
