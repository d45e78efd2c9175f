//! The deterministic, single-threaded driver underneath the model.
//!
//! The executor is deliberately *dumb*: it owns the processes and runs whichever one is
//! runnable, in a replay-stable FIFO order. It makes no scheduling *decisions*: all
//! interleaving control lives in the objects, which wake a process when they commit its
//! operation, and in the strategy layer above. What a run does is a function of the
//! executor's view, which is what lets the strategy replay prefixes.

use std::collections::VecDeque;

use vstd::prelude::*;

use crate::model::object::Object;
use crate::model::process::{Outcome, Process, ProcessID, Turn};

verus! {

/// The views of a sequence's elements.
pub open spec fn views<T: View>(s: Seq<T>) -> Seq<T::V> {
    Seq::new(s.len(), |i: int| s[i]@)
}

/// The readings of a sequence of objects.
pub open spec fn models<O: Object>(s: Seq<O>) -> Seq<O::Model> {
    Seq::new(s.len(), |i: int| s[i]@)
}

/// The readings of a process table.
pub open spec fn slot_models<P: Process>(s: Seq<Option<P>>) -> Seq<Option<P::Model>> {
    Seq::new(
        s.len(),
        |i: int|
            match s[i] {
                Some(v) => Some(v@),
                None => None,
            },
    )
}

/// The mathematical reading of an [`Executor`]: its process table, the replies that wait for
/// their processes, the run queue, and the processes woken since the last flush.
pub struct ExecModel<V, R> {
    /// The process table; a completed process leaves `None`.
    pub procs: Seq<Option<V>>,
    /// What the last committed operation of each process handed back.
    pub replies: Seq<Option<R>>,
    /// The run queue.
    pub queue: Seq<ProcessID>,
    /// Woken processes, in the order of their wakes.
    pub woken: Seq<ProcessID>,
}

/// The number of live processes: scheduled but not completed.
pub open spec fn live_count<V>(procs: Seq<Option<V>>) -> nat
    decreases procs.len(),
{
    if procs.len() == 0 {
        0
    } else {
        live_count(procs.drop_last()) + if procs.last() is Some {
            1nat
        } else {
            0nat
        }
    }
}

/// How many more times the live processes can be resumed, in total; a live process counts for
/// one more than its budget.
pub open spec fn weight<P: Process>(procs: Seq<Option<P::Model>>) -> nat
    decreases procs.len(),
{
    if procs.len() == 0 {
        0
    } else {
        weight::<P>(procs.drop_last()) + slot_weight::<P>(procs.last())
    }
}

/// What one process contributes to [`weight`].
pub open spec fn slot_weight<P: Process>(slot: Option<P::Model>) -> nat {
    match slot {
        Some(v) => P::budget(v) + 1,
        None => 0,
    }
}

impl<V, R> ExecModel<V, R> {
    /// Nothing is scheduled.
    pub open spec fn empty() -> Self {
        ExecModel {
            procs: Seq::empty(),
            replies: Seq::empty(),
            queue: Seq::empty(),
            woken: Seq::empty(),
        }
    }

    /// Process `id` is in the table and has not completed.
    pub open spec fn is_live(self, id: ProcessID) -> bool {
        id < self.procs.len() && self.procs[id as int] is Some
    }

    /// Process `id` was woken, has not completed, and is not queued yet.
    pub open spec fn promotable(self, id: ProcessID) -> bool {
        self.is_live(id) && self.woken.contains(id) && !self.queue.contains(id)
    }

    /// The promotable processes below `k`, in ascending order.
    pub open spec fn promoted(self, k: nat) -> Seq<ProcessID>
        decreases k,
    {
        if k == 0 {
            Seq::empty()
        } else {
            let rest = self.promoted((k - 1) as nat);
            if self.promotable((k - 1) as ProcessID) {
                rest.push((k - 1) as ProcessID)
            } else {
                rest
            }
        }
    }

    /// After the woken processes moved onto the queue.
    pub open spec fn flushed(self) -> Self {
        ExecModel {
            queue: self.queue + self.promoted(self.procs.len()),
            woken: Seq::empty(),
            ..self
        }
    }

    /// The table is consistent: queued processes are live and queued once.
    pub open spec fn valid(self) -> bool {
        &&& self.replies.len() == self.procs.len()
        &&& self.procs.len() <= usize::MAX
        &&& forall|i: int| 0 <= i < self.queue.len() ==> self.is_live(#[trigger] self.queue[i])
        &&& self.queue.no_duplicates()
    }

    /// No process is waiting to be polled.
    pub open spec fn quiet(self) -> bool {
        self.queue.len() == 0 && self.woken.len() == 0
    }

    /// After a new process joined the table and the queue.
    pub open spec fn scheduled(self, code: V) -> Self {
        ExecModel {
            procs: self.procs.push(Some(code)),
            replies: self.replies.push(None),
            queue: self.queue.push(self.procs.len() as ProcessID),
            ..self
        }
    }

    /// After process `id`'s operation committed with `reply`.
    pub open spec fn answered(self, id: ProcessID, reply: R) -> Self {
        ExecModel {
            replies: self.replies.update(id as int, Some(reply)),
            woken: self.woken.push(id),
            ..self
        }
    }
}

/// One poll of process `id`: the executor and the objects after it, and what the process did.
pub open spec fn polled<O: Object, P: Process<Op = O::Op, Reply = O::Reply>>(
    m: ExecModel<P::Model, P::Reply>,
    objs: Seq<O::Model>,
    id: ProcessID,
) -> (ExecModel<P::Model, P::Reply>, Seq<O::Model>, Turn<P::Op>) {
    let (v, turn) = P::turn(m.procs[id as int]->0, m.replies[id as int]);
    let kept = ExecModel {
        procs: m.procs.update(id as int, Some(v)),
        replies: m.replies.update(id as int, None),
        ..m
    };
    match turn {
        Turn::Request(oid, op) => (
            kept,
            if oid < objs.len() && O::takes(objs[oid as int], op) {
                objs.update(oid as int, O::with_request(objs[oid as int], id, op))
            } else {
                objs
            },
            turn,
        ),
        Turn::Yield => (ExecModel { woken: m.woken.push(id), ..kept }, objs, turn),
        Turn::Blocked => (kept, objs, turn),
        Turn::Done => (
            ExecModel { procs: m.procs.update(id as int, None), ..kept },
            objs,
            turn,
        ),
        Turn::Failed(_) => (kept, objs, turn),
    }
}

/// A whole run of the poll loop: polls the queue's front until the queue stays empty, or
/// until a process fails. Gives the executor and the objects afterwards, and the failed
/// process with its error if there is one.
pub open spec fn settled<O: Object, P: Process<Op = O::Op, Reply = O::Reply>>(
    m: ExecModel<P::Model, P::Reply>,
    objs: Seq<O::Model>,
) -> (ExecModel<P::Model, P::Reply>, Seq<O::Model>, Option<(ProcessID, Seq<char>)>)
    decreases weight::<P>(m.procs),
{
    let f = m.flushed();
    if f.queue.len() == 0 {
        (f, objs, None)
    } else {
        let id = f.queue[0];
        let g = ExecModel { queue: f.queue.drop_first(), ..f };
        if !g.is_live(id) || g.replies.len() != g.procs.len() {
            (g, objs, None)
        } else {
            let (h, objs2, turn) = polled::<O, P>(g, objs, id);
            proof {
                lemma_poll_spends::<O, P>(g, objs, id);
            }
            if let Turn::Failed(e) = turn {
                (h, objs2, Some((id, e)))
            } else {
                settled::<O, P>(h, objs2)
            }
        }
    }
}

/// Replacing one process changes the total weight by the difference of the two weights.
pub proof fn lemma_weight_update<P: Process>(procs: Seq<Option<P::Model>>, i: int, slot: Option<P::Model>)
    requires
        0 <= i < procs.len(),
    ensures
        weight::<P>(procs.update(i, slot)) + slot_weight::<P>(procs[i]) == weight::<P>(procs)
            + slot_weight::<P>(slot),
    decreases procs.len(),
{
    let after = procs.update(i, slot);
    if i == procs.len() - 1 {
        assert(after.drop_last() =~= procs.drop_last());
    } else {
        assert(after.drop_last() =~= procs.drop_last().update(i, slot));
        lemma_weight_update::<P>(procs.drop_last(), i, slot);
    }
}

/// Replacing one process changes the live count by the difference of the two.
pub proof fn lemma_live_update<V>(procs: Seq<Option<V>>, i: int, slot: Option<V>)
    requires
        0 <= i < procs.len(),
    ensures
        live_count(procs.update(i, slot)) + (if procs[i] is Some {
            1nat
        } else {
            0nat
        }) == live_count(procs) + (if slot is Some {
            1nat
        } else {
            0nat
        }),
    decreases procs.len(),
{
    let after = procs.update(i, slot);
    if i == procs.len() - 1 {
        assert(after.drop_last() =~= procs.drop_last());
    } else {
        assert(after.drop_last() =~= procs.drop_last().update(i, slot));
        lemma_live_update(procs.drop_last(), i, slot);
    }
}

/// At most every process is live.
pub proof fn lemma_live_bound<V>(procs: Seq<Option<V>>)
    ensures
        live_count(procs) <= procs.len(),
    decreases procs.len(),
{
    if procs.len() > 0 {
        lemma_live_bound(procs.drop_last());
    }
}

/// With nothing woken, nothing is promoted.
pub proof fn lemma_nothing_woken<V, R>(m: ExecModel<V, R>, k: nat)
    requires
        m.woken.len() == 0,
    ensures
        m.promoted(k).len() == 0,
    decreases k,
{
    if k > 0 {
        lemma_nothing_woken(m, (k - 1) as nat);
    }
}

/// What is promoted is promotable, and ascending.
proof fn lemma_promoted<V, R>(m: ExecModel<V, R>, k: nat)
    requires
        k <= m.procs.len() <= usize::MAX,
    ensures
        forall|i: int| 0 <= i < m.promoted(k).len() ==> m.promotable(#[trigger] m.promoted(k)[i]),
        forall|i: int| 0 <= i < m.promoted(k).len() ==> (#[trigger] m.promoted(k)[i]) < k,
        m.promoted(k).no_duplicates(),
    decreases k,
{
    if k > 0 {
        lemma_promoted(m, (k - 1) as nat);
    }
}

/// Flushing keeps the table consistent.
pub proof fn lemma_flush_valid<V, R>(m: ExecModel<V, R>)
    requires
        m.valid(),
    ensures
        m.flushed().valid(),
{
    lemma_promoted(m, m.procs.len());
    let p = m.promoted(m.procs.len());
    let q = m.flushed().queue;
    assert forall|i: int, j: int| 0 <= i < q.len() && 0 <= j < q.len() && i != j implies q[i]
        != q[j] by {
        let n = m.queue.len();
        if i < n && j >= n {
            assert(m.promotable(p[j - n]));
            assert(m.queue.contains(m.queue[i]));
        }
        if j < n && i >= n {
            assert(m.promotable(p[i - n]));
            assert(m.queue.contains(m.queue[j]));
        }
    }
    assert forall|i: int| 0 <= i < q.len() implies m.flushed().is_live(#[trigger] q[i]) by {
        if i >= m.queue.len() {
            assert(m.promotable(p[i - m.queue.len()]));
        } else {
            assert(m.is_live(m.queue[i]));
        }
    }
}

/// A poll of a live process spends weight.
pub proof fn lemma_poll_spends<O: Object, P: Process<Op = O::Op, Reply = O::Reply>>(
    g: ExecModel<P::Model, P::Reply>,
    objs: Seq<O::Model>,
    id: ProcessID,
)
    requires
        g.is_live(id),
        g.replies.len() == g.procs.len(),
    ensures
        ({
            let (h, objs2, turn) = polled::<O, P>(g, objs, id);
            &&& h.procs.len() == g.procs.len()
            &&& h.replies.len() == g.replies.len()
            &&& objs2.len() == objs.len()
            &&& weight::<P>(h.procs) < weight::<P>(g.procs)
        }),
{
    let (v, turn) = P::turn(g.procs[id as int]->0, g.replies[id as int]);
    P::law_budget(g.procs[id as int]->0, g.replies[id as int]);
    lemma_weight_update::<P>(g.procs, id as int, Some(v));
    lemma_weight_update::<P>(g.procs, id as int, None);
}

/// A process error carrying only the raw [`ProcessID`], as known to the executor.
#[derive(Debug)]
pub struct RawProcessError {
    /// The process that failed.
    pub pid: ProcessID,
    /// Its error.
    pub source: String,
}

/// The single-threaded process driver: a process table indexed by [`ProcessID`], a FIFO run
/// queue, and an inbox of woken process ids.
pub struct Executor<P: Process> {
    processes: Vec<Option<P>>,
    replies: Vec<Option<P::Reply>>,
    queue: VecDeque<ProcessID>,
    woken: Vec<ProcessID>,
    live: usize,
}

impl<P: Process> View for Executor<P> {
    type V = ExecModel<P::Model, P::Reply>;

    closed spec fn view(&self) -> ExecModel<P::Model, P::Reply> {
        ExecModel {
            procs: slot_models(self.processes@),
            replies: self.replies@,
            queue: self.queue@,
            woken: self.woken@,
        }
    }
}

impl<P: Process> Executor<P> {
    /// The table is consistent and the live count is kept.
    pub closed spec fn valid(&self) -> bool {
        self@.valid() && self.live == live_count(self@.procs)
    }

    /// An executor with nothing scheduled.
    pub fn new() -> (e: Self)
        ensures
            e.valid(),
            e@ == ExecModel::<P::Model, P::Reply>::empty(),
    {
        let e = Executor {
            processes: Vec::new(),
            replies: Vec::new(),
            queue: VecDeque::new(),
            woken: Vec::new(),
            live: 0,
        };
        assert(e@.procs =~= Seq::empty());
        e
    }

    /// The number of processes ever scheduled.
    pub fn scheduled(&self) -> (n: usize)
        ensures
            n == self@.procs.len(),
    {
        self.processes.len()
    }

    /// Registers a process, returning its [`ProcessID`] (its position in the table), and
    /// enqueues it as runnable.
    pub fn schedule(&mut self, code: P) -> (id: ProcessID)
        requires
            old(self).valid(),
            old(self)@.procs.len() < usize::MAX,
        ensures
            final(self).valid(),
            id == old(self)@.procs.len(),
            final(self)@ == old(self)@.scheduled(code@),
    {
        let ghost before = *self;
        let id: ProcessID = self.processes.len();
        proof {
            lemma_live_bound(self@.procs);
        }
        self.processes.push(Some(code));
        self.replies.push(None);
        self.live = self.live + 1;
        self.queue.push_back(id);
        proof {
            assert(self@.procs =~= before@.procs.push(Some(code@)));
            assert(self@.procs.drop_last() =~= before@.procs);
            assert forall|i: int| 0 <= i < self@.queue.len() implies self@.is_live(
                #[trigger] self@.queue[i],
            ) by {
                if i < before@.queue.len() {
                    assert(before@.is_live(before@.queue[i]));
                }
            }
            assert forall|i: int, j: int|
                0 <= i < self@.queue.len() && 0 <= j < self@.queue.len() && i
                    != j implies self@.queue[i] != self@.queue[j] by {
                if i < before@.queue.len() {
                    assert(before@.is_live(before@.queue[i]));
                }
                if j < before@.queue.len() {
                    assert(before@.is_live(before@.queue[j]));
                }
            }
        }
        id
    }

    /// Number of live processes: scheduled but not yet completed. Used to tell a clean finish
    /// from a deadlock.
    pub fn pending(&self) -> (n: usize)
        requires
            self.valid(),
        ensures
            n == live_count(self@.procs),
    {
        self.live
    }

    /// Hands `reply` to process `id` and wakes it: its operation has committed.
    pub fn wake(&mut self, id: ProcessID, reply: P::Reply)
        requires
            old(self).valid(),
            id < old(self)@.procs.len(),
        ensures
            final(self).valid(),
            final(self)@ == old(self)@.answered(id, reply),
    {
        let ghost before = *self;
        self.replies.set(id, Some(reply));
        self.woken.push(id);
        proof {
            assert forall|i: int| 0 <= i < self@.queue.len() implies self@.is_live(
                #[trigger] self@.queue[i],
            ) by {
                assert(before@.is_live(before@.queue[i]));
            }
        }
    }

    /// Runs the poll loop until the run queue drains, returning the first process error.
    /// Does not detect deadlock: the strategy does, by comparing [`pending`](Self::pending)
    /// against the enabled set.
    pub fn execute<O: Object<Op = P::Op, Reply = P::Reply>>(
        &mut self,
        objects: &mut Vec<O>,
    ) -> (r: Result<(), RawProcessError>)
        requires
            old(self).valid(),
            forall|i: int|
                0 <= i < old(objects)@.len() ==> O::valid(#[trigger] models(old(objects)@)[i]),
        ensures
            final(self).valid(),
            ({
                let (m, objs, failed) = settled::<O, P>(old(self)@, models(old(objects)@));
                &&& final(self)@ == m
                &&& models(final(objects)@) == objs
                &&& match r {
                    Ok(_) => failed is None && final(self)@.quiet(),
                    Err(e) => failed == Some((e.pid, e.source@)) && e.pid < m.procs.len(),
                }
            }),
    {
        let ghost goal = settled::<O, P>(self@, models(objects@));
        loop
            invariant
                self.valid(),
                settled::<O, P>(self@, models(objects@)) == goal,
                goal == settled::<O, P>(old(self)@, models(old(objects)@)),
                forall|i: int|
                    0 <= i < objects@.len() ==> O::valid(#[trigger] models(objects@)[i]),
            decreases weight::<P>(self@.procs),
        {
            let ghost before = self@;
            let ghost objs = models(objects@);
            self.flush_wakes();
            let ghost flushed = self@;
            let ghost live = self.live;
            let next = self.queue.pop_front();
            let Some(id) = next else {
                return Ok(());
            };
            let ghost popped = self@;
            proof {
                assert(flushed.is_live(flushed.queue[0]));
                assert(popped.queue =~= flushed.queue.drop_first());
                assert(popped.valid()) by {
                    assert forall|i: int| 0 <= i < popped.queue.len() implies popped.is_live(
                        #[trigger] popped.queue[i],
                    ) by {
                        assert(flushed.is_live(flushed.queue[i + 1]));
                    }
                }
                assert(popped == ExecModel { queue: flushed.queue.drop_first(), ..flushed });
                lemma_poll_spends::<O, P>(popped, objs, id);
            }
            let failed = self.poll(id, objects);
            if let Some(e) = failed {
                return Err(RawProcessError { pid: id, source: e });
            }
        }
    }

    /// Polls one process once and carries out what it asked for; returns its error if it
    /// failed.
    fn poll<O: Object<Op = P::Op, Reply = P::Reply>>(
        &mut self,
        id: ProcessID,
        objects: &mut Vec<O>,
    ) -> (failed: Option<String>)
        requires
            old(self).valid(),
            old(self)@.is_live(id),
            !old(self)@.queue.contains(id),
            forall|i: int|
                0 <= i < old(objects)@.len() ==> O::valid(#[trigger] models(old(objects)@)[i]),
        ensures
            final(self).valid(),
            ({
                let (m, objs, turn) = polled::<O, P>(old(self)@, models(old(objects)@), id);
                &&& final(self)@ == m
                &&& models(final(objects)@) == objs
                &&& match failed {
                    Some(e) => turn == Turn::<P::Op>::Failed(e@),
                    None => !(turn is Failed),
                }
            }),
            forall|i: int|
                0 <= i < final(objects)@.len() ==> O::valid(#[trigger] models(final(objects)@)[i]),
    {
        let ghost before = *self;
        let ghost objs = models(objects@);
        let reply = self.replies[id].take();
        let outcome = match &mut self.processes[id] {
            Some(p) => p.resume(reply),
            None => Outcome::Blocked,
        };
        let ghost (v, turn) = P::turn(before@.procs[id as int]->0, before@.replies[id as int]);
        let ghost kept = ExecModel {
            procs: before@.procs.update(id as int, Some(v)),
            replies: before@.replies.update(id as int, None),
            ..before@
        };
        proof {
            assert(outcome@ == turn);
            assert(self@.procs =~= kept.procs);
            assert(self@.replies =~= kept.replies);
            assert(self@ == kept);
            lemma_live_update(before@.procs, id as int, Some(v));
            lemma_live_update(before@.procs, id as int, None);
            assert forall|i: int| 0 <= i < before@.queue.len() implies kept.is_live(
                #[trigger] before@.queue[i],
            ) && before@.queue[i] != id by {
                assert(before@.is_live(before@.queue[i]));
                assert(before@.queue.contains(before@.queue[i]));
            }
            assert(self.valid());
        }
        match outcome {
            Outcome::Request(oid, op) => {
                if oid < objects.len() && objects[oid].accepts(&op) {
                    proof {
                        assert(O::valid(objs[oid as int]));
                        O::law_request(objs[oid as int], id, op);
                    }
                    objects[oid].register(id, op);
                    proof {
                        assert(models(objects@) =~= objs.update(
                            oid as int,
                            O::with_request(objs[oid as int], id, op),
                        ));
                        assert forall|i: int| 0 <= i < objects@.len() implies O::valid(
                            #[trigger] models(objects@)[i],
                        ) by {
                            assert(i != oid ==> models(objects@)[i] == objs[i]);
                        }
                    }
                }
                None
            },
            Outcome::Yield => {
                self.woken.push(id);
                None
            },
            Outcome::Blocked => { None },
            Outcome::Done => {
                proof {
                    assert(live_count(before@.procs) >= 1);
                }
                self.processes.set(id, None);
                self.live = self.live - 1;
                proof {
                    assert(self@.procs =~= before@.procs.update(id as int, None));
                    assert forall|i: int| 0 <= i < self@.queue.len() implies self@.is_live(
                        #[trigger] self@.queue[i],
                    ) by {
                        assert(kept.is_live(before@.queue[i]));
                    }
                }
                None
            },
            Outcome::Failed(e) => { Some(e) },
        }
    }

    /// Moves woken processes back onto the queue, in ascending-pid order so that the FIFO
    /// tie-break stays replay-stable however the wakes happened to fire. Skips any process
    /// that is already queued or has completed.
    fn flush_wakes(&mut self)
        requires
            old(self).valid(),
        ensures
            final(self).valid(),
            final(self)@ == old(self)@.flushed(),
    {
        let ghost before = *self;
        let n: usize = self.processes.len();
        let mut id: usize = 0;
        while id < n
            invariant
                id <= n,
                n == self.processes@.len(),
                self.processes == before.processes,
                self.replies == before.replies,
                self.woken == before.woken,
                self.live == before.live,
                self.queue@ == before@.queue + before@.promoted(id as nat),
                before.valid(),
            decreases n - id,
        {
            let ghost k = id as nat;
            if self.processes[id].is_some() {
                let woken = contains(&self.woken, id);
                if woken {
                    let ghost p = before@.promoted(k);
                    let queued = queue_contains(&self.queue, id);
                    proof {
                        assert(woken == before@.woken.contains(id));
                        lemma_promoted(before@, k);
                        assert(self.queue@.contains(id) == before@.queue.contains(id)) by {
                            if before@.queue.contains(id) {
                                let i = choose|i: int|
                                    0 <= i < before@.queue.len() && before@.queue[i] == id;
                                assert(self.queue@[i] == id);
                            }
                            if self.queue@.contains(id) {
                                let i = choose|i: int|
                                    0 <= i < self.queue@.len() && self.queue@[i] == id;
                                if i >= before@.queue.len() {
                                    assert(p[i - before@.queue.len()] < k);
                                }
                            }
                        }
                    }
                    if !queued {
                        self.queue.push_back(id);
                    }
                }
            }
            id = id + 1;
            assert(self.queue@ =~= before@.queue + before@.promoted(id as nat));
        }
        self.woken.clear();
        proof {
            lemma_flush_valid(before@);
            assert(self@ == before@.flushed());
        }
    }
}

/// Whether `v` holds `x`.
pub fn contains(v: &Vec<usize>, x: usize) -> (b: bool)
    ensures
        b == v@.contains(x),
{
    let mut i: usize = 0;
    while i < v.len()
        invariant
            i <= v@.len(),
            forall|j: int| 0 <= j < i ==> v@[j] != x,
        decreases v@.len() - i,
    {
        if v[i] == x {
            return true;
        }
        i = i + 1;
    }
    false
}

fn queue_contains(v: &VecDeque<usize>, x: usize) -> (b: bool)
    ensures
        b == v@.contains(x),
{
    let mut i: usize = 0;
    while i < v.len()
        invariant
            i <= v@.len(),
            forall|j: int| 0 <= j < i ==> v@[j] != x,
        decreases v@.len() - i,
    {
        if v[i] == x {
            return true;
        }
        i = i + 1;
    }
    false
}

} // verus!
