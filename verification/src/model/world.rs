//! The program under test: a [`World`] owns the processes and synchronization objects created
//! on it.

use vstd::prelude::*;

use crate::model::coherence::{
    coherent, holding, lemma_holding_at, lemma_holding_two, lemma_holding_update,
    lemma_settled_coherent, objects_valid, remembers,
};
use crate::model::executor::{live_count, models, settled, views, weight, ExecModel, Executor};
use crate::model::failure::{FailureReason, ProcessError, Reason};
use crate::model::laws::{at_fault, erred, law_ran};
use crate::model::object::{Object, ObjectID, Transition};
use crate::model::process::{Process, ProcessID};

verus! {

/// The mathematical reading of a [`World`].
pub struct WorldModel<OV, PV, R> {
    /// The objects, by id.
    pub objs: Seq<OV>,
    /// The processes and the run queue.
    pub sched: ExecModel<PV, R>,
    /// The process names, by process id.
    pub pnames: Seq<Seq<char>>,
    /// The object names, by object id.
    pub onames: Seq<Seq<char>>,
}

/// The transitions that can commit now: objects in order, then each object's own order.
pub open spec fn ready_all<O: Object>(objs: Seq<O::Model>) -> Seq<Transition>
    decreases objs.len(),
{
    if objs.len() == 0 {
        Seq::empty()
    } else {
        ready_all::<O>(objs.drop_last()) + O::ready(objs.last())
    }
}

/// The names and the tables agree, and so do the processes and the objects.
pub open spec fn world_sound<O: Object, P: Process<Op = O::Op, Reply = O::Reply>>(
    w: WorldModel<O::Model, P::Model, P::Reply>,
) -> bool {
    &&& coherent::<O, P>(w.sched, w.objs)
    &&& w.pnames.len() == w.sched.procs.len()
    &&& w.onames.len() == w.objs.len()
    &&& w.objs.len() <= usize::MAX
}

/// The world after its processes ran as far as they can, and the process error that stopped
/// them, if any.
pub open spec fn ran<O: Object, P: Process<Op = O::Op, Reply = O::Reply>>(
    w: WorldModel<O::Model, P::Model, P::Reply>,
) -> (WorldModel<O::Model, P::Model, P::Reply>, Option<Reason>) {
    let (sched, objs, failed) = settled::<O, P>(w.sched, w.objs);
    (
        WorldModel { objs, sched, ..w },
        match failed {
            Some((pid, source)) => Some(Reason::Process(w.pnames[pid as int], source)),
            None => None,
        },
    )
}

/// The world after `t` committed on its object and its process got the reply.
pub open spec fn committed<O: Object, P: Process<Op = O::Op, Reply = O::Reply>>(
    w: WorldModel<O::Model, P::Model, P::Reply>,
    t: Transition,
) -> WorldModel<O::Model, P::Model, P::Reply> {
    let (object, reply) = O::with_commit(w.objs[t.oid as int], t);
    WorldModel {
        objs: w.objs.update(t.oid as int, object),
        sched: w.sched.answered(t.pid, reply),
        ..w
    }
}

/// Two transitions conflict: they are of one object, which says so.
pub open spec fn conflicting<O: Object>(
    objs: Seq<O::Model>,
    t1: Transition,
    t2: Transition,
) -> bool {
    t1.oid == t2.oid && O::conflict(objs[t1.oid as int], t1, t2)
}

/// A world without processes and objects.
pub open spec fn empty_world<O: Object, P: Process<Op = O::Op, Reply = O::Reply>>() -> WorldModel<
    O::Model,
    P::Model,
    P::Reply,
> {
    WorldModel {
        objs: Seq::empty(),
        sched: ExecModel::empty(),
        pnames: Seq::empty(),
        onames: Seq::empty(),
    }
}

/// Running the processes keeps a world sound.
pub proof fn lemma_ran_sound<O: Object, P: Process<Op = O::Op, Reply = O::Reply>>(
    w: WorldModel<O::Model, P::Model, P::Reply>,
)
    requires
        world_sound::<O, P>(w),
    ensures
        world_sound::<O, P>(ran::<O, P>(w).0),
        ran::<O, P>(w).1 is None ==> ran::<O, P>(w).0.sched.quiet(),
        ran::<O, P>(w).1 is Some ==> ran::<O, P>(w).1->0 is Process,
        remembers::<O>(w.objs, ran::<O, P>(w).0.objs, None),
        weight::<P>(ran::<O, P>(w).0.sched.procs) <= weight::<P>(w.sched.procs),
{
    lemma_settled_coherent::<O, P>(w.sched, w.objs);
}

/// A transition is ready in the world exactly when it is ready on its object.
pub proof fn lemma_ready_all<O: Object>(objs: Seq<O::Model>)
    requires
        objects_valid::<O>(objs),
    ensures
        forall|t: Transition| #[trigger]
            ready_all::<O>(objs).contains(t) <==> t.oid < objs.len() && O::ready(
                objs[t.oid as int],
            ).contains(t),
        ready_all::<O>(objs).no_duplicates(),
    decreases objs.len(),
{
    if objs.len() > 0 {
        let init = objs.drop_last();
        assert(objects_valid::<O>(init)) by {
            assert forall|i: int| 0 <= i < init.len() implies O::valid(#[trigger] init[i])
                && O::ident(init[i]) == i by {
                assert(O::valid(objs[i]));
            }
        }
        lemma_ready_all::<O>(init);
        assert(O::valid(objs[objs.len() - 1]));
        O::law_ready(objs.last());
        let head = ready_all::<O>(init);
        let tail = O::ready(objs.last());
        assert forall|t: Transition| #[trigger]
            ready_all::<O>(objs).contains(t) <==> t.oid < objs.len() && O::ready(
                objs[t.oid as int],
            ).contains(t) by {
            if ready_all::<O>(objs).contains(t) {
                let i = choose|i: int| 0 <= i < (head + tail).len() && (head + tail)[i] == t;
                if i < head.len() {
                    assert(head[i] == t);
                    assert(head.contains(t));
                } else {
                    assert(tail[i - head.len()] == t);
                    assert(tail.contains(t));
                }
            }
            if t.oid < objs.len() && O::ready(objs[t.oid as int]).contains(t) {
                if t.oid < init.len() {
                    assert(head.contains(t));
                    let i = choose|i: int| 0 <= i < head.len() && head[i] == t;
                    assert((head + tail)[i] == t);
                } else {
                    let i = choose|i: int| 0 <= i < tail.len() && tail[i] == t;
                    assert((head + tail)[head.len() + i] == t);
                }
            }
        }
        assert forall|i: int, j: int|
            0 <= i < (head + tail).len() && 0 <= j < (head + tail).len() && i != j implies (head
            + tail)[i] != (head + tail)[j] by {
            if i < head.len() && j >= head.len() {
                assert(head.contains(head[i]));
                assert(tail.contains(tail[j - head.len()]));
            }
            if j < head.len() && i >= head.len() {
                assert(head.contains(head[j]));
                assert(tail.contains(tail[i - head.len()]));
            }
        }
    }
}

/// The process of a ready transition is live and waits for nothing else; it has no other
/// ready transition.
pub proof fn lemma_ready_unique<O: Object, P: Process<Op = O::Op, Reply = O::Reply>>(
    m: ExecModel<P::Model, P::Reply>,
    objs: Seq<O::Model>,
    t: Transition,
)
    requires
        coherent::<O, P>(m, objs),
        ready_all::<O>(objs).contains(t),
    ensures
        t.oid < objs.len(),
        O::ready(objs[t.oid as int]).contains(t),
        O::knows(objs[t.oid as int], t),
        O::holders(objs[t.oid as int]).count(t.pid) == 1,
        holding::<O>(objs, t.pid) == 1,
        m.is_live(t.pid),
        forall|u: Transition| #[trigger]
            ready_all::<O>(objs).contains(u) && u.pid == t.pid ==> u == t,
{
    lemma_ready_all::<O>(objs);
    let m1 = objs[t.oid as int];
    assert(O::valid(m1));
    O::law_ready(m1);
    lemma_holding_at::<O>(objs, t.oid as int, t.pid);
    assert(holding::<O>(objs, t.pid) <= 1);
    assert forall|u: Transition| #[trigger]
        ready_all::<O>(objs).contains(u) && u.pid == t.pid implies u == t by {
        let m2 = objs[u.oid as int];
        assert(O::valid(m2));
        O::law_ready(m2);
        if u.oid != t.oid {
            if u.oid < t.oid {
                lemma_holding_two::<O>(objs, u.oid as int, t.oid as int, t.pid);
            } else {
                lemma_holding_two::<O>(objs, t.oid as int, u.oid as int, t.pid);
            }
        }
    }
}

/// Committing a ready transition keeps a world sound, and commits exactly that transition.
pub proof fn lemma_commit_sound<O: Object, P: Process<Op = O::Op, Reply = O::Reply>>(
    w: WorldModel<O::Model, P::Model, P::Reply>,
    t: Transition,
)
    requires
        world_sound::<O, P>(w),
        ready_all::<O>(w.objs).contains(t),
    ensures
        world_sound::<O, P>(committed::<O, P>(w, t)),
        remembers::<O>(w.objs, committed::<O, P>(w, t).objs, Some(t)),
{
    lemma_ready_unique::<O, P>(w.sched, w.objs, t);
    let m = w.objs[t.oid as int];
    assert(O::valid(m));
    O::law_commit(m, t);
    let c = committed::<O, P>(w, t);
    let v = O::with_commit(m, t).0;
    assert forall|p: ProcessID| #[trigger]
        holding::<O>(c.objs, p) == if p == t.pid {
            0
        } else {
            holding::<O>(w.objs, p)
        } by {
        lemma_holding_update::<O>(w.objs, t.oid as int, v, p);
    }
    assert forall|p: ProcessID| #[trigger] holding::<O>(c.objs, p) <= 1 by {
        assert(holding::<O>(w.objs, p) <= 1);
    }
    assert forall|p: ProcessID| #[trigger] holding::<O>(c.objs, p) >= 1 implies c.sched.is_live(
        p,
    ) && !c.sched.queue.contains(p) && !c.sched.woken.contains(p) by {
        assert(w.sched.is_live(p));
        if c.sched.woken.contains(p) {
            let i = choose|i: int| 0 <= i < c.sched.woken.len() && c.sched.woken[i] == p;
            if i < w.sched.woken.len() {
                assert(w.sched.woken[i] == p);
            }
        }
    }
    assert forall|i: int| 0 <= i < c.sched.queue.len() implies c.sched.is_live(
        #[trigger] c.sched.queue[i],
    ) by {
        assert(w.sched.is_live(w.sched.queue[i]));
    }
    assert forall|i: int, u: Transition|
        0 <= i < w.objs.len() implies (#[trigger] O::has_committed(c.objs[i], u) <==> (
    O::has_committed(w.objs[i], u) || Some(t) == Some(u) && i == u.oid)) by {
        if i == t.oid {
            assert(O::has_committed(v, u) <==> O::has_committed(m, u) || u == t);
        }
    }
}

/// The program under test: a builder that owns the processes and synchronization objects
/// created on it. A setup function populates it with [`spawn`](World::spawn) and
/// [`register`](World::register). That function must be deterministic, building the same
/// objects in the same order every time, because the search runs it repeatedly to explore
/// different schedules.
pub struct World<O: Object, P: Process<Op = O::Op, Reply = O::Reply>> {
    objects: Vec<O>,
    executor: Executor<P>,
    process_names: Vec<String>,
    object_names: Vec<String>,
}

impl<O: Object, P: Process<Op = O::Op, Reply = O::Reply>> View for World<O, P> {
    type V = WorldModel<O::Model, P::Model, P::Reply>;

    closed spec fn view(&self) -> WorldModel<O::Model, P::Model, P::Reply> {
        WorldModel {
            objs: models(self.objects@),
            sched: self.executor@,
            pnames: views(self.process_names@),
            onames: views(self.object_names@),
        }
    }
}

impl<O: Object, P: Process<Op = O::Op, Reply = O::Reply>> World<O, P> {
    /// The world's invariant.
    pub closed spec fn valid(&self) -> bool {
        self.executor.valid() && world_sound::<O, P>(self@)
    }

    /// What every world is: its names, tables, processes and objects agree.
    pub proof fn lemma_valid(&self)
        requires
            self.valid(),
        ensures
            world_sound::<O, P>(self@),
    {
    }

    /// A world without processes and objects.
    pub fn new() -> (w: Self)
        ensures
            w.valid(),
            w@ == empty_world::<O, P>(),
    {
        let w = World {
            objects: Vec::new(),
            executor: Executor::new(),
            process_names: Vec::new(),
            object_names: Vec::new(),
        };
        proof {
            assert(w@.objs =~= Seq::empty());
            assert(w@.pnames =~= Seq::empty());
            assert(w@.onames =~= Seq::empty());
        }
        w
    }

    /// Registers a named process. Every operation that `code` requests is a scheduling point.
    /// The name identifies this process wherever its [`Transition`]s are shown.
    pub fn spawn(&mut self, name: &str, code: P)
        requires
            old(self).valid(),
            old(self)@.sched.procs.len() < usize::MAX,
        ensures
            final(self).valid(),
            final(self)@.sched == old(self)@.sched.scheduled(code@),
            final(self)@.sched.procs == old(self)@.sched.procs.push(Some(code@)),
            final(self)@.pnames == old(self)@.pnames.push(name@),
            final(self)@.objs == old(self)@.objs,
            final(self)@.onames == old(self)@.onames,
    {
        let ghost before = *self;
        self.executor.schedule(code);
        self.process_names.push(String::from_str(name));
        proof {
            assert(self@.pnames =~= before@.pnames.push(name@));
            let m = before@.sched;
            let n = self@.sched;
            assert forall|p: ProcessID| #[trigger]
                holding::<O>(self@.objs, p) >= 1 implies n.is_live(p) && !n.queue.contains(p)
                && !n.woken.contains(p) by {
                assert(m.is_live(p));
                if n.queue.contains(p) {
                    let i = choose|i: int| 0 <= i < n.queue.len() && n.queue[i] == p;
                    if i < m.queue.len() {
                        assert(m.queue[i] == p);
                    }
                }
            }
        }
    }

    /// Registers a custom synchronization object and returns the [`ObjectID`] assigned to it,
    /// which is what its processes address their operations to.
    ///
    /// `build` receives that id and returns the object, with no operation registered on it.
    /// This is the extension point behind the built-in primitives: implement [`Object`] for
    /// your own lock, channel, or barrier and register it here.
    pub fn register<B: FnOnce(ObjectID) -> O>(&mut self, name: &str, build: B) -> (id: ObjectID)
        requires
            old(self).valid(),
            old(self)@.objs.len() < usize::MAX,
            build.requires((old(self)@.objs.len() as ObjectID,)),
            forall|o: O| #[trigger]
                build.ensures((old(self)@.objs.len() as ObjectID,), o) ==> O::valid(o@)
                    && O::ident(o@) == old(self)@.objs.len() && O::holders(o@).len() == 0,
        ensures
            final(self).valid(),
            id == old(self)@.objs.len(),
            final(self)@.sched == old(self)@.sched,
            final(self)@.pnames == old(self)@.pnames,
            final(self)@.onames == old(self)@.onames.push(name@),
            final(self)@.objs.len() == old(self)@.objs.len() + 1,
            final(self)@.objs.drop_last() == old(self)@.objs,
            exists|o: O| #[trigger] build.ensures((id,), o) && final(self)@.objs.last() == o@,
    {
        let ghost before = *self;
        let id: ObjectID = self.objects.len();
        let object = build(id);
        let ghost o = object;
        self.objects.push(object);
        self.object_names.push(String::from_str(name));
        proof {
            assert(self@.objs =~= before@.objs.push(o@));
            assert(self@.onames =~= before@.onames.push(name@));
            assert(self@.objs.drop_last() =~= before@.objs);
            assert forall|p: ProcessID| #[trigger]
                holding::<O>(self@.objs, p) == holding::<O>(before@.objs, p) by {
                assert(O::holders(o@).count(p) == 0) by {
                    lemma_empty_count(O::holders(o@), p);
                }
            }
            assert forall|i: int| 0 <= i < self@.objs.len() implies O::valid(
                #[trigger] self@.objs[i],
            ) && O::ident(self@.objs[i]) == i by {
                if i < before@.objs.len() {
                    assert(O::valid(before@.objs[i]));
                }
            }
        }
        id
    }

    /// The name of the process that performs the given [`Transition`].
    pub fn process(&self, t: Transition) -> (s: &str)
        requires
            t.pid < self@.pnames.len(),
        ensures
            s@ == self@.pnames[t.pid as int],
    {
        self.process_names[t.pid].as_str()
    }

    /// The name of the object the given [`Transition`] operates on.
    pub fn object(&self, t: Transition) -> (s: &str)
        requires
            t.oid < self@.onames.len(),
        ensures
            s@ == self@.onames[t.oid as int],
    {
        self.object_names[t.oid].as_str()
    }

    /// A human-readable label for a *committed* [`Transition`] (e.g. `"load -> 123"`).
    pub fn label(&self, t: Transition) -> (s: String)
        requires
            self.valid(),
            t.oid < self@.objs.len(),
            O::has_committed(self@.objs[t.oid as int], t),
        ensures
            s@ == O::label_text(self@.objs[t.oid as int], t),
    {
        proof {
            assert(O::valid(self@.objs[t.oid as int]));
        }
        self.objects[t.oid].label(t)
    }

    /// The process names, indexed by process id.
    pub fn processes(&self) -> (names: &Vec<String>)
        ensures
            views(names@) == self@.pnames,
    {
        &self.process_names
    }

    /// The object names, indexed by object id.
    pub fn objects(&self) -> (names: &Vec<String>)
        ensures
            views(names@) == self@.onames,
    {
        &self.object_names
    }

    /// Runs the processes as far as they can, promoting a raw failure (pid only) into the
    /// name-bearing [`FailureReason`].
    pub(crate) fn run(&mut self) -> (failure: Option<FailureReason>)
        requires
            old(self).valid(),
        ensures
            final(self).valid(),
            ({
                let (w, f) = ran::<O, P>(old(self)@);
                &&& final(self)@ == w
                &&& match failure {
                    Some(r) => f == Some(r@),
                    None => f is None,
                }
            }),
            final(self)@.pnames == old(self)@.pnames,
            match failure {
                Some(FailureReason::Process(e)) => at_fault::<P>(
                    final(self)@.sched.procs,
                    old(self)@.pnames,
                    e@.0,
                    e@.1,
                ),
                Some(FailureReason::Deadlock) => false,
                None => final(self)@.sched.quiet(),
            },
    {
        let ghost before = self@;
        proof {
            law_ran::<O, P>(self@);
            lemma_ran_sound::<O, P>(self@);
            assert forall|i: int| 0 <= i < self.objects@.len() implies O::valid(
                #[trigger] models(self.objects@)[i],
            ) by {
                assert(O::valid(self@.objs[i]));
            }
        }
        let failure = match self.executor.execute(&mut self.objects) {
            Ok(_) => None,
            Err(raw) => {
                Some(
                    FailureReason::Process(
                        ProcessError::new(self.process_names[raw.pid].clone(), raw.source),
                    ),
                )
            },
        };
        proof {
            if let Some((pid, e)) = settled::<O, P>(before.sched, before.objs).2 {
                assert(erred::<P>(self@.sched.procs, pid as int, e));
                assert(at_fault::<P>(
                    self@.sched.procs,
                    before.pnames,
                    before.pnames[pid as int],
                    e,
                ));
            }
        }
        failure
    }

    /// Commits the ready transition `t` on its object and hands the reply to its process,
    /// which is then ready to run.
    pub(crate) fn commit(&mut self, t: Transition)
        requires
            old(self).valid(),
            ready_all::<O>(old(self)@.objs).contains(t),
        ensures
            final(self).valid(),
            final(self)@ == committed::<O, P>(old(self)@, t),
    {
        let ghost before = self@;
        proof {
            lemma_ready_unique::<O, P>(self@.sched, self@.objs, t);
            assert(O::valid(self@.objs[t.oid as int]));
            lemma_commit_sound::<O, P>(self@, t);
        }
        let reply = self.objects[t.oid].apply(t);
        assert(models(self.objects@) =~= before.objs.update(
            t.oid as int,
            O::with_commit(before.objs[t.oid as int], t).0,
        ));
        self.executor.wake(t.pid, reply);
    }

    /// The transitions that can commit now. Fixed iteration order (objects, then each
    /// object's requests, both insertion-ordered) is what lets replay rebuild identical
    /// states.
    pub(crate) fn ready(&self) -> (ts: Vec<Transition>)
        requires
            self.valid(),
        ensures
            ts@ == ready_all::<O>(self@.objs),
    {
        let mut ts: Vec<Transition> = Vec::new();
        let mut i: usize = 0;
        while i < self.objects.len()
            invariant
                self.valid(),
                i <= self.objects@.len(),
                ts@ == ready_all::<O>(self@.objs.take(i as int)),
            decreases self.objects@.len() - i,
        {
            assert(O::valid(self@.objs[i as int]));
            let mut own = self.objects[i].enabled();
            ts.append(&mut own);
            proof {
                assert(self@.objs.take(i + 1).drop_last() =~= self@.objs.take(i as int));
            }
            i = i + 1;
        }
        assert(self@.objs.take(i as int) =~= self@.objs);
        ts
    }

    /// Whether no object can make a process wait for another one.
    pub(crate) fn non_blocking(&self) -> (b: bool)
        requires
            self.valid(),
        ensures
            b == (forall|i: int| 0 <= i < self@.objs.len() ==> !O::can_block(#[trigger] self@.objs[i])),
    {
        let mut i: usize = 0;
        while i < self.objects.len()
            invariant
                self.valid(),
                i <= self.objects@.len(),
                forall|j: int| 0 <= j < i ==> !O::can_block(#[trigger] self@.objs[j]),
            decreases self.objects@.len() - i,
        {
            assert(O::valid(self@.objs[i as int]));
            if self.objects[i].may_block() {
                assert(O::can_block(self@.objs[i as int]));
                return false;
            }
            i = i + 1;
        }
        true
    }

    /// The number of live processes.
    pub(crate) fn pending(&self) -> (n: usize)
        requires
            self.valid(),
        ensures
            n == live_count(self@.sched.procs),
    {
        self.executor.pending()
    }

    /// Whether two transitions conflict; those of different objects never do.
    pub(crate) fn depends(&self, t1: Transition, t2: Transition) -> (b: bool)
        requires
            self.valid(),
            t1.oid == t2.oid ==> t1.oid < self@.objs.len() && O::knows(
                self@.objs[t1.oid as int],
                t1,
            ) && O::knows(self@.objs[t1.oid as int], t2),
        ensures
            b == conflicting::<O>(self@.objs, t1, t2),
    {
        if t1.oid == t2.oid {
            assert(O::valid(self@.objs[t1.oid as int]));
            self.objects[t1.oid].depends(t1, t2)
        } else {
            false
        }
    }
}

proof fn lemma_empty_count<V>(m: vstd::multiset::Multiset<V>, v: V)
    requires
        m.len() == 0,
    ensures
        m.count(v) == 0,
{
    broadcast use vstd::multiset::group_multiset_axioms;

    if m.count(v) > 0 {
        assert(m.remove(v).len() == m.len() - 1);
    }
}

} // verus!
