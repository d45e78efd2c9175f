//! A [`State`] is a world advanced along a [`Transition`] trace. The search layer reaches the
//! model only through this surface and rebuilds states by *replaying* a trace, since processes
//! cannot be copied.

use std::marker::PhantomData;

use vstd::prelude::*;

use crate::model::coherence::{
    lemma_remembers_trans, lemma_settled_coherent, lemma_settled_solo, remembers,
};
use crate::model::executor::{live_count, weight, ExecModel};
use crate::model::failure::{FailureReason, Reason};
use crate::model::laws::{anyone, law_live};
use crate::model::object::{Object, Transition};
use crate::model::process::Process;
use crate::model::world::{
    committed, conflicting, empty_world, lemma_commit_sound, lemma_ran_sound, lemma_ready_unique,
    ran, ready_all, world_sound, World, WorldModel,
};

verus! {

/// The mathematical reading of a [`State`].
pub struct StateModel<OV, PV, R> {
    /// The program where it stands.
    pub world: WorldModel<OV, PV, R>,
    /// The transitions applied to get there.
    pub trace: Seq<Transition>,
    /// Why the state ends its branch, if it failed.
    pub failure: Option<Reason>,
}

/// The failure of a state whose processes stopped with `failure`: a process error takes
/// precedence; otherwise nothing being ready while a process is live is a deadlock.
pub open spec fn verdict<O: Object, P: Process<Op = O::Op, Reply = O::Reply>>(
    w: WorldModel<O::Model, P::Model, P::Reply>,
    failure: Option<Reason>,
) -> Option<Reason> {
    if failure is None && ready_all::<O>(w.objs).len() == 0 && live_count(w.sched.procs) > 0 {
        Some(Reason::Deadlock)
    } else {
        failure
    }
}

/// The state the program built as `w` starts in.
pub open spec fn started<O: Object, P: Process<Op = O::Op, Reply = O::Reply>>(
    w: WorldModel<O::Model, P::Model, P::Reply>,
) -> StateModel<O::Model, P::Model, P::Reply> {
    let (world, failure) = ran::<O, P>(w);
    StateModel { world, trace: Seq::empty(), failure: verdict::<O, P>(world, failure) }
}

/// The state after `t` was applied.
pub open spec fn applied<O: Object, P: Process<Op = O::Op, Reply = O::Reply>>(
    s: StateModel<O::Model, P::Model, P::Reply>,
    t: Transition,
) -> StateModel<O::Model, P::Model, P::Reply> {
    let (world, failure) = ran::<O, P>(committed::<O, P>(s.world, t));
    StateModel { world, trace: s.trace.push(t), failure: verdict::<O, P>(world, failure) }
}

/// `t` may be applied: the state has not failed and `t` is ready.
pub open spec fn legal<O: Object, P: Process<Op = O::Op, Reply = O::Reply>>(
    s: StateModel<O::Model, P::Model, P::Reply>,
    t: Transition,
) -> bool {
    s.failure is None && ready_all::<O>(s.world.objs).contains(t)
}

/// The state that the schedule `trace` leads to, from the program built as `w`.
pub open spec fn reached<O: Object, P: Process<Op = O::Op, Reply = O::Reply>>(
    w: WorldModel<O::Model, P::Model, P::Reply>,
    trace: Seq<Transition>,
) -> StateModel<O::Model, P::Model, P::Reply>
    decreases trace.len(),
{
    if trace.len() == 0 {
        started::<O, P>(w)
    } else {
        applied::<O, P>(reached::<O, P>(w, trace.drop_last()), trace.last())
    }
}

/// `trace` is a schedule of the program built as `w`: each step is legal where it is taken.
pub open spec fn feasible<O: Object, P: Process<Op = O::Op, Reply = O::Reply>>(
    w: WorldModel<O::Model, P::Model, P::Reply>,
    trace: Seq<Transition>,
) -> bool
    decreases trace.len(),
{
    trace.len() == 0 || feasible::<O, P>(w, trace.drop_last()) && legal::<O, P>(
        reached::<O, P>(w, trace.drop_last()),
        trace.last(),
    )
}

/// What holds of every state that a schedule leads to.
pub open spec fn state_sound<O: Object, P: Process<Op = O::Op, Reply = O::Reply>>(
    s: StateModel<O::Model, P::Model, P::Reply>,
) -> bool {
    &&& world_sound::<O, P>(s.world)
    &&& s.failure is None ==> s.world.sched.quiet()
    &&& s.failure is None && ready_all::<O>(s.world.objs).len() == 0 ==> live_count(
        s.world.sched.procs,
    ) == 0
    &&& forall|i: int|
        0 <= i < s.trace.len() ==> (#[trigger] s.trace[i]).oid < s.world.objs.len()
            && s.trace[i].pid < s.world.sched.procs.len() && O::has_committed(
            s.world.objs[s.trace[i].oid as int],
            s.trace[i],
        )
}

/// A started program is in a sound state.
pub proof fn lemma_started_sound<O: Object, P: Process<Op = O::Op, Reply = O::Reply>>(
    w: WorldModel<O::Model, P::Model, P::Reply>,
)
    requires
        world_sound::<O, P>(w),
    ensures
        state_sound::<O, P>(started::<O, P>(w)),
        weight::<P>(started::<O, P>(w).world.sched.procs) <= weight::<P>(w.sched.procs),
{
    lemma_ran_sound::<O, P>(w);
}

/// Committing a ready transition and running its process keeps a quiet world sound and quiet,
/// spends weight, and commits exactly that transition.
pub proof fn lemma_step_world<O: Object, P: Process<Op = O::Op, Reply = O::Reply>>(
    w: WorldModel<O::Model, P::Model, P::Reply>,
    t: Transition,
)
    requires
        world_sound::<O, P>(w),
        w.sched.quiet(),
        ready_all::<O>(w.objs).contains(t),
    ensures
        ({
            let next = ran::<O, P>(committed::<O, P>(w, t)).0;
            &&& world_sound::<O, P>(next)
            &&& next.sched.quiet()
            &&& next.sched.procs.len() == w.sched.procs.len()
            &&& weight::<P>(next.sched.procs) < weight::<P>(w.sched.procs)
            &&& remembers::<O>(w.objs, next.objs, Some(t))
        }),
{
    lemma_ready_unique::<O, P>(w.sched, w.objs, t);
    lemma_commit_sound::<O, P>(w, t);
    let c = committed::<O, P>(w, t);
    lemma_ran_sound::<O, P>(c);
    lemma_settled_coherent::<O, P>(c.sched, c.objs);
    lemma_settled_solo::<O, P>(c.sched, c.objs, t.pid);
    lemma_remembers_trans::<O>(w.objs, c.objs, ran::<O, P>(c).0.objs, Some(t));
    assert(c.sched.flushed().queue.len() > 0) by {
        assert(c.sched.woken[c.sched.woken.len() - 1] == t.pid);
        assert(c.sched.promotable(t.pid));
        lemma_promotes(c.sched, c.sched.procs.len(), t.pid);
    }
}

/// A legal step leads from a sound state to a sound state, spends weight, and commits exactly
/// the transition it applies.
pub proof fn lemma_applied_sound<O: Object, P: Process<Op = O::Op, Reply = O::Reply>>(
    s: StateModel<O::Model, P::Model, P::Reply>,
    t: Transition,
)
    requires
        state_sound::<O, P>(s),
        legal::<O, P>(s, t),
    ensures
        state_sound::<O, P>(applied::<O, P>(s, t)),
        remembers::<O>(s.world.objs, applied::<O, P>(s, t).world.objs, Some(t)),
        weight::<P>(applied::<O, P>(s, t).world.sched.procs) < weight::<P>(s.world.sched.procs),
        applied::<O, P>(s, t).world.pnames == s.world.pnames,
        applied::<O, P>(s, t).world.onames == s.world.onames,
{
    lemma_step_world::<O, P>(s.world, t);
    lemma_ready_unique::<O, P>(s.world.sched, s.world.objs, t);
    let a = applied::<O, P>(s, t);
    assert forall|i: int| 0 <= i < a.trace.len() implies (#[trigger] a.trace[i]).oid
        < a.world.objs.len() && a.trace[i].pid < a.world.sched.procs.len() && O::has_committed(
        a.world.objs[a.trace[i].oid as int],
        a.trace[i],
    ) by {
        if i < s.trace.len() {
            assert(s.trace[i].oid < s.world.objs.len());
        }
    }
}

proof fn lemma_promotes<V, R>(
    m: ExecModel<V, R>,
    k: nat,
    id: usize,
)
    requires
        id < k <= usize::MAX,
        m.promotable(id),
    ensures
        m.promoted(k).len() > 0,
    decreases k,
{
    if id < k - 1 {
        lemma_promotes(m, (k - 1) as nat, id);
    }
}

/// Every schedule leads to a sound state that has recorded it.
pub proof fn lemma_reached_sound<O: Object, P: Process<Op = O::Op, Reply = O::Reply>>(
    w: WorldModel<O::Model, P::Model, P::Reply>,
    trace: Seq<Transition>,
)
    requires
        world_sound::<O, P>(w),
        feasible::<O, P>(w, trace),
    ensures
        state_sound::<O, P>(reached::<O, P>(w, trace)),
        reached::<O, P>(w, trace).trace == trace,
        reached::<O, P>(w, trace).world.pnames == w.pnames,
        reached::<O, P>(w, trace).world.onames == w.onames,
        weight::<P>(reached::<O, P>(w, trace).world.sched.procs) + trace.len() <= weight::<P>(
            w.sched.procs,
        ),
    decreases trace.len(),
{
    if trace.len() == 0 {
        lemma_started_sound::<O, P>(w);
        assert(trace =~= Seq::empty());
    } else {
        lemma_reached_sound::<O, P>(w, trace.drop_last());
        lemma_applied_sound::<O, P>(reached::<O, P>(w, trace.drop_last()), trace.last());
        assert(trace =~= trace.drop_last().push(trace.last()));
    }
}

/// A prefix of a schedule is a schedule.
pub proof fn lemma_feasible_prefix<O: Object, P: Process<Op = O::Op, Reply = O::Reply>>(
    w: WorldModel<O::Model, P::Model, P::Reply>,
    trace: Seq<Transition>,
    n: int,
)
    requires
        feasible::<O, P>(w, trace),
        0 <= n <= trace.len(),
    ensures
        feasible::<O, P>(w, trace.take(n)),
    decreases trace.len(),
{
    if n == trace.len() {
        assert(trace.take(n) =~= trace);
    } else {
        lemma_feasible_prefix::<O, P>(w, trace.drop_last(), n);
        assert(trace.drop_last().take(n) =~= trace.take(n));
    }
}

/// The world that `setup` builds, on every fresh world.
pub open spec fn built<O, P, F>(setup: F) -> WorldModel<O::Model, P::Model, P::Reply> where
    O: Object,
    P: Process<Op = O::Op, Reply = O::Reply>,
    F: Fn(World<O, P>) -> World<O, P>,
 {
    choose|m: WorldModel<O::Model, P::Model, P::Reply>| builds::<O, P, F>(setup, m)
}

/// Every run of `setup` on a fresh world builds the world `m`.
pub open spec fn builds<O, P, F>(setup: F, m: WorldModel<O::Model, P::Model, P::Reply>) -> bool where
    O: Object,
    P: Process<Op = O::Op, Reply = O::Reply>,
    F: Fn(World<O, P>) -> World<O, P>,
 {
    &&& world_sound::<O, P>(m)
    &&& forall|w: World<O, P>, r: World<O, P>|
        w.valid() && w@ == empty_world::<O, P>() && #[trigger] setup.ensures((w,), r) ==> r.valid()
            && r@ == m
}

/// `setup` can be run on every fresh world, and builds the same world every time.
pub open spec fn deterministic<O, P, F>(setup: F) -> bool where
    O: Object,
    P: Process<Op = O::Op, Reply = O::Reply>,
    F: Fn(World<O, P>) -> World<O, P>,
 {
    &&& forall|w: World<O, P>|
        w.valid() && w@ == empty_world::<O, P>() ==> #[trigger] setup.requires((w,))
    &&& exists|m: WorldModel<O::Model, P::Model, P::Reply>| builds::<O, P, F>(setup, m)
}

/// What a deterministic setup function builds is sound.
pub proof fn lemma_built<O, P, F>(setup: F) where
    O: Object,
    P: Process<Op = O::Op, Reply = O::Reply>,
    F: Fn(World<O, P>) -> World<O, P>,

    requires
        deterministic::<O, P, F>(setup),
    ensures
        builds::<O, P, F>(setup, built::<O, P, F>(setup)),
{
}

/// No object can make a process wait for another one.
pub open spec fn never_blocks<O: Object>(objs: Seq<O::Model>) -> bool {
    forall|i: int| 0 <= i < objs.len() ==> !O::can_block(#[trigger] objs[i])
}

proof fn lemma_never_blocks<O: Object>(
    before: Seq<O::Model>,
    after: Seq<O::Model>,
    t: Option<Transition>,
)
    requires
        remembers::<O>(before, after, t),
    ensures
        never_blocks::<O>(after) == never_blocks::<O>(before),
{
    if never_blocks::<O>(before) {
        assert forall|i: int| 0 <= i < after.len() implies !O::can_block(#[trigger] after[i]) by {
            assert(!O::can_block(before[i]));
        }
    }
    if never_blocks::<O>(after) {
        assert forall|i: int| 0 <= i < before.len() implies !O::can_block(
            #[trigger] before[i],
        ) by {
            assert(!O::can_block(after[i]));
        }
    }
}

/// A node in the search tree: the program after a sequence of [`Transition`]s has been
/// applied. An [`Observer`](crate::search::observer::Observer) receives one at every state
/// the search reaches and inspects it: its [`trace`](State::trace), its
/// [`world`](State::world) for resolving names and labels, whether it
/// [`is_terminal`](State::is_terminal), and any [`failure_reason`](State::failure_reason).
#[verifier::reject_recursive_types(O)]
#[verifier::reject_recursive_types(P)]
pub struct State<'a, O, P, F> where
    O: Object,
    P: Process<Op = O::Op, Reply = O::Reply>,
    F: Fn(World<O, P>) -> World<O, P>,
 {
    world: World<O, P>,
    setup: &'a F,
    trace: Vec<Transition>,
    failure: Option<FailureReason>,
    enabled: Vec<Transition>,
    non_blocking: bool,
}

impl<'a, O, P, F> View for State<'a, O, P, F> where
    O: Object,
    P: Process<Op = O::Op, Reply = O::Reply>,
    F: Fn(World<O, P>) -> World<O, P>,
 {
    type V = StateModel<O::Model, P::Model, P::Reply>;

    closed spec fn view(&self) -> StateModel<O::Model, P::Model, P::Reply> {
        StateModel {
            world: self.world@,
            trace: self.trace@,
            failure: match self.failure {
                Some(r) => Some(r@),
                None => None,
            },
        }
    }
}

/// The recipe for a state: the setup function and the schedule to replay.
#[verifier::reject_recursive_types(O)]
#[verifier::reject_recursive_types(P)]
pub struct StateView<'a, O, P, F> where
    O: Object,
    P: Process<Op = O::Op, Reply = O::Reply>,
    F: Fn(World<O, P>) -> World<O, P>,
 {
    setup: &'a F,
    trace: Vec<Transition>,
    world: PhantomData<(O, P)>,
}

impl<'a, O, P, F> StateView<'a, O, P, F> where
    O: Object,
    P: Process<Op = O::Op, Reply = O::Reply>,
    F: Fn(World<O, P>) -> World<O, P>,
 {
    /// The setup function's world, before anything ran.
    pub closed spec fn program(&self) -> WorldModel<O::Model, P::Model, P::Reply> {
        built::<O, P, F>(*self.setup)
    }

    /// The recorded schedule.
    pub closed spec fn schedule(&self) -> Seq<Transition> {
        self.trace@
    }

    /// The setup function builds one program, and the recorded schedule is one of its own.
    pub closed spec fn valid(&self) -> bool {
        &&& deterministic::<O, P, F>(*self.setup)
        &&& feasible::<O, P>(self.program(), self.schedule())
    }

    /// The recipe for the starting state.
    pub fn new(setup: &'a F) -> (v: Self)
        requires
            deterministic::<O, P, F>(*setup),
        ensures
            v.valid(),
            v.program() == built::<O, P, F>(*setup),
            v.schedule().len() == 0,
    {
        StateView { setup, trace: Vec::new(), world: PhantomData }
    }

    /// The recorded schedule.
    pub fn trace(&self) -> (trace: &[Transition])
        ensures
            trace@ == self.schedule(),
    {
        self.trace.as_slice()
    }

    /// Rebuilds the live state at an arbitrary prefix in one replay from the start.
    pub fn replay(&self, trace: &[Transition]) -> (s: State<'a, O, P, F>)
        requires
            self.valid(),
            feasible::<O, P>(self.program(), trace@),
        ensures
            s.valid(),
            s.program() == self.program(),
            s@ == reached::<O, P>(self.program(), trace@),
    {
        let ghost w = self.program();
        let mut state = State::new(self.setup);
        let mut i: usize = 0;
        assert(trace@.take(0) =~= Seq::empty());
        while i < trace.len()
            invariant
                i <= trace@.len(),
                feasible::<O, P>(w, trace@),
                w == self.program(),
                state.valid(),
                state.program() == w,
                state@ == reached::<O, P>(w, trace@.take(i as int)),
            decreases trace@.len() - i,
        {
            proof {
                lemma_feasible_prefix::<O, P>(w, trace@, i + 1);
                assert(trace@.take(i + 1).drop_last() =~= trace@.take(i as int));
            }
            state.apply(trace[i]);
            i = i + 1;
        }
        assert(trace@.take(i as int) =~= trace@);
        state
    }

    /// Rebuilds the full state by replaying the recorded schedule.
    pub fn state(&self) -> (s: State<'a, O, P, F>)
        requires
            self.valid(),
        ensures
            s.valid(),
            s.program() == self.program(),
            s@ == reached::<O, P>(self.program(), self.schedule()),
    {
        self.replay(self.trace.as_slice())
    }
}

impl<'a, O, P, F> State<'a, O, P, F> where
    O: Object,
    P: Process<Op = O::Op, Reply = O::Reply>,
    F: Fn(World<O, P>) -> World<O, P>,
 {
    /// The setup function's world, before anything ran.
    pub closed spec fn program(&self) -> WorldModel<O::Model, P::Model, P::Reply> {
        built::<O, P, F>(*self.setup)
    }

    /// The state is the one its trace leads to, and what it caches is up to date.
    pub closed spec fn valid(&self) -> bool {
        &&& self.world.valid()
        &&& deterministic::<O, P, F>(*self.setup)
        &&& feasible::<O, P>(self.program(), self@.trace)
        &&& self@ == reached::<O, P>(self.program(), self@.trace)
        &&& self.enabled@ == ready_all::<O>(self@.world.objs)
        &&& self.non_blocking == never_blocks::<O>(self@.world.objs)
    }

    /// What every valid state is: the state its own trace leads to, in the program of its
    /// setup function.
    pub proof fn lemma_valid(&self)
        requires
            self.valid(),
        ensures
            world_sound::<O, P>(self.program()),
            feasible::<O, P>(self.program(), self@.trace),
            self@ == reached::<O, P>(self.program(), self@.trace),
            state_sound::<O, P>(self@),
    {
        lemma_built::<O, P, F>(*self.setup);
        lemma_reached_sound::<O, P>(self.program(), self@.trace);
    }

    /// The starting state of the program that `setup` builds.
    pub fn new(setup: &'a F) -> (s: Self)
        requires
            deterministic::<O, P, F>(*setup),
        ensures
            s.valid(),
            s.program() == built::<O, P, F>(*setup),
            s@ == started::<O, P>(s.program()),
    {
        let fresh: World<O, P> = World::new();
        let mut world = setup(fresh);
        let ghost w = world@;
        proof {
            lemma_built::<O, P, F>(*setup);
        }
        let failure = world.run();
        let non_blocking = world.non_blocking();
        let mut state = State {
            world,
            setup,
            trace: Vec::new(),
            failure,
            enabled: Vec::new(),
            non_blocking,
        };
        state.recompute_enabled();
        state.settle();
        assert(state@.trace =~= Seq::empty());
        state
    }

    /// Whether no registered object can block a process. When true, reversing a race always
    /// leaves the later operation runnable.
    pub fn non_blocking(&self) -> (b: bool)
        requires
            self.valid(),
        ensures
            b == never_blocks::<O>(self@.world.objs),
    {
        self.non_blocking
    }

    /// The underlying [`World`], for resolving names and labels of this state's transitions.
    pub fn world(&self) -> (w: &World<O, P>)
        requires
            self.valid(),
        ensures
            w.valid(),
            w@ == self@.world,
    {
        &self.world
    }

    /// The sequence of [`Transition`]s applied to reach this state from the root.
    pub fn trace(&self) -> (trace: &[Transition])
        ensures
            trace@ == self@.trace,
    {
        self.trace.as_slice()
    }

    /// Why this state ends its branch, or `None` if it is still runnable or completed
    /// cleanly.
    pub fn failure_reason(&self) -> (r: Option<&FailureReason>)
        ensures
            match r {
                Some(r) => self@.failure == Some(r@),
                None => self@.failure is None,
            },
    {
        self.failure.as_ref()
    }

    /// Whether this state is a leaf: a failure, or a clean completion with nothing left to
    /// advance. Each leaf is one maximal interleaving.
    pub fn is_terminal(&self) -> (b: bool)
        requires
            self.valid(),
        ensures
            b == (self@.failure is Some || ready_all::<O>(self@.world.objs).len() == 0),
    {
        self.failure.is_some() || self.enabled.len() == 0
    }

    /// Whether this state failed.
    pub fn is_failed(&self) -> (b: bool)
        ensures
            b == (self@.failure is Some),
    {
        self.failure.is_some()
    }

    /// The number of live processes.
    pub fn pending(&self) -> (n: usize)
        requires
            self.valid(),
        ensures
            n == live_count(self@.world.sched.procs),
    {
        self.world.pending()
    }

    /// The transitions that can be applied.
    pub fn enabled(&self) -> (ts: &[Transition])
        requires
            self.valid(),
        ensures
            ts@ == ready_all::<O>(self@.world.objs),
    {
        self.enabled.as_slice()
    }

    /// Refreshes the cached enabled set from the objects. Called once per committed step,
    /// after the processes ran and before the state settles.
    fn recompute_enabled(&mut self)
        requires
            old(self).world.valid(),
        ensures
            *final(self) == (State { enabled: final(self).enabled, ..*old(self) }),
            final(self).enabled@ == ready_all::<O>(old(self)@.world.objs),
    {
        self.enabled = self.world.ready();
    }

    /// Whether two transitions *conflict*: fail to commute, so the order in which they commit
    /// can change the outcome. This is the dependency relation that drives partial-order
    /// reduction: independent transitions may be reordered freely, while dependent ones must
    /// be explored in both orders. Use it to reconstruct happens-before over a trace.
    ///
    /// Evaluate it on a state that knows both transitions (e.g. a maximal trace): for
    /// history-sensitive primitives (channels) the answer depends on the committed history.
    /// Transitions on different objects are always independent, while same-object pairs defer
    /// to the object's own [`Object::depends`].
    pub fn depends(&self, t1: Transition, t2: Transition) -> (b: bool)
        requires
            self.valid(),
            t1.oid == t2.oid ==> t1.oid < self@.world.objs.len() && O::knows(
                self@.world.objs[t1.oid as int],
                t1,
            ) && O::knows(self@.world.objs[t1.oid as int], t2),
        ensures
            b == conflicting::<O>(self@.world.objs, t1, t2),
    {
        self.world.depends(t1, t2)
    }

    /// Commits `t` and runs its process up to its next scheduling point.
    pub fn apply(&mut self, t: Transition)
        requires
            old(self).valid(),
            legal::<O, P>(old(self)@, t),
        ensures
            final(self).valid(),
            final(self).program() == old(self).program(),
            final(self)@ == applied::<O, P>(old(self)@, t),
    {
        let ghost before = *self;
        proof {
            self.lemma_valid();
            lemma_applied_sound::<O, P>(self@, t);
        }
        self.trace.push(t);
        self.world.commit(t);
        self.failure = self.world.run();
        self.recompute_enabled();
        self.settle();
        proof {
            let trace = before@.trace.push(t);
            assert(trace.drop_last() =~= before@.trace);
            let objs = before@.world.objs;
            assert(never_blocks::<O>(self@.world.objs) == never_blocks::<O>(objs)) by {
                lemma_never_blocks::<O>(objs, self@.world.objs, Some(t));
            }
        }
    }

    /// No process erred but nothing is enabled while a process is still live: deadlock. An
    /// already-set process error takes precedence.
    fn settle(&mut self)
        requires
            old(self).world.valid(),
            old(self).enabled@ == ready_all::<O>(old(self)@.world.objs),
        ensures
            *final(self) == (State { failure: final(self).failure, ..*old(self) }),
            final(self)@.failure == verdict::<O, P>(old(self)@.world, old(self)@.failure),
            old(self)@.failure is Some ==> final(self)@.failure == old(self)@.failure,
            old(self)@.failure is None ==> final(self)@.failure == if anyone(
                old(self)@.world.sched.procs,
            ) && old(self).enabled@.len() == 0 {
                Some(Reason::Deadlock)
            } else {
                None
            },
    {
        proof {
            law_live(self@.world.sched.procs);
        }
        if self.failure.is_none() && self.enabled.len() == 0 && self.world.pending() > 0 {
            self.failure = Some(FailureReason::Deadlock);
        }
    }

    /// A view of this state, ready to be replayed back into a full `State`.
    pub fn to_view(&self) -> (v: StateView<'a, O, P, F>)
        requires
            self.valid(),
        ensures
            v.valid(),
            v.program() == self.program(),
            v.schedule() == self@.trace,
    {
        StateView {
            setup: self.setup,
            trace: vstd::slice::slice_to_vec(self.trace.as_slice()),
            world: PhantomData,
        }
    }

    /// An independent copy, rebuilt by replaying its view from scratch.
    pub fn fork(&self) -> (s: Self)
        requires
            self.valid(),
        ensures
            s.valid(),
            s.program() == self.program(),
            s@ == self@,
    {
        self.to_view().state()
    }

    /// Consumes a failed state into its reason and a replayable view.
    pub fn into_failure(self) -> (r: (FailureReason, StateView<'a, O, P, F>))
        requires
            self.valid(),
            self@.failure is Some,
        ensures
            self@.failure == Some(r.0@),
            r.1.valid(),
            r.1.program() == self.program(),
            r.1.schedule() == self@.trace,
    {
        let reason = match self.failure {
            Some(reason) => reason,
            None => FailureReason::Deadlock,
        };
        (reason, StateView { setup: self.setup, trace: self.trace, world: PhantomData })
    }
}

} // verus!
