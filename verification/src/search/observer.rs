//! The [`Observer`] hook the strategy calls as it explores, plus the typed data it carries.
//!
//! [`Observer::step`] fires at each discrete decision of the driver (descend, seed,
//! race-reversal, pop, ...) and carries the borrowed [`Step`] / [`StepCx`] views below.
//! [`Step::Visit`] is the per-state signal: it fires for every state the search reaches (the
//! root, then each freshly-applied prefix), so a consumer recovers every state and terminal
//! through `cx.state()` and `is_terminal()`.

use vstd::prelude::*;

use crate::model::executor::views;
use crate::model::object::{Object, ObjectID, Transition};
use crate::model::process::{Process, ProcessID};
use crate::model::state::{feasible, reached, State};
use crate::model::world::{ready_all, World, WorldModel};
use crate::search::clocks::{pids, race, unordered};
use crate::search::plan::{forked, plan};
use crate::search::reversal::{still_asleep, walkable};
use crate::search::saga::{
    coverer, lemma_counts_add, lemma_counts_push, maximals, visits, Note, Stand, Told,
};
use crate::search::wakeup::{node, spine, Frame, Wut};
use crate::theory::behaviour::{Beh, Word};
use crate::theory::program::{behaviour, dependable, offers};

verus! {

/// A hook into the search, called as it explores.
///
/// [`step`](Observer::step) fires at each discrete decision of the driver, carrying the typed
/// [`Step`] / [`StepCx`] views. One of those decisions, [`Step::Visit`], fires for every state
/// the search reaches, runnable, terminal, or failed, so an implementor can inspect failures,
/// count maximal traces, or record the tree.
///
/// An observer only *reads* the search: it cannot steer it and cannot fail it.
///
/// An observer may say that it `records`: it then keeps, in `seen`, the trace of every
/// [`Step::Maximal`], and loses none. It may say that it `watches`: it then keeps, in
/// `visited`, the trace of every state of a [`Step::Visit`]. It may say that it `follows`: it then
/// keeps, in `heard`, every step, and where the driver stood.
pub trait Observer<O, P, F> where
    O: Object,
    P: Process<Op = O::Op, Reply = O::Reply>,
    F: Fn(World<O, P>) -> World<O, P>,
 {
    /// Whether the observer keeps every maximal trace.
    open spec fn records(&self) -> bool {
        false
    }

    /// The maximal traces kept so far.
    open spec fn seen(&self) -> Seq<Seq<Transition>> {
        Seq::empty()
    }

    /// Whether the observer keeps every visited state.
    open spec fn watches(&self) -> bool {
        false
    }

    /// The traces of the states visited so far.
    open spec fn visited(&self) -> Seq<Seq<Transition>> {
        Seq::empty()
    }

    /// Whether the observer keeps every step.
    open spec fn follows(&self) -> bool {
        false
    }

    /// The steps kept so far.
    open spec fn heard(&self) -> Seq<Note> {
        Seq::empty()
    }

    /// Called at each discrete decision of the driver, including [`Step::Visit`] for every
    /// visited state. What it is told is accurate.
    fn step(&mut self, step: Step<'_>, cx: StepCx<'_, '_, O, P, F>)
        requires
            cx.valid(),
            accurate::<O, P, F>(step, cx),
        ensures
            old(self).records() ==> final(self).records() && final(self).seen() == noted(
                old(self).seen(),
                step,
            ),
            old(self).watches() ==> final(self).watches() && final(self).visited() == met(
                old(self).visited(),
                step,
                cx.state_of()@.trace,
            ),
            old(self).follows() ==> final(self).follows() && final(self).heard() == old(
                self,
            ).heard().push(note::<O, P, F>(step, cx)),
    ;
}

/// The sleep sets, by depth.
pub open spec fn sleeps(frames: Seq<Frame>) -> Seq<Word> {
    Seq::new(frames.len(), |m: int| frames[m].sleep@)
}

/// Where the driver stands with its tree, its frames and its prefix.
pub open spec fn stand(tree: Wut, frames: Seq<Frame>, prefix: Seq<Transition>) -> Stand {
    Stand { tree: plan(tree), sleeps: sleeps(frames), prefix }
}

/// What a step at the state that `trace` leads to says.
pub open spec fn told(step: Step<'_>, trace: Seq<Transition>) -> Told {
    match step {
        Step::Visit => Told::Visit { trace },
        Step::RootSeed { seeded } => Told::RootSeed { seeded },
        Step::RootEmpty => Told::RootEmpty,
        Step::Maximal { trace, failure } => Told::Maximal { trace: trace@, failure },
        Step::Descend { depth, committed, parent_sleep, child_sleep } => Told::Descend {
            depth: depth as int,
            committed,
            parent_sleep: parent_sleep@,
            child_sleep: child_sleep@,
        },
        Step::SeedChild { depth, seeded } => Told::SeedChild { depth: depth as int, seeded },
        Step::Race { i, j, e, ep, notdep, v, outcome } => Told::Race {
            i: i as int,
            j: j as int,
            e,
            ep,
            notdep: notdep@,
            v: v@,
            outcome,
        },
        Step::Pop { finished_pid, from_depth, into_depth } => Told::Pop {
            finished_pid,
            from_depth: from_depth as int,
            into_depth: into_depth as int,
        },
        Step::Replay { prefix } => Told::Replay { prefix: prefix@ },
        Step::Done => Told::Done,
    }
}

/// A step and its context, as an observer that follows keeps them.
pub open spec fn note<O, P, F>(step: Step<'_>, cx: StepCx<'_, '_, O, P, F>) -> Note where
    O: Object,
    P: Process<Op = O::Op, Reply = O::Reply>,
    F: Fn(World<O, P>) -> World<O, P>,
 {
    Note {
        told: told(step, cx.state_of()@.trace),
        stand: stand(cx.tree_of(), cx.frames_of(), cx.prefix_of()),
    }
}

/// Between `before` and `after`, the observer has been told `notes`: one that records has kept the
/// maximal traces, one that watches the visited states, and one that follows every step.
#[verifier::opaque]
pub open spec fn informed<O, P, F, Ob>(before: Ob, after: Ob, notes: Seq<Note>) -> bool where
    O: Object,
    P: Process<Op = O::Op, Reply = O::Reply>,
    F: Fn(World<O, P>) -> World<O, P>,
    Ob: Observer<O, P, F>,
 {
    &&& before.records() ==> after.records() && after.seen() == before.seen() + maximals(notes)
    &&& before.watches() ==> after.watches() && after.visited() == before.visited() + visits(notes)
    &&& before.follows() ==> after.follows() && after.heard() == before.heard() + notes
}

/// What it means that an observer has been told `notes`: one that records has kept the maximal
/// traces, one that watches the visited states, and one that follows every step.
pub proof fn lemma_informed<O, P, F, Ob>(before: Ob, after: Ob, notes: Seq<Note>) where
    O: Object,
    P: Process<Op = O::Op, Reply = O::Reply>,
    F: Fn(World<O, P>) -> World<O, P>,
    Ob: Observer<O, P, F>,

    requires
        informed::<O, P, F, Ob>(before, after, notes),
    ensures
        before.records() ==> after.records() && after.seen() == before.seen() + maximals(notes),
        before.watches() ==> after.watches() && after.visited() == before.visited() + visits(notes),
        before.follows() ==> after.follows() && after.heard() == before.heard() + notes,
{
    reveal(informed);
}

/// Who is told nothing stays as it is.
pub proof fn lemma_untold<O, P, F, Ob>(before: Ob) where
    O: Object,
    P: Process<Op = O::Op, Reply = O::Reply>,
    F: Fn(World<O, P>) -> World<O, P>,
    Ob: Observer<O, P, F>,

    ensures
        informed::<O, P, F, Ob>(before, before, Seq::empty()),
{
    reveal(informed);
    assert(before.seen() + maximals(Seq::empty()) =~= before.seen());
    assert(before.visited() + visits(Seq::empty()) =~= before.visited());
    assert(before.heard() + Seq::empty() =~= before.heard());
}

/// What is told on top of `notes`.
pub proof fn lemma_told_more<O, P, F, Ob>(
    before: Ob,
    between: Ob,
    after: Ob,
    notes: Seq<Note>,
    more: Seq<Note>,
) where
    O: Object,
    P: Process<Op = O::Op, Reply = O::Reply>,
    F: Fn(World<O, P>) -> World<O, P>,
    Ob: Observer<O, P, F>,

    requires
        informed::<O, P, F, Ob>(before, between, notes),
        informed::<O, P, F, Ob>(between, after, more),
    ensures
        informed::<O, P, F, Ob>(before, after, notes + more),
{
    reveal(informed);
    lemma_counts_add(notes, more);
    assert(before.seen() + (maximals(notes) + maximals(more)) =~= (before.seen() + maximals(notes))
        + maximals(more));
    assert(before.visited() + (visits(notes) + visits(more)) =~= (before.visited() + visits(notes))
        + visits(more));
    assert(before.heard() + (notes + more) =~= (before.heard() + notes) + more);
}

/// Reports one step.
pub(crate) fn report<'w, O, P, F, Ob>(
    observer: &mut Ob,
    step: Step<'_>,
    cx: StepCx<'_, 'w, O, P, F>,
) where
    O: Object,
    P: Process<Op = O::Op, Reply = O::Reply>,
    F: Fn(World<O, P>) -> World<O, P>,
    Ob: Observer<O, P, F>,

    requires
        cx.valid(),
        accurate::<O, P, F>(step, cx),
    ensures
        informed::<O, P, F, Ob>(*old(observer), *final(observer), seq![note::<O, P, F>(step, cx)]),
{
    let ghost told = note::<O, P, F>(step, cx);
    let ghost before = *observer;
    observer.step(step, cx);
    proof {
        reveal(informed);
        let none = Seq::<Note>::empty();
        assert(none.push(told) =~= seq![told]);
        lemma_counts_push(none, told);
        assert(observer.seen() =~= before.seen() + maximals(seq![told]) || !before.records());
        assert(observer.visited() =~= before.visited() + visits(seq![told]) || !before.watches());
        assert(observer.heard() =~= before.heard() + seq![told] || !before.follows());
    }
}

/// The context hangs together: the prefix is a schedule of the program, there is a frame for each
/// of its prefixes, which says what could be applied there, the tree has a node for each of them,
/// and siblings in the tree are of different processes.
pub open spec fn grounded<O: Object, P: Process<Op = O::Op, Reply = O::Reply>>(
    w: WorldModel<O::Model, P::Model, P::Reply>,
    tree: Wut,
    frames: Seq<Frame>,
    prefix: Seq<Transition>,
) -> bool {
    &&& feasible::<O, P>(w, prefix)
    &&& frames.len() == prefix.len() + 1
    &&& forall|m: int|
        0 <= m < frames.len() ==> (#[trigger] frames[m]).pending@ == ready_all::<O>(
            reached::<O, P>(w, prefix.take(m)).world.objs,
        )
    &&& spine(tree, prefix)
    &&& forked(plan(tree))
}

/// What a step says is true of the context that it comes with: of the live state, the committed
/// prefix, the sleep sets and the wakeup tree.
pub open spec fn accurate<O, P, F>(step: Step<'_>, cx: StepCx<'_, '_, O, P, F>) -> bool where
    O: Object,
    P: Process<Op = O::Op, Reply = O::Reply>,
    F: Fn(World<O, P>) -> World<O, P>,
 {
    let w = cx.state_of().program();
    let s = cx.state_of()@;
    let tree = cx.tree_of();
    let frames = cx.frames_of();
    let prefix = cx.prefix_of();
    &&& grounded::<O, P>(w, tree, frames, prefix)
    &&& match step {
        Step::Visit => if s.trace.len() == 0 {
            prefix.len() == 0
        } else {
            s.trace.drop_last() == prefix
        },
        Step::RootSeed { seeded } => {
            &&& prefix.len() == 0
            &&& s.trace.len() == 0
            &&& ready_all::<O>(s.world.objs).contains(seeded)
            &&& forall|q: ProcessID| #[trigger] offers::<O>(s.world.objs, q) ==> seeded.pid <= q
            &&& tree.len() == 1
            &&& tree.children@[0].0 == seeded
        },
        Step::RootEmpty => {
            &&& prefix.len() == 0
            &&& s.trace.len() == 0
            &&& ready_all::<O>(s.world.objs).len() == 0
            &&& tree.len() == 0
        },
        Step::Maximal { trace, failure } => {
            &&& trace@ == s.trace
            &&& failure == (s.failure is Some)
            &&& if failure {
                trace@.len() > 0 && trace@.drop_last() == prefix
            } else {
                trace@ == prefix && ready_all::<O>(s.world.objs).len() == 0
            }
        },
        Step::Descend { depth, committed, parent_sleep, child_sleep } => {
            &&& depth == prefix.len()
            &&& s.trace == prefix.push(committed)
            &&& s.failure is None
            &&& parent_sleep@ == frames.last().sleep@
            &&& dependable::<O, P>(w) ==> !parent_sleep@.contains(committed.pid)
            &&& child_sleep@ == still_asleep(
                behaviour::<O, P>(reached::<O, P>(w, prefix).world),
                parent_sleep@,
                committed.pid,
            )
            &&& node(tree, prefix.len()).len() > 0
            &&& node(tree, prefix.len()).head(0) == committed.pid
        },
        Step::SeedChild { depth, seeded } => {
            &&& depth == prefix.len()
            &&& s.trace == prefix
            &&& seeded == if node(tree, prefix.len()).len() > 0 {
                Some(node(tree, prefix.len()).children@[0].0)
            } else {
                None
            }
            &&& match seeded {
                Some(t) => dependable::<O, P>(w) ==> offers::<O>(s.world.objs, t.pid),
                None => ready_all::<O>(s.world.objs).len() == 0,
            }
        },
        Step::Race { i, j, e, ep, notdep, v, outcome } => {
            &&& 1 <= i < j <= prefix.len()
            &&& s.trace == prefix
            &&& e == prefix[i - 1]
            &&& ep == prefix[j - 1]
            &&& race::<O>(s.world.objs, prefix, i - 1, j - 1)
            &&& notdep@ == unordered::<O>(s.world.objs, prefix, i - 1, i as int)
            &&& v@ == notdep@.push(ep)
            &&& resolved(
                behaviour::<O, P>(reached::<O, P>(w, prefix.take(i - 1)).world),
                frames[i - 1].sleep@,
                (i - 1) as usize,
                v@,
                outcome,
            )
        },
        Step::Pop { finished_pid, from_depth, into_depth } => {
            &&& into_depth == prefix.len()
            &&& from_depth == prefix.len() + 1
            &&& frames.last().sleep@.len() > 0
            &&& frames.last().sleep@.last() == finished_pid
        },
        Step::Replay { prefix: replayed } => {
            &&& replayed@ == prefix
            &&& s.trace == prefix
            &&& s.failure is None
            &&& node(tree, prefix.len()).len() > 0
            &&& dependable::<O, P>(w) ==> offers::<O>(
                s.world.objs,
                node(tree, prefix.len()).head(0),
            )
        },
        Step::Done => prefix.len() == 0 && tree.len() == 0,
    }
}

/// What the outcome of a race says of its fragment `v`, at `depth`, where the behaviour is `b` and
/// `sleep` is asleep: it cannot be run; the first sleeper that can covers it; or no sleeper does.
pub open spec fn resolved(
    b: Beh,
    sleep: Word,
    depth: usize,
    v: Seq<Transition>,
    outcome: RaceOutcome,
) -> bool {
    match outcome {
        RaceOutcome::Disabling => !walkable(b, pids(v)),
        RaceOutcome::CoveredBySleeper { insert_depth, covering_pid } => {
            &&& walkable(b, pids(v))
            &&& insert_depth == depth
            &&& coverer(b, sleep, pids(v)) == Some(covering_pid)
        },
        RaceOutcome::ExistingLeaf { insert_depth } => {
            &&& walkable(b, pids(v))
            &&& insert_depth == depth
            &&& coverer(b, sleep, pids(v)) is None
        },
        RaceOutcome::Grafted { insert_depth } => {
            &&& walkable(b, pids(v))
            &&& insert_depth == depth
            &&& coverer(b, sleep, pids(v)) is None
        },
    }
}

/// The traces of visited states kept after `step`, which the driver took at the state `trace`
/// leads to.
pub open spec fn met(
    visited: Seq<Seq<Transition>>,
    step: Step<'_>,
    trace: Seq<Transition>,
) -> Seq<Seq<Transition>> {
    match step {
        Step::Visit => visited.push(trace),
        _ => visited,
    }
}

/// The maximal traces kept after `step`.
pub open spec fn noted(seen: Seq<Seq<Transition>>, step: Step<'_>) -> Seq<Seq<Transition>> {
    match step {
        Step::Maximal { trace, failure } => seen.push(trace@),
        _ => seen,
    }
}

/// The default observer: observe nothing.
impl<O, P, F> Observer<O, P, F> for () where
    O: Object,
    P: Process<Op = O::Op, Reply = O::Reply>,
    F: Fn(World<O, P>) -> World<O, P>,
 {
    fn step(&mut self, step: Step<'_>, cx: StepCx<'_, '_, O, P, F>) {
    }
}

/// An observer that keeps the trace of every complete interleaving.
pub struct Interleavings {
    traces: Vec<Vec<Transition>>,
    steps: Ghost<Seq<Note>>,
}

impl Interleavings {
    /// Nothing seen yet.
    pub fn new() -> (r: Self)
        ensures
            r.kept().len() == 0,
            r.steps().len() == 0,
    {
        Interleavings { traces: Vec::new(), steps: Ghost(Seq::empty()) }
    }

    /// The steps heard.
    pub closed spec fn steps(&self) -> Seq<Note> {
        self.steps@
    }

    /// The traces kept.
    pub closed spec fn kept(&self) -> Seq<Seq<Transition>> {
        Seq::new(self.traces@.len(), |i: int| self.traces@[i]@)
    }

    /// The number of traces kept.
    pub fn len(&self) -> (n: usize)
        ensures
            n == self.kept().len(),
    {
        self.traces.len()
    }

    /// The `i`-th trace kept.
    pub fn get(&self, i: usize) -> (t: &Vec<Transition>)
        requires
            i < self.kept().len(),
        ensures
            t@ == self.kept()[i as int],
    {
        &self.traces[i]
    }
}

impl<O, P, F> Observer<O, P, F> for Interleavings where
    O: Object,
    P: Process<Op = O::Op, Reply = O::Reply>,
    F: Fn(World<O, P>) -> World<O, P>,
 {
    open spec fn records(&self) -> bool {
        true
    }

    open spec fn seen(&self) -> Seq<Seq<Transition>> {
        self.kept()
    }

    open spec fn follows(&self) -> bool {
        true
    }

    open spec fn heard(&self) -> Seq<Note> {
        self.steps()
    }

    fn step(&mut self, step: Step<'_>, cx: StepCx<'_, '_, O, P, F>) {
        self.steps = Ghost(self.steps@.push(note::<O, P, F>(step, cx)));
        if let Step::Maximal { trace, failure: _ } = step {
            let ghost before = self.kept();
            self.traces.push(vstd::slice::slice_to_vec(trace));
            assert(self.kept() =~= before.push(trace@));
        }
    }
}

/// An observer that keeps the trace of every visited state.
pub struct Visits {
    traces: Vec<Vec<Transition>>,
    steps: Ghost<Seq<Note>>,
}

impl Visits {
    /// Nothing visited yet.
    pub fn new() -> (r: Self)
        ensures
            r.kept().len() == 0,
            r.steps().len() == 0,
    {
        Visits { traces: Vec::new(), steps: Ghost(Seq::empty()) }
    }

    /// The steps heard.
    pub closed spec fn steps(&self) -> Seq<Note> {
        self.steps@
    }

    /// The traces kept.
    pub closed spec fn kept(&self) -> Seq<Seq<Transition>> {
        Seq::new(self.traces@.len(), |i: int| self.traces@[i]@)
    }

    /// The number of traces kept.
    pub fn len(&self) -> (n: usize)
        ensures
            n == self.kept().len(),
    {
        self.traces.len()
    }

    /// The `i`-th trace kept.
    pub fn get(&self, i: usize) -> (t: &Vec<Transition>)
        requires
            i < self.kept().len(),
        ensures
            t@ == self.kept()[i as int],
    {
        &self.traces[i]
    }
}

impl<O, P, F> Observer<O, P, F> for Visits where
    O: Object,
    P: Process<Op = O::Op, Reply = O::Reply>,
    F: Fn(World<O, P>) -> World<O, P>,
 {
    open spec fn watches(&self) -> bool {
        true
    }

    open spec fn visited(&self) -> Seq<Seq<Transition>> {
        self.kept()
    }

    open spec fn follows(&self) -> bool {
        true
    }

    open spec fn heard(&self) -> Seq<Note> {
        self.steps()
    }

    fn step(&mut self, step: Step<'_>, cx: StepCx<'_, '_, O, P, F>) {
        self.steps = Ghost(self.steps@.push(note::<O, P, F>(step, cx)));
        if let Step::Visit = step {
            let ghost before = self.kept();
            let trace = cx.state().trace();
            self.traces.push(vstd::slice::slice_to_vec(trace));
            assert(self.kept() =~= before.push(trace@));
        }
    }
}

/// The read-only context accompanying a [`Step`]: the live [`State`] (for resolving names and
/// labels), the committed `prefix`, the per-depth sleep sets and pending operations, and the
/// wakeup tree. Everything is borrowed for the [`step`](Observer::step) call.
#[verifier::reject_recursive_types(O)]
#[verifier::reject_recursive_types(P)]
pub struct StepCx<'a, 'w, O, P, F> where
    O: Object,
    P: Process<Op = O::Op, Reply = O::Reply>,
    F: Fn(World<O, P>) -> World<O, P>,
 {
    tree: &'a Wut,
    frames: &'a [Frame],
    prefix: &'a [Transition],
    state: &'a State<'w, O, P, F>,
}

impl<'a, 'w, O, P, F> StepCx<'a, 'w, O, P, F> where
    O: Object,
    P: Process<Op = O::Op, Reply = O::Reply>,
    F: Fn(World<O, P>) -> World<O, P>,
 {
    /// The wakeup tree's root.
    pub closed spec fn tree_of(&self) -> Wut {
        *self.tree
    }

    /// The frames, by depth.
    pub closed spec fn frames_of(&self) -> Seq<Frame> {
        self.frames@
    }

    /// The committed prefix.
    pub closed spec fn prefix_of(&self) -> Seq<Transition> {
        self.prefix@
    }

    /// The live state.
    pub closed spec fn state_of(&self) -> State<'w, O, P, F> {
        *self.state
    }

    /// The live state is valid.
    pub closed spec fn valid(&self) -> bool {
        self.state.valid()
    }

    /// A view of the driver's data.
    pub fn new(
        tree: &'a Wut,
        frames: &'a [Frame],
        prefix: &'a [Transition],
        state: &'a State<'w, O, P, F>,
    ) -> (cx: Self)
        requires
            state.valid(),
        ensures
            cx.valid(),
            cx.tree_of() == *tree,
            cx.frames_of() == frames@,
            cx.prefix_of() == prefix@,
            cx.state_of() == *state,
    {
        StepCx { tree, frames, prefix, state }
    }

    /// The live `State` at this step, for resolving names and labels.
    pub fn state(&self) -> (s: &State<'w, O, P, F>)
        requires
            self.valid(),
        ensures
            s.valid(),
            *s == self.state_of(),
    {
        self.state
    }

    /// The committed prefix down to the current frontier. At a freshly-advanced
    /// [`Visit`](Step::Visit) it is one shorter than `state().trace()`, which already includes
    /// the just-committed transition.
    pub fn prefix(&self) -> (p: &[Transition])
        ensures
            p@ == self.prefix_of(),
    {
        self.prefix
    }

    /// A human-readable label for a *committed* transition (e.g. `"load -> 123"`).
    pub fn label(&self, t: Transition) -> (s: String)
        requires
            self.valid(),
            t.oid < self.state_of()@.world.objs.len(),
            O::has_committed(self.state_of()@.world.objs[t.oid as int], t),
        ensures
            s@ == O::label_text(self.state_of()@.world.objs[t.oid as int], t),
    {
        self.state.world().label(t)
    }

    /// The name of the process with the given id.
    pub fn process(&self, pid: ProcessID) -> (s: &str)
        requires
            self.valid(),
            pid < self.state_of()@.world.pnames.len(),
        ensures
            s@ == self.state_of()@.world.pnames[pid as int],
    {
        let names = self.state.world().processes();
        assert(names@[pid as int]@ == views(names@)[pid as int]);
        names[pid].as_str()
    }

    /// The name of the object with the given id.
    pub fn object(&self, oid: ObjectID) -> (s: &str)
        requires
            self.valid(),
            oid < self.state_of()@.world.onames.len(),
        ensures
            s@ == self.state_of()@.world.onames[oid as int],
    {
        let names = self.state.world().objects();
        assert(names@[oid as int]@ == views(names@)[oid as int]);
        names[oid].as_str()
    }

    /// The number of depths carrying sleep and pending data: always `prefix().len() + 1` (one frame
    /// per prefix, the empty prefix included).
    pub fn depth(&self) -> (n: usize)
        ensures
            n == self.frames_of().len(),
    {
        self.frames.len()
    }

    /// The sleep set at `depth` (the pids asleep at that prefix).
    pub fn sleep(&self, depth: usize) -> (s: &[ProcessID])
        requires
            depth < self.frames_of().len(),
        ensures
            s@ == self.frames_of()[depth as int].sleep@,
    {
        self.frames[depth].sleep()
    }

    /// The pending operations at `depth` (each enabled process's next operation there).
    pub fn pending(&self, depth: usize) -> (ts: &[Transition])
        requires
            depth < self.frames_of().len(),
        ensures
            ts@ == self.frames_of()[depth as int].pending@,
    {
        self.frames[depth].pending()
    }

    /// The wakeup tree's root, for walking the planned fragments.
    pub fn wakeup(&self) -> (n: WakeupNode<'a>)
        ensures
            n.node_of() == self.tree_of(),
    {
        WakeupNode { node: self.tree }
    }
}

/// A read-only view of one wakeup-tree node. Children are in sibling order; `children()[0]` is
/// the branch explored first.
pub struct WakeupNode<'a> {
    node: &'a Wut,
}

impl<'a> WakeupNode<'a> {
    /// The node viewed.
    pub closed spec fn node_of(&self) -> Wut {
        *self.node
    }

    /// Each child as its edge transition (matched by pid; the per-object `seq` drifts, so read
    /// only the pid) plus the subtree below it.
    pub fn children(&self) -> (c: Vec<(Transition, WakeupNode<'a>)>)
        ensures
            c@.len() == self.node_of().len(),
            forall|k: int|
                0 <= k < c@.len() ==> (#[trigger] c@[k]).0 == self.node_of().children@[k].0
                    && c@[k].1.node_of() == self.node_of().sub(k),
    {
        let mut c: Vec<(Transition, WakeupNode<'a>)> = Vec::new();
        let children = self.node.children();
        let mut k: usize = 0;
        while k < children.len()
            invariant
                *children == self.node.children,
                k <= children@.len(),
                c@.len() == k,
                forall|j: int|
                    0 <= j < k ==> (#[trigger] c@[j]).0 == self.node.children@[j].0
                        && c@[j].1.node_of() == self.node.sub(j),
            decreases children@.len() - k,
        {
            c.push((children[k].0, WakeupNode { node: &children[k].1 }));
            k = k + 1;
        }
        c
    }
}

/// How the reordering of a reversible race ([`Step::Race`]'s `v`) resolved against the wakeup
/// tree. `insert_depth`, where present, is the depth the fragment targets: the point just
/// before the earlier racing event.
#[derive(Debug, Clone, Copy)]
pub enum RaceOutcome {
    /// Rejected: running `ep`'s process first would leave it unable to perform `ep` (for
    /// example a recv whose only matching send is `e`), so the reordered schedule is
    /// unrealizable and is skipped.
    Disabling,
    /// Already covered: a process asleep at the target prefix is a weak-initial of the
    /// fragment, so the reversed order is reached without adding anything.
    CoveredBySleeper {
        /// The depth the fragment targets.
        insert_depth: usize,
        /// The sleeping process.
        covering_pid: ProcessID,
    },
    /// Already covered by an existing branch of the wakeup tree.
    ExistingLeaf {
        /// The depth the fragment targets.
        insert_depth: usize,
    },
    /// A fresh branch was grafted into the wakeup tree to explore the reversed order.
    Grafted {
        /// The depth the fragment targets.
        insert_depth: usize,
    },
}

/// A discrete decision of the driver, delivered to [`Observer::step`] together with a
/// [`StepCx`]. The stream of steps narrates the whole search: every interleaving it runs to
/// the end, every race it reverses, every branch it backtracks out of.
///
/// A transition a step reports as *committed*, a [`Maximal`](Step::Maximal) trace or a
/// [`Descend`](Step::Descend)'s `committed`, can be named and labelled through the [`StepCx`].
/// Transitions in planned or sleeping data identify their process and object but not a stable
/// operation, so do not [`label`](StepCx::label) them.
#[allow(inconsistent_fields)]
pub enum Step<'a> {
    /// The search reached a state: the starting state, or one freshly advanced by a committed
    /// transition. Fires once for every state the search reaches, runnable, terminal, or
    /// failed; a state rebuilt by replay is not re-reported.
    Visit,
    /// Exploration began: the search seeded its first interleaving with one enabled process.
    RootSeed {
        /// The seeded operation.
        seeded: Transition,
    },
    /// Nothing to explore: no process is enabled at the start.
    RootEmpty,
    /// A complete interleaving was run to a leaf.
    Maximal {
        /// Its full sequence of committed transitions.
        trace: &'a [Transition],
        /// Whether the leaf ends in a process error or a deadlock.
        failure: bool,
    },
    /// The search advanced one step.
    Descend {
        /// The prefix length before the step.
        depth: usize,
        /// The current interleaving's next transition.
        committed: Transition,
        /// The sleep set just before the step.
        parent_sleep: &'a [ProcessID],
        /// The sleep set just after it: a process in `parent_sleep` but not here was woken
        /// because it conflicts with `committed`.
        child_sleep: &'a [ProcessID],
    },
    /// Having descended to `depth`, the search chose the next process to explore from the new
    /// state.
    SeedChild {
        /// The depth descended to.
        depth: usize,
        /// Whichever process now heads the child: a freshly seeded one, or a continuation an
        /// earlier race reversal already planted there; `None` when there is none.
        seeded: Option<Transition>,
    },
    /// A reversible race in the interleaving just completed: the dependent events `e` and `ep`
    /// have a direct happens-before edge the search tries to flip. To explore the order where
    /// `ep` precedes `e`, the driver schedules the fragment `v` from the state just before `e`.
    Race {
        /// The 1-based position of `e`.
        i: usize,
        /// The 1-based position of `ep`, after `i`.
        j: usize,
        /// The earlier event.
        e: Transition,
        /// The later event.
        ep: Transition,
        /// The events after `e` that do not happen-after `e`.
        notdep: &'a [Transition],
        /// `notdep` followed by `ep`.
        v: &'a [Transition],
        /// How `v` resolved against the wakeup tree.
        outcome: RaceOutcome,
    },
    /// A frontier node was fully explored, so the search backtracked one level.
    Pop {
        /// The process put to sleep at `into_depth`.
        finished_pid: ProcessID,
        /// The depth whose continuations are all done.
        from_depth: usize,
        /// One less.
        into_depth: usize,
    },
    /// The current state was rebuilt by replaying `prefix` from the start before the search
    /// continues down a different branch.
    Replay {
        /// The prefix replayed.
        prefix: &'a [Transition],
    },
    /// Exploration is complete: one interleaving per Mazurkiewicz class has been visited.
    Done,
}

} // verus!
