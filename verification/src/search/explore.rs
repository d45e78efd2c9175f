//! The entry point of the search, and the failure it reports.

use vstd::prelude::*;

use crate::model::failure::{reason_text, FailureReason, Reason};
use crate::model::object::{Object, Transition};
use crate::model::process::Process;
use crate::model::state::{
    built, deterministic, feasible, lemma_reached_sound, reached, started, State, StateView,
};
use crate::model::world::{World, WorldModel};
use crate::search::exhaustive::clean;
use crate::search::observer::{informed, Observer};
use crate::search::optimal::{chronicle, ending, run};
use crate::search::saga::{tells, Note};
use crate::theory::program::dependable;

verus! {

/// A reproducible failure of the search.
///
/// Holds why the interleaving failed plus a replayable view of the prefix that led there, so
/// the offending schedule can be reproduced deterministically with
/// [`play`](FailedState::play).
#[verifier::reject_recursive_types(O)]
#[verifier::reject_recursive_types(P)]
pub struct FailedState<'a, O, P, F> where
    O: Object,
    P: Process<Op = O::Op, Reply = O::Reply>,
    F: Fn(World<O, P>) -> World<O, P>,
 {
    reason: FailureReason,
    view: StateView<'a, O, P, F>,
}

impl<'a, O, P, F> FailedState<'a, O, P, F> where
    O: Object,
    P: Process<Op = O::Op, Reply = O::Reply>,
    F: Fn(World<O, P>) -> World<O, P>,
 {
    /// The program that failed, before anything ran.
    pub closed spec fn program(&self) -> WorldModel<O::Model, P::Model, P::Reply> {
        self.view.program()
    }

    /// The failing schedule.
    pub closed spec fn schedule(&self) -> Seq<Transition> {
        self.view.schedule()
    }

    /// Why it failed.
    pub closed spec fn why(&self) -> Reason {
        self.reason@
    }

    /// The schedule is one of the program's own, and fails for the reason given.
    pub closed spec fn valid(&self) -> bool {
        &&& self.view.valid()
        &&& feasible::<O, P>(self.program(), self.schedule())
        &&& reached::<O, P>(self.program(), self.schedule()).failure == Some(self.why())
    }

    /// What every failure is: a schedule of the program that fails for the reason given.
    pub proof fn lemma_valid(&self)
        requires
            self.valid(),
        ensures
            feasible::<O, P>(self.program(), self.schedule()),
            reached::<O, P>(self.program(), self.schedule()).failure == Some(self.why()),
    {
    }

    /// The failure `reason` at the end of the schedule of `view`.
    pub fn new(reason: FailureReason, view: StateView<'a, O, P, F>) -> (f: Self)
        requires
            view.valid(),
            feasible::<O, P>(view.program(), view.schedule()),
            reached::<O, P>(view.program(), view.schedule()).failure == Some(reason@),
        ensures
            f.valid(),
            f.program() == view.program(),
            f.schedule() == view.schedule(),
            f.why() == reason@,
    {
        FailedState { reason, view }
    }

    /// The failure of a failed state.
    pub fn from_state(state: State<'a, O, P, F>) -> (f: Self)
        requires
            state.valid(),
            state@.failure is Some,
        ensures
            f.valid(),
            f.program() == state.program(),
            f.schedule() == state@.trace,
            state@.failure == Some(f.why()),
    {
        proof {
            state.lemma_valid();
        }
        let (reason, view) = state.into_failure();
        FailedState::new(reason, view)
    }

    /// The reason this interleaving failed: a process error or a deadlock.
    pub fn reason(&self) -> (r: &FailureReason)
        ensures
            r@ == self.why(),
    {
        &self.reason
    }

    /// The failing schedule.
    pub fn trace(&self) -> (t: &[Transition])
        ensures
            t@ == self.schedule(),
    {
        self.view.trace()
    }

    /// Replays the failing prefix from scratch, reproducing the same failure as an independent
    /// [`FailedState`].
    pub fn play(&self) -> (f: Self)
        requires
            self.valid(),
        ensures
            f.valid(),
            f.program() == self.program(),
            f.schedule() == self.schedule(),
            f.why() == self.why(),
    {
        let state = self.view.state();
        proof {
            state.lemma_valid();
            lemma_reached_sound::<O, P>(self.program(), self.schedule());
        }
        FailedState::from_state(state)
    }

    /// The reason's message.
    pub fn to_string(&self) -> (s: String)
        ensures
            s@ == reason_text(self.why()),
    {
        self.reason.to_string()
    }
}

/// Enumerates interleavings of the program built by `setup` under Optimal DPOR.
///
/// `setup` builds the program into a fresh [`World`] (spawning processes, creating the shared
/// objects); it is invoked repeatedly and must be deterministic. `observer`'s
/// [`step`](Observer::step) is notified at each discrete decision, including a
/// [`Step::Visit`](crate::search::observer::Step::Visit) for every explored state, runnable,
/// terminal, or failed; pass `&mut ()` to observe nothing.
///
/// Returns `Ok(())` if every reachable interleaving terminates cleanly, or the first
/// [`FailedState`] encountered (a process error or a deadlock), at which point the search
/// stops.
pub fn explore<'a, O, P, F, Ob>(setup: &'a F, observer: &mut Ob) -> (r: Result<
    (),
    FailedState<'a, O, P, F>,
>) where
    O: Object,
    P: Process<Op = O::Op, Reply = O::Reply>,
    F: Fn(World<O, P>) -> World<O, P>,
    Ob: Observer<O, P, F>,

    requires
        deterministic::<O, P, F>(*setup),
    ensures
        r matches Err(f) ==> f.valid() && f.program() == built::<O, P, F>(*setup),
        clean::<O, P>(built::<O, P, F>(*setup)) ==> r is Ok,
        started::<O, P>(built::<O, P, F>(*setup)).failure is Some ==> (r matches Err(f)
            && f.schedule().len() == 0),
        dependable::<O, P>(built::<O, P, F>(*setup)) ==> (r is Ok <==> clean::<O, P>(
            built::<O, P, F>(*setup),
        )),
        exists|notes: Seq<Note>| #[trigger]
            tells::<O, P>(built::<O, P, F>(*setup), notes, ending(r)) && chronicle::<O, P>(
                built::<O, P, F>(*setup),
                notes,
                ending(r),
            ) && informed::<O, P, F, Ob>(*old(observer), *final(observer), notes),
{
    let root = StateView::new(setup).state();
    proof {
        root.lemma_valid();
    }
    run(root, observer)
}

} // verus!
