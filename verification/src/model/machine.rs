//! Processes written as a step function over a state of their own.

use std::marker::PhantomData;

use vstd::prelude::*;

use crate::model::process::{Outcome, Process, Turn};

verus! {

/// A step function that can always be called, and that does what is a function of its arguments.
pub open spec fn steady<S, Op, Reply, F: Fn(S, Option<Reply>) -> (S, Outcome<Op>)>(f: F) -> bool {
    &&& forall|s: S, r: Option<Reply>| #[trigger] f.requires((s, r))
    &&& forall|s: S, r: Option<Reply>, a: (S, Outcome<Op>), b: (S, Outcome<Op>)| #[trigger]
        f.ensures((s, r), a) && #[trigger] f.ensures((s, r), b) ==> a.0 == b.0 && a.1@ == b.1@
}

/// A step function that a process can be made of: it can always be called, what it does is a
/// function of its arguments, and it makes finitely many steps, whatever the replies.
/// [`Metered`](crate::model::metered::Metered) makes processes of step functions that need not be
/// finite.
pub open spec fn tame<S, Op, Reply, F: Fn(S, Option<Reply>) -> (S, Outcome<Op>)>(f: F) -> bool {
    &&& steady::<S, Op, Reply, F>(f)
    &&& exists|fuel: spec_fn(S) -> nat| burns::<S, Op, Reply, F>(f, fuel)
}

/// Every step that does not complete the process burns fuel.
pub open spec fn burns<S, Op, Reply, F: Fn(S, Option<Reply>) -> (S, Outcome<Op>)>(
    f: F,
    fuel: spec_fn(S) -> nat,
) -> bool {
    forall|s: S, r: Option<Reply>, a: (S, Outcome<Op>)| #[trigger]
        f.ensures((s, r), a) && !(a.1 is Done) ==> fuel(a.0) < fuel(s)
}

/// A step function that was checked to be tame.
#[verifier::reject_recursive_types(S)]
#[verifier::reject_recursive_types(Op)]
#[verifier::reject_recursive_types(Reply)]
struct Code<S, Op, Reply, F: Fn(S, Option<Reply>) -> (S, Outcome<Op>)> {
    f: F,
    step: PhantomData<(S, Op, Reply)>,
}

impl<S, Op, Reply, F: Fn(S, Option<Reply>) -> (S, Outcome<Op>)> Code<S, Op, Reply, F> {
    #[verifier::type_invariant]
    spec fn checked(self) -> bool {
        tame::<S, Op, Reply, F>(self.f)
    }
}

/// A process: a state, and the step function that takes it from one scheduling point to the
/// next.
#[verifier::reject_recursive_types(S)]
#[verifier::reject_recursive_types(Op)]
#[verifier::reject_recursive_types(Reply)]
pub struct Machine<S, Op, Reply, F: Fn(S, Option<Reply>) -> (S, Outcome<Op>)> {
    state: Option<S>,
    code: Code<S, Op, Reply, F>,
}

/// The mathematical reading of a [`Machine`].
pub struct MachineModel<S, F> {
    /// Where the process stands.
    pub state: Option<S>,
    /// Its step function.
    pub code: F,
}

/// `a` is what the step function does at `m` with `reply`.
pub open spec fn does<S, Op, Reply, F: Fn(S, Option<Reply>) -> (S, Outcome<Op>)>(
    m: MachineModel<S, F>,
    reply: Option<Reply>,
    a: (S, Outcome<Op>),
) -> bool {
    m.state is Some && tame::<S, Op, Reply, F>(m.code) && m.code.ensures((m.state->0, reply), a)
}

impl<S, Op, Reply, F: Fn(S, Option<Reply>) -> (S, Outcome<Op>)> Machine<S, Op, Reply, F> {
    /// The process that starts in `state` and steps by `f`.
    pub fn new(state: S, f: F) -> (m: Self)
        requires
            tame::<S, Op, Reply, F>(f),
        ensures
            m@ == (MachineModel { state: Some(state), code: f }),
    {
        Machine { state: Some(state), code: Code { f, step: PhantomData } }
    }
}

impl<S, Op, Reply, F: Fn(S, Option<Reply>) -> (S, Outcome<Op>)> Process for Machine<
    S,
    Op,
    Reply,
    F,
> {
    type Model = MachineModel<S, F>;

    type Op = Op;

    type Reply = Reply;

    closed spec fn view(&self) -> MachineModel<S, F> {
        MachineModel { state: self.state, code: self.code.f }
    }

    open spec fn budget(m: MachineModel<S, F>) -> nat {
        let fuel = choose|fuel: spec_fn(S) -> nat| burns::<S, Op, Reply, F>(m.code, fuel);
        match m.state {
            Some(s) => fuel(s),
            None => 0,
        }
    }

    open spec fn turn(m: MachineModel<S, F>, reply: Option<Reply>) -> (
        MachineModel<S, F>,
        Turn<Op>,
    ) {
        if exists|a: (S, Outcome<Op>)| does::<S, Op, Reply, F>(m, reply, a) {
            let a = choose|a: (S, Outcome<Op>)| does::<S, Op, Reply, F>(m, reply, a);
            (MachineModel { state: Some(a.0), code: m.code }, a.1@)
        } else {
            (m, Turn::Done)
        }
    }

    proof fn law_budget(m: MachineModel<S, F>, reply: Option<Reply>) {
        if exists|a: (S, Outcome<Op>)| does::<S, Op, Reply, F>(m, reply, a) {
            let fuel = choose|fuel: spec_fn(S) -> nat| burns::<S, Op, Reply, F>(m.code, fuel);
            assert(burns::<S, Op, Reply, F>(m.code, fuel));
        }
    }

    fn resume(&mut self, reply: Option<Reply>) -> (o: Outcome<Op>) {
        let ghost m = self@;
        match self.state.take() {
            Some(s) => {
                proof {
                    use_type_invariant(&self.code);
                }
                let (next, o) = (self.code.f)(s, reply);
                assert(does::<S, Op, Reply, F>(m, reply, (next, o)));
                self.state = Some(next);
                o
            },
            None => Outcome::Done,
        }
    }
}

} // verus!
