//! Processes written as a step function that need not come to an end by itself: they get a bound on
//! the number of their steps.

use std::marker::PhantomData;

use vstd::prelude::*;

use crate::model::machine::{burns, does, steady, tame, Machine, MachineModel};
use crate::model::process::{Outcome, Process, Turn};

verus! {

/// A step function that was checked to be steady.
#[verifier::reject_recursive_types(S)]
#[verifier::reject_recursive_types(Op)]
#[verifier::reject_recursive_types(Reply)]
struct Steady<S, Op, Reply, F: Fn(S, Option<Reply>) -> (S, Outcome<Op>)> {
    f: F,
    step: PhantomData<(S, Op, Reply)>,
}

impl<S, Op, Reply, F: Fn(S, Option<Reply>) -> (S, Outcome<Op>)> Steady<S, Op, Reply, F> {
    #[verifier::type_invariant]
    spec fn checked(self) -> bool {
        steady::<S, Op, Reply, F>(self.f)
    }
}

/// A process: a state, a step function that takes it from one scheduling point to the next, and
/// fuel, of which every step burns a unit. A process that needs another step when the fuel is gone
/// fails.
#[verifier::reject_recursive_types(S)]
#[verifier::reject_recursive_types(Op)]
#[verifier::reject_recursive_types(Reply)]
pub struct Metered<S, Op, Reply, F: Fn(S, Option<Reply>) -> (S, Outcome<Op>)> {
    state: Option<S>,
    fuel: u64,
    code: Steady<S, Op, Reply, F>,
}

/// The mathematical reading of a [`Metered`] process.
pub struct MeteredModel<S, F> {
    /// Where the process stands.
    pub state: Option<S>,
    /// How many steps it can still make.
    pub fuel: nat,
    /// Its step function.
    pub code: F,
}

/// `a` is what the step function does at `m` with `reply`.
pub open spec fn makes<S, Op, Reply, F: Fn(S, Option<Reply>) -> (S, Outcome<Op>)>(
    m: MeteredModel<S, F>,
    reply: Option<Reply>,
    a: (S, Outcome<Op>),
) -> bool {
    m.state is Some && steady::<S, Op, Reply, F>(m.code) && m.code.ensures((m.state->0, reply), a)
}

impl<S, Op, Reply, F: Fn(S, Option<Reply>) -> (S, Outcome<Op>)> Metered<S, Op, Reply, F> {
    /// The process that starts in `state` and steps by `f`, at most `fuel` times.
    pub fn new(state: S, f: F, fuel: u64) -> (m: Self)
        requires
            steady::<S, Op, Reply, F>(f),
        ensures
            m@ == (MeteredModel { state: Some(state), fuel: fuel as nat, code: f }),
    {
        Metered { state: Some(state), fuel, code: Steady { f, step: PhantomData } }
    }
}

impl<S, Op, Reply, F: Fn(S, Option<Reply>) -> (S, Outcome<Op>)> Process for Metered<
    S,
    Op,
    Reply,
    F,
> {
    type Model = MeteredModel<S, F>;

    type Op = Op;

    type Reply = Reply;

    closed spec fn view(&self) -> MeteredModel<S, F> {
        MeteredModel { state: self.state, fuel: self.fuel as nat, code: self.code.f }
    }

    open spec fn budget(m: MeteredModel<S, F>) -> nat {
        match m.state {
            Some(_) => m.fuel + 1,
            None => 0,
        }
    }

    open spec fn turn(m: MeteredModel<S, F>, reply: Option<Reply>) -> (
        MeteredModel<S, F>,
        Turn<Op>,
    ) {
        if m.state is None {
            (m, Turn::Done)
        } else if m.fuel == 0 {
            (MeteredModel { state: None, ..m }, Turn::Failed("out of fuel"@))
        } else if exists|a: (S, Outcome<Op>)| makes::<S, Op, Reply, F>(m, reply, a) {
            let a = choose|a: (S, Outcome<Op>)| makes::<S, Op, Reply, F>(m, reply, a);
            (
                MeteredModel { state: Some(a.0), fuel: (m.fuel - 1) as nat, code: m.code },
                a.1@,
            )
        } else {
            (m, Turn::Done)
        }
    }

    proof fn law_budget(m: MeteredModel<S, F>, reply: Option<Reply>) {
    }

    fn resume(&mut self, reply: Option<Reply>) -> (o: Outcome<Op>) {
        let ghost m = self@;
        match self.state.take() {
            Some(s) => {
                if self.fuel == 0 {
                    return Outcome::Failed(String::from_str("out of fuel"));
                }
                proof {
                    use_type_invariant(&self.code);
                }
                let (next, o) = (self.code.f)(s, reply);
                assert(makes::<S, Op, Reply, F>(m, reply, (next, o)));
                self.state = Some(next);
                self.fuel = self.fuel - 1;
                o
            },
            None => Outcome::Done,
        }
    }
}

/// While there is fuel, a metered process does what the [`Machine`] of the same step function does:
/// it hands back the same, and gets to the same state with a unit of fuel less.
pub proof fn lemma_metered<S, Op, Reply, F: Fn(S, Option<Reply>) -> (S, Outcome<Op>)>(
    m: MeteredModel<S, F>,
    reply: Option<Reply>,
)
    requires
        tame::<S, Op, Reply, F>(m.code),
        m.fuel > 0,
        exists|a: (S, Outcome<Op>)| makes::<S, Op, Reply, F>(m, reply, a),
    ensures
        ({
            let c = MachineModel { state: m.state, code: m.code };
            let a = <Machine<S, Op, Reply, F> as Process>::turn(c, reply);
            let b = <Metered<S, Op, Reply, F> as Process>::turn(m, reply);
            &&& b.1 == a.1
            &&& b.0.state == a.0.state
            &&& b.0.fuel == m.fuel - 1
            &&& b.0.code == a.0.code
        }),
{
    let c = MachineModel { state: m.state, code: m.code };
    let a = choose|a: (S, Outcome<Op>)| makes::<S, Op, Reply, F>(m, reply, a);
    assert(does::<S, Op, Reply, F>(c, reply, a));
}

/// A tame step function with as much fuel as it burns never runs out of it: as long as it has not
/// handed back [`Outcome::Done`], what is left suffices for what is to come.
pub proof fn lemma_fuel_suffices<S, Op, Reply, F: Fn(S, Option<Reply>) -> (S, Outcome<Op>)>(
    m: MeteredModel<S, F>,
    reply: Option<Reply>,
    need: spec_fn(S) -> nat,
)
    requires
        burns::<S, Op, Reply, F>(m.code, need),
        m.state is Some,
        m.fuel > need(m.state->0),
        exists|a: (S, Outcome<Op>)| makes::<S, Op, Reply, F>(m, reply, a),
    ensures
        ({
            let b = <Metered<S, Op, Reply, F> as Process>::turn(m, reply);
            b.1 is Done || b.0.state is Some && b.0.fuel > need(b.0.state->0)
        }),
{
    let a = choose|a: (S, Outcome<Op>)| makes::<S, Op, Reply, F>(m, reply, a);
    assert(makes::<S, Op, Reply, F>(m, reply, a));
}

} // verus!
