//! The simplest processes: a fixed list of operations, whatever they hand back.

use std::collections::VecDeque;
use std::marker::PhantomData;

use vstd::prelude::*;

use crate::model::object::ObjectID;
use crate::model::process::{Outcome, Process, Turn};

verus! {

/// A process that requests the listed operations one after the other and completes.
pub struct Script<Op, Reply> {
    steps: VecDeque<(ObjectID, Op)>,
    reply: PhantomData<Reply>,
}

impl<Op, Reply> Script<Op, Reply> {
    /// A process that completes at once.
    pub fn new() -> (s: Self)
        ensures
            s@ == Seq::<(ObjectID, Op)>::empty(),
    {
        Script { steps: VecDeque::new(), reply: PhantomData }
    }

    /// Lists one more operation.
    pub fn push(&mut self, oid: ObjectID, op: Op)
        ensures
            final(self)@ == old(self)@.push((oid, op)),
    {
        self.steps.push_back((oid, op));
    }
}

impl<Op, Reply> Process for Script<Op, Reply> {
    type Model = Seq<(ObjectID, Op)>;

    type Op = Op;

    type Reply = Reply;

    closed spec fn view(&self) -> Seq<(ObjectID, Op)> {
        self.steps@
    }

    open spec fn budget(m: Seq<(ObjectID, Op)>) -> nat {
        m.len()
    }

    open spec fn turn(m: Seq<(ObjectID, Op)>, reply: Option<Reply>) -> (
        Seq<(ObjectID, Op)>,
        Turn<Op>,
    ) {
        if m.len() == 0 {
            (m, Turn::Done)
        } else {
            (m.drop_first(), Turn::Request(m[0].0, m[0].1))
        }
    }

    proof fn law_budget(m: Seq<(ObjectID, Op)>, reply: Option<Reply>) {
    }

    fn resume(&mut self, reply: Option<Reply>) -> (o: Outcome<Op>) {
        let ghost before = self@;
        match self.steps.pop_front() {
            Some((oid, op)) => {
                assert(self@ =~= before.drop_first());
                Outcome::Request(oid, op)
            },
            None => Outcome::Done,
        }
    }
}

} // verus!
