//! Process vocabulary: the process identifier, what a process does when it is resumed, and
//! the trait every process implements.

use vstd::prelude::*;

use crate::model::object::ObjectID;

verus! {

/// Index of a process in the executor's process table; doubles as its identity.
pub type ProcessID = usize;

/// How a process hands control back when it is resumed.
pub enum Outcome<Op> {
    /// The process registered one operation on an object and waits for it to commit.
    Request(ObjectID, Op),
    /// The process woke itself: it wants to be resumed again.
    Yield,
    /// The process waits for something that no object will ever deliver.
    Blocked,
    /// The process completed cleanly.
    Done,
    /// The process completed with an error.
    Failed(String),
}

/// The mathematical reading of an [`Outcome`].
pub enum Turn<Op> {
    /// See [`Outcome::Request`].
    Request(ObjectID, Op),
    /// See [`Outcome::Yield`].
    Yield,
    /// See [`Outcome::Blocked`].
    Blocked,
    /// See [`Outcome::Done`].
    Done,
    /// See [`Outcome::Failed`]; the error is its text.
    Failed(Seq<char>),
}

impl<Op> View for Outcome<Op> {
    type V = Turn<Op>;

    open spec fn view(&self) -> Turn<Op> {
        match *self {
            Outcome::Request(oid, op) => Turn::Request(oid, op),
            Outcome::Yield => Turn::Yield,
            Outcome::Blocked => Turn::Blocked,
            Outcome::Done => Turn::Done,
            Outcome::Failed(e) => Turn::Failed(e@),
        }
    }
}

/// A process of the program under test: deterministic code that runs between two
/// scheduling points each time it is resumed.
///
/// A process has at most one operation outstanding: it hands the operation out in
/// [`Outcome::Request`] and is resumed with the reply once the operation has committed.
/// What a resume does is a function of the process and the reply alone, and a process makes
/// finitely many of them: `budget` bounds how often it can still be resumed.
pub trait Process: Sized {
    /// The mathematical reading of the process.
    type Model;

    /// The operations the process asks objects to perform.
    type Op;

    /// What a committed operation hands back.
    type Reply;

    /// The process's mathematical reading.
    spec fn view(&self) -> Self::Model;

    /// A bound on the number of resumes the process can still ask for.
    spec fn budget(m: Self::Model) -> nat;

    /// The process after one resume, and what it did.
    spec fn turn(m: Self::Model, reply: Option<Self::Reply>) -> (Self::Model, Turn<Self::Op>);

    /// Every resume that does not complete the process spends from the budget.
    proof fn law_budget(m: Self::Model, reply: Option<Self::Reply>)
        ensures
            !(Self::turn(m, reply).1 is Done) ==> Self::budget(Self::turn(m, reply).0)
                < Self::budget(m),
    ;

    /// Runs the process up to its next scheduling point. `reply` is what its committed
    /// operation handed back, if one has committed since the last resume.
    fn resume(&mut self, reply: Option<Self::Reply>) -> (o: Outcome<Self::Op>)
        ensures
            (final(self)@, o@) == Self::turn(old(self)@, reply),
    ;
}

} // verus!
