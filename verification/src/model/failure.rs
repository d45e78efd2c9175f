//! Why an interleaving failed.

use vstd::prelude::*;

verus! {

/// The mathematical reading of a [`FailureReason`].
pub enum Reason {
    /// A process returned an error: its name and the error's text.
    Process(Seq<char>, Seq<char>),
    /// See [`FailureReason::Deadlock`].
    Deadlock,
}

/// The message of a process error.
pub open spec fn error_text(process: Seq<char>, source: Seq<char>) -> Seq<char> {
    "process "@ + process + " failed: "@ + source
}

/// The message of a failure.
pub open spec fn reason_text(r: Reason) -> Seq<char> {
    match r {
        Reason::Process(process, source) => error_text(process, source),
        Reason::Deadlock => "deadlock"@,
    }
}

/// The error reported when a process fails, naming the process.
pub struct ProcessError {
    process: String,
    source: String,
}

impl View for ProcessError {
    type V = (Seq<char>, Seq<char>);

    closed spec fn view(&self) -> (Seq<char>, Seq<char>) {
        (self.process@, self.source@)
    }
}

impl ProcessError {
    /// The error `source` of the process named `process`.
    pub fn new(process: String, source: String) -> (e: Self)
        ensures
            e@ == (process@, source@),
    {
        ProcessError { process, source }
    }

    /// The name of the process that erred.
    pub fn process(&self) -> (s: &str)
        ensures
            s@ == self@.0,
    {
        self.process.as_str()
    }

    /// The error the process returned.
    pub fn source(&self) -> (s: &str)
        ensures
            s@ == self@.1,
    {
        self.source.as_str()
    }

    /// The error's message, e.g. `"process reader failed: unexpected value"`.
    pub fn to_string(&self) -> (s: String)
        ensures
            s@ == error_text(self@.0, self@.1),
    {
        let mut s = String::from_str("process ");
        s.append(self.process.as_str());
        s.append(" failed: ");
        s.append(self.source.as_str());
        s
    }
}

/// Why a state makes no further progress.
pub enum FailureReason {
    /// A process returned an error.
    Process(ProcessError),
    /// No process is enabled yet a process is still live: the program is stuck.
    Deadlock,
}

impl View for FailureReason {
    type V = Reason;

    open spec fn view(&self) -> Reason {
        match *self {
            FailureReason::Process(e) => Reason::Process(e@.0, e@.1),
            FailureReason::Deadlock => Reason::Deadlock,
        }
    }
}

impl FailureReason {
    /// The reason's message: the process error's, or `"deadlock"`.
    pub fn to_string(&self) -> (s: String)
        ensures
            s@ == reason_text(self@),
    {
        match self {
            FailureReason::Process(e) => e.to_string(),
            FailureReason::Deadlock => String::from_str("deadlock"),
        }
    }
}

} // verus!
