//! What can go wrong while a plan is made.

use vstd::prelude::*;
use vstd::string::StringExecFns;

verus! {

/// A failure to read, generate or plan.
#[derive(Debug)]
pub enum PlanError {
    /// A file or a process could not be used; the text of the cause.
    Io(String),
    /// Cargo ran and failed.
    Cargo(String),
    /// Cargo's output or a file could not be understood.
    Parse(String),
}

impl PlanError {
    /// The message shown for an error.
    pub open spec fn shown(self) -> Seq<char> {
        match self {
            PlanError::Io(e) => "io error: "@ + e@,
            PlanError::Cargo(m) => "cargo failed: "@ + m@,
            PlanError::Parse(m) => "could not parse: "@ + m@,
        }
    }

    /// The message to show.
    pub fn message(&self) -> (r: String)
        ensures
            r@ == self.shown(),
    {
        match self {
            PlanError::Io(e) => "io error: ".to_owned().concat(e),
            PlanError::Cargo(m) => "cargo failed: ".to_owned().concat(m),
            PlanError::Parse(m) => "could not parse: ".to_owned().concat(m),
        }
    }
}

} // verus!
