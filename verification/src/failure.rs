//! The engine's two kinds of failure: a system operation went wrong, or the
//! input given by the user was unusable. Each carries a message and, when
//! one exists, the message of the underlying error.

use vstd::prelude::*;
use vstd::string::StringExecFns;

verus! {

/// A failure of the engine, with an optional underlying cause.
#[derive(Clone, Debug, PartialEq, Eq)]
pub enum Failure {
    /// Some system operation (e.g., talking to the container runtime)
    /// failed.
    _System(String, Option<String>),
    /// There was a problem with the user's input.
    User(String, Option<String>),
}

/// The text of a failure: its message, with the underlying cause appended
/// when one exists.
pub open spec fn spec_message(f: Failure) -> Seq<char> {
    match f {
        Failure::_System(m, Option::Some(src)) => m@ + " Reason: "@ + src@,
        Failure::_System(m, Option::None) => m@,
        Failure::User(m, Option::Some(src)) => m@ + " Reason: "@ + src@,
        Failure::User(m, Option::None) => m@,
    }
}

impl Failure {
    /// Render the failure as one line of text.
    pub fn message(&self) -> (r: String)
        ensures
            r@ == spec_message(*self),
    {
        match self {
            Failure::_System(m, Some(src)) => m.clone().concat(" Reason: ").concat(src.as_str()),
            Failure::_System(m, None) => m.clone(),
            Failure::User(m, Some(src)) => m.clone().concat(" Reason: ").concat(src.as_str()),
            Failure::User(m, None) => m.clone(),
        }
    }
}

} // verus!
