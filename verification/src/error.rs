//! What can go wrong while a graph is built or a step applied.

use vstd::prelude::*;
use vstd::string::StringExecFns;

verus! {

/// A fault found while a step was applied.
#[derive(Clone, Copy, Debug, PartialEq, Eq, Structural)]
pub enum FlowError {
    /// The step would take from a source more than it has, or push a sink
    /// or a node over its capacity.
    ArithmeticInvariantViolation,
}

/// Why a graph could not be built.
#[derive(Debug)]
pub enum BuildError {
    /// A sink was declared under a name that a sink already has.
    RecipientDeclaredTwice,
    /// A source was declared that already has an amount.
    SenderDeclaredTwice,
    /// The named sink asks for an opening balance and got none.
    MissingBalance(String),
}

impl BuildError {
    /// The text of the message that tells the error to a person.
    pub open spec fn text(&self) -> Seq<char> {
        match self {
            BuildError::RecipientDeclaredTwice => "recipient declared twice"@,
            BuildError::SenderDeclaredTwice => "sender declared twice"@,
            BuildError::MissingBalance(name) => "please provide a balance for "@ + name@
                + "\n\ne.g.:\nYYYY-MM "@ + name@ + " had 10"@,
        }
    }

    /// The message that tells the error to a person.
    pub fn to_string(&self) -> (r: String)
        ensures
            r@ == self.text(),
    {
        match self {
            BuildError::RecipientDeclaredTwice => String::from_str("recipient declared twice"),
            BuildError::SenderDeclaredTwice => String::from_str("sender declared twice"),
            BuildError::MissingBalance(name) => {
                let mut r = String::from_str("please provide a balance for ");
                r.append(name.as_str());
                r.append("\n\ne.g.:\nYYYY-MM ");
                r.append(name.as_str());
                r.append(" had 10");
                r
            },
        }
    }
}

} // verus!
