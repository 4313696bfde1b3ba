//! The ways in which a walk can fail.

use vstd::prelude::*;
use crate::units::{decimal, decimal_string};

verus! {

/// Why a walk was aborted. A walk reports the first failure it meets and
/// nothing else.
#[derive(Clone, Copy, Debug, PartialEq, Eq, Structural)]
pub enum TraversalError {
    /// The path does not exist.
    NotFound,
    /// The path exists but may not be read.
    PermissionDenied,
    /// A directory was expected and something else was found.
    NotADirectory,
    /// Any other failure of the operating system, with its error code.
    IoFailure(i32),
}

impl TraversalError {
    /// The text of `message`.
    pub open spec fn spec_message(self) -> Seq<char> {
        match self {
            TraversalError::NotFound => "path not found"@,
            TraversalError::PermissionDenied => "permission denied"@,
            TraversalError::NotADirectory => "not a directory"@,
            TraversalError::IoFailure(code) => if code < 0 {
                "I/O failure (os error -"@ + decimal((-code) as nat) + ")"@
            } else {
                "I/O failure (os error "@ + decimal(code as nat) + ")"@
            },
        }
    }

    /// A one-line description for the user.
    pub fn message(&self) -> (text: String)
        ensures
            text@ == self.spec_message(),
    {
        match self {
            TraversalError::NotFound => String::from_str("path not found"),
            TraversalError::PermissionDenied => String::from_str("permission denied"),
            TraversalError::NotADirectory => String::from_str("not a directory"),
            TraversalError::IoFailure(code) => {
                let code: i32 = *code;
                if code < 0 {
                    let magnitude: u64 = (-(code as i64)) as u64;
                    let mut text = String::from_str("I/O failure (os error -");
                    text.append(decimal_string(magnitude).as_str());
                    text.append(")");
                    text
                } else {
                    let mut text = String::from_str("I/O failure (os error ");
                    text.append(decimal_string(code as u64).as_str());
                    text.append(")");
                    text
                }
            },
        }
    }
}

} // verus!
