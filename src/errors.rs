//! The node's error kinds.

use vstd::prelude::*;

verus! {

#[derive(Debug, Clone, Copy, PartialEq, Eq, Structural)]
pub enum Error {
    /// The schema is invalid.
    Schema,
    /// A read from storage failed.
    Get,
    /// The contract executor failed in a way it cannot recover from.
    ContractIrrecoverable,
    /// The contract executor failed in a way it can recover from.
    ContractRecoverable,
}

impl Error {
    /// A short description of the error.
    pub fn describe(&self) -> (r: &'static str)
        ensures
            *self == Error::Schema ==> r@ == "schema is invalid"@,
            *self == Error::Get ==> r@ == "a get operation failed"@,
            *self == Error::ContractIrrecoverable ==> r@
                == "an irrecoverable error occurred in the contract executor"@,
            *self == Error::ContractRecoverable ==> r@
                == "a recoverable error occurred in the contract executor"@,
    {
        match self {
            Error::Schema => "schema is invalid",
            Error::Get => "a get operation failed",
            Error::ContractIrrecoverable => "an irrecoverable error occurred in the contract executor",
            Error::ContractRecoverable => "a recoverable error occurred in the contract executor",
        }
    }
}

} // verus!
