//! Structured error kinds of the surrounding computation engine.
//!
//! The engine's keys are trait objects of its own; here they are carried as
//! plain strings, which is all the error values read of them.

use vstd::prelude::*;

verus! {

/// An error of the computation engine.
#[derive(Debug, Clone, PartialEq, Eq)]
pub enum DiceError {
    /// A cyclic computation was detected: the key whose computation
    /// triggered the detection, and the keys forming the cycle.
    Cycle { trigger: String, cyclic_keys: Vec<String> },
    /// A key was marked as changed more than once on the same transaction.
    DuplicateChange(String),
}

/// Outcome of an engine operation.
pub type DiceResult<T> = Result<T, DiceError>;

impl DiceError {
    /// The cycle error: computing `trigger` closed a cycle through
    /// `cyclic_keys`.
    pub fn cycle(trigger: String, cyclic_keys: Vec<String>) -> (r: DiceError)
        ensures
            r == (DiceError::Cycle { trigger, cyclic_keys }),
    {
        DiceError::Cycle { trigger, cyclic_keys }
    }

    /// The duplicate-change error: `key` was marked as changed multiple
    /// times on the same transaction.
    pub fn duplicate(key: String) -> (r: DiceError)
        ensures
            r == DiceError::DuplicateChange(key),
    {
        DiceError::DuplicateChange(key)
    }

    /// A short description of the error kind.
    pub fn message(&self) -> (r: &'static str)
        ensures
            self is Cycle ==> r@ == "cyclic computation detected"@,
            self is DuplicateChange ==> r@
                == "key marked as changed multiple times on the same transaction"@,
    {
        match self {
            DiceError::Cycle { .. } => "cyclic computation detected",
            DiceError::DuplicateChange(_) => "key marked as changed multiple times on the same transaction",
        }
    }
}

} // verus!
