//! Failure reasons an evaluation or rendering query can stop with.
use vstd::prelude::*;

verus! {

/// Why a query over the expression pool could not produce a value.
///
/// `NotFound` marks a caller defect (an identifier that was never
/// registered); `DividedByZero` and `NonAtomicConcat` are node-level
/// evaluation failures that the pool caches; `NotInteger` is the
/// boundary-only check that a final answer has a trivial denominator;
/// `RuntimeError` wraps a textual-output failure surfaced while rendering.
#[derive(Clone, Debug, PartialEq, Eq)]
pub enum StopReason {
    NotFound,
    DividedByZero,
    NotInteger,
    NonAtomicConcat,
    RuntimeError { message: String },
}

impl StopReason {
    /// A fresh copy; every data-free variant copies exactly.
    pub fn duplicate(&self) -> (r: StopReason)
        ensures
            self is RuntimeError ==> r is RuntimeError,
            !(self is RuntimeError) ==> r == *self,
    {
        match self {
            StopReason::NotFound => StopReason::NotFound,
            StopReason::DividedByZero => StopReason::DividedByZero,
            StopReason::NotInteger => StopReason::NotInteger,
            StopReason::NonAtomicConcat => StopReason::NonAtomicConcat,
            StopReason::RuntimeError { message } => StopReason::RuntimeError {
                message: message.clone(),
            },
        }
    }
}

} // verus!
