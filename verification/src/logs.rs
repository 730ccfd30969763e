//! Log records kept for the log window.
use vstd::prelude::*;

verus! {

/// The severity of a log record, as `tracing` reports it.
#[verifier::external_type_specification]
#[verifier::external_body]
pub struct ExLevel(tracing::Level);

/// `Level` derives `Clone` together with `Copy`: a clone is the same level.
pub assume_specification[ <tracing::Level as Clone>::clone ](level: &tracing::Level) -> (copy: tracing::Level)
    ensures
        copy == *level,
;

/// A log record: the target that emitted it, the message and the severity.
#[derive(Clone)]
pub struct LogMessage {
    pub name: String,
    pub msg: String,
    pub level: tracing::Level,
}

} // verus!
