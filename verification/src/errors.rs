use vstd::prelude::*;

verus! {

/// Failures of the task pipeline.
///
/// `TaskVerificationFailed` covers rounds in which no response survived
/// signature verification (an empty collection included); `MajorityNotReached`
/// covers rounds whose best candidate value did not clear the quorum
/// threshold. The remaining variants classify collaborator failures for the
/// hosting process.
#[derive(Clone, Copy, PartialEq, Eq, Structural, Debug)]
pub enum TaskError {
    ContractCallError,
    SubmitTaskError,
    OperatorNotFound,
    TaskVerificationFailed,
    MajorityNotReached,
    SignatureConversionError,
}

} // verus!
