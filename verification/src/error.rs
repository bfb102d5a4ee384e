//! Error taxonomy of the aggregator.
//!
//! Per-validator failures (`ValidatorError`) are absorbed into reducer state;
//! only stake-weighted aggregate verdicts (`AggregateError`) escape from a
//! whole protocol round.

use vstd::prelude::*;

use crate::base_types::AuthorityName;

verus! {

/// A failure observed while talking to one validator, or while checking its
/// response. Flat data only, so that errors can be compared and de-duplicated.
#[derive(Clone, Copy, Debug, PartialEq, Eq, Structural)]
pub enum ValidatorError {
    /// An object lock at the validator is out of date: the marker that the
    /// certificate-processing ladder treats as "this validator lags".
    ObjectErrors { object_id: u64 },
    /// The validator does not know the object.
    ObjectNotFound { object_id: u64 },
    /// The validator does not know the transaction.
    TransactionNotFound { digest: u64 },
    /// The validator violated a protocol invariant: bad signature, digest
    /// mismatch, wrong epoch, or a claim it failed to deliver on.
    ByzantineAuthoritySuspicion { authority: AuthorityName },
    /// The request did not complete within its per-call budget.
    TimeoutError,
    /// An opaque transport or validator-side failure.
    RpcFailure { code: u64 },
    /// The validator answered, but with none of the fields the request asked for.
    UnexpectedResponse,
    /// Bringing the validator forward failed on every sampled source.
    SyncFailed,
}

/// A stake-weighted verdict about a whole protocol round, or a failure of a
/// multi-validator orchestration.
#[derive(Debug, PartialEq, Eq)]
pub enum AggregateError {
    /// A single validator-level error surfaced verbatim: every failing
    /// validator returned this same error and no validator voted for the
    /// transaction.
    Validator(ValidatorError),
    /// More than the validity threshold of stake failed while gathering votes;
    /// carries the distinct underlying errors.
    QuorumNotReached { errors: Vec<ValidatorError> },
    /// More than the validity threshold of stake failed while executing a
    /// certificate.
    QuorumFailedToExecuteCertificate { errors: Vec<ValidatorError> },
    /// Too many validators answered incorrectly during an object, account or
    /// hedged query.
    TooManyIncorrectAuthorities { errors: Vec<(AuthorityName, ValidatorError)> },
    /// A source validator lacked history it was believed to have.
    AuthorityInformationUnavailable,
    /// Every sampled source failed to bring the destination forward.
    AuthorityUpdateFailure,
    /// The overall budget ran out and no validator-level error was seen.
    TimeoutError,
    /// A pairwise sync between two validators failed; reported to both client
    /// facades, it does not terminate the outer call.
    PairwiseSyncFailed {
        source: AuthorityName,
        destination: AuthorityName,
        tx_digest: u64,
        error: Box<AggregateError>,
    },
    /// A round ended without forming a certificate and without a stake-weighted
    /// verdict against it.
    NoCertificateFormed,
    /// A signature bag named a signer that is not in the committee.
    UnknownSigner { authority: AuthorityName },
    /// No authority returned an object matching the requested reference.
    ObjectFetchFailed { object_id: u64 },
    /// A committee was built from rows that violate its invariant.
    InvalidCommittee,
    /// A signature bag offered for certificate formation does not form a quorum.
    InvalidCertificate,
}

impl AggregateError {
    /// Which kind of error this is, as a small integer; lets unverified code
    /// branch on the kind without a `Display` impl.
    pub fn kind(&self) -> (k: u64)
        ensures
            k < 13,
    {
        match self {
            AggregateError::Validator(_) => 0,
            AggregateError::QuorumNotReached { .. } => 1,
            AggregateError::QuorumFailedToExecuteCertificate { .. } => 2,
            AggregateError::TooManyIncorrectAuthorities { .. } => 3,
            AggregateError::AuthorityInformationUnavailable => 4,
            AggregateError::AuthorityUpdateFailure => 5,
            AggregateError::TimeoutError => 6,
            AggregateError::PairwiseSyncFailed { .. } => 7,
            AggregateError::NoCertificateFormed => 8,
            AggregateError::UnknownSigner { .. } => 9,
            AggregateError::ObjectFetchFailed { .. } => 10,
            AggregateError::InvalidCommittee => 11,
            AggregateError::InvalidCertificate => 12,
        }
    }
}

} // verus!
