//! Per-response logic of the hedged information requests: checkpoint fetches
//! and transaction info lookups that need only a single self-authenticating
//! answer. The hedged driver retries these checks across validators; each
//! check decides exactly when a response settles the request and what failure
//! a useless answer stands for.

use vstd::prelude::*;

use crate::base_types::{AuthorityName, ExecutionDigests, TransactionDigest};
use crate::error::ValidatorError;
use crate::messages::{
    AuthenticatedCheckpoint, AuthorityCheckpointInfo, CertifiedCheckpointSummary,
    CheckpointContents, CheckpointResponse, CertifiedTransaction, SignedTransactionEffects,
    TransactionInfoResponse,
};

verus! {

/// The response carries a certified checkpoint.
pub open spec fn has_certified_checkpoint(resp: CheckpointResponse) -> bool {
    resp.info matches AuthorityCheckpointInfo::AuthenticatedCheckpoint { ckpt } && ckpt matches
        Some(AuthenticatedCheckpoint::Certified(_))
}

/// Accepts only a Certified checkpoint; anything else — a proposal, a missing
/// checkpoint or one merely signed — does not settle a certified-checkpoint
/// request.
pub fn check_certified_checkpoint(resp: CheckpointResponse) -> (r: Result<
    (CertifiedCheckpointSummary, Option<CheckpointContents>),
    ValidatorError,
>)
    ensures
        r is Ok <==> has_certified_checkpoint(resp),
        r matches Ok(pair) ==> (resp.info matches
            AuthorityCheckpointInfo::AuthenticatedCheckpoint { ckpt } && ckpt == Some(
            AuthenticatedCheckpoint::Certified(pair.0),
        ) && pair.1 == resp.detail),
        r is Err ==> r == Err::<
            (CertifiedCheckpointSummary, Option<CheckpointContents>),
            ValidatorError,
        >(ValidatorError::UnexpectedResponse),
{
    match resp.info {
        AuthorityCheckpointInfo::AuthenticatedCheckpoint { ckpt } => match ckpt {
            Some(AuthenticatedCheckpoint::Certified(past)) => Ok((past, resp.detail)),
            _ => Err(ValidatorError::UnexpectedResponse),
        },
        AuthorityCheckpointInfo::CheckpointProposal { .. } => Err(
            ValidatorError::UnexpectedResponse,
        ),
    }
}

/// The response carries both a certified transaction and signed effects.
pub open spec fn has_cert_and_effects(resp: TransactionInfoResponse) -> bool {
    resp.certified_transaction is Some && resp.signed_effects is Some
}

/// Accepts a transaction info answer only when both the certificate and the
/// signed effects are present: an info request returns success even when the
/// validator has no data, so a bare answer means the transaction was not found.
pub fn check_cert_info_response(digest: TransactionDigest, resp: TransactionInfoResponse) -> (r:
    Result<TransactionInfoResponse, ValidatorError>)
    ensures
        r is Ok <==> has_cert_and_effects(resp),
        r matches Ok(v) ==> v == resp,
        r is Err ==> r == Err::<TransactionInfoResponse, ValidatorError>(
            ValidatorError::TransactionNotFound { digest },
        ),
{
    if matches!(resp.certified_transaction, Some(_)) && matches!(resp.signed_effects, Some(_)) {
        Ok(resp)
    } else {
        Err(ValidatorError::TransactionNotFound { digest })
    }
}

/// Accepts an execution lookup only when both parts are present. When the
/// caller restricted the request to validators that claimed to have the data,
/// a missing answer is a broken claim — a Byzantine suspicion; otherwise the
/// transaction was simply not found.
pub fn check_tx_and_effects_response(
    authority: AuthorityName,
    restricted: bool,
    digests: ExecutionDigests,
    resp: TransactionInfoResponse,
) -> (r: Result<(CertifiedTransaction, SignedTransactionEffects), ValidatorError>)
    ensures
        r is Ok <==> has_cert_and_effects(resp),
        r matches Ok(pair) ==> resp.certified_transaction == Some(pair.0) && resp.signed_effects
            == Some(pair.1),
        r is Err ==> r == Err::<(CertifiedTransaction, SignedTransactionEffects), ValidatorError>(
            if restricted {
                ValidatorError::ByzantineAuthoritySuspicion { authority }
            } else {
                ValidatorError::TransactionNotFound { digest: digests.transaction }
            },
        ),
{
    match (resp.certified_transaction, resp.signed_effects) {
        (Some(cert), Some(effects)) => Ok((cert, effects)),
        _ => {
            if restricted {
                Err(ValidatorError::ByzantineAuthoritySuspicion { authority })
            } else {
                Err(ValidatorError::TransactionNotFound { digest: digests.transaction })
            }
        },
    }
}

} // verus!
