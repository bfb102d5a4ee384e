//! The single-validator facade: every response that carries a signature is
//! verified against the committee before it is returned. A mismatched digest,
//! a wrong epoch or an invalid signature becomes a Byzantine suspicion; the
//! raw answer is never handed to protocol logic unchecked.

use vstd::prelude::*;

use crate::base_types::{AuthorityName, ExecutionDigests, ObjectID, SuiAddress, TransactionDigest};
use crate::certs::signatures_form_quorum;
use crate::committee::Committee;
use crate::error::{AggregateError, ValidatorError};
use crate::messages::{
    AccountInfoResponse, AuthenticatedCheckpoint, CertifiedTransaction, CheckpointRequest,
    CheckpointResponse, ObjectInfoResponse, Transaction, TransactionInfoResponse,
};

verus! {

/// The raw validator RPC surface. A validator may be Byzantine, so nothing is
/// promised of any answer; the library checks every response it relies on.
pub trait AuthorityApi {
    /// Submit a transaction for voting.
    fn handle_transaction(&mut self, transaction: &Transaction) -> Result<
        TransactionInfoResponse,
        ValidatorError,
    >;

    /// Submit a certificate for execution.
    fn handle_certificate(&mut self, certificate: &CertifiedTransaction) -> Result<
        TransactionInfoResponse,
        ValidatorError,
    >;

    /// Ask about a transaction by digest.
    fn handle_transaction_info_request(&mut self, digest: TransactionDigest) -> Result<
        TransactionInfoResponse,
        ValidatorError,
    >;

    /// Ask for the latest state of an object.
    fn handle_object_info_request(&mut self, object_id: ObjectID) -> Result<
        ObjectInfoResponse,
        ValidatorError,
    >;

    /// Ask for the objects owned by an address.
    fn handle_account_info_request(&mut self, address: SuiAddress) -> Result<
        AccountInfoResponse,
        ValidatorError,
    >;

    /// Ask about a checkpoint.
    fn handle_checkpoint(&mut self, request: &CheckpointRequest) -> Result<
        CheckpointResponse,
        ValidatorError,
    >;

    /// Ask for a transaction's certificate and signed effects by their digests.
    fn handle_transaction_and_effects_info_request(&mut self, digests: ExecutionDigests) -> Result<
        TransactionInfoResponse,
        ValidatorError,
    >;
}

/// A transaction info response is internally consistent for `authority`,
/// `expected_digest` and the committee: every signed part names the right
/// digest, the right epoch and (for single signatures) the right signer, and
/// any embedded certificate forms a quorum.
pub open spec fn transaction_info_ok(
    c: Committee,
    authority: AuthorityName,
    expected_digest: TransactionDigest,
    resp: TransactionInfoResponse,
) -> bool {
    &&& (resp.signed_transaction matches Some(st) ==> st.transaction.digest_spec()
        == expected_digest && st.signature.valid_for(authority, c.epoch, expected_digest))
    &&& (resp.certified_transaction matches Some(ct) ==> ct.transaction.digest_spec()
        == expected_digest && ct.valid(c))
    &&& (resp.signed_effects matches Some(se) ==> se.effects.transaction_digest == expected_digest
        && se.signature.valid_for(authority, c.epoch, se.effects.digest))
}

/// Decides `transaction_info_ok`, reporting a Byzantine suspicion otherwise.
pub fn check_transaction_info(
    c: &Committee,
    authority: AuthorityName,
    expected_digest: TransactionDigest,
    resp: TransactionInfoResponse,
) -> (r: Result<TransactionInfoResponse, ValidatorError>)
    requires
        c.well_formed(),
    ensures
        r is Ok <==> transaction_info_ok(*c, authority, expected_digest, resp),
        r matches Ok(v) ==> v == resp,
        r is Err ==> r == Err::<TransactionInfoResponse, ValidatorError>(
            ValidatorError::ByzantineAuthoritySuspicion { authority },
        ),
{
    let ok_signed = match &resp.signed_transaction {
        Some(st) => {
            st.transaction.digest() == expected_digest && st.signature.check(
                authority,
                c.epoch,
                expected_digest,
            )
        },
        None => true,
    };
    let ok_cert = match &resp.certified_transaction {
        Some(ct) => {
            ct.transaction.digest() == expected_digest && crate::certs::check_quorum_signatures(
                c,
                ct.epoch,
                ct.transaction.digest(),
                &ct.signatures,
            )
        },
        None => true,
    };
    let ok_effects = match &resp.signed_effects {
        Some(se) => {
            se.effects.transaction_digest == expected_digest && se.signature.check(
                authority,
                c.epoch,
                se.effects.digest,
            )
        },
        None => true,
    };
    if ok_signed && ok_cert && ok_effects {
        Ok(resp)
    } else {
        Err(ValidatorError::ByzantineAuthoritySuspicion { authority })
    }
}

/// An object info response is internally consistent for the requested object:
/// references and contents name the requested object, the parent certificate
/// forms a quorum, and an object lock is a valid vote by this authority.
pub open spec fn object_info_ok(
    c: Committee,
    authority: AuthorityName,
    object_id: ObjectID,
    resp: ObjectInfoResponse,
) -> bool {
    &&& (resp.requested_object_reference matches Some(oref) ==> oref.object_id == object_id)
    &&& (resp.parent_certificate matches Some(ct) ==> ct.valid(c))
    &&& (resp.object_and_lock matches Some(ol) ==> ol.object.id == object_id && (ol.lock matches
        Some(st) ==> st.signature.valid_for(authority, c.epoch, st.transaction.digest_spec())))
}

/// Decides `object_info_ok`, reporting a Byzantine suspicion otherwise.
pub fn check_object_info(
    c: &Committee,
    authority: AuthorityName,
    object_id: ObjectID,
    resp: ObjectInfoResponse,
) -> (r: Result<ObjectInfoResponse, ValidatorError>)
    requires
        c.well_formed(),
    ensures
        r is Ok <==> object_info_ok(*c, authority, object_id, resp),
        r matches Ok(v) ==> v == resp,
        r is Err ==> r == Err::<ObjectInfoResponse, ValidatorError>(
            ValidatorError::ByzantineAuthoritySuspicion { authority },
        ),
{
    let ok_ref = match &resp.requested_object_reference {
        Some(oref) => oref.object_id == object_id,
        None => true,
    };
    let ok_cert = match &resp.parent_certificate {
        Some(ct) => crate::certs::check_quorum_signatures(
            c,
            ct.epoch,
            ct.transaction.digest(),
            &ct.signatures,
        ),
        None => true,
    };
    let ok_object = match &resp.object_and_lock {
        Some(ol) => {
            let lock_ok = match &ol.lock {
                Some(st) => st.signature.check(authority, c.epoch, st.transaction.digest()),
                None => true,
            };
            ol.object.id == object_id && lock_ok
        },
        None => true,
    };
    if ok_ref && ok_cert && ok_object {
        Ok(resp)
    } else {
        Err(ValidatorError::ByzantineAuthoritySuspicion { authority })
    }
}

/// A checkpoint response is internally consistent: a signed checkpoint carries
/// this authority's signature over its contents digest, a certified one forms
/// a quorum over it.
pub open spec fn checkpoint_response_ok(
    c: Committee,
    authority: AuthorityName,
    resp: CheckpointResponse,
) -> bool {
    match resp.info {
        crate::messages::AuthorityCheckpointInfo::AuthenticatedCheckpoint { ckpt } => match ckpt {
            Some(AuthenticatedCheckpoint::Signed(sc)) => sc.signature.valid_for(
                authority,
                c.epoch,
                sc.summary.content_digest,
            ),
            Some(AuthenticatedCheckpoint::Certified(cc)) => signatures_form_quorum(
                c,
                cc.epoch,
                cc.summary.content_digest,
                cc.signatures@,
            ),
            None => true,
        },
        crate::messages::AuthorityCheckpointInfo::CheckpointProposal { .. } => true,
    }
}

/// Decides `checkpoint_response_ok`, reporting a Byzantine suspicion otherwise.
pub fn check_checkpoint_response(
    c: &Committee,
    authority: AuthorityName,
    resp: CheckpointResponse,
) -> (r: Result<CheckpointResponse, ValidatorError>)
    requires
        c.well_formed(),
    ensures
        r is Ok <==> checkpoint_response_ok(*c, authority, resp),
        r matches Ok(v) ==> v == resp,
        r is Err ==> r == Err::<CheckpointResponse, ValidatorError>(
            ValidatorError::ByzantineAuthoritySuspicion { authority },
        ),
{
    let ok = match &resp.info {
        crate::messages::AuthorityCheckpointInfo::AuthenticatedCheckpoint { ckpt } => match ckpt {
            Some(AuthenticatedCheckpoint::Signed(sc)) => sc.signature.check(
                authority,
                c.epoch,
                sc.summary.content_digest,
            ),
            Some(AuthenticatedCheckpoint::Certified(cc)) => crate::certs::check_quorum_signatures(
                c,
                cc.epoch,
                cc.summary.content_digest,
                &cc.signatures,
            ),
            None => true,
        },
        crate::messages::AuthorityCheckpointInfo::CheckpointProposal { .. } => true,
    };
    if ok {
        Ok(resp)
    } else {
        Err(ValidatorError::ByzantineAuthoritySuspicion { authority })
    }
}

/// A thin, checking wrapper around one validator's raw client. It records the
/// client-visible errors reported against this validator, and never hides a
/// failure from the caller.
pub struct SafeClient<A> {
    /// The raw client.
    pub api: A,
    /// The committee every response is checked against.
    pub committee: Committee,
    /// The validator this client talks to.
    pub authority: AuthorityName,
    /// Client-visible errors reported against this validator, newest last.
    pub reported_errors: Vec<AggregateError>,
}

impl<A: AuthorityApi> SafeClient<A> {
    /// Wraps a raw client for `authority`, checking against `committee`.
    pub fn new(api: A, committee: Committee, authority: AuthorityName) -> (s: SafeClient<A>)
        ensures
            s.api == api,
            s.committee == committee,
            s.authority == authority,
            s.reported_errors@ == Seq::<AggregateError>::empty(),
    {
        SafeClient { api, committee, authority, reported_errors: Vec::new() }
    }

    /// The raw client beneath this facade.
    pub fn authority_client(&self) -> (a: &A)
        ensures
            a == &self.api,
    {
        &self.api
    }

    /// Everything but the raw client and the error log stays as it was.
    pub open spec fn frame(self, old_self: SafeClient<A>) -> bool {
        &&& self.committee == old_self.committee
        &&& self.authority == old_self.authority
        &&& self.reported_errors == old_self.reported_errors
    }

    /// Records an error observed against this validator, for later
    /// de-prioritization.
    pub fn report_client_error(&mut self, error: AggregateError)
        ensures
            final(self).reported_errors@ == old(self).reported_errors@.push(error),
            final(self).committee == old(self).committee,
            final(self).authority == old(self).authority,
            final(self).api == old(self).api,
    {
        self.reported_errors.push(error);
    }

    /// Submits a transaction and checks the response: whatever the validator
    /// answered, an `Ok` is internally consistent for this authority and the
    /// transaction's digest.
    pub fn handle_transaction(&mut self, transaction: &Transaction) -> (r: Result<
        TransactionInfoResponse,
        ValidatorError,
    >)
        requires
            old(self).committee.well_formed(),
        ensures
            final(self).frame(*old(self)),
            r matches Ok(resp) ==> transaction_info_ok(
                old(self).committee,
                old(self).authority,
                transaction.digest_spec(),
                resp,
            ),
    {
        let digest = transaction.digest();
        match self.api.handle_transaction(transaction) {
            Ok(resp) => check_transaction_info(&self.committee, self.authority, digest, resp),
            Err(e) => Err(e),
        }
    }

    /// Submits a certificate and checks the response against the certificate's
    /// transaction digest.
    pub fn handle_certificate(&mut self, certificate: &CertifiedTransaction) -> (r: Result<
        TransactionInfoResponse,
        ValidatorError,
    >)
        requires
            old(self).committee.well_formed(),
        ensures
            final(self).frame(*old(self)),
            r matches Ok(resp) ==> transaction_info_ok(
                old(self).committee,
                old(self).authority,
                certificate.transaction.digest_spec(),
                resp,
            ),
    {
        let digest = certificate.digest();
        match self.api.handle_certificate(certificate) {
            Ok(resp) => check_transaction_info(&self.committee, self.authority, digest, resp),
            Err(e) => Err(e),
        }
    }

    /// Asks about a transaction by digest and checks the response against it.
    pub fn handle_transaction_info_request(&mut self, digest: TransactionDigest) -> (r: Result<
        TransactionInfoResponse,
        ValidatorError,
    >)
        requires
            old(self).committee.well_formed(),
        ensures
            final(self).frame(*old(self)),
            r matches Ok(resp) ==> transaction_info_ok(
                old(self).committee,
                old(self).authority,
                digest,
                resp,
            ),
    {
        match self.api.handle_transaction_info_request(digest) {
            Ok(resp) => check_transaction_info(&self.committee, self.authority, digest, resp),
            Err(e) => Err(e),
        }
    }

    /// Asks for an object's latest state and checks the response against the id.
    pub fn handle_object_info_request(&mut self, object_id: ObjectID) -> (r: Result<
        ObjectInfoResponse,
        ValidatorError,
    >)
        requires
            old(self).committee.well_formed(),
        ensures
            final(self).frame(*old(self)),
            r matches Ok(resp) ==> object_info_ok(
                old(self).committee,
                old(self).authority,
                object_id,
                resp,
            ),
    {
        match self.api.handle_object_info_request(object_id) {
            Ok(resp) => check_object_info(&self.committee, self.authority, object_id, resp),
            Err(e) => Err(e),
        }
    }

    /// Asks for the objects owned by an address; account answers carry no
    /// signatures, so nothing further is checked.
    pub fn handle_account_info_request(&mut self, address: SuiAddress) -> (r: Result<
        AccountInfoResponse,
        ValidatorError,
    >)
        requires
            old(self).committee.well_formed(),
        ensures
            final(self).frame(*old(self)),
    {
        self.api.handle_account_info_request(address)
    }

    /// Asks for a transaction's certificate and signed effects by digests and
    /// checks the answer against the transaction digest.
    pub fn handle_transaction_and_effects_info_request(&mut self, digests: ExecutionDigests) -> (r:
        Result<TransactionInfoResponse, ValidatorError>)
        requires
            old(self).committee.well_formed(),
        ensures
            final(self).frame(*old(self)),
            r matches Ok(resp) ==> transaction_info_ok(
                old(self).committee,
                old(self).authority,
                digests.transaction,
                resp,
            ),
    {
        match self.api.handle_transaction_and_effects_info_request(digests) {
            Ok(resp) => check_transaction_info(
                &self.committee,
                self.authority,
                digests.transaction,
                resp,
            ),
            Err(e) => Err(e),
        }
    }

    /// Asks about a checkpoint and checks any signatures in the answer.
    pub fn handle_checkpoint(&mut self, request: &CheckpointRequest) -> (r: Result<
        CheckpointResponse,
        ValidatorError,
    >)
        requires
            old(self).committee.well_formed(),
        ensures
            final(self).frame(*old(self)),
            r matches Ok(resp) ==> checkpoint_response_ok(
                old(self).committee,
                old(self).authority,
                resp,
            ),
    {
        match self.api.handle_checkpoint(request) {
            Ok(resp) => check_checkpoint_response(&self.committee, self.authority, resp),
            Err(e) => Err(e),
        }
    }
}

} // verus!
