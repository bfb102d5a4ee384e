//! Messages exchanged with validators: transactions, votes, certificates,
//! effects, and the responses of the validator RPC surface.

use vstd::prelude::*;

use crate::base_types::{
    AuthorityName, CheckpointSequenceNumber, EpochId, ExecutionDigests, ObjectDigest, ObjectID,
    ObjectRef, SequenceNumber, TransactionDigest, TransactionEffectsDigest,
};

verus! {

/// A user transaction: an ordered pair of payload and user signature. Its
/// digest is a content hash of the payload, stable under cloning; the hash is
/// modelled as the payload itself.
#[derive(Clone, Copy, Debug, PartialEq, Eq, Structural)]
pub struct Transaction {
    pub data: u64,
    pub user_signature: u64,
}

impl Transaction {
    /// Content digest of the transaction.
    pub open spec fn digest_spec(self) -> TransactionDigest {
        self.data
    }

    /// Returns the content digest.
    pub fn digest(&self) -> (d: TransactionDigest)
        ensures
            d == self.digest_spec(),
    {
        self.data
    }
}

/// One validator's signature over a digest within an epoch. Validity is
/// structural: the signature is valid for a validator, epoch and digest
/// exactly when its fields name them.
#[derive(Clone, Copy, Debug, PartialEq, Eq, Structural)]
pub struct AuthoritySignature {
    pub signer: AuthorityName,
    pub epoch: EpochId,
    pub signed_digest: u64,
}

impl AuthoritySignature {
    /// The signature is by `name`, scoped to `epoch`, over `digest`.
    pub open spec fn valid_for(self, name: AuthorityName, epoch: EpochId, digest: u64) -> bool {
        self.signer == name && self.epoch == epoch && self.signed_digest == digest
    }

    /// Decides `valid_for`.
    pub fn check(&self, name: AuthorityName, epoch: EpochId, digest: u64) -> (r: bool)
        ensures
            r == self.valid_for(name, epoch, digest),
    {
        self.signer == name && self.epoch == epoch && self.signed_digest == digest
    }
}

/// A transaction together with a single validator's vote.
#[derive(Clone, Copy, Debug, PartialEq, Eq, Structural)]
pub struct SignedTransaction {
    pub transaction: Transaction,
    pub signature: AuthoritySignature,
}

impl SignedTransaction {
    /// Digest of the underlying transaction.
    pub fn digest(&self) -> (d: TransactionDigest)
        ensures
            d == self.transaction.digest_spec(),
    {
        self.transaction.digest()
    }
}

/// A transaction bearing a bag of validator signatures; well-formedness with
/// respect to a committee (distinct signers whose stakes sum to at least the
/// quorum threshold) is stated in `certs`.
#[derive(Clone, Debug, PartialEq, Eq)]
pub struct CertifiedTransaction {
    pub epoch: EpochId,
    pub transaction: Transaction,
    pub signatures: Vec<(AuthorityName, AuthoritySignature)>,
}

impl CertifiedTransaction {
    /// Digest of the underlying transaction.
    pub fn digest(&self) -> (d: TransactionDigest)
        ensures
            d == self.transaction.digest_spec(),
    {
        self.transaction.digest()
    }

    /// A field-for-field copy of the certificate.
    pub fn duplicate(&self) -> (c: CertifiedTransaction)
        ensures
            c.epoch == self.epoch,
            c.transaction == self.transaction,
            c.signatures@ == self.signatures@,
    {
        let mut signatures: Vec<(AuthorityName, AuthoritySignature)> = Vec::new();
        let mut i: usize = 0;
        while i < self.signatures.len()
            invariant
                i <= self.signatures@.len(),
                signatures@ == self.signatures@.take(i as int),
            decreases self.signatures@.len() - i,
        {
            signatures.push(self.signatures[i]);
            proof {
                assert(self.signatures@.take(i + 1) =~= self.signatures@.take(i as int).push(
                    self.signatures@[i as int],
                ));
            }
            i = i + 1;
        }
        proof {
            assert(self.signatures@.take(self.signatures@.len() as int) =~= self.signatures@);
        }
        CertifiedTransaction { epoch: self.epoch, transaction: self.transaction, signatures }
    }
}

/// The outcome of executing a certificate: object references touched and the
/// digests of the parent transactions this execution depends on. The content
/// digest is carried as a field, as the validators report it.
#[derive(Clone, Debug, PartialEq, Eq)]
pub struct TransactionEffects {
    pub transaction_digest: TransactionDigest,
    pub digest: TransactionEffectsDigest,
    pub created: Vec<ObjectRef>,
    pub mutated: Vec<ObjectRef>,
    pub deleted: Vec<ObjectRef>,
    pub dependencies: Vec<TransactionDigest>,
}

impl TransactionEffects {
    /// The object reference was created or mutated by this execution.
    pub open spec fn is_object_mutated_here_spec(self, obj_ref: ObjectRef) -> bool {
        self.created@.contains(obj_ref) || self.mutated@.contains(obj_ref)
    }

    /// Decides `is_object_mutated_here_spec`.
    pub fn is_object_mutated_here(&self, obj_ref: &ObjectRef) -> (r: bool)
        ensures
            r == self.is_object_mutated_here_spec(*obj_ref),
    {
        let mut i: usize = 0;
        while i < self.created.len()
            invariant
                i <= self.created.len(),
                forall|k: int| 0 <= k < i ==> self.created@[k] != *obj_ref,
            decreases self.created.len() - i,
        {
            if self.created[i] == *obj_ref {
                return true;
            }
            i = i + 1;
        }
        let mut j: usize = 0;
        while j < self.mutated.len()
            invariant
                j <= self.mutated.len(),
                forall|k: int| 0 <= k < j ==> self.mutated@[k] != *obj_ref,
                forall|k: int| 0 <= k < self.created@.len() ==> self.created@[k] != *obj_ref,
            decreases self.mutated.len() - j,
        {
            if self.mutated[j] == *obj_ref {
                return true;
            }
            j = j + 1;
        }
        false
    }
}

/// Effects with a single validator's signature over their digest.
#[derive(Clone, Debug, PartialEq, Eq)]
pub struct SignedTransactionEffects {
    pub effects: TransactionEffects,
    pub signature: AuthoritySignature,
}

impl SignedTransactionEffects {
    /// Digest of the effects.
    pub fn digest(&self) -> (d: TransactionEffectsDigest)
        ensures
            d == self.effects.digest,
    {
        self.effects.digest
    }
}

/// Effects bearing a quorum of validator signatures.
#[derive(Clone, Debug, PartialEq, Eq)]
pub struct CertifiedTransactionEffects {
    pub epoch: EpochId,
    pub effects: TransactionEffects,
    pub signatures: Vec<(AuthorityName, AuthoritySignature)>,
}

/// What one validator answers about a transaction: an optional vote, an
/// optional previously formed certificate, and optional signed effects.
#[derive(Clone, Debug, PartialEq, Eq)]
pub struct TransactionInfoResponse {
    pub signed_transaction: Option<SignedTransaction>,
    pub certified_transaction: Option<CertifiedTransaction>,
    pub signed_effects: Option<SignedTransactionEffects>,
}

/// An object as a validator reports it.
#[derive(Clone, Copy, Debug, PartialEq, Eq, Structural)]
pub struct Object {
    pub id: ObjectID,
    pub version: SequenceNumber,
    pub digest: ObjectDigest,
    pub shared: bool,
}

impl Object {
    /// The object reference pinning this object at its version.
    pub open spec fn object_ref_spec(self) -> ObjectRef {
        ObjectRef { object_id: self.id, version: self.version, digest: self.digest }
    }

    /// Whether the object is shared; shared objects are never pinned by digest.
    pub fn is_shared(&self) -> (r: bool)
        ensures
            r == self.shared,
    {
        self.shared
    }
}

/// The object, its optional lock, as one validator reports them.
#[derive(Clone, Debug, PartialEq, Eq)]
pub struct ObjectResponse {
    pub object: Object,
    pub lock: Option<SignedTransaction>,
}

/// Answer to an object info request.
#[derive(Clone, Debug, PartialEq, Eq)]
pub struct ObjectInfoResponse {
    pub parent_certificate: Option<CertifiedTransaction>,
    pub requested_object_reference: Option<ObjectRef>,
    pub object_and_lock: Option<ObjectResponse>,
}

/// Answer to an account info request: the object refs owned by the address.
#[derive(Clone, Debug, PartialEq, Eq)]
pub struct AccountInfoResponse {
    pub object_ids: Vec<ObjectRef>,
}

/// The final outcome of an object query across the committee.
#[derive(Clone, Debug, PartialEq, Eq)]
pub enum ObjectRead {
    Exists { obj_ref: ObjectRef, object: Object },
    Deleted { obj_ref: ObjectRef },
    NotExists { object_id: ObjectID },
}

/// Summary of a checkpoint at a sequence number.
#[derive(Clone, Copy, Debug, PartialEq, Eq, Structural)]
pub struct CheckpointSummary {
    pub sequence_number: CheckpointSequenceNumber,
    pub content_digest: u64,
}

/// A checkpoint summary with a quorum of signatures.
#[derive(Clone, Debug, PartialEq, Eq)]
pub struct CertifiedCheckpointSummary {
    pub epoch: EpochId,
    pub summary: CheckpointSummary,
    pub signatures: Vec<(AuthorityName, AuthoritySignature)>,
}

/// A checkpoint summary signed by a single validator.
#[derive(Clone, Debug, PartialEq, Eq)]
pub struct SignedCheckpointSummary {
    pub summary: CheckpointSummary,
    pub signature: AuthoritySignature,
}

/// A checkpoint as a validator authenticates it: its own signature, or a
/// formed certificate.
#[derive(Clone, Debug, PartialEq, Eq)]
pub enum AuthenticatedCheckpoint {
    Signed(SignedCheckpointSummary),
    Certified(CertifiedCheckpointSummary),
}

/// What part of the checkpoint state a validator reports.
#[derive(Clone, Debug, PartialEq, Eq)]
pub enum AuthorityCheckpointInfo {
    AuthenticatedCheckpoint { ckpt: Option<AuthenticatedCheckpoint> },
    CheckpointProposal { sequence_number: CheckpointSequenceNumber },
}

/// The transactions contained in a checkpoint, by execution digests.
#[derive(Clone, Debug, PartialEq, Eq)]
pub struct CheckpointContents {
    pub transactions: Vec<ExecutionDigests>,
}

/// A checkpoint request: a sequence number (or the latest when absent) and
/// whether the contents should be attached.
#[derive(Clone, Copy, Debug, PartialEq, Eq)]
pub struct CheckpointRequest {
    pub sequence_number: Option<CheckpointSequenceNumber>,
    pub request_contents: bool,
}

impl CheckpointRequest {
    /// Request the authenticated checkpoint at `seq`, optionally with contents.
    pub fn authenticated(seq: Option<CheckpointSequenceNumber>, request_contents: bool) -> (r:
        CheckpointRequest)
        ensures
            r.sequence_number == seq,
            r.request_contents == request_contents,
    {
        CheckpointRequest { sequence_number: seq, request_contents }
    }
}

/// Answer to a checkpoint request.
#[derive(Clone, Debug, PartialEq, Eq)]
pub struct CheckpointResponse {
    pub info: AuthorityCheckpointInfo,
    pub detail: Option<CheckpointContents>,
}

} // verus!
