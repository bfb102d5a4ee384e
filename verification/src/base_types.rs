//! Base identifiers and object references.
//!
//! Every identifier the protocol reasons about — validator names, digests,
//! object ids, versions — is carried as a plain integer, so that the protocol
//! logic over them can be verified end to end.

use vstd::prelude::*;

verus! {

/// Stake held by a single validator, a non-negative integer weight.
pub type StakeUnit = u64;

/// Identity of a validator, derived from its public key; opaque to the
/// protocol beyond equality and committee lookup.
pub type AuthorityName = u64;

/// Epoch in which a committee is valid; all signatures are scoped to one epoch.
pub type EpochId = u64;

/// Content digest of a transaction.
pub type TransactionDigest = u64;

/// Content digest of a transaction's effects.
pub type TransactionEffectsDigest = u64;

/// Identifier of an object on the ledger.
pub type ObjectID = u64;

/// Version (sequence number) of an object.
pub type SequenceNumber = u64;

/// Content digest of an object at a version.
pub type ObjectDigest = u64;

/// Address owning objects on the ledger.
pub type SuiAddress = u64;

/// Sequence number of a checkpoint.
pub type CheckpointSequenceNumber = u64;

/// A reference pinning an object at a given version: an object at a given
/// version is uniquely identified by its ref.
#[derive(Clone, Copy, Debug, PartialEq, Eq, Structural)]
pub struct ObjectRef {
    pub object_id: ObjectID,
    pub version: SequenceNumber,
    pub digest: ObjectDigest,
}

/// The pair of digests that pins one execution: the transaction and its effects.
#[derive(Clone, Copy, Debug, PartialEq, Eq, Structural)]
pub struct ExecutionDigests {
    pub transaction: TransactionDigest,
    pub effects: TransactionEffectsDigest,
}

impl ObjectRef {
    /// Strict lexicographic order on (object id, version, digest); `get_object_by_id`
    /// keys its aggregation map this way so that the highest version comes last.
    pub open spec fn lt_spec(self, other: ObjectRef) -> bool {
        ||| self.object_id < other.object_id
        ||| (self.object_id == other.object_id && self.version < other.version)
        ||| (self.object_id == other.object_id && self.version == other.version
            && self.digest < other.digest)
    }

    /// Decides the lexicographic order `lt_spec`.
    pub fn lt(&self, other: &ObjectRef) -> (r: bool)
        ensures
            r == self.lt_spec(*other),
    {
        if self.object_id != other.object_id {
            self.object_id < other.object_id
        } else if self.version != other.version {
            self.version < other.version
        } else {
            self.digest < other.digest
        }
    }
}

/// The order `lt_spec` is total: two distinct refs are ordered one way or the other.
pub proof fn lemma_object_ref_order_total(a: ObjectRef, b: ObjectRef)
    ensures
        a.lt_spec(b) || b.lt_spec(a) || a == b,
        !(a.lt_spec(b) && b.lt_spec(a)),
{
}

} // verus!
