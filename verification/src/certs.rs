//! Certificates: transactions or effects carrying a quorum of signatures.
//!
//! Formation is atomic: a certificate is built in one step that also verifies
//! the aggregate — distinct signers known to the committee, each signature
//! valid for the epoch and digest, stakes summing to at least the quorum
//! threshold. Two quorums of one committee always share a signer.

use vstd::prelude::*;

use crate::base_types::{AuthorityName, EpochId, StakeUnit};
use crate::committee::{
    lemma_stake_in_absent, lemma_thresholds, stake_in, stakes_sum, vec_contains, Committee,
};
use crate::error::AggregateError;
use crate::messages::{
    AuthoritySignature, CertifiedTransaction, CertifiedTransactionEffects, Transaction,
    TransactionEffects,
};

verus! {

/// The names in a signature bag, in order.
pub open spec fn sig_names(sigs: Seq<(AuthorityName, AuthoritySignature)>) -> Seq<AuthorityName> {
    sigs.map_values(|p: (AuthorityName, AuthoritySignature)| p.0)
}

/// Total stake a committee's rows assign to a list of names (a duplicated name
/// would count twice; quorum checks therefore insist on distinct names).
pub open spec fn names_stake_in(
    rows: Seq<(AuthorityName, StakeUnit)>,
    names: Seq<AuthorityName>,
) -> int
    decreases names.len(),
{
    if names.len() == 0 {
        0
    } else {
        names_stake_in(rows, names.drop_last()) + stake_in(rows, names.last())
    }
}

/// Total stake a committee assigns to a list of names.
pub open spec fn names_stake(c: Committee, names: Seq<AuthorityName>) -> int {
    names_stake_in(c.voting_rights@, names)
}

/// A bag of signatures forms a quorum for `digest` in `epoch` under `c`:
/// right epoch, distinct signers, every signer known and every signature valid
/// for the digest, stakes summing to at least the quorum threshold.
pub open spec fn signatures_form_quorum(
    c: Committee,
    epoch: EpochId,
    digest: u64,
    sigs: Seq<(AuthorityName, AuthoritySignature)>,
) -> bool {
    &&& epoch == c.epoch
    &&& sig_names(sigs).no_duplicates()
    &&& forall|i: int|
        0 <= i < sigs.len() ==> c.contains_name(#[trigger] sigs[i].0) && sigs[i].1.valid_for(
            sigs[i].0,
            epoch,
            digest,
        )
    &&& names_stake(c, sig_names(sigs)) >= c.quorum_threshold_spec()
}

impl CertifiedTransaction {
    /// The certificate is well-formed with respect to `c`.
    pub open spec fn valid(self, c: Committee) -> bool {
        signatures_form_quorum(c, self.epoch, self.transaction.digest_spec(), self.signatures@)
    }
}

impl CertifiedTransactionEffects {
    /// The certified effects are well-formed with respect to `c`.
    pub open spec fn valid(self, c: Committee) -> bool {
        signatures_form_quorum(c, self.epoch, self.effects.digest, self.signatures@)
    }
}

// ---------------------------------------------------------------------------
// Stake covered by a set of names, and the quorum intersection argument.
// ---------------------------------------------------------------------------
/// Stake of the committee rows whose name lies in `names`.
pub open spec fn covered_stake(
    rows: Seq<(AuthorityName, StakeUnit)>,
    names: Set<AuthorityName>,
) -> int
    decreases rows.len(),
{
    if rows.len() == 0 {
        0
    } else {
        covered_stake(rows.drop_last(), names) + if names.contains(rows.last().0) {
            rows.last().1 as int
        } else {
            0
        }
    }
}

/// No stake is covered by the empty set of names.
proof fn lemma_covered_empty(rows: Seq<(AuthorityName, StakeUnit)>)
    ensures
        covered_stake(rows, Set::empty()) == 0,
    decreases rows.len(),
{
    if rows.len() > 0 {
        lemma_covered_empty(rows.drop_last());
    }
}

/// Adding a fresh name to the set adds exactly that name's stake.
proof fn lemma_covered_insert(
    rows: Seq<(AuthorityName, StakeUnit)>,
    names: Set<AuthorityName>,
    x: AuthorityName,
)
    requires
        !names.contains(x),
    ensures
        covered_stake(rows, names.insert(x)) == covered_stake(rows, names) + stake_in(rows, x),
    decreases rows.len(),
{
    if rows.len() > 0 {
        lemma_covered_insert(rows.drop_last(), names, x);
    }
}

/// Covered stake never exceeds the whole sum.
proof fn lemma_covered_bound(rows: Seq<(AuthorityName, StakeUnit)>, names: Set<AuthorityName>)
    ensures
        0 <= covered_stake(rows, names) <= stakes_sum(rows),
    decreases rows.len(),
{
    if rows.len() > 0 {
        lemma_covered_bound(rows.drop_last(), names);
    }
}

/// Covered stake is additive over disjoint name sets.
proof fn lemma_covered_union_disjoint(
    rows: Seq<(AuthorityName, StakeUnit)>,
    a: Set<AuthorityName>,
    b: Set<AuthorityName>,
)
    requires
        forall|x: AuthorityName| !(a.contains(x) && b.contains(x)),
    ensures
        covered_stake(rows, a.union(b)) == covered_stake(rows, a) + covered_stake(rows, b),
    decreases rows.len(),
{
    if rows.len() > 0 {
        lemma_covered_union_disjoint(rows.drop_last(), a, b);
    }
}

/// The set of a non-empty sequence is the set of its prefix plus its last element.
proof fn lemma_to_set_drop_last(s: Seq<AuthorityName>)
    requires
        s.len() > 0,
    ensures
        s.to_set() =~= s.drop_last().to_set().insert(s.last()),
{
    assert forall|x: AuthorityName| s.to_set().contains(x) implies s.drop_last().to_set().insert(
        s.last(),
    ).contains(x) by {
        let i = choose|i: int| 0 <= i < s.len() && s[i] == x;
        if i < s.len() - 1 {
            assert(s.drop_last()[i] == x);
            assert(s.drop_last().contains(x));
        }
    }
    assert forall|x: AuthorityName| s.drop_last().to_set().insert(s.last()).contains(x) implies
        s.to_set().contains(x) by {
        if s.drop_last().to_set().contains(x) {
            let i = choose|i: int| 0 <= i < s.drop_last().len() && s.drop_last()[i] == x;
            assert(s[i] == x);
        } else {
            assert(s[s.len() - 1] == x);
        }
    }
}

/// For distinct names, the summed stake equals the stake covered by their set.
proof fn lemma_names_stake_covered(
    rows: Seq<(AuthorityName, StakeUnit)>,
    names: Seq<AuthorityName>,
)
    requires
        names.no_duplicates(),
    ensures
        names_stake_in(rows, names) == covered_stake(rows, names.to_set()),
    decreases names.len(),
{
    if names.len() == 0 {
        assert(names.to_set() =~= Set::<AuthorityName>::empty()) by {
            assert(forall|x: AuthorityName| !names.contains(x));
        };
        lemma_covered_empty(rows);
    } else {
        let d = names.drop_last();
        assert(d.no_duplicates());
        lemma_names_stake_covered(rows, d);
        lemma_to_set_drop_last(names);
        assert(!d.contains(names.last()));
        assert(!d.to_set().contains(names.last()));
        lemma_covered_insert(rows, d.to_set(), names.last());
    }
}

/// Distinct names never hold more than the committee's total stake.
pub proof fn lemma_distinct_stake_bound(c: Committee, names: Seq<AuthorityName>)
    requires
        c.well_formed(),
        names.no_duplicates(),
    ensures
        names_stake(c, names) <= c.total_votes,
        names_stake(c, names) >= 0,
{
    lemma_names_stake_covered(c.voting_rights@, names);
    lemma_covered_bound(c.voting_rights@, names.to_set());
}

/// Quorum intersection: two lists of distinct signers whose stakes each reach
/// the quorum threshold share at least one signer, because 2Q > S.
pub proof fn lemma_quorum_intersection(
    c: Committee,
    n1: Seq<AuthorityName>,
    n2: Seq<AuthorityName>,
) -> (x: AuthorityName)
    requires
        c.well_formed(),
        n1.no_duplicates(),
        n2.no_duplicates(),
        names_stake(c, n1) >= c.quorum_threshold_spec(),
        names_stake(c, n2) >= c.quorum_threshold_spec(),
    ensures
        n1.contains(x) && n2.contains(x),
{
    let rows = c.voting_rights@;
    if !(exists|y: AuthorityName| n1.contains(y) && n2.contains(y)) {
        assert(forall|y: AuthorityName| !(n1.to_set().contains(y) && n2.to_set().contains(y)));
        lemma_names_stake_covered(rows, n1);
        lemma_names_stake_covered(rows, n2);
        lemma_covered_union_disjoint(rows, n1.to_set(), n2.to_set());
        lemma_covered_bound(rows, n1.to_set().union(n2.to_set()));
        lemma_thresholds(c);
        assert(false);
    }
    choose|y: AuthorityName| n1.contains(y) && n2.contains(y)
}

// ---------------------------------------------------------------------------
// Executable quorum checking and atomic certificate formation.
// ---------------------------------------------------------------------------
/// Appending a name to a prefix of signatures extends the summed stake by that
/// name's stake.
proof fn lemma_names_stake_take_step(
    rows: Seq<(AuthorityName, StakeUnit)>,
    sigs: Seq<(AuthorityName, AuthoritySignature)>,
    i: int,
)
    requires
        0 <= i < sigs.len(),
    ensures
        names_stake_in(rows, sig_names(sigs.take(i + 1))) == names_stake_in(
            rows,
            sig_names(sigs.take(i)),
        ) + stake_in(rows, sigs[i].0),
        sig_names(sigs.take(i + 1)) == sig_names(sigs.take(i)).push(sigs[i].0),
{
    assert(sig_names(sigs.take(i + 1)) =~= sig_names(sigs.take(i)).push(sigs[i].0));
    assert(sig_names(sigs.take(i + 1)).drop_last() =~= sig_names(sigs.take(i)));
    assert(sig_names(sigs.take(i + 1)).last() == sigs[i].0);
}

/// Decides `signatures_form_quorum`.
pub fn check_quorum_signatures(
    c: &Committee,
    epoch: EpochId,
    digest: u64,
    sigs: &Vec<(AuthorityName, AuthoritySignature)>,
) -> (r: bool)
    requires
        c.well_formed(),
    ensures
        r == signatures_form_quorum(*c, epoch, digest, sigs@),
{
    if epoch != c.epoch {
        return false;
    }
    let n_sigs = sigs.len();
    let mut seen: Vec<AuthorityName> = Vec::new();
    let mut acc: u64 = 0;
    let mut i: usize = 0;
    while i < n_sigs
        invariant
            i <= sigs@.len(),
            n_sigs == sigs@.len(),
            c.well_formed(),
            seen@ == sig_names(sigs@.take(i as int)),
            seen@.no_duplicates(),
            acc == names_stake(*c, sig_names(sigs@.take(i as int))),
            forall|k: int|
                0 <= k < i ==> c.contains_name(#[trigger] sigs@[k].0) && sigs@[k].1.valid_for(
                    sigs@[k].0,
                    epoch,
                    digest,
                ),
        decreases sigs@.len() - i,
    {
        let (name, sig) = sigs[i];
        if vec_contains(&seen, &name) {
            proof {
                let t = choose|t: int| 0 <= t < seen@.len() && seen@[t] == name;
                assert(sig_names(sigs@)[t] == sigs@[t].0);
                assert(sigs@.take(i as int)[t] == sigs@[t]);
                assert(sig_names(sigs@)[t] == name && sig_names(sigs@)[i as int] == name);
                assert(!sig_names(sigs@).no_duplicates());
            }
            return false;
        }
        if !sig.check(name, epoch, digest) {
            return false;
        }
        let w = c.weight(&name);
        if w == 0 {
            proof {
                if c.contains_name(name) {
                    let j = choose|j: int|
                        0 <= j < c.voting_rights@.len() && c.voting_rights@[j].0 == name;
                    crate::committee::lemma_stake_in_unique(c.voting_rights@, j);
                }
            }
            return false;
        }
        proof {
            lemma_names_stake_take_step(c.voting_rights@, sigs@, i as int);
            if !c.contains_name(name) {
                lemma_stake_in_absent(c.voting_rights@, name);
            }
            lemma_distinct_stake_bound(*c, sig_names(sigs@.take(i as int + 1)));
        }
        acc = acc + w;
        seen.push(name);
        i = i + 1;
    }
    proof {
        assert(sigs@.take(sigs@.len() as int) =~= sigs@);
    }
    let q = c.quorum_threshold();
    acc >= q
}

impl CertifiedTransaction {
    /// Atomic certificate formation: verifies the aggregate against the
    /// committee and builds the certificate in one step; a bag of signatures
    /// that does not form a quorum is rejected whole.
    pub fn new_with_signatures(
        epoch: EpochId,
        transaction: Transaction,
        signatures: Vec<(AuthorityName, AuthoritySignature)>,
        committee: &Committee,
    ) -> (r: Result<CertifiedTransaction, AggregateError>)
        requires
            committee.well_formed(),
        ensures
            r is Ok <==> signatures_form_quorum(
                *committee,
                epoch,
                transaction.digest_spec(),
                signatures@,
            ),
            r matches Ok(cert) ==> cert.valid(*committee) && cert.epoch == epoch
                && cert.transaction == transaction && cert.signatures@ == signatures@,
            r is Err ==> r == Err::<CertifiedTransaction, AggregateError>(
                AggregateError::InvalidCertificate,
            ),
    {
        let digest = transaction.digest();
        if check_quorum_signatures(committee, epoch, digest, &signatures) {
            Ok(CertifiedTransaction { epoch, transaction, signatures })
        } else {
            Err(AggregateError::InvalidCertificate)
        }
    }
}

impl CertifiedTransactionEffects {
    /// Atomic formation of certified effects, mirroring transaction
    /// certificates: the signature bag must form a quorum over the effects
    /// digest.
    pub fn new(
        epoch: EpochId,
        effects: TransactionEffects,
        signatures: Vec<(AuthorityName, AuthoritySignature)>,
        committee: &Committee,
    ) -> (r: Result<CertifiedTransactionEffects, AggregateError>)
        requires
            committee.well_formed(),
        ensures
            r is Ok <==> signatures_form_quorum(*committee, epoch, effects.digest, signatures@),
            r matches Ok(ce) ==> ce.valid(*committee) && ce.epoch == epoch && ce.effects == effects
                && ce.signatures@ == signatures@,
            r is Err ==> r == Err::<CertifiedTransactionEffects, AggregateError>(
                AggregateError::InvalidCertificate,
            ),
    {
        let digest = effects.digest;
        if check_quorum_signatures(committee, epoch, digest, &signatures) {
            Ok(CertifiedTransactionEffects { epoch, effects, signatures })
        } else {
            Err(AggregateError::InvalidCertificate)
        }
    }
}

impl Committee {
    /// Decides committee membership of a single name.
    pub fn has_authority(&self, name: &AuthorityName) -> (r: bool)
        ensures
            r == self.contains_name(*name),
    {
        let rows = &self.voting_rights;
        let mut i: usize = 0;
        while i < rows.len()
            invariant
                i <= rows@.len(),
                rows@ == self.voting_rights@,
                forall|k: int| 0 <= k < i ==> rows@[k].0 != *name,
            decreases rows@.len() - i,
        {
            if rows[i].0 == *name {
                proof {
                    assert(self.voting_rights@[i as int].0 == *name);
                }
                return true;
            }
            i = i + 1;
        }
        false
    }

    /// Inverts a signature bag to its signer set, in order of first occurrence,
    /// failing on the first signer unknown to the committee.
    pub fn authorities_from_signatures(
        &self,
        sigs: &Vec<(AuthorityName, AuthoritySignature)>,
    ) -> (r: Result<Vec<AuthorityName>, AggregateError>)
        ensures
            r matches Ok(out) ==> {
                &&& out@.no_duplicates()
                &&& forall|n: AuthorityName| #[trigger] out@.contains(n) <==> sig_names(
                    sigs@,
                ).contains(n)
                &&& forall|k: int| 0 <= k < out@.len() ==> self.contains_name(#[trigger] out@[k])
            },
            r is Err <==> exists|i: int|
                0 <= i < sigs@.len() && !self.contains_name(#[trigger] sigs@[i].0),
            r matches Err(e) ==> e matches AggregateError::UnknownSigner { .. },
    {
        let mut out: Vec<AuthorityName> = Vec::new();
        let mut i: usize = 0;
        while i < sigs.len()
            invariant
                i <= sigs@.len(),
                out@.no_duplicates(),
                forall|n: AuthorityName| #[trigger] out@.contains(n) <==> sig_names(
                    sigs@.take(i as int),
                ).contains(n),
                forall|k: int| 0 <= k < out@.len() ==> self.contains_name(#[trigger] out@[k]),
                forall|k: int| 0 <= k < i ==> self.contains_name(#[trigger] sigs@[k].0),
            decreases sigs@.len() - i,
        {
            let (name, _sig) = sigs[i];
            if !self.has_authority(&name) {
                return Err(AggregateError::UnknownSigner { authority: name });
            }
            proof {
                assert(sig_names(sigs@.take(i + 1)) =~= sig_names(sigs@.take(i as int)).push(
                    sigs@[i as int].0,
                ));
            }
            let ghost old_out = out@;
            if !vec_contains(&out, &name) {
                out.push(name);
                proof {
                    assert(out@[old_out.len() as int] == name);
                    assert forall|a: int, b: int|
                        0 <= a < out@.len() && 0 <= b < out@.len() && a != b implies out@[a]
                        != out@[b] by {
                        if a < old_out.len() && b < old_out.len() {
                        } else if a < old_out.len() {
                            assert(old_out.contains(old_out[a]));
                        } else if b < old_out.len() {
                            assert(old_out.contains(old_out[b]));
                        }
                    }
                    assert forall|n: AuthorityName| #[trigger] out@.contains(n) implies (
                    old_out.contains(n) || n == name) by {
                        let t = choose|t: int| 0 <= t < out@.len() && out@[t] == n;
                        if t < old_out.len() {
                            assert(old_out[t] == n);
                        }
                    }
                    assert forall|n: AuthorityName| old_out.contains(n) implies
                        #[trigger] out@.contains(n) by {
                        let t = choose|t: int| 0 <= t < old_out.len() && old_out[t] == n;
                        assert(out@[t] == n);
                    }
                }
            }
            proof {
                assert forall|n: AuthorityName| #[trigger] out@.contains(n) implies sig_names(
                    sigs@.take(i + 1),
                ).contains(n) by {
                    if old_out.contains(n) {
                        assert(sig_names(sigs@.take(i as int)).contains(n));
                        let t = choose|t: int|
                            #![trigger sig_names(sigs@.take(i as int))[t]]
                            0 <= t < sig_names(sigs@.take(i as int)).len() && sig_names(
                                sigs@.take(i as int),
                            )[t] == n;
                        assert(sig_names(sigs@.take(i + 1))[t] == n);
                    } else {
                        assert(sig_names(sigs@.take(i + 1)).last() == name);
                    }
                }
                assert forall|n: AuthorityName| sig_names(sigs@.take(i + 1)).contains(n) implies
                    #[trigger] out@.contains(n) by {
                    let t = choose|t: int|
                        #![trigger sig_names(sigs@.take(i + 1))[t]]
                        0 <= t < sig_names(sigs@.take(i + 1)).len() && sig_names(
                            sigs@.take(i + 1),
                        )[t] == n;
                    if t < i {
                        assert(sig_names(sigs@.take(i as int))[t] == n);
                        assert(sig_names(sigs@.take(i as int)).contains(n));
                    }
                }
            }
            i = i + 1;
        }
        proof {
            assert(sigs@.take(sigs@.len() as int) =~= sigs@);
        }
        Ok(out)
    }
}

} // verus!
