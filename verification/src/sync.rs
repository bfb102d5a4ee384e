//! Bringing a lagging validator forward: a depth-first walk of a
//! certificate's causal dependencies, read from a source validator and applied
//! at a destination in stack order, so that a dependency fetched for a
//! certificate is submitted before the certificate itself is retried.
//!
//! Both source and destination may be Byzantine; the walk is protected by a
//! second-chance cap per certificate, by an explicit work budget standing for
//! the caller's time limit, and by the source client's signature checks.

use vstd::prelude::*;

use crate::base_types::{AuthorityName, TransactionDigest};
use crate::committee::Committee;
use crate::error::{AggregateError, ValidatorError};
use crate::messages::{CertifiedTransaction, TransactionInfoResponse};
use crate::safe_client::{AuthorityApi, SafeClient};

verus! {

/// A one-method capability standing for the destination validator: submit a
/// certificate and learn whether it was accepted. Implementations may be
/// remote clients or in-memory validators; nothing is promised of the answer.
pub trait CertificateHandler {
    /// Submit a certificate to the destination.
    fn handle(&mut self, certificate: &CertifiedTransaction) -> Result<
        TransactionInfoResponse,
        ValidatorError,
    >;

    /// The destination's name, for failure reports.
    fn destination_name(&self) -> AuthorityName;
}

/// Syncs certificates to a (possibly remote) destination authority through its
/// safe client.
pub struct RemoteCertificateHandler<A> {
    pub destination_authority: AuthorityName,
    pub destination_client: SafeClient<A>,
}

impl<A: AuthorityApi> CertificateHandler for RemoteCertificateHandler<A> {
    fn handle(&mut self, certificate: &CertifiedTransaction) -> Result<
        TransactionInfoResponse,
        ValidatorError,
    > {
        if !self.destination_client.committee.well_formed_check() {
            return Err(ValidatorError::UnexpectedResponse);
        }
        self.destination_client.handle_certificate(certificate)
    }

    fn destination_name(&self) -> AuthorityName {
        self.destination_authority
    }
}

/// What a sync run did: the digests applied at the destination, in order of
/// acceptance, and for each certificate whose dependencies had to be fetched,
/// the dependency digests the source reported.
pub struct SyncReport {
    pub applied: Vec<TransactionDigest>,
    pub fetched_deps: Vec<(TransactionDigest, Vec<TransactionDigest>)>,
}

/// Some certificate in the stack carries this digest.
pub open spec fn stack_has(missing: Seq<CertifiedTransaction>, d: TransactionDigest) -> bool {
    exists|i: int| 0 <= i < missing.len() && missing[i].transaction.digest_spec() == d
}

/// Index of the first occurrence of `d`, or the length when absent.
pub open spec fn first_index_of(s: Seq<TransactionDigest>, d: TransactionDigest) -> int
    decreases s.len(),
{
    if s.len() == 0 {
        0
    } else if s[0] == d {
        0
    } else {
        1 + first_index_of(s.skip(1), d)
    }
}

/// `first_index_of` finds the first occurrence, or reports absence.
pub proof fn lemma_first_index_of(s: Seq<TransactionDigest>, d: TransactionDigest)
    ensures
        0 <= first_index_of(s, d) <= s.len(),
        first_index_of(s, d) < s.len() ==> s[first_index_of(s, d)] == d,
        forall|k: int| 0 <= k < first_index_of(s, d) ==> s[k] != d,
        s.contains(d) ==> first_index_of(s, d) < s.len(),
    decreases s.len(),
{
    if s.len() > 0 && s[0] != d {
        lemma_first_index_of(s.skip(1), d);
        assert forall|k: int| 0 <= k < first_index_of(s, d) implies s[k] != d by {
            if k > 0 {
                assert(s.skip(1)[k - 1] == s[k]);
            }
        }
        if s.contains(d) {
            let i = choose|i: int| 0 <= i < s.len() && s[i] == d;
            assert(s.skip(1)[i - 1] == d);
        }
    }
}

/// Copies a digest list.
fn copy_digests(v: &Vec<TransactionDigest>) -> (out: Vec<TransactionDigest>)
    ensures
        out@ == v@,
{
    let mut out: Vec<TransactionDigest> = Vec::new();
    let mut i: usize = 0;
    while i < v.len()
        invariant
            i <= v@.len(),
            out@ == v@.take(i as int),
        decreases v@.len() - i,
    {
        out.push(v[i]);
        proof {
            assert(v@.take(i + 1) =~= v@.take(i as int).push(v@[i as int]));
        }
        i = i + 1;
    }
    proof {
        assert(v@.take(v@.len() as int) =~= v@);
    }
    out
}

/// The sync closure invariant: every certificate that had its dependencies
/// fetched, and every dependency fetched for it, is either already applied or
/// still waiting in the stack.
pub open spec fn sync_closure_ok(
    fetched: Seq<(TransactionDigest, Vec<TransactionDigest>)>,
    applied: Seq<TransactionDigest>,
    missing: Seq<CertifiedTransaction>,
) -> bool {
    &&& forall|j: int|
        0 <= j < fetched.len() ==> (applied.contains(#[trigger] fetched[j].0) || stack_has(
            missing,
            fetched[j].0,
        ))
    &&& forall|j: int, k: int|
        0 <= j < fetched.len() && 0 <= k < fetched[j].1@.len() ==> (applied.contains(
            #[trigger] fetched[j].1@[k],
        ) || stack_has(missing, fetched[j].1@[k]))
}

/// Some fetched dependency list names this digest.
pub open spec fn deps_name_digest(
    fetched: Seq<(TransactionDigest, Vec<TransactionDigest>)>,
    d: TransactionDigest,
) -> bool {
    exists|j: int, k: int|
        0 <= j < fetched.len() && 0 <= k < fetched[j].1@.len() && (#[trigger] fetched[j].1@[k])
            == d
}

/// Naming a digest survives recording more dependency lists.
proof fn lemma_deps_name_monotone(
    fetched: Seq<(TransactionDigest, Vec<TransactionDigest>)>,
    entry: (TransactionDigest, Vec<TransactionDigest>),
    d: TransactionDigest,
)
    ensures
        deps_name_digest(fetched, d) ==> deps_name_digest(fetched.push(entry), d),
{
    if deps_name_digest(fetched, d) {
        let (j, k) = choose|j: int, k: int|
            0 <= j < fetched.len() && 0 <= k < fetched[j].1@.len() && (#[trigger] fetched[j].1@[
            k]) == d;
        assert(fetched.push(entry)[j] == fetched[j]);
        assert(fetched.push(entry)[j].1@[k] == d);
    }
}

/// The closure invariant survives growing the applied list and reshaping the
/// stack, as long as no digest is dropped from both.
proof fn lemma_closure_preserved(
    fetched: Seq<(TransactionDigest, Vec<TransactionDigest>)>,
    applied_old: Seq<TransactionDigest>,
    applied_new: Seq<TransactionDigest>,
    pre: Seq<CertifiedTransaction>,
    post: Seq<CertifiedTransaction>,
)
    requires
        sync_closure_ok(fetched, applied_old, pre),
        forall|z: TransactionDigest| applied_old.contains(z) ==> applied_new.contains(z),
        forall|z: TransactionDigest|
            stack_has(pre, z) ==> applied_new.contains(z) || stack_has(post, z),
    ensures
        sync_closure_ok(fetched, applied_new, post),
{
    assert forall|j: int|
        0 <= j < fetched.len() implies (applied_new.contains(#[trigger] fetched[j].0) || stack_has(
        post,
        fetched[j].0,
    )) by {
        assert(applied_old.contains(fetched[j].0) || stack_has(pre, fetched[j].0));
    }
    assert forall|j: int, k: int|
        0 <= j < fetched.len() && 0 <= k < fetched[j].1@.len() implies (applied_new.contains(
        #[trigger] fetched[j].1@[k],
    ) || stack_has(post, fetched[j].1@[k])) by {
        assert(applied_old.contains(fetched[j].1@[k]) || stack_has(pre, fetched[j].1@[k]));
    }
}

/// Syncs a certificate and all its dependencies to a destination authority,
/// using a source authority for the causal history. The stack is LIFO, so
/// dependencies fetched for a certificate are submitted before the certificate
/// is retried; a certificate already applied is skipped, a certificate whose
/// dependencies were already fetched once fails the walk, and `budget` bounds
/// the number of stack steps in place of the caller's time limit.
///
/// On success the report shows that the certificate's digest was applied, each
/// digest at most once, and that everything whose dependencies were fetched —
/// and every fetched dependency — was applied too.
pub fn sync_authority_source_to_destination<A: AuthorityApi, H: CertificateHandler>(
    source_client: &mut SafeClient<A>,
    cert_handler: &mut H,
    cert: CertifiedTransaction,
    budget: u64,
) -> (r: Result<SyncReport, AggregateError>)
    requires
        old(source_client).committee.well_formed(),
    ensures
        final(source_client).committee == old(source_client).committee,
        r matches Ok(report) ==> {
            &&& report.applied@.no_duplicates()
            &&& report.applied@.len() > 0
            &&& report.applied@.contains(cert.transaction.digest_spec())
            &&& (report.applied@.last() == cert.transaction.digest_spec() || deps_name_digest(
                report.fetched_deps@,
                cert.transaction.digest_spec(),
            ))
            &&& sync_closure_ok(
                report.fetched_deps@,
                report.applied@,
                Seq::<CertifiedTransaction>::empty(),
            )
            &&& report.fetched_deps@.map_values(
                |p: (TransactionDigest, Vec<TransactionDigest>)| p.0,
            ).no_duplicates()
        },
        r matches Err(e) ==> (e == AggregateError::TimeoutError
            || e == AggregateError::AuthorityInformationUnavailable || e matches
            AggregateError::Validator(_)),
{
    let ghost cd = cert.transaction.digest_spec();
    let mut missing: Vec<CertifiedTransaction> = Vec::new();
    missing.push(cert);
    let mut applied: Vec<TransactionDigest> = Vec::new();
    let mut attempted: Vec<TransactionDigest> = Vec::new();
    let mut fetched: Vec<(TransactionDigest, Vec<TransactionDigest>)> = Vec::new();
    let mut fuel = budget;
    proof {
        assert(missing@[0].transaction.digest_spec() == cd);
        assert(stack_has(missing@, cd));
    }
    while missing.len() > 0
        invariant
            source_client.committee == old(source_client).committee,
            source_client.committee.well_formed(),
            applied@.no_duplicates(),
            applied@.contains(cd) || stack_has(missing@, cd),
            missing@.len() > 0 ==> missing@[0].transaction.digest_spec() == cd,
            forall|i: int|
                1 <= i < missing@.len() && (#[trigger] missing@[i]).transaction.digest_spec()
                    == cd ==> deps_name_digest(fetched@, cd),
            applied@.contains(cd) ==> (deps_name_digest(fetched@, cd) || (missing@.len() == 0
                && applied@.len() > 0 && applied@.last() == cd)),
            sync_closure_ok(fetched@, applied@, missing@),
            fetched@.map_values(
                |p: (TransactionDigest, Vec<TransactionDigest>)| p.0,
            ).no_duplicates(),
            attempted@.no_duplicates(),
            forall|j: int| 0 <= j < fetched@.len() ==> attempted@.contains(#[trigger] fetched@[j].0),
        decreases fuel,
    {
        if fuel == 0 {
            return Err(AggregateError::TimeoutError);
        }
        fuel = fuel - 1;
        let ghost pre_missing = missing@;
        let target = match missing.pop() {
            Some(t) => t,
            None => {
                return Err(AggregateError::TimeoutError);
            },
        };
        let cert_digest = target.digest();
        proof {
            assert(missing@ =~= pre_missing.drop_last());
            assert(target == pre_missing.last());
            // membership in the stack survives the pop for every other digest
            assert forall|z: TransactionDigest|
                stack_has(pre_missing, z) && z != cert_digest implies stack_has(missing@, z) by {
                let i = choose|i: int|
                    0 <= i < pre_missing.len() && pre_missing[i].transaction.digest_spec() == z;
                assert(i < pre_missing.len() - 1);
                assert(missing@[i].transaction.digest_spec() == z);
            }
        }
        let already = crate::committee::vec_contains(&applied, &cert_digest);
        if already {
            proof {
                assert forall|z: TransactionDigest|
                    stack_has(pre_missing, z) implies applied@.contains(z) || stack_has(
                    missing@,
                    z,
                ) by {
                    if z == cert_digest {
                    } else {
                        assert(stack_has(missing@, z));
                    }
                }
                lemma_closure_preserved(fetched@, applied@, applied@, pre_missing, missing@);
            }
            continue;
        }
        match cert_handler.handle(&target) {
            Ok(_) => {
                let ghost pre_applied = applied@;
                proof {
                    crate::process_tx::lemma_push_fresh_distinct(applied@, cert_digest);
                    crate::process_tx::lemma_push_contains(applied@, cert_digest);
                }
                applied.push(cert_digest);
                proof {
                    assert forall|z: TransactionDigest|
                        stack_has(pre_missing, z) implies applied@.contains(z) || stack_has(
                        missing@,
                        z,
                    ) by {
                        if z == cert_digest {
                            assert(applied@.contains(cert_digest));
                        } else {
                            assert(stack_has(missing@, z));
                        }
                    }
                    lemma_closure_preserved(
                        fetched@,
                        pre_applied,
                        applied@,
                        pre_missing,
                        missing@,
                    );
                    // the initial certificate is applied either as the bottom
                    // of the stack, leaving it empty, or as a dependency copy
                    // that some dependency list named
                    if cert_digest == cd {
                        if pre_missing.len() == 1 {
                            assert(missing@.len() == 0);
                            assert(applied@.last() == cd);
                        } else {
                            assert(pre_missing[pre_missing.len() - 1].transaction.digest_spec()
                                == cd);
                            assert(deps_name_digest(fetched@, cd));
                        }
                    } else {
                        if applied@.contains(cd) {
                            assert(pre_applied.contains(cd));
                            assert(deps_name_digest(fetched@, cd));
                        }
                    }
                }
                continue;
            },
            Err(ValidatorError::ObjectErrors { .. }) => {
                // the destination is missing history: fetch it from the source
            },
            Err(e) => {
                return Err(AggregateError::Validator(e));
            },
        }
        if crate::committee::vec_contains(&attempted, &cert_digest) {
            // the second-chance budget for this certificate is exhausted
            return Err(AggregateError::AuthorityInformationUnavailable);
        }
        let ghost attempted_pre = attempted@;
        proof {
            crate::process_tx::lemma_push_fresh_distinct(attempted@, cert_digest);
            crate::process_tx::lemma_push_contains(attempted@, cert_digest);
        }
        attempted.push(cert_digest);
        let info_result = if missing.len() == 0 {
            // the initial certificate may not have been executed at the source
            // yet; execution is idempotent, so have the source run it again
            source_client.handle_certificate(&target)
        } else {
            source_client.handle_transaction_info_request(cert_digest)
        };
        let info = match info_result {
            Ok(i) => i,
            Err(e) => {
                return Err(AggregateError::Validator(e));
            },
        };
        let ghost mid_missing = missing@;
        missing.push(target);
        proof {
            assert(missing@[missing@.len() - 1].transaction.digest_spec() == cert_digest);
            // the bottom of the stack is still the initial certificate
            if pre_missing.len() == 1 {
                assert(missing@[0].transaction.digest_spec() == cd);
            } else {
                assert(missing@[0] == pre_missing[0]);
            }
            assert forall|i: int|
                1 <= i < missing@.len() && (#[trigger] missing@[i]).transaction.digest_spec()
                    == cd implies deps_name_digest(fetched@, cd) by {
                if i < missing@.len() - 1 {
                    assert(missing@[i] == pre_missing[i]);
                } else {
                    assert(pre_missing.len() >= 2);
                    assert(pre_missing[pre_missing.len() - 1].transaction.digest_spec() == cd);
                }
            }
            assert forall|z: TransactionDigest|
                stack_has(mid_missing, z) implies stack_has(missing@, z) by {
                let i = choose|i: int|
                    0 <= i < mid_missing.len() && mid_missing[i].transaction.digest_spec() == z;
                assert(missing@[i].transaction.digest_spec() == z);
            }
            assert forall|z: TransactionDigest|
                stack_has(pre_missing, z) implies applied@.contains(z) || stack_has(
                missing@,
                z,
            ) by {
                if z == cert_digest {
                    assert(stack_has(missing@, z));
                } else {
                    assert(stack_has(mid_missing, z));
                }
            }
            lemma_closure_preserved(fetched@, applied@, applied@, pre_missing, missing@);
        }
        let signed_effects = match info.signed_effects {
            Some(se) => se,
            None => {
                return Err(AggregateError::AuthorityInformationUnavailable);
            },
        };
        let deps = signed_effects.effects.dependencies;
        let deps_copy = copy_digests(&deps);
        proof {
            assert(fetched@.push((cert_digest, deps_copy)).map_values(
                |p: (TransactionDigest, Vec<TransactionDigest>)| p.0,
            ) =~= fetched@.map_values(
                |p: (TransactionDigest, Vec<TransactionDigest>)| p.0,
            ).push(cert_digest));
            assert(!fetched@.map_values(
                |p: (TransactionDigest, Vec<TransactionDigest>)| p.0,
            ).contains(cert_digest)) by {
                if fetched@.map_values(
                    |p: (TransactionDigest, Vec<TransactionDigest>)| p.0,
                ).contains(cert_digest) {
                    let j = choose|j: int|
                        #![trigger fetched@[j]]
                        0 <= j < fetched@.len() && fetched@.map_values(
                            |p: (TransactionDigest, Vec<TransactionDigest>)| p.0,
                        )[j] == cert_digest;
                    assert(fetched@[j].0 == cert_digest);
                    assert(attempted_pre.contains(fetched@[j].0));
                }
            };
            crate::process_tx::lemma_push_fresh_distinct(
                fetched@.map_values(|p: (TransactionDigest, Vec<TransactionDigest>)| p.0),
                cert_digest,
            );
            crate::process_tx::lemma_push_contains(
                fetched@.map_values(|p: (TransactionDigest, Vec<TransactionDigest>)| p.0),
                cert_digest,
            );
        }
        let ghost pre_fetched = fetched@;
        let ghost entry = (cert_digest, deps_copy);
        fetched.push((cert_digest, deps_copy));
        proof {
            lemma_deps_name_monotone(pre_fetched, entry, cd);
            assert forall|i: int|
                1 <= i < missing@.len() && (#[trigger] missing@[i]).transaction.digest_spec()
                    == cd implies deps_name_digest(fetched@, cd) by {
                assert(deps_name_digest(pre_fetched, cd));
            }
            if applied@.contains(cd) {
                assert(deps_name_digest(pre_fetched, cd));
            }
        }
        let mut k: usize = 0;
        while k < deps.len()
            invariant
                k <= deps@.len(),
                source_client.committee == old(source_client).committee,
                source_client.committee.well_formed(),
                fetched@ == pre_fetched.push(entry),
                entry.0 == cert_digest,
                entry.1@ == deps@,
                applied@.no_duplicates(),
                applied@.contains(cd) || stack_has(missing@, cd),
                missing@.len() > 0 && missing@[0].transaction.digest_spec() == cd,
                forall|i: int|
                    1 <= i < missing@.len() && (#[trigger] missing@[i]).transaction.digest_spec()
                        == cd ==> deps_name_digest(fetched@, cd),
                applied@.contains(cd) ==> deps_name_digest(fetched@, cd),
                sync_closure_ok(pre_fetched, applied@, missing@),
                stack_has(missing@, cert_digest),
                forall|t: int|
                    0 <= t < k ==> (applied@.contains(#[trigger] deps@[t]) || stack_has(
                        missing@,
                        deps@[t],
                    )),
                fetched@.map_values(
                    |p: (TransactionDigest, Vec<TransactionDigest>)| p.0,
                ).no_duplicates(),
                attempted@.no_duplicates(),
                forall|j: int|
                    0 <= j < fetched@.len() ==> attempted@.contains(#[trigger] fetched@[j].0),
            decreases deps@.len() - k,
        {
            let dep_digest = deps[k];
            let dep_info = match source_client.handle_transaction_info_request(dep_digest) {
                Ok(i) => i,
                Err(e) => {
                    return Err(AggregateError::Validator(e));
                },
            };
            let dep_cert = match dep_info.certified_transaction {
                Some(c) => c,
                None => {
                    return Err(AggregateError::AuthorityInformationUnavailable);
                },
            };
            let ghost before_push = missing@;
            missing.push(dep_cert);
            proof {
                // the source's safe client checked that the returned
                // certificate carries the requested digest
                assert(missing@[missing@.len() - 1].transaction.digest_spec() == dep_digest);
                assert forall|z: TransactionDigest|
                    stack_has(before_push, z) implies stack_has(missing@, z) by {
                    let i = choose|i: int|
                        0 <= i < before_push.len() && before_push[i].transaction.digest_spec()
                            == z;
                    assert(missing@[i].transaction.digest_spec() == z);
                }
                lemma_closure_preserved(pre_fetched, applied@, applied@, before_push, missing@);
                assert(missing@[0] == before_push[0]);
                // a dependency carrying the initial digest is a recorded cycle
                assert forall|i: int|
                    1 <= i < missing@.len() && (#[trigger] missing@[i]).transaction.digest_spec()
                        == cd implies deps_name_digest(fetched@, cd) by {
                    if i < missing@.len() - 1 {
                        assert(missing@[i] == before_push[i]);
                    } else {
                        assert(dep_digest == cd);
                        assert(fetched@[pre_fetched.len() as int].1@[k as int] == cd);
                    }
                }
            }
            k = k + 1;
        }
        proof {
            assert forall|j: int|
                0 <= j < fetched@.len() implies (applied@.contains(#[trigger] fetched@[j].0)
                || stack_has(missing@, fetched@[j].0)) by {
                if j < pre_fetched.len() {
                    assert(fetched@[j] == pre_fetched[j]);
                    assert(applied@.contains(pre_fetched[j].0) || stack_has(
                        missing@,
                        pre_fetched[j].0,
                    ));
                } else {
                    assert(fetched@[j] == entry);
                    assert(stack_has(missing@, cert_digest));
                }
            }
            assert forall|j: int, t: int|
                0 <= j < fetched@.len() && 0 <= t < fetched@[j].1@.len() implies (
            applied@.contains(#[trigger] fetched@[j].1@[t]) || stack_has(
                missing@,
                fetched@[j].1@[t],
            )) by {
                if j < pre_fetched.len() {
                    assert(fetched@[j] == pre_fetched[j]);
                    assert(applied@.contains(pre_fetched[j].1@[t]) || stack_has(
                        missing@,
                        pre_fetched[j].1@[t],
                    ));
                } else {
                    assert(fetched@[j] == entry);
                    assert(fetched@[j].1@[t] == deps@[t]);
                }
            }
        }
    }
    proof {
        assert(missing@.len() == 0);
        assert(missing@ =~= Seq::<CertifiedTransaction>::empty());
        assert(!stack_has(missing@, cd));
        assert(applied@.contains(cd));
        let w = choose|w: int| 0 <= w < applied@.len() && applied@[w] == cd;
        assert(applied@.len() > 0);
    }
    Ok(SyncReport { applied, fetched_deps: fetched })
}

/// Causal order of a successful sync, from the walk's own contract: when no
/// dependency list cycles back to the initial certificate, that certificate
/// was the last one applied, and every dependency fetched for it was applied
/// strictly earlier.
pub proof fn lemma_sync_causal_order(
    report: SyncReport,
    cert_digest: TransactionDigest,
    j: int,
)
    requires
        report.applied@.no_duplicates(),
        sync_closure_ok(report.fetched_deps@, report.applied@, Seq::<CertifiedTransaction>::empty()),
        report.applied@.len() > 0,
        report.applied@.last() == cert_digest || deps_name_digest(
            report.fetched_deps@,
            cert_digest,
        ),
        !deps_name_digest(report.fetched_deps@, cert_digest),
        0 <= j < report.fetched_deps@.len(),
        report.fetched_deps@[j].0 == cert_digest,
    ensures
        report.applied@.last() == cert_digest,
        forall|k: int|
            #![trigger report.fetched_deps@[j].1@[k]]
            0 <= k < report.fetched_deps@[j].1@.len() ==> {
                let applied = report.applied@;
                let d = report.fetched_deps@[j].1@[k];
                &&& applied.contains(d)
                &&& first_index_of(applied, d) < first_index_of(applied, cert_digest)
                &&& applied[first_index_of(applied, d)] == d
                &&& applied[first_index_of(applied, cert_digest)] == cert_digest
            },
{
    let applied = report.applied@;
    assert forall|k: int|
        #![trigger report.fetched_deps@[j].1@[k]]
        0 <= k < report.fetched_deps@[j].1@.len() implies {
        let d = report.fetched_deps@[j].1@[k];
        &&& applied.contains(d)
        &&& first_index_of(applied, d) < first_index_of(applied, cert_digest)
        &&& applied[first_index_of(applied, d)] == d
        &&& applied[first_index_of(applied, cert_digest)] == cert_digest
    } by {
        let d = report.fetched_deps@[j].1@[k];
        // no dependency list names the certificate, this one included
        assert(d != cert_digest);
        assert(applied.contains(d) || stack_has(
            Seq::<CertifiedTransaction>::empty(),
            d,
        ));
        assert(applied.contains(d));
        lemma_first_index_of(applied, d);
        lemma_first_index_of(applied, cert_digest);
        assert(applied.contains(cert_digest)) by {
            assert(applied[applied.len() - 1] == cert_digest);
        };
        // the last slot is the certificate's only occurrence
        let fi = first_index_of(applied, cert_digest);
        assert(fi == applied.len() - 1) by {
            if fi < applied.len() - 1 {
                assert(applied[fi] == cert_digest);
                assert(applied[applied.len() - 1] == cert_digest);
            }
        };
        assert(first_index_of(applied, d) < applied.len());
        assert(applied[first_index_of(applied, d)] == d);
        assert(first_index_of(applied, d) != applied.len() - 1);
    }
}


/// Picks up to `retries` distinct source validators from the signers of
/// `cert`, sampled without replacement proportional to stake: the signers
/// necessarily hold the certificate's full causal history.
pub fn select_sync_sources(
    committee: &Committee,
    cert: &CertifiedTransaction,
    retries: usize,
) -> (r: Result<Vec<AuthorityName>, AggregateError>)
    requires
        committee.well_formed(),
    ensures
        r matches Ok(out) ==> {
            &&& out@.no_duplicates()
            &&& out@.len() <= retries
            &&& out@.len() == if retries <= crate::certs::sig_names(
                cert.signatures@,
            ).to_set().len() {
                retries as int
            } else {
                crate::certs::sig_names(cert.signatures@).to_set().len() as int
            }
            &&& forall|k: int|
                0 <= k < out@.len() ==> crate::certs::sig_names(cert.signatures@).contains(
                    #[trigger] out@[k],
                ) && committee.contains_name(out@[k])
        },
        r is Err <==> exists|i: int|
            0 <= i < cert.signatures@.len() && !committee.contains_name(
                #[trigger] cert.signatures@[i].0,
            ),
{
    let signers = match committee.authorities_from_signatures(&cert.signatures) {
        Ok(s) => s,
        Err(e) => {
            return Err(e);
        },
    };
    let shuffled = committee.shuffle_by_stake(None, Some(&signers));
    proof {
        assert forall|k: int|
            0 <= k < shuffled@.len() implies (signers@.contains(#[trigger] shuffled@[k])
            && committee.contains_name(shuffled@[k])) by {
            assert(shuffled@.contains(shuffled@[k]));
        }
    }
    let mut out: Vec<AuthorityName> = Vec::new();
    let mut i: usize = 0;
    while i < shuffled.len() && out.len() < retries
        invariant
            i <= shuffled@.len(),
            out@ == shuffled@.take(i as int),
            out@.len() <= retries,
            shuffled@.no_duplicates(),
            forall|k: int|
                0 <= k < shuffled@.len() ==> (signers@.contains(#[trigger] shuffled@[k])
                    && committee.contains_name(shuffled@[k])),
            forall|n: AuthorityName| #[trigger] signers@.contains(n) ==> crate::certs::sig_names(
                cert.signatures@,
            ).contains(n),
        decreases shuffled@.len() - i,
    {
        out.push(shuffled[i]);
        proof {
            assert(shuffled@.take(i + 1) =~= shuffled@.take(i as int).push(
                shuffled@[i as int],
            ));
        }
        i = i + 1;
    }
    proof {
        assert forall|a: int, b: int|
            0 <= a < out@.len() && 0 <= b < out@.len() && a != b implies out@[a] != out@[b] by {
            assert(out@[a] == shuffled@[a] && out@[b] == shuffled@[b]);
        }
        // the shuffle lists each distinct signer exactly once, so the prefix
        // has length min(retries, number of distinct signers)
        assert forall|n: AuthorityName| #[trigger] signers@.contains(n) implies
            committee.contains_name(n) by {
            let k = choose|k: int| 0 <= k < signers@.len() && signers@[k] == n;
        }
        assert(signers@.to_set() =~= crate::certs::sig_names(cert.signatures@).to_set());
        assert(shuffled@.to_set() =~= signers@.to_set());
        signers@.unique_seq_to_set();
        shuffled@.unique_seq_to_set();
        assert(out@.len() == if retries <= crate::certs::sig_names(
            cert.signatures@,
        ).to_set().len() {
            retries as int
        } else {
            crate::certs::sig_names(cert.signatures@).to_set().len() as int
        });
    }
    Ok(out)
}

/// Tries each sampled source in turn to bring the destination forward; a
/// pairwise failure is recorded on the failing source's facade and returned so
/// that the caller can record it on the destination's too, and the walk moves
/// to the next source. When every source has failed, the update has failed.
pub fn sync_certificate_to_authority_with_timeout_inner<A: AuthorityApi, H: CertificateHandler>(
    cert: &CertifiedTransaction,
    destination_authority: AuthorityName,
    cert_handler: &mut H,
    sources: Vec<(AuthorityName, SafeClient<A>)>,
    budget_each: u64,
) -> (res: (
    Result<SyncReport, AggregateError>,
    Vec<(AuthorityName, SafeClient<A>)>,
    Vec<AggregateError>,
))
    requires
        forall|i: int| 0 <= i < sources@.len() ==> (#[trigger] sources@[i].1).committee.well_formed(),
    ensures
        res.1@.len() == sources@.len(),
        res.0 matches Ok(report) ==> {
            &&& report.applied@.no_duplicates()
            &&& report.applied@.len() > 0
            &&& report.applied@.contains(cert.transaction.digest_spec())
            &&& (report.applied@.last() == cert.transaction.digest_spec() || deps_name_digest(
                report.fetched_deps@,
                cert.transaction.digest_spec(),
            ))
            &&& sync_closure_ok(
                report.fetched_deps@,
                report.applied@,
                Seq::<CertifiedTransaction>::empty(),
            )
        },
        res.0 is Err ==> res.0 == Err::<SyncReport, AggregateError>(
            AggregateError::AuthorityUpdateFailure,
        ),
        forall|k: int| 0 <= k < res.2@.len() ==> (#[trigger] res.2@[k]) matches
            AggregateError::PairwiseSyncFailed { .. },
{
    let mut remaining = sources;
    let mut used: Vec<(AuthorityName, SafeClient<A>)> = Vec::new();
    let mut pairwise: Vec<AggregateError> = Vec::new();
    let tx_digest = cert.digest();
    while remaining.len() > 0
        invariant
            used@.len() + remaining@.len() == sources@.len(),
            forall|i: int| 0 <= i < remaining@.len() ==> (
                #[trigger] remaining@[i].1).committee.well_formed(),
            forall|k: int| 0 <= k < pairwise@.len() ==> (#[trigger] pairwise@[k]) matches
                AggregateError::PairwiseSyncFailed { .. },
        decreases remaining@.len(),
    {
        let (src_name, mut src) = remaining.remove(0);
        let attempt = sync_authority_source_to_destination(
            &mut src,
            cert_handler,
            cert.duplicate(),
            budget_each,
        );
        match attempt {
            Ok(report) => {
                used.push((src_name, src));
                while remaining.len() > 0
                    invariant
                        used@.len() + remaining@.len() == sources@.len(),
                    decreases remaining@.len(),
                {
                    let next = remaining.remove(0);
                    used.push(next);
                }
                return (Ok(report), used, pairwise);
            },
            Err(err) => {
                // the source has signed the certificate, so it has the
                // history: either side may be faulty; report to both facades
                let (err_a, err_b) = match err {
                    AggregateError::Validator(e) => (
                        AggregateError::Validator(e),
                        AggregateError::Validator(e),
                    ),
                    AggregateError::AuthorityInformationUnavailable => (
                        AggregateError::AuthorityInformationUnavailable,
                        AggregateError::AuthorityInformationUnavailable,
                    ),
                    _ => (AggregateError::TimeoutError, AggregateError::TimeoutError),
                };
                src.report_client_error(
                    AggregateError::PairwiseSyncFailed {
                        source: src_name,
                        destination: destination_authority,
                        tx_digest,
                        error: Box::new(err_a),
                    },
                );
                pairwise.push(
                    AggregateError::PairwiseSyncFailed {
                        source: src_name,
                        destination: destination_authority,
                        tx_digest,
                        error: Box::new(err_b),
                    },
                );
                used.push((src_name, src));
            },
        }
    }
    (Err(AggregateError::AuthorityUpdateFailure), used, pairwise)
}


/// Which rung of the recovery ladder settled the submission.
pub enum LadderPath {
    /// The destination accepted the certificate at the first submission.
    AcceptedFirst,
    /// The first submission failed for a reason other than stale object
    /// locks; no sync was attempted.
    DirectFailure,
    /// Stale object locks were reported, but no sampled source could bring
    /// the destination forward.
    SyncFailed,
    /// Stale object locks were reported, a source brought the destination
    /// forward as the report shows, and the certificate was submitted once
    /// more.
    RetriedAfterSync(SyncReport),
}

/// The outcome of one rung-by-rung certificate submission.
pub struct LadderResult<A> {
    /// The response handed to the reducer.
    pub response: Result<TransactionInfoResponse, ValidatorError>,
    /// The source clients, back with any failure reports recorded.
    pub sources: Vec<(AuthorityName, SafeClient<A>)>,
    /// The pairwise failures, for the caller to record on the destination's
    /// facade.
    pub pairwise_reports: Vec<AggregateError>,
    /// Which rung settled the submission.
    pub path: LadderPath,
}

/// The per-validator ladder of certificate processing: submit the certificate;
/// on an out-of-date object lock — and only then — bring the validator forward
/// from the certificate's signers and submit exactly once more; any other
/// failure bubbles up as it is, with no sync and no retry. The returned path
/// pins which rung ran: a first-try acceptance or a direct failure leaves the
/// sources untouched and reports nothing, a failed sync surfaces as such, and
/// a retry carries the sync report showing the certificate's history applied
/// in stack order.
pub fn process_certificate_on_authority<A: AuthorityApi, H: CertificateHandler>(
    cert: &CertifiedTransaction,
    destination_authority: AuthorityName,
    cert_handler: &mut H,
    sources: Vec<(AuthorityName, SafeClient<A>)>,
    budget_each: u64,
) -> (res: LadderResult<A>)
    requires
        forall|i: int| 0 <= i < sources@.len() ==> (#[trigger] sources@[i].1).committee.well_formed(),
    ensures
        res.sources@.len() == sources@.len(),
        forall|k: int| 0 <= k < res.pairwise_reports@.len() ==> (
        #[trigger] res.pairwise_reports@[k]) matches AggregateError::PairwiseSyncFailed { .. },
        res.path is AcceptedFirst ==> res.response is Ok && res.sources == sources
            && res.pairwise_reports@.len() == 0,
        res.path is DirectFailure ==> (res.response matches Err(e) && !(e matches
            ValidatorError::ObjectErrors { .. })) && res.sources == sources
            && res.pairwise_reports@.len() == 0,
        res.path is SyncFailed ==> res.response == Err::<TransactionInfoResponse, ValidatorError>(
            ValidatorError::SyncFailed,
        ),
        res.path matches LadderPath::RetriedAfterSync(report) ==> {
            &&& report.applied@.no_duplicates()
            &&& report.applied@.len() > 0
            &&& report.applied@.contains(cert.transaction.digest_spec())
            &&& (report.applied@.last() == cert.transaction.digest_spec() || deps_name_digest(
                report.fetched_deps@,
                cert.transaction.digest_spec(),
            ))
            &&& sync_closure_ok(
                report.fetched_deps@,
                report.applied@,
                Seq::<CertifiedTransaction>::empty(),
            )
        },
{
    match cert_handler.handle(cert) {
        Ok(resp) => {
            return LadderResult {
                response: Ok(resp),
                sources,
                pairwise_reports: Vec::new(),
                path: LadderPath::AcceptedFirst,
            };
        },
        Err(ValidatorError::ObjectErrors { .. }) => {
            // the destination may merely be out of date: sync and retry once
        },
        Err(e) => {
            return LadderResult {
                response: Err(e),
                sources,
                pairwise_reports: Vec::new(),
                path: LadderPath::DirectFailure,
            };
        },
    }
    let (sync_result, sources_back, pairwise) = sync_certificate_to_authority_with_timeout_inner(
        cert,
        destination_authority,
        cert_handler,
        sources,
        budget_each,
    );
    let report = match sync_result {
        Ok(report) => report,
        Err(_) => {
            return LadderResult {
                response: Err(ValidatorError::SyncFailed),
                sources: sources_back,
                pairwise_reports: pairwise,
                path: LadderPath::SyncFailed,
            };
        },
    };
    let retry = cert_handler.handle(cert);
    LadderResult {
        response: retry,
        sources: sources_back,
        pairwise_reports: pairwise,
        path: LadderPath::RetriedAfterSync(report),
    }
}

} // verus!
