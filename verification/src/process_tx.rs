//! Submitting a transaction to the committee and folding the validators'
//! answers, in arrival order, into a certificate.
//!
//! The fold is specified as a mathematical function of the response sequence
//! (`ptx_fold`); the executable protocol is proved to return exactly what the
//! fold says. A silent validator simply never appears in the sequence.

use vstd::prelude::*;

use crate::base_types::AuthorityName;
use crate::certs::{lemma_distinct_stake_bound, names_stake, sig_names, signatures_form_quorum};
use crate::committee::Committee;
use crate::error::{AggregateError, ValidatorError};
use crate::messages::{AuthoritySignature, CertifiedTransaction, Transaction, TransactionInfoResponse};
use crate::metrics::AuthAggMetrics;
use crate::safe_client::{check_transaction_info, transaction_info_ok};

verus! {

/// One validator's answer as the runtime delivered it: the validator's name
/// and its raw result.
pub type TransactionResponse = (AuthorityName, Result<TransactionInfoResponse, ValidatorError>);

/// The names in a response sequence, in arrival order.
pub open spec fn resp_names(responses: Seq<TransactionResponse>) -> Seq<AuthorityName> {
    responses.map_values(|p: TransactionResponse| p.0)
}

/// Reducer state while gathering votes: the signatures collected so far, a
/// certificate if one was found or formed, the errors seen, and the stake
/// tallies of good and bad responses.
pub struct PtxState {
    pub signatures: Seq<(AuthorityName, AuthoritySignature)>,
    pub certificate: Option<CertifiedTransaction>,
    pub errors: Seq<ValidatorError>,
    pub good_stake: int,
    pub bad_stake: int,
}

/// How a round of vote gathering ended.
pub enum PtxEnd {
    /// A quorum of votes was gathered and the certificate formed atomically.
    Formed,
    /// A validator returned an already-formed certificate; that alone suffices.
    Prior(CertifiedTransaction),
    /// A quorum of stake was gathered but the signature bag failed aggregate
    /// verification.
    FormationFailed,
    /// Bad stake exceeded the validity threshold, every failure was this same
    /// error and no validator voted: the singular error is surfaced verbatim.
    SingleError(ValidatorError),
    /// Bad stake exceeded the validity threshold: the distinct errors, in
    /// first-seen order.
    QuorumNotReached(Seq<ValidatorError>),
    /// The response stream ended before any terminal condition.
    Exhausted,
}

/// The empty reducer state.
pub open spec fn ptx_init() -> PtxState {
    PtxState {
        signatures: Seq::empty(),
        certificate: None,
        errors: Seq::empty(),
        good_stake: 0,
        bad_stake: 0,
    }
}

/// The distinct errors of a list, in first-seen order.
pub open spec fn dedup_errors(s: Seq<ValidatorError>) -> Seq<ValidatorError>
    decreases s.len(),
{
    if s.len() == 0 {
        Seq::empty()
    } else {
        let d = dedup_errors(s.drop_last());
        if d.contains(s.last()) {
            d
        } else {
            d.push(s.last())
        }
    }
}

/// What the safe client hands the reducer: the raw result, with any response
/// that fails the committee checks replaced by a Byzantine suspicion.
pub open spec fn ptx_classify(
    c: Committee,
    name: AuthorityName,
    expected_digest: u64,
    raw: Result<TransactionInfoResponse, ValidatorError>,
) -> Result<TransactionInfoResponse, ValidatorError> {
    match raw {
        Ok(resp) => if transaction_info_ok(c, name, expected_digest, resp) {
            Ok(resp)
        } else {
            Err(ValidatorError::ByzantineAuthoritySuspicion { authority: name })
        },
        Err(e) => Err(e),
    }
}

/// Absorbing one failure: the error is recorded and the validator's stake
/// counted bad; once bad stake exceeds the validity threshold a quorum is
/// impossible and the round ends, surfacing a singular error verbatim when
/// nothing voted and every failure was identical.
pub open spec fn ptx_fail_step(c: Committee, st: PtxState, w: int, e: ValidatorError) -> (
    PtxState,
    Option<PtxEnd>,
) {
    let st1 = PtxState {
        signatures: st.signatures,
        certificate: st.certificate,
        errors: st.errors.push(e),
        good_stake: st.good_stake,
        bad_stake: st.bad_stake + w,
    };
    if st1.bad_stake > c.validity_threshold_spec() {
        let uniq = dedup_errors(st1.errors);
        if uniq.len() == 1 && st1.good_stake == 0 {
            (st1, Some(PtxEnd::SingleError(uniq[0])))
        } else {
            (st1, Some(PtxEnd::QuorumNotReached(uniq)))
        }
    } else {
        (st1, None)
    }
}

/// One reducer step on one response, delivered in arrival order: an
/// already-formed certificate ends the round at once; a vote adds its stake
/// and, at the quorum threshold, the certificate is formed in one step that
/// also verifies the aggregate; anything else is a failure.
pub open spec fn ptx_step(
    c: Committee,
    tx: Transaction,
    st: PtxState,
    name: AuthorityName,
    raw: Result<TransactionInfoResponse, ValidatorError>,
) -> (PtxState, Option<PtxEnd>) {
    let w = c.stake_of(name);
    match ptx_classify(c, name, tx.digest_spec(), raw) {
        Ok(resp) => match resp.certified_transaction {
            Some(ct) => {
                let st1 = PtxState {
                    signatures: st.signatures,
                    certificate: Some(ct),
                    errors: st.errors,
                    good_stake: st.good_stake,
                    bad_stake: st.bad_stake,
                };
                (st1, Some(PtxEnd::Prior(ct)))
            },
            None => match resp.signed_transaction {
                Some(vote) => {
                    let st1 = PtxState {
                        signatures: st.signatures.push((name, vote.signature)),
                        certificate: st.certificate,
                        errors: st.errors,
                        good_stake: st.good_stake + w,
                        bad_stake: st.bad_stake,
                    };
                    if st1.good_stake >= c.quorum_threshold_spec() {
                        if signatures_form_quorum(c, c.epoch, tx.digest_spec(), st1.signatures) {
                            (st1, Some(PtxEnd::Formed))
                        } else {
                            (st1, Some(PtxEnd::FormationFailed))
                        }
                    } else {
                        (st1, None)
                    }
                },
                None => ptx_fail_step(c, st, w, ValidatorError::UnexpectedResponse),
            },
        },
        Err(e) => ptx_fail_step(c, st, w, e),
    }
}

/// Folding a whole response sequence, in arrival order, with short-circuit at
/// the first terminal step; an exhausted sequence returns the state reached.
pub open spec fn ptx_fold(
    c: Committee,
    tx: Transaction,
    st: PtxState,
    responses: Seq<TransactionResponse>,
) -> (PtxState, PtxEnd)
    decreases responses.len(),
{
    if responses.len() == 0 {
        (st, PtxEnd::Exhausted)
    } else {
        let stepped = ptx_step(c, tx, st, responses[0].0, responses[0].1);
        match stepped.1 {
            Some(end) => (stepped.0, end),
            None => ptx_fold(c, tx, stepped.0, responses.skip(1)),
        }
    }
}

/// Membership test in an error list.
fn error_vec_contains(v: &Vec<ValidatorError>, e: &ValidatorError) -> (r: bool)
    ensures
        r == v@.contains(*e),
{
    let mut i: usize = 0;
    while i < v.len()
        invariant
            i <= v@.len(),
            forall|k: int| 0 <= k < i ==> v@[k] != *e,
        decreases v@.len() - i,
    {
        if v[i] == *e {
            return true;
        }
        i = i + 1;
    }
    false
}

/// Computes the distinct errors of a list, in first-seen order.
pub fn dedup_validator_errors(v: &Vec<ValidatorError>) -> (out: Vec<ValidatorError>)
    ensures
        out@ == dedup_errors(v@),
{
    let mut out: Vec<ValidatorError> = Vec::new();
    let mut i: usize = 0;
    while i < v.len()
        invariant
            i <= v@.len(),
            out@ == dedup_errors(v@.take(i as int)),
        decreases v@.len() - i,
    {
        proof {
            assert(v@.take(i + 1).drop_last() =~= v@.take(i as int));
            assert(v@.take(i + 1).last() == v@[i as int]);
        }
        if !error_vec_contains(&out, &v[i]) {
            out.push(v[i]);
        }
        i = i + 1;
    }
    proof {
        assert(v@.take(v@.len() as int) =~= v@);
    }
    out
}

/// Pushing a signature extends the summed stake by the signer's stake.
pub proof fn lemma_names_stake_push(
    c: Committee,
    sigs: Seq<(AuthorityName, AuthoritySignature)>,
    p: (AuthorityName, AuthoritySignature),
)
    ensures
        sig_names(sigs.push(p)) == sig_names(sigs).push(p.0),
        names_stake(c, sig_names(sigs.push(p))) == names_stake(c, sig_names(sigs)) + c.stake_of(
            p.0,
        ),
{
    assert(sig_names(sigs.push(p)) =~= sig_names(sigs).push(p.0));
    assert(sig_names(sigs).push(p.0).drop_last() =~= sig_names(sigs));
}

/// Appending a name to a distinct name list keeps it distinct when fresh.
pub proof fn lemma_push_fresh_distinct(names: Seq<AuthorityName>, x: AuthorityName)
    requires
        names.no_duplicates(),
        !names.contains(x),
    ensures
        names.push(x).no_duplicates(),
{
    let t = names.push(x);
    assert forall|a: int, b: int| 0 <= a < t.len() && 0 <= b < t.len() && a != b implies t[a]
        != t[b] by {
        if a < names.len() && b < names.len() {
        } else if a < names.len() {
            assert(names.contains(names[a]));
        } else if b < names.len() {
            assert(names.contains(names[b]));
        }
    }
}


/// Pushing an element extends membership by exactly that element.
pub proof fn lemma_push_contains(s: Seq<AuthorityName>, x: AuthorityName)
    ensures
        forall|n: AuthorityName| #[trigger] s.push(x).contains(n) <==> (s.contains(n) || n == x),
{
    assert forall|n: AuthorityName| #[trigger] s.push(x).contains(n) implies (s.contains(n) || n
        == x) by {
        let k = choose|k: int| 0 <= k < s.push(x).len() && s.push(x)[k] == n;
        if k < s.len() {
            assert(s[k] == n);
        }
    }
    assert forall|n: AuthorityName| (s.contains(n) || n == x) implies #[trigger] s.push(x).contains(
        n,
    ) by {
        if s.contains(n) {
            let k = choose|k: int| 0 <= k < s.len() && s[k] == n;
            assert(s.push(x)[k] == n);
        } else {
            assert(s.push(x)[s.len() as int] == n);
        }
    }
}

/// Submits a transaction's responses, in arrival order, to the vote-gathering
/// reducer: returns exactly what `ptx_fold` says, forming the certificate
/// atomically at the quorum threshold, surfacing a singular error verbatim,
/// and wrapping mixed failures in a quorum verdict. Signature counts and stake
/// tallies are observed at certificate formation and at hard-failure exits.
/// Any certificate returned is valid for the committee and carries the
/// transaction's digest.
pub fn process_transaction(
    committee: &Committee,
    transaction: &Transaction,
    responses: Vec<TransactionResponse>,
    metrics: &mut AuthAggMetrics,
) -> (r: Result<CertifiedTransaction, AggregateError>)
    requires
        committee.well_formed(),
        resp_names(responses@).no_duplicates(),
    ensures
        ({
            let folded = ptx_fold(*committee, *transaction, ptx_init(), responses@);
            let fst = folded.0;
            &&& match folded.1 {
                PtxEnd::Formed => r matches Ok(cert) && cert.epoch == committee.epoch
                    && cert.transaction == *transaction && cert.signatures@ == fst.signatures,
                PtxEnd::Prior(ct) => r == Ok::<CertifiedTransaction, AggregateError>(ct),
                PtxEnd::FormationFailed => r == Err::<CertifiedTransaction, AggregateError>(
                    AggregateError::InvalidCertificate,
                ),
                PtxEnd::SingleError(e) => r == Err::<CertifiedTransaction, AggregateError>(
                    AggregateError::Validator(e),
                ),
                PtxEnd::QuorumNotReached(es) => r matches Err(
                    AggregateError::QuorumNotReached { errors },
                ) && errors@ == es,
                PtxEnd::Exhausted => r == Err::<CertifiedTransaction, AggregateError>(
                    AggregateError::NoCertificateFormed,
                ),
            }
            &&& match folded.1 {
                PtxEnd::Formed | PtxEnd::FormationFailed | PtxEnd::SingleError(_)
                    | PtxEnd::QuorumNotReached(_) => {
                    &&& final(metrics).num_signatures@ == old(metrics).num_signatures@.push(
                        fst.signatures.len() as u64,
                    )
                    &&& final(metrics).num_good_stake@ == old(metrics).num_good_stake@.push(
                        fst.good_stake as u64,
                    )
                    &&& final(metrics).num_bad_stake@ == old(metrics).num_bad_stake@.push(
                        fst.bad_stake as u64,
                    )
                    &&& final(metrics).total_tx_certificates_created == old(
                        metrics,
                    ).total_tx_certificates_created
                },
                PtxEnd::Prior(_) | PtxEnd::Exhausted => *final(metrics) == *old(metrics),
            }
        }),
        r matches Ok(cert) ==> cert.valid(*committee) && cert.transaction.digest_spec()
            == transaction.digest_spec(),
{
    let ghost responses_view = responses@;
    let q = committee.quorum_threshold();
    let v = committee.validity_threshold();
    let mut remaining = responses;
    let mut signatures: Vec<(AuthorityName, AuthoritySignature)> = Vec::new();
    let mut errors: Vec<ValidatorError> = Vec::new();
    let mut good_stake: u64 = 0;
    let mut bad_stake: u64 = 0;
    let ghost mut processed: Seq<AuthorityName> = Seq::empty();
    let ghost mut failed: Seq<AuthorityName> = Seq::empty();
    proof {
        assert(resp_names(responses_view) =~= processed + resp_names(remaining@));
    }
    while remaining.len() > 0
        invariant
            committee.well_formed(),
            responses_view == responses@,
            resp_names(responses_view).no_duplicates(),
            resp_names(responses_view) == processed + resp_names(remaining@),
            ptx_fold(*committee, *transaction, ptx_init(), responses_view) == ptx_fold(
                *committee,
                *transaction,
                PtxState {
                    signatures: signatures@,
                    certificate: None,
                    errors: errors@,
                    good_stake: good_stake as int,
                    bad_stake: bad_stake as int,
                },
                remaining@,
            ),
            sig_names(signatures@).no_duplicates(),
            good_stake == names_stake(*committee, sig_names(signatures@)),
            forall|n: AuthorityName| #[trigger] sig_names(signatures@).contains(n)
                ==> processed.contains(n),
            failed.no_duplicates(),
            bad_stake == names_stake(*committee, failed),
            forall|n: AuthorityName| #[trigger] failed.contains(n) ==> processed.contains(n),
            q == committee.quorum_threshold_spec(),
            v == committee.validity_threshold_spec(),
            *metrics == *old(metrics),
        decreases remaining@.len(),
    {
        let ghost pre_remaining = remaining@;
        let ghost pre_state = PtxState {
            signatures: signatures@,
            certificate: None,
            errors: errors@,
            good_stake: good_stake as int,
            bad_stake: bad_stake as int,
        };
        let (name, raw) = remaining.remove(0);
        let ghost raw_view = raw;
        proof {
            assert(remaining@ =~= pre_remaining.skip(1));
            assert(pre_remaining[0] == (name, raw_view));
            let whole = resp_names(responses_view);
            assert(whole =~= processed + resp_names(pre_remaining));
            assert(resp_names(pre_remaining)[0] == name);
            assert(whole[processed.len() as int] == name);
            assert(!processed.contains(name)) by {
                if processed.contains(name) {
                    let k = choose|k: int| 0 <= k < processed.len() && processed[k] == name;
                    assert(whole[k] == name);
                }
            };
            assert(!sig_names(signatures@).contains(name));
            assert(!failed.contains(name));
            assert(processed.push(name) + resp_names(remaining@) =~= resp_names(responses_view));
        }
        let w = committee.weight(&name);
        let checked: Result<TransactionInfoResponse, ValidatorError> = match raw {
            Ok(resp) => check_transaction_info(committee, name, transaction.digest(), resp),
            Err(e) => Err(e),
        };
        let ghost stepped = ptx_step(*committee, *transaction, pre_state, name, raw_view);
        proof {
            assert(checked == ptx_classify(*committee, name, transaction.digest_spec(), raw_view));
            match stepped.1 {
                Some(end) => {
                    assert(ptx_fold(*committee, *transaction, pre_state, pre_remaining) == (
                    stepped.0,
                    end,
                    ));
                },
                None => {
                    assert(ptx_fold(*committee, *transaction, pre_state, pre_remaining)
                        == ptx_fold(*committee, *transaction, stepped.0, pre_remaining.skip(1)));
                },
            }
        }
        match checked {
            Ok(resp) => {
                match resp.certified_transaction {
                    Some(ct) => {
                        proof {
                            assert(stepped.1 == Some(PtxEnd::Prior(ct)));
                            assert(ptx_fold(
                                *committee,
                                *transaction,
                                ptx_init(),
                                responses_view,
                            ).1 == PtxEnd::Prior(ct));
                        }
                        return Ok(ct);
                    },
                    None => {
                        match resp.signed_transaction {
                            Some(vote) => {
                                proof {
                                    lemma_names_stake_push(
                                        *committee,
                                        signatures@,
                                        (name, vote.signature),
                                    );
                                    lemma_push_fresh_distinct(sig_names(signatures@), name);
                                    lemma_distinct_stake_bound(
                                        *committee,
                                        sig_names(signatures@).push(name),
                                    );
                                    crate::committee::lemma_stake_in_nonneg(
                                        committee.voting_rights@,
                                        name,
                                    );
                                    lemma_push_contains(sig_names(signatures@), name);
                                    lemma_push_contains(processed, name);
                                    processed = processed.push(name);
                                }
                                signatures.push((name, vote.signature));
                                good_stake = good_stake + w;
                                proof {
                                    assert(signatures@ == pre_state.signatures.push((
                                        name,
                                        vote.signature,
                                    )));
                                    assert(sig_names(signatures@) == sig_names(
                                        pre_state.signatures,
                                    ).push(name));
                                }
                                if good_stake >= q {
                                    metrics.observe_round(
                                        signatures.len() as u64,
                                        good_stake,
                                        bad_stake,
                                    );
                                    let ghost st1 = stepped.0;
                                    proof {
                                        assert(st1.signatures == signatures@);
                                        assert(st1.good_stake == good_stake as int);
                                        assert(st1.good_stake >= committee.quorum_threshold_spec());
                                    }
                                    let formed = CertifiedTransaction::new_with_signatures(
                                        committee.epoch(),
                                        *transaction,
                                        signatures,
                                        committee,
                                    );
                                    match formed {
                                        Ok(cert) => {
                                            proof {
                                                assert(stepped.1 == Some(PtxEnd::Formed));
                                            }
                                            return Ok(cert);
                                        },
                                        Err(_) => {
                                            proof {
                                                assert(stepped.1 == Some(PtxEnd::FormationFailed));
                                            }
                                            return Err(AggregateError::InvalidCertificate);
                                        },
                                    }
                                }
                                proof {
                                    assert(stepped.1 is None);
                                    assert(stepped.0.signatures == signatures@);
                                }
                            },
                            None => {
                                proof {
                                    lemma_push_fresh_distinct(failed, name);
                                    assert(failed.push(name).drop_last() =~= failed);
                                    lemma_distinct_stake_bound(*committee, failed.push(name));
                                    crate::committee::lemma_stake_in_nonneg(
                                        committee.voting_rights@,
                                        name,
                                    );
                                    lemma_push_contains(failed, name);
                                    lemma_push_contains(processed, name);
                                    failed = failed.push(name);
                                    processed = processed.push(name);
                                }
                                errors.push(ValidatorError::UnexpectedResponse);
                                bad_stake = bad_stake + w;
                                proof {
                                    assert(errors@ == pre_state.errors.push(
                                        ValidatorError::UnexpectedResponse,
                                    ));
                                }
                                if bad_stake > v {
                                    let uniq = dedup_validator_errors(&errors);
                                    metrics.observe_round(
                                        signatures.len() as u64,
                                        good_stake,
                                        bad_stake,
                                    );
                                    if uniq.len() == 1 && good_stake == 0 {
                                        proof {
                                            assert(stepped.1 == Some(
                                                PtxEnd::SingleError(uniq@[0]),
                                            ));
                                        }
                                        return Err(AggregateError::Validator(uniq[0]));
                                    } else {
                                        proof {
                                            assert(stepped.1 == Some(
                                                PtxEnd::QuorumNotReached(uniq@),
                                            ));
                                        }
                                        return Err(AggregateError::QuorumNotReached {
                                            errors: uniq,
                                        });
                                    }
                                }
                                proof {
                                    assert(stepped.1 is None);
                                }
                            },
                        }
                    },
                }
            },
            Err(e) => {
                proof {
                    lemma_push_fresh_distinct(failed, name);
                    assert(failed.push(name).drop_last() =~= failed);
                    lemma_distinct_stake_bound(*committee, failed.push(name));
                    crate::committee::lemma_stake_in_nonneg(committee.voting_rights@, name);
                    lemma_push_contains(failed, name);
                    lemma_push_contains(processed, name);
                    failed = failed.push(name);
                    processed = processed.push(name);
                }
                errors.push(e);
                bad_stake = bad_stake + w;
                proof {
                    assert(errors@ == pre_state.errors.push(e));
                }
                if bad_stake > v {
                    let uniq = dedup_validator_errors(&errors);
                    metrics.observe_round(signatures.len() as u64, good_stake, bad_stake);
                    if uniq.len() == 1 && good_stake == 0 {
                        proof {
                            assert(stepped.1 == Some(PtxEnd::SingleError(uniq@[0])));
                        }
                        return Err(AggregateError::Validator(uniq[0]));
                    } else {
                        proof {
                            assert(stepped.1 == Some(PtxEnd::QuorumNotReached(uniq@)));
                        }
                        return Err(AggregateError::QuorumNotReached { errors: uniq });
                    }
                }
                proof {
                    assert(stepped.1 is None);
                }
            },
        }
    }
    proof {
        assert(remaining@.len() == 0);
        assert(ptx_fold(*committee, *transaction, ptx_init(), responses_view).1
            == PtxEnd::Exhausted);
    }
    Err(AggregateError::NoCertificateFormed)
}


/// Quorum safety: whenever one reducer step ends the round with a formed
/// certificate, the gathered signers are distinct, the good stake has reached
/// the quorum threshold, and the signer set's stakes sum to at least that
/// threshold — a certificate is never formed below quorum.
pub proof fn lemma_quorum_safety(
    c: Committee,
    tx: Transaction,
    st: PtxState,
    name: AuthorityName,
    raw: Result<TransactionInfoResponse, ValidatorError>,
)
    ensures
        ({
            let stepped = ptx_step(c, tx, st, name, raw);
            stepped.1 == Some(PtxEnd::Formed) ==> {
                &&& stepped.0.good_stake >= c.quorum_threshold_spec()
                &&& sig_names(stepped.0.signatures).no_duplicates()
                &&& names_stake(c, sig_names(stepped.0.signatures)) >= c.quorum_threshold_spec()
            }
        }),
{
}

// ---------------------------------------------------------------------------
// Liveness: with bounded bad stake and a quorum of clean votes, a round ends
// with a certificate.
// ---------------------------------------------------------------------------
/// The response is a clean vote: it passes the committee checks and carries a
/// signed transaction but no prior certificate.
pub open spec fn ptx_is_vote(c: Committee, tx: Transaction, r: TransactionResponse) -> bool {
    ptx_classify(c, r.0, tx.digest_spec(), r.1) matches Ok(resp) && resp.certified_transaction
        is None && resp.signed_transaction is Some
}

/// The response carries an already-formed certificate that passes the checks.
pub open spec fn ptx_is_prior(c: Committee, tx: Transaction, r: TransactionResponse) -> bool {
    ptx_classify(c, r.0, tx.digest_spec(), r.1) matches Ok(resp) && resp.certified_transaction
        is Some
}

/// Stake of the clean votes in a response sequence.
pub open spec fn vote_stake(c: Committee, tx: Transaction, responses: Seq<TransactionResponse>) -> int
    decreases responses.len(),
{
    if responses.len() == 0 {
        0
    } else {
        (if ptx_is_vote(c, tx, responses[0]) {
            c.stake_of(responses[0].0)
        } else {
            0
        }) + vote_stake(c, tx, responses.skip(1))
    }
}

/// Stake of the responses that are neither clean votes nor prior certificates.
pub open spec fn bad_stake_total(
    c: Committee,
    tx: Transaction,
    responses: Seq<TransactionResponse>,
) -> int
    decreases responses.len(),
{
    if responses.len() == 0 {
        0
    } else {
        (if !ptx_is_vote(c, tx, responses[0]) && !ptx_is_prior(c, tx, responses[0]) {
            c.stake_of(responses[0].0)
        } else {
            0
        }) + bad_stake_total(c, tx, responses.skip(1))
    }
}

/// Both tallies are non-negative.
proof fn lemma_tallies_nonneg(c: Committee, tx: Transaction, responses: Seq<TransactionResponse>)
    ensures
        vote_stake(c, tx, responses) >= 0,
        bad_stake_total(c, tx, responses) >= 0,
    decreases responses.len(),
{
    if responses.len() > 0 {
        crate::committee::lemma_stake_in_nonneg(c.voting_rights@, responses[0].0);
        lemma_tallies_nonneg(c, tx, responses.skip(1));
    }
}

/// The inductive liveness argument, generalized over a partial state: with all
/// remaining bad stake fitting under the validity threshold and enough clean
/// votes left to cross the quorum, the fold ends with a certificate.
proof fn lemma_ptx_fold_live(
    c: Committee,
    tx: Transaction,
    st: PtxState,
    rest: Seq<TransactionResponse>,
)
    requires
        c.well_formed(),
        resp_names(rest).no_duplicates(),
        forall|i: int| 0 <= i < rest.len() ==> c.contains_name((#[trigger] rest[i]).0),
        sig_names(st.signatures).no_duplicates(),
        forall|k: int|
            0 <= k < st.signatures.len() ==> {
                &&& c.contains_name((#[trigger] st.signatures[k]).0)
                &&& st.signatures[k].1.valid_for(st.signatures[k].0, c.epoch, tx.digest_spec())
            },
        st.good_stake == names_stake(c, sig_names(st.signatures)),
        st.good_stake < c.quorum_threshold_spec(),
        forall|k: int|
            0 <= k < st.signatures.len() ==> !resp_names(rest).contains(
                (#[trigger] st.signatures[k]).0,
            ),
        st.bad_stake + bad_stake_total(c, tx, rest) <= c.validity_threshold_spec(),
        st.good_stake + vote_stake(c, tx, rest) >= c.quorum_threshold_spec(),
    ensures
        ({
            let end = ptx_fold(c, tx, st, rest).1;
            end is Formed || end is Prior
        }),
    decreases rest.len(),
{
    lemma_tallies_nonneg(c, tx, rest);
    if rest.len() == 0 {
        assert(false);
    } else {
        let name = rest[0].0;
        let raw = rest[0].1;
        let stepped = ptx_step(c, tx, st, name, raw);
        lemma_tallies_nonneg(c, tx, rest.skip(1));
        crate::committee::lemma_stake_in_nonneg(c.voting_rights@, name);
        assert(resp_names(rest)[0] == name);
        assert(resp_names(rest.skip(1)) =~= resp_names(rest).skip(1));
        assert forall|k: int| 0 <= k < resp_names(rest).skip(1).len() implies #[trigger] resp_names(
            rest,
        ).skip(1)[k] == resp_names(rest)[k + 1] by {}
        if ptx_is_prior(c, tx, rest[0]) {
            assert(stepped.1 matches Some(PtxEnd::Prior(_)));
        } else if ptx_is_vote(c, tx, rest[0]) {
            let resp = ptx_classify(c, name, tx.digest_spec(), raw)->Ok_0;
            let vote = resp.signed_transaction->0;
            let st1 = stepped.0;
            assert(st1.signatures == st.signatures.push((name, vote.signature)));
            assert(!sig_names(st.signatures).contains(name)) by {
                if sig_names(st.signatures).contains(name) {
                    let k = choose|k: int|
                        0 <= k < sig_names(st.signatures).len() && sig_names(st.signatures)[k]
                            == name;
                    assert(st.signatures[k].0 == name);
                    assert(!resp_names(rest).contains(name));
                }
            };
            lemma_push_fresh_distinct(sig_names(st.signatures), name);
            lemma_names_stake_push(c, st.signatures, (name, vote.signature));
            assert(vote.signature.valid_for(name, c.epoch, tx.digest_spec()));
            if st1.good_stake >= c.quorum_threshold_spec() {
                assert(signatures_form_quorum(c, c.epoch, tx.digest_spec(), st1.signatures)) by {
                    assert forall|i: int|
                        0 <= i < st1.signatures.len() implies c.contains_name(
                        (#[trigger] st1.signatures[i]).0,
                    ) && st1.signatures[i].1.valid_for(
                        st1.signatures[i].0,
                        c.epoch,
                        tx.digest_spec(),
                    ) by {
                        if i < st.signatures.len() {
                            assert(st1.signatures[i] == st.signatures[i]);
                        }
                    }
                };
                assert(stepped.1 == Some(PtxEnd::Formed));
            } else {
                assert forall|k: int|
                    0 <= k < st1.signatures.len() implies !resp_names(rest.skip(1)).contains(
                    (#[trigger] st1.signatures[k]).0,
                ) by {
                    if k < st.signatures.len() {
                        assert(st1.signatures[k] == st.signatures[k]);
                        assert(!resp_names(rest).contains(st.signatures[k].0));
                        if resp_names(rest.skip(1)).contains(st.signatures[k].0) {
                            let t = choose|t: int|
                                0 <= t < resp_names(rest.skip(1)).len() && resp_names(
                                    rest.skip(1),
                                )[t] == st.signatures[k].0;
                            assert(resp_names(rest)[t + 1] == st.signatures[k].0);
                        }
                    } else {
                        assert(st1.signatures[k].0 == name);
                        assert(resp_names(rest).no_duplicates());
                        if resp_names(rest.skip(1)).contains(name) {
                            let t = choose|t: int|
                                0 <= t < resp_names(rest.skip(1)).len() && resp_names(
                                    rest.skip(1),
                                )[t] == name;
                            assert(resp_names(rest)[t + 1] == name);
                        }
                    }
                }
                assert forall|i: int| 0 <= i < rest.skip(1).len() implies c.contains_name(
                    (#[trigger] rest.skip(1)[i]).0,
                ) by {
                    assert(rest.skip(1)[i] == rest[i + 1]);
                }
                lemma_ptx_fold_live(c, tx, st1, rest.skip(1));
            }
        } else {
            // a failure: the bad tally stays at or under the validity threshold
            let st1 = stepped.0;
            assert(st1.signatures == st.signatures);
            assert(st1.good_stake == st.good_stake);
            assert(st1.bad_stake == st.bad_stake + c.stake_of(name));
            assert(st1.bad_stake <= c.validity_threshold_spec());
            assert(stepped.1 is None);
            assert forall|k: int|
                0 <= k < st1.signatures.len() implies !resp_names(rest.skip(1)).contains(
                (#[trigger] st1.signatures[k]).0,
            ) by {
                assert(!resp_names(rest).contains(st.signatures[k].0));
                if resp_names(rest.skip(1)).contains(st.signatures[k].0) {
                    let t = choose|t: int|
                        0 <= t < resp_names(rest.skip(1)).len() && resp_names(rest.skip(1))[t]
                            == st.signatures[k].0;
                    assert(resp_names(rest)[t + 1] == st.signatures[k].0);
                }
            }
            assert forall|i: int| 0 <= i < rest.skip(1).len() implies c.contains_name(
                (#[trigger] rest.skip(1)[i]).0,
            ) by {
                assert(rest.skip(1)[i] == rest[i + 1]);
            }
            lemma_ptx_fold_live(c, tx, st1, rest.skip(1));
        }
    }
}

/// Liveness under bounded faults: when every responder is a committee member,
/// no two responses share a name, the stake of the useless answers stays at or
/// under the validity threshold, and the clean votes carry at least a quorum
/// of stake, gathering votes ends with a certificate — formed from the votes,
/// or found ready-made.
pub proof fn lemma_process_transaction_liveness(
    c: Committee,
    tx: Transaction,
    responses: Seq<TransactionResponse>,
)
    requires
        c.well_formed(),
        resp_names(responses).no_duplicates(),
        forall|i: int| 0 <= i < responses.len() ==> c.contains_name((#[trigger] responses[i]).0),
        bad_stake_total(c, tx, responses) <= c.validity_threshold_spec(),
        vote_stake(c, tx, responses) >= c.quorum_threshold_spec(),
    ensures
        ({
            let end = ptx_fold(c, tx, ptx_init(), responses).1;
            end is Formed || end is Prior
        }),
{
    crate::committee::lemma_thresholds(c);
    lemma_ptx_fold_live(c, tx, ptx_init(), responses);
}

} // verus!
