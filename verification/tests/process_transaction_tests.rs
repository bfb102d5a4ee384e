use authority_agg::certs::check_quorum_signatures;
use authority_agg::committee::Committee;
use authority_agg::error::{AggregateError, ValidatorError};
use authority_agg::messages::{
    AuthoritySignature, CertifiedTransaction, SignedTransaction, Transaction,
    TransactionInfoResponse,
};
use authority_agg::metrics::AuthAggMetrics;
use authority_agg::process_tx::process_transaction;

fn committee_of_four() -> Committee {
    Committee::new(1, vec![(1, 1), (2, 1), (3, 1), (4, 1)]).unwrap()
}

fn tx() -> Transaction {
    Transaction { data: 77, user_signature: 5 }
}

fn vote(name: u64, epoch: u64, t: Transaction) -> (u64, Result<TransactionInfoResponse, ValidatorError>) {
    let st = SignedTransaction {
        transaction: t,
        signature: AuthoritySignature { signer: name, epoch, signed_digest: t.data },
    };
    (
        name,
        Ok(TransactionInfoResponse {
            signed_transaction: Some(st),
            certified_transaction: None,
            signed_effects: None,
        }),
    )
}

// Happy path: all four sign; the certificate forms after three signatures and
// the metrics observe three signatures and three units of good stake.
#[test]
fn happy_path_forms_certificate_after_three_votes() {
    let c = committee_of_four();
    let t = tx();
    let mut metrics = AuthAggMetrics::new_for_tests();
    let responses = vec![vote(1, 1, t), vote(2, 1, t), vote(3, 1, t), vote(4, 1, t)];
    let cert = process_transaction(&c, &t, responses, &mut metrics).unwrap();
    assert_eq!(cert.signatures.len(), 3);
    assert_eq!(cert.epoch, 1);
    assert_eq!(cert.transaction, t);
    assert!(check_quorum_signatures(&c, cert.epoch, t.digest(), &cert.signatures));
    assert_eq!(metrics.num_signatures, vec![3]);
    assert_eq!(metrics.num_good_stake, vec![3]);
    assert_eq!(metrics.num_bad_stake, vec![0]);
    assert_eq!(metrics.total_tx_certificates_created, 0);
}

// One silent validator: D never responds, so it simply never appears; the
// certificate still forms and no error is left behind.
#[test]
fn one_silent_validator_still_reaches_quorum() {
    let c = committee_of_four();
    let t = tx();
    let mut metrics = AuthAggMetrics::new_for_tests();
    let responses = vec![vote(1, 1, t), vote(2, 1, t), vote(3, 1, t)];
    let cert = process_transaction(&c, &t, responses, &mut metrics).unwrap();
    assert_eq!(cert.signatures.len(), 3);
    assert_eq!(metrics.num_bad_stake, vec![0]);
}

// One Byzantine vote: D signs with the wrong epoch and is rejected as a
// Byzantine suspicion; the other three still form the certificate.
#[test]
fn one_byzantine_vote_is_rejected_and_quorum_still_forms() {
    let c = committee_of_four();
    let t = tx();
    let mut metrics = AuthAggMetrics::new_for_tests();
    let responses = vec![vote(4, 9, t), vote(1, 1, t), vote(2, 1, t), vote(3, 1, t)];
    let cert = process_transaction(&c, &t, responses, &mut metrics).unwrap();
    assert_eq!(cert.signatures.len(), 3);
    assert_eq!(metrics.num_good_stake, vec![3]);
    assert_eq!(metrics.num_bad_stake, vec![1]);
}

// No quorum: two validators return one lock error, two another; bad stake
// exceeds the validity threshold and both distinct errors are reported.
#[test]
fn no_quorum_reports_distinct_errors() {
    let c = committee_of_four();
    let t = tx();
    let mut metrics = AuthAggMetrics::new_for_tests();
    let e1 = ValidatorError::ObjectErrors { object_id: 1 };
    let e2 = ValidatorError::ObjectErrors { object_id: 2 };
    let responses = vec![(1, Err(e1)), (2, Err(e1)), (3, Err(e2)), (4, Err(e2))];
    let r = process_transaction(&c, &t, responses, &mut metrics);
    match r {
        Err(AggregateError::QuorumNotReached { errors }) => {
            assert_eq!(errors, vec![e1, e2]);
        },
        other => panic!("expected QuorumNotReached, got {:?}", other),
    }
}

// Single-error shortcut: every validator returns the identical failure and
// nothing voted, so the singular error is surfaced verbatim.
#[test]
fn identical_errors_surface_verbatim() {
    let c = committee_of_four();
    let t = tx();
    let mut metrics = AuthAggMetrics::new_for_tests();
    let e = ValidatorError::ObjectNotFound { object_id: 7 };
    let responses = vec![(1, Err(e)), (2, Err(e)), (3, Err(e)), (4, Err(e))];
    let r = process_transaction(&c, &t, responses, &mut metrics);
    assert_eq!(r, Err(AggregateError::Validator(e)));
}

// A ready-made certificate from any validator ends the round at once.
#[test]
fn prior_certificate_short_circuits() {
    let c = committee_of_four();
    let t = tx();
    let mut metrics = AuthAggMetrics::new_for_tests();
    let sig = |signer: u64| AuthoritySignature { signer, epoch: 1, signed_digest: t.data };
    let prior = CertifiedTransaction {
        epoch: 1,
        transaction: t,
        signatures: vec![(1, sig(1)), (2, sig(2)), (3, sig(3))],
    };
    let responses = vec![(
        2,
        Ok(TransactionInfoResponse {
            signed_transaction: None,
            certified_transaction: Some(prior.clone()),
            signed_effects: None,
        }),
    )];
    let r = process_transaction(&c, &t, responses, &mut metrics).unwrap();
    assert_eq!(r, prior);
    // finding a certificate observes nothing
    assert_eq!(metrics.num_signatures.len(), 0);
}

#[test]
fn exhausted_responses_mean_no_certificate() {
    let c = committee_of_four();
    let t = tx();
    let mut metrics = AuthAggMetrics::new_for_tests();
    let r = process_transaction(&c, &t, vec![vote(1, 1, t)], &mut metrics);
    assert_eq!(r, Err(AggregateError::NoCertificateFormed));
}

#[test]
fn certificate_formation_rejects_thin_signature_bags() {
    let c = committee_of_four();
    let t = tx();
    let sig = |signer: u64| AuthoritySignature { signer, epoch: 1, signed_digest: t.data };
    let r = CertifiedTransaction::new_with_signatures(1, t, vec![(1, sig(1)), (2, sig(2))], &c);
    assert_eq!(r, Err(AggregateError::InvalidCertificate));
    let ok = CertifiedTransaction::new_with_signatures(
        1,
        t,
        vec![(1, sig(1)), (2, sig(2)), (3, sig(3))],
        &c,
    );
    assert!(ok.is_ok());
}
