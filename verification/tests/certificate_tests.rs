use authority_agg::aggregator::AuthorityAggregator;
use authority_agg::committee::Committee;
use authority_agg::error::{AggregateError, ValidatorError};
use authority_agg::messages::{
    AccountInfoResponse, AuthoritySignature, CertifiedTransaction, CheckpointRequest,
    CheckpointResponse, ObjectInfoResponse, SignedTransactionEffects, Transaction,
    TransactionEffects, TransactionInfoResponse,
};
use authority_agg::metrics::AuthAggMetrics;
use authority_agg::process_cert::{execute_cert_to_true_effects, process_certificate};
use authority_agg::process_tx::process_transaction;
use authority_agg::safe_client::AuthorityApi;

fn committee_of_four() -> Committee {
    Committee::new(1, vec![(1, 1), (2, 1), (3, 1), (4, 1)]).unwrap()
}

fn tx() -> Transaction {
    Transaction { data: 77, user_signature: 5 }
}

fn cert_of_four() -> CertifiedTransaction {
    let t = tx();
    let sig = |signer: u64| AuthoritySignature { signer, epoch: 1, signed_digest: t.data };
    CertifiedTransaction {
        epoch: 1,
        transaction: t,
        signatures: vec![(1, sig(1)), (2, sig(2)), (3, sig(3))],
    }
}

fn effects(digest: u64) -> TransactionEffects {
    TransactionEffects {
        transaction_digest: tx().data,
        digest,
        created: vec![],
        mutated: vec![],
        deleted: vec![],
        dependencies: vec![],
    }
}

fn effects_response(
    name: u64,
    digest: u64,
) -> (u64, Result<TransactionInfoResponse, ValidatorError>) {
    let se = SignedTransactionEffects {
        effects: effects(digest),
        signature: AuthoritySignature { signer: name, epoch: 1, signed_digest: digest },
    };
    (
        name,
        Ok(TransactionInfoResponse {
            signed_transaction: None,
            certified_transaction: None,
            signed_effects: Some(se),
        }),
    )
}

#[test]
fn certificate_quorum_on_one_digest_forms_certified_effects() {
    let c = committee_of_four();
    let cert = cert_of_four();
    let responses = vec![
        effects_response(1, 500),
        effects_response(2, 500),
        effects_response(3, 500),
    ];
    let ce = process_certificate(&c, &cert, responses).unwrap();
    assert_eq!(ce.effects.digest, 500);
    assert_eq!(ce.signatures.len(), 3);
    assert_eq!(ce.epoch, 1);
}

// Re-running the certificate yields the same effects digest, here with the
// responses arriving in a different order.
#[test]
fn rerun_yields_same_effects_digest() {
    let c = committee_of_four();
    let cert = cert_of_four();
    let first = process_certificate(
        &c,
        &cert,
        vec![effects_response(1, 500), effects_response(2, 500), effects_response(3, 500)],
    )
    .unwrap();
    let second = process_certificate(
        &c,
        &cert,
        vec![
            effects_response(3, 500),
            effects_response(4, 500),
            effects_response(2, 500),
            effects_response(1, 500),
        ],
    )
    .unwrap();
    assert_eq!(first.effects.digest, second.effects.digest);
}

#[test]
fn split_digests_fail_to_certify() {
    let c = committee_of_four();
    let cert = cert_of_four();
    let responses = vec![
        effects_response(1, 500),
        effects_response(2, 500),
        effects_response(3, 600),
        effects_response(4, 600),
    ];
    let r = process_certificate(&c, &cert, responses);
    match r {
        Err(AggregateError::QuorumFailedToExecuteCertificate { errors }) => {
            assert_eq!(errors.len(), 0);
        },
        other => panic!("expected QuorumFailedToExecuteCertificate, got {:?}", other),
    }
}

#[test]
fn too_many_bad_responses_fail_the_certificate() {
    let c = committee_of_four();
    let cert = cert_of_four();
    let e = ValidatorError::RpcFailure { code: 9 };
    let responses = vec![(1, Err(e)), (2, Err(e)), (3, Err(e))];
    let r = process_certificate(&c, &cert, responses);
    match r {
        Err(AggregateError::QuorumFailedToExecuteCertificate { errors }) => {
            assert_eq!(errors, vec![e, e, e]);
        },
        other => panic!("expected QuorumFailedToExecuteCertificate, got {:?}", other),
    }
}

// The true effects are settled by the first digest that reaches the validity
// threshold: two matching answers of stake one each suffice out of four.
#[test]
fn true_effects_settle_at_validity_threshold() {
    let c = committee_of_four();
    let cert = cert_of_four();
    let responses = vec![
        effects_response(2, 500),
        effects_response(3, 500),
        effects_response(4, 600),
    ];
    let se = execute_cert_to_true_effects(&c, &cert, responses).unwrap();
    assert_eq!(se.effects.digest, 500);
}

#[test]
fn true_effects_fail_when_threshold_unreachable() {
    let c = committee_of_four();
    let cert = cert_of_four();
    let e = ValidatorError::RpcFailure { code: 3 };
    let responses = vec![(1, Err(e)), (2, Err(e)), (3, Err(e))];
    let r = execute_cert_to_true_effects(&c, &cert, responses);
    match r {
        Err(AggregateError::TooManyIncorrectAuthorities { errors }) => {
            assert_eq!(errors, vec![(1, e), (2, e), (3, e)]);
        },
        other => panic!("expected TooManyIncorrectAuthorities, got {:?}", other),
    }
}

#[derive(Clone)]
struct UnreachableApi;

impl AuthorityApi for UnreachableApi {
    fn handle_transaction(
        &mut self,
        _transaction: &Transaction,
    ) -> Result<TransactionInfoResponse, ValidatorError> {
        Err(ValidatorError::TimeoutError)
    }

    fn handle_certificate(
        &mut self,
        _certificate: &CertifiedTransaction,
    ) -> Result<TransactionInfoResponse, ValidatorError> {
        Err(ValidatorError::TimeoutError)
    }

    fn handle_transaction_info_request(
        &mut self,
        _digest: u64,
    ) -> Result<TransactionInfoResponse, ValidatorError> {
        Err(ValidatorError::TimeoutError)
    }

    fn handle_object_info_request(
        &mut self,
        _object_id: u64,
    ) -> Result<ObjectInfoResponse, ValidatorError> {
        Err(ValidatorError::TimeoutError)
    }

    fn handle_account_info_request(
        &mut self,
        _address: u64,
    ) -> Result<AccountInfoResponse, ValidatorError> {
        Err(ValidatorError::TimeoutError)
    }

    fn handle_checkpoint(
        &mut self,
        _request: &CheckpointRequest,
    ) -> Result<CheckpointResponse, ValidatorError> {
        Err(ValidatorError::TimeoutError)
    }

    fn handle_transaction_and_effects_info_request(
        &mut self,
        _digests: authority_agg::base_types::ExecutionDigests,
    ) -> Result<TransactionInfoResponse, ValidatorError> {
        Err(ValidatorError::TimeoutError)
    }
}

fn aggregator_of_four() -> AuthorityAggregator<UnreachableApi> {
    AuthorityAggregator::new(
        committee_of_four(),
        vec![
            (1, UnreachableApi),
            (2, UnreachableApi),
            (3, UnreachableApi),
            (4, UnreachableApi),
        ],
        AuthAggMetrics::new_for_tests(),
    )
}

fn vote(name: u64, t: Transaction) -> (u64, Result<TransactionInfoResponse, ValidatorError>) {
    let st = authority_agg::messages::SignedTransaction {
        transaction: t,
        signature: AuthoritySignature { signer: name, epoch: 1, signed_digest: t.data },
    };
    (
        name,
        Ok(TransactionInfoResponse {
            signed_transaction: Some(st),
            certified_transaction: None,
            signed_effects: None,
        }),
    )
}

// Gathering votes and executing the certificate in one call behaves exactly
// like the two phases run separately, and the certificate counter moves once.
#[test]
fn execute_transaction_equals_both_phases_with_one_count() {
    let t = tx();
    let tx_responses = vec![vote(1, t), vote(2, t), vote(3, t)];
    let cert_responses = vec![
        effects_response(1, 500),
        effects_response(2, 500),
        effects_response(3, 500),
    ];

    let mut combined = aggregator_of_four();
    let (cert_a, effects_a) = combined
        .execute_transaction(&t, tx_responses.clone(), cert_responses.clone())
        .unwrap();
    assert_eq!(combined.metrics.total_tx_certificates_created, 1);

    let c = committee_of_four();
    let mut metrics = AuthAggMetrics::new_for_tests();
    let cert_b = process_transaction(&c, &t, tx_responses, &mut metrics).unwrap();
    let effects_b = process_certificate(&c, &cert_b, cert_responses).unwrap();
    assert_eq!(cert_a, cert_b);
    assert_eq!(effects_a, effects_b);
}

#[test]
fn failed_vote_phase_leaves_counter_untouched() {
    let t = tx();
    let e = ValidatorError::ObjectNotFound { object_id: 7 };
    let mut agg = aggregator_of_four();
    let r = agg.execute_transaction(
        &t,
        vec![(1, Err(e)), (2, Err(e)), (3, Err(e))],
        vec![],
    );
    assert_eq!(r, Err(AggregateError::Validator(e)));
    assert_eq!(agg.metrics.total_tx_certificates_created, 0);
}

#[test]
fn clone_inner_clients_keeps_the_names() {
    let agg = aggregator_of_four();
    let inner = agg.clone_inner_clients();
    let names: Vec<u64> = inner.iter().map(|p| p.0).collect();
    assert_eq!(names, vec![1, 2, 3, 4]);
    let client = agg.clone_client(&3);
    assert_eq!(client.authority, 3);
}
