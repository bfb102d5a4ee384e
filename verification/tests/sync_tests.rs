use authority_agg::committee::Committee;
use authority_agg::error::{AggregateError, ValidatorError};
use authority_agg::hedged::{
    hedged_timeout_error, next_delay, HedgedAction, HedgedEvent, HedgedState,
};
use authority_agg::messages::{
    AccountInfoResponse, AuthoritySignature, CertifiedTransaction, CheckpointRequest,
    CheckpointResponse, ObjectInfoResponse, SignedTransactionEffects, Transaction,
    TransactionEffects, TransactionInfoResponse,
};
use authority_agg::safe_client::{AuthorityApi, SafeClient};
use authority_agg::sync::{
    process_certificate_on_authority, select_sync_sources, sync_authority_source_to_destination,
    CertificateHandler, RemoteCertificateHandler,
};
use std::sync::{Arc, Mutex};

fn committee_of_four() -> Committee {
    Committee::new(1, vec![(1, 1), (2, 1), (3, 1), (4, 1)]).unwrap()
}

fn sig(signer: u64, digest: u64) -> AuthoritySignature {
    AuthoritySignature { signer, epoch: 1, signed_digest: digest }
}

fn cert(data: u64) -> CertifiedTransaction {
    CertifiedTransaction {
        epoch: 1,
        transaction: Transaction { data, user_signature: 0 },
        signatures: vec![(1, sig(1, data)), (2, sig(2, data)), (3, sig(3, data))],
    }
}

fn effects_with_deps(tx_digest: u64, digest: u64, deps: Vec<u64>) -> TransactionEffects {
    TransactionEffects {
        transaction_digest: tx_digest,
        digest,
        created: vec![],
        mutated: vec![],
        deleted: vec![],
        dependencies: deps,
    }
}

/// A source validator that knows the whole causal history: for each digest, a
/// certificate and its effects (with dependencies).
struct SourceValidator {
    name: u64,
    certs: Vec<(u64, CertifiedTransaction)>,
    effects: Vec<(u64, TransactionEffects)>,
}

impl SourceValidator {
    fn info_for(&self, digest: u64) -> Result<TransactionInfoResponse, ValidatorError> {
        let cert = self.certs.iter().find(|p| p.0 == digest).map(|p| p.1.clone());
        let fx = self.effects.iter().find(|p| p.0 == digest).map(|p| p.1.clone());
        let signed_effects = fx.map(|effects| SignedTransactionEffects {
            signature: sig(self.name, effects.digest),
            effects,
        });
        Ok(TransactionInfoResponse {
            signed_transaction: None,
            certified_transaction: cert,
            signed_effects,
        })
    }
}

impl AuthorityApi for SourceValidator {
    fn handle_transaction(
        &mut self,
        _transaction: &Transaction,
    ) -> Result<TransactionInfoResponse, ValidatorError> {
        Err(ValidatorError::UnexpectedResponse)
    }

    fn handle_certificate(
        &mut self,
        certificate: &CertifiedTransaction,
    ) -> Result<TransactionInfoResponse, ValidatorError> {
        self.info_for(certificate.transaction.data)
    }

    fn handle_transaction_info_request(
        &mut self,
        digest: u64,
    ) -> Result<TransactionInfoResponse, ValidatorError> {
        self.info_for(digest)
    }

    fn handle_object_info_request(
        &mut self,
        _object_id: u64,
    ) -> Result<ObjectInfoResponse, ValidatorError> {
        Err(ValidatorError::UnexpectedResponse)
    }

    fn handle_account_info_request(
        &mut self,
        _address: u64,
    ) -> Result<AccountInfoResponse, ValidatorError> {
        Err(ValidatorError::UnexpectedResponse)
    }

    fn handle_checkpoint(
        &mut self,
        _request: &CheckpointRequest,
    ) -> Result<CheckpointResponse, ValidatorError> {
        Err(ValidatorError::UnexpectedResponse)
    }

    fn handle_transaction_and_effects_info_request(
        &mut self,
        digests: authority_agg::base_types::ExecutionDigests,
    ) -> Result<TransactionInfoResponse, ValidatorError> {
        self.info_for(digests.transaction)
    }
}

/// A destination that never accepts anything, always reporting stale locks.
struct NeverAccepts;

impl CertificateHandler for NeverAccepts {
    fn handle(
        &mut self,
        certificate: &CertifiedTransaction,
    ) -> Result<TransactionInfoResponse, ValidatorError> {
        Err(ValidatorError::ObjectErrors { object_id: certificate.transaction.data })
    }

    fn destination_name(&self) -> u64 {
        4
    }
}

/// A lagging destination: it accepts a certificate only once every dependency
/// of that certificate has been applied, and records the application order.
struct LaggingDestination {
    deps: Vec<(u64, Vec<u64>)>,
    applied: Vec<u64>,
}

impl CertificateHandler for LaggingDestination {
    fn handle(
        &mut self,
        certificate: &CertifiedTransaction,
    ) -> Result<TransactionInfoResponse, ValidatorError> {
        let digest = certificate.transaction.data;
        let needed: Vec<u64> = self
            .deps
            .iter()
            .find(|p| p.0 == digest)
            .map(|p| p.1.clone())
            .unwrap_or_default();
        if needed.iter().all(|d| self.applied.contains(d)) {
            if !self.applied.contains(&digest) {
                self.applied.push(digest);
            }
            Ok(TransactionInfoResponse {
                signed_transaction: None,
                certified_transaction: None,
                signed_effects: None,
            })
        } else {
            Err(ValidatorError::ObjectErrors { object_id: digest })
        }
    }

    fn destination_name(&self) -> u64 {
        4
    }
}

// Sync lag: the destination rejects the certificate until its dependency is
// applied; the walk fetches the dependency from the source, applies it first,
// then the certificate, transparently for the caller.
#[test]
fn sync_applies_dependency_before_certificate() {
    let main_cert = cert(100);
    let dep_cert = cert(90);
    let source = SourceValidator {
        name: 1,
        certs: vec![(100, main_cert.clone()), (90, dep_cert.clone())],
        effects: vec![
            (100, effects_with_deps(100, 1100, vec![90])),
            (90, effects_with_deps(90, 1090, vec![])),
        ],
    };
    let mut source_client = SafeClient::new(source, committee_of_four(), 1);
    let mut dest = LaggingDestination { deps: vec![(100, vec![90])], applied: vec![] };
    let report =
        sync_authority_source_to_destination(&mut source_client, &mut dest, main_cert.clone(), 64)
            .unwrap();
    assert_eq!(report.applied, vec![90, 100]);
    assert_eq!(dest.applied, vec![90, 100]);
    // the destination now accepts the certificate directly
    assert!(dest.handle(&main_cert).is_ok());
}

#[test]
fn sync_gives_up_after_second_attempt_on_same_certificate() {
    let main_cert = cert(100);
    // the source claims the certificate depends on itself being retried
    let source = SourceValidator {
        name: 1,
        certs: vec![(100, main_cert.clone())],
        effects: vec![(100, effects_with_deps(100, 1100, vec![]))],
    };
    let mut source_client = SafeClient::new(source, committee_of_four(), 1);
    let mut dest = NeverAccepts;
    let r = sync_authority_source_to_destination(&mut source_client, &mut dest, main_cert, 64);
    assert_eq!(r.err().unwrap(), AggregateError::AuthorityInformationUnavailable);
}

#[test]
fn sync_budget_exhaustion_is_a_timeout() {
    let main_cert = cert(100);
    let source = SourceValidator { name: 1, certs: vec![], effects: vec![] };
    let mut source_client = SafeClient::new(source, committee_of_four(), 1);
    let mut dest = NeverAccepts;
    let r = sync_authority_source_to_destination(&mut source_client, &mut dest, main_cert, 0);
    assert_eq!(r.err().unwrap(), AggregateError::TimeoutError);
}

#[test]
fn sync_sources_are_distinct_signers() {
    let c = committee_of_four();
    let the_cert = cert(100);
    let sources = select_sync_sources(&c, &the_cert, 4).unwrap();
    assert!(sources.len() <= 3);
    let mut sorted = sources.clone();
    sorted.sort();
    sorted.dedup();
    assert_eq!(sorted.len(), sources.len());
    for s in &sources {
        assert!([1u64, 2, 3].contains(s));
    }
}

// The hedge: every event — timer or failure — dispatches the next validator in
// shuffle order, so k healthy validators are reached within k events; an
// exhausted round backs off with a doubled, capped delay.
#[test]
fn hedged_driver_dispatches_on_every_event() {
    let mut st = HedgedState::new(vec![7, 8, 9]);
    match st.step(HedgedEvent::TimerFired) {
        HedgedAction::Dispatch(n) => assert_eq!(n, 7),
        _ => panic!("expected a dispatch"),
    }
    match st.step(HedgedEvent::RequestFailed(7, ValidatorError::TimeoutError)) {
        HedgedAction::Dispatch(n) => assert_eq!(n, 8),
        _ => panic!("expected a dispatch"),
    }
    match st.step(HedgedEvent::TimerFired) {
        HedgedAction::Dispatch(n) => assert_eq!(n, 9),
        _ => panic!("expected a dispatch"),
    }
    match st.step(HedgedEvent::RequestFailed(9, ValidatorError::TimeoutError)) {
        HedgedAction::RestartRound(d) => assert_eq!(d, 1000),
        _ => panic!("expected a restart"),
    }
    assert_eq!(st.delay_ms, 2000);
    assert_eq!(st.errors, vec![(7, ValidatorError::TimeoutError), (9, ValidatorError::TimeoutError)]);
    st.begin_round(vec![9, 7, 8]);
    match st.step(HedgedEvent::TimerFired) {
        HedgedAction::Dispatch(n) => assert_eq!(n, 9),
        _ => panic!("expected a dispatch"),
    }
}

#[test]
fn hedged_errors_keep_the_latest_per_validator() {
    let mut st = HedgedState::new(vec![7, 8]);
    let _ = st.step(HedgedEvent::RequestFailed(7, ValidatorError::TimeoutError));
    let _ = st.step(HedgedEvent::RequestFailed(7, ValidatorError::RpcFailure { code: 3 }));
    assert_eq!(st.errors, vec![(7, ValidatorError::RpcFailure { code: 3 })]);
}

#[test]
fn backoff_doubles_and_caps() {
    assert_eq!(next_delay(1000), 2000);
    assert_eq!(next_delay(200000), 300000);
    assert_eq!(next_delay(300000), 300000);
}

#[test]
fn total_timeout_classification() {
    assert_eq!(hedged_timeout_error(vec![]), AggregateError::TimeoutError);
    let errs = vec![(1, ValidatorError::TimeoutError)];
    match hedged_timeout_error(errs.clone()) {
        AggregateError::TooManyIncorrectAuthorities { errors } => assert_eq!(errors, errs),
        other => panic!("expected TooManyIncorrectAuthorities, got {:?}", other),
    }
}


/// A lagging validator behind the raw RPC surface, with its applied list
/// shared so the test can observe it.
struct LaggingValidatorApi {
    deps: Vec<(u64, Vec<u64>)>,
    applied: Arc<Mutex<Vec<u64>>>,
}

impl AuthorityApi for LaggingValidatorApi {
    fn handle_transaction(
        &mut self,
        _transaction: &Transaction,
    ) -> Result<TransactionInfoResponse, ValidatorError> {
        Err(ValidatorError::UnexpectedResponse)
    }

    fn handle_certificate(
        &mut self,
        certificate: &CertifiedTransaction,
    ) -> Result<TransactionInfoResponse, ValidatorError> {
        let digest = certificate.transaction.data;
        let needed: Vec<u64> = self
            .deps
            .iter()
            .find(|p| p.0 == digest)
            .map(|p| p.1.clone())
            .unwrap_or_default();
        let mut applied = self.applied.lock().unwrap();
        if needed.iter().all(|d| applied.contains(d)) {
            if !applied.contains(&digest) {
                applied.push(digest);
            }
            Ok(TransactionInfoResponse {
                signed_transaction: None,
                certified_transaction: None,
                signed_effects: None,
            })
        } else {
            Err(ValidatorError::ObjectErrors { object_id: digest })
        }
    }

    fn handle_transaction_info_request(
        &mut self,
        _digest: u64,
    ) -> Result<TransactionInfoResponse, ValidatorError> {
        Err(ValidatorError::UnexpectedResponse)
    }

    fn handle_object_info_request(
        &mut self,
        _object_id: u64,
    ) -> Result<ObjectInfoResponse, ValidatorError> {
        Err(ValidatorError::UnexpectedResponse)
    }

    fn handle_account_info_request(
        &mut self,
        _address: u64,
    ) -> Result<AccountInfoResponse, ValidatorError> {
        Err(ValidatorError::UnexpectedResponse)
    }

    fn handle_checkpoint(
        &mut self,
        _request: &authority_agg::messages::CheckpointRequest,
    ) -> Result<CheckpointResponse, ValidatorError> {
        Err(ValidatorError::UnexpectedResponse)
    }

    fn handle_transaction_and_effects_info_request(
        &mut self,
        _digests: authority_agg::base_types::ExecutionDigests,
    ) -> Result<TransactionInfoResponse, ValidatorError> {
        Err(ValidatorError::UnexpectedResponse)
    }
}

// The recovery ladder of certificate processing: the lagging validator rejects
// the certificate with a stale object lock, the ladder syncs it forward from a
// signer and the retry succeeds, transparently for the caller.
#[test]
fn ladder_syncs_lagging_validator_and_retries() {
    let main_cert = cert(100);
    let dep_cert = cert(90);
    let applied = Arc::new(Mutex::new(Vec::new()));
    let dest_api = LaggingValidatorApi {
        deps: vec![(100, vec![90])],
        applied: applied.clone(),
    };
    let mut handler = RemoteCertificateHandler {
        destination_authority: 4,
        destination_client: SafeClient::new(dest_api, committee_of_four(), 4),
    };
    let source = SourceValidator {
        name: 1,
        certs: vec![(100, main_cert.clone()), (90, dep_cert)],
        effects: vec![
            (100, effects_with_deps(100, 1100, vec![90])),
            (90, effects_with_deps(90, 1090, vec![])),
        ],
    };
    let sources = vec![(1u64, SafeClient::new(source, committee_of_four(), 1))];
    let outcome = process_certificate_on_authority(&main_cert, 4, &mut handler, sources, 64);
    assert!(outcome.response.is_ok());
    assert_eq!(outcome.sources.len(), 1);
    assert!(outcome.pairwise_reports.is_empty());
    match outcome.path {
        authority_agg::sync::LadderPath::RetriedAfterSync(report) => {
            assert_eq!(report.applied, vec![90, 100]);
        },
        _ => panic!("expected a sync followed by a retry"),
    }
    assert_eq!(*applied.lock().unwrap(), vec![90, 100]);
}

/// One validator of a four-member test cluster: a source holding history, or a
/// lagging destination sharing its applied list with the test.
#[derive(Clone)]
enum ClusterApi {
    Source {
        name: u64,
        certs: Vec<(u64, CertifiedTransaction)>,
        effects: Vec<(u64, TransactionEffects)>,
    },
    Lagging {
        deps: Vec<(u64, Vec<u64>)>,
        applied: Arc<Mutex<Vec<u64>>>,
    },
}

impl ClusterApi {
    fn info_for(
        name: u64,
        certs: &[(u64, CertifiedTransaction)],
        effects: &[(u64, TransactionEffects)],
        digest: u64,
    ) -> Result<TransactionInfoResponse, ValidatorError> {
        let certified = certs.iter().find(|p| p.0 == digest).map(|p| p.1.clone());
        let fx = effects.iter().find(|p| p.0 == digest).map(|p| p.1.clone());
        let signed_effects = fx.map(|effects| SignedTransactionEffects {
            signature: sig(name, effects.digest),
            effects,
        });
        Ok(TransactionInfoResponse {
            signed_transaction: None,
            certified_transaction: certified,
            signed_effects,
        })
    }

    fn apply(
        deps: &[(u64, Vec<u64>)],
        applied: &Arc<Mutex<Vec<u64>>>,
        digest: u64,
    ) -> Result<TransactionInfoResponse, ValidatorError> {
        let needed: Vec<u64> = deps
            .iter()
            .find(|p| p.0 == digest)
            .map(|p| p.1.clone())
            .unwrap_or_default();
        let mut log = applied.lock().unwrap();
        if needed.iter().all(|d| log.contains(d)) {
            if !log.contains(&digest) {
                log.push(digest);
            }
            Ok(TransactionInfoResponse {
                signed_transaction: None,
                certified_transaction: None,
                signed_effects: None,
            })
        } else {
            Err(ValidatorError::ObjectErrors { object_id: digest })
        }
    }
}

impl AuthorityApi for ClusterApi {
    fn handle_transaction(
        &mut self,
        _transaction: &Transaction,
    ) -> Result<TransactionInfoResponse, ValidatorError> {
        Err(ValidatorError::UnexpectedResponse)
    }

    fn handle_certificate(
        &mut self,
        certificate: &CertifiedTransaction,
    ) -> Result<TransactionInfoResponse, ValidatorError> {
        match self {
            ClusterApi::Source { name, certs, effects } => {
                ClusterApi::info_for(*name, certs, effects, certificate.transaction.data)
            },
            ClusterApi::Lagging { deps, applied } => {
                ClusterApi::apply(deps, applied, certificate.transaction.data)
            },
        }
    }

    fn handle_transaction_info_request(
        &mut self,
        digest: u64,
    ) -> Result<TransactionInfoResponse, ValidatorError> {
        match self {
            ClusterApi::Source { name, certs, effects } => {
                ClusterApi::info_for(*name, certs, effects, digest)
            },
            ClusterApi::Lagging { .. } => Err(ValidatorError::UnexpectedResponse),
        }
    }

    fn handle_object_info_request(
        &mut self,
        _object_id: u64,
    ) -> Result<ObjectInfoResponse, ValidatorError> {
        Err(ValidatorError::UnexpectedResponse)
    }

    fn handle_account_info_request(
        &mut self,
        _address: u64,
    ) -> Result<AccountInfoResponse, ValidatorError> {
        Err(ValidatorError::UnexpectedResponse)
    }

    fn handle_checkpoint(
        &mut self,
        _request: &CheckpointRequest,
    ) -> Result<CheckpointResponse, ValidatorError> {
        Err(ValidatorError::UnexpectedResponse)
    }

    fn handle_transaction_and_effects_info_request(
        &mut self,
        _digests: authority_agg::base_types::ExecutionDigests,
    ) -> Result<TransactionInfoResponse, ValidatorError> {
        Err(ValidatorError::UnexpectedResponse)
    }
}

fn cluster_with_lagging_destination(
    dep_of_100: Vec<u64>,
    applied: Arc<Mutex<Vec<u64>>>,
) -> authority_agg::aggregator::AuthorityAggregator<ClusterApi> {
    let history_certs = vec![(100, cert(100)), (90, cert(90))];
    let history_effects = vec![
        (100, effects_with_deps(100, 1100, vec![90])),
        (90, effects_with_deps(90, 1090, vec![])),
    ];
    let source = |name: u64| ClusterApi::Source {
        name,
        certs: history_certs.clone(),
        effects: history_effects.clone(),
    };
    authority_agg::aggregator::AuthorityAggregator::new(
        committee_of_four(),
        vec![
            (1, source(1)),
            (2, source(2)),
            (3, source(3)),
            (4, ClusterApi::Lagging { deps: vec![(100, dep_of_100)], applied }),
        ],
        authority_agg::metrics::AuthAggMetrics::new_for_tests(),
    )
}

// The aggregator-level sync: a signer is sampled as the source, the lagging
// destination is brought forward in causal order, and the walk succeeds.
#[test]
fn aggregator_syncs_certificate_to_lagging_validator() {
    let applied = Arc::new(Mutex::new(Vec::new()));
    let mut agg = cluster_with_lagging_destination(vec![90], applied.clone());
    let report = agg
        .sync_certificate_to_authority(&cert(100), 4, 4)
        .unwrap();
    assert_eq!(report.applied, vec![90, 100]);
    assert_eq!(*applied.lock().unwrap(), vec![90, 100]);
}

// When no source can satisfy the destination, the update fails and every
// pairwise failure is recorded on the stored destination facade.
#[test]
fn failed_sync_records_pairwise_failures_on_destination() {
    let applied = Arc::new(Mutex::new(Vec::new()));
    // the destination demands a dependency nobody has
    let mut agg = cluster_with_lagging_destination(vec![999], applied.clone());
    let r = agg.sync_certificate_to_authority(&cert(100), 4, 4);
    assert_eq!(r.err().unwrap(), AggregateError::AuthorityUpdateFailure);
    let dest = &agg.authority_clients[3];
    assert_eq!(dest.0, 4);
    assert!(!dest.1.reported_errors.is_empty());
    for e in &dest.1.reported_errors {
        assert!(matches!(e, AggregateError::PairwiseSyncFailed { .. }));
    }
}

// Running the plans from an object pass updates every scheduled validator.
#[test]
fn planned_certificates_update_lagging_validators() {
    let applied = Arc::new(Mutex::new(Vec::new()));
    let mut agg = cluster_with_lagging_destination(vec![90], applied.clone());
    let plans = vec![(cert(100), vec![4u64])];
    agg.sync_planned_certificates(plans, 4);
    assert_eq!(*applied.lock().unwrap(), vec![90, 100]);
}
