use authority_agg::base_types::{ExecutionDigests, ObjectRef};
use authority_agg::checkpoints::{
    check_cert_info_response, check_certified_checkpoint, check_tx_and_effects_response,
};
use authority_agg::committee::Committee;
use authority_agg::error::{AggregateError, ValidatorError};
use authority_agg::messages::{
    AuthenticatedCheckpoint, AuthorityCheckpointInfo, AuthoritySignature,
    CertifiedCheckpointSummary, CertifiedTransaction, CheckpointResponse, CheckpointSummary,
    Object, ObjectInfoResponse, ObjectResponse as ObjectAndLock,
    SignedTransactionEffects, Transaction, TransactionEffects, TransactionInfoResponse,
};
use authority_agg::metrics::positive_int_buckets;
use authority_agg::objects::{
    fetch_one_object, get_all_owned_objects, get_object_by_id, get_object_info_execute,
    plan_object_update, sync_all_given_objects,
};
use authority_agg::source_verifier::{
    get_missing_modules, verify_deployed_dependencies, CompiledPackage, CompiledUnit,
    DependencyVerificationError, SuiRawMovePackage,
};

fn committee_of_four() -> Committee {
    Committee::new(1, vec![(1, 1), (2, 1), (3, 1), (4, 1)]).unwrap()
}

fn oref(object_id: u64, version: u64, digest: u64) -> ObjectRef {
    ObjectRef { object_id, version, digest }
}

fn sig(signer: u64, digest: u64) -> AuthoritySignature {
    AuthoritySignature { signer, epoch: 1, signed_digest: digest }
}

fn cert(data: u64) -> CertifiedTransaction {
    CertifiedTransaction {
        epoch: 1,
        transaction: Transaction { data, user_signature: 0 },
        signatures: vec![(1, sig(1, data)), (2, sig(2, data)), (3, sig(3, data))],
    }
}

fn object_answer(
    name: u64,
    reference: ObjectRef,
    parent: Option<CertifiedTransaction>,
    alive: bool,
) -> (u64, Result<ObjectInfoResponse, ValidatorError>) {
    let object = Object {
        id: reference.object_id,
        version: reference.version,
        digest: reference.digest,
        shared: false,
    };
    (
        name,
        Ok(ObjectInfoResponse {
            parent_certificate: parent,
            requested_object_reference: Some(reference),
            object_and_lock: if alive {
                Some(ObjectAndLock { object, lock: None })
            } else {
                None
            },
        }),
    )
}

#[test]
fn owned_objects_map_holders_per_reference() {
    let c = committee_of_four();
    let r1 = oref(10, 1, 0);
    let r2 = oref(11, 1, 0);
    let answer = |name: u64, refs: Vec<ObjectRef>| {
        (
            name,
            Ok(authority_agg::messages::AccountInfoResponse { object_ids: refs }),
        )
    };
    let responses = vec![
        answer(1, vec![r1, r2]),
        answer(2, vec![r1]),
        answer(3, vec![r1]),
    ];
    let (map, responded) = get_all_owned_objects(&c, responses).unwrap();
    assert_eq!(responded, vec![1, 2, 3]);
    assert_eq!(map.len(), 2);
    assert_eq!(map[0].0, r1);
    assert_eq!(map[0].1, vec![1, 2, 3]);
    assert_eq!(map[1].0, r2);
    assert_eq!(map[1].1, vec![1]);
}

#[test]
fn owned_objects_fail_on_too_many_errors() {
    let c = committee_of_four();
    let e = ValidatorError::RpcFailure { code: 1 };
    let responses = vec![(1, Err(e)), (2, Err(e)), (3, Err(e))];
    let r = get_all_owned_objects(&c, responses);
    match r {
        Err(AggregateError::TooManyIncorrectAuthorities { errors }) => {
            assert_eq!(errors, vec![(1, e), (2, e), (3, e)]);
        },
        other => panic!("expected TooManyIncorrectAuthorities, got {:?}", other),
    }
}

// The aggregate is keyed by (reference, parent digest) with the highest
// version last, as the keyed container promises.
#[test]
fn object_by_id_orders_versions_with_highest_last() {
    let c = committee_of_four();
    let parent = cert(100);
    let low = oref(10, 1, 5);
    let high = oref(10, 2, 6);
    let responses = vec![
        object_answer(1, high, Some(parent.clone()), true),
        object_answer(2, low, None, true),
        object_answer(3, high, Some(parent.clone()), true),
    ];
    let (entries, certs) = get_object_by_id(&c, 10, responses).unwrap();
    assert_eq!(entries.len(), 2);
    assert_eq!(entries[0].obj_ref, low);
    assert_eq!(entries[1].obj_ref, high);
    assert_eq!(entries[1].holders.len(), 2);
    assert_eq!(certs.len(), 1);
    assert_eq!(certs[0].0, parent.digest());
}

#[test]
fn plan_updates_lagging_validators_with_the_latest_certificate() {
    let c = committee_of_four();
    let parent = cert(100);
    let low = oref(10, 1, 5);
    let high = oref(10, 2, 6);
    let responses = vec![
        object_answer(1, high, Some(parent.clone()), true),
        object_answer(2, low, None, true),
        object_answer(3, high, Some(parent.clone()), true),
    ];
    let (entries, certs) = get_object_by_id(&c, 10, responses).unwrap();
    let plan = plan_object_update(&c, &entries, &certs);
    assert_eq!(plan.active.len(), 1);
    assert_eq!(plan.active[0].0.version, 2);
    assert!(plan.deleted.is_empty());
    let (sync_cert, to_update) = plan.cert_to_sync.unwrap();
    assert_eq!(sync_cert.digest(), parent.digest());
    // validators 1 and 3 hold the latest version; 2 and 4 must be updated
    assert_eq!(to_update, vec![2, 4]);
}

#[test]
fn genesis_objects_are_returned_without_sync() {
    let c = committee_of_four();
    let r = oref(10, 1, 5);
    let responses = vec![object_answer(1, r, None, true), object_answer(2, r, None, true)];
    let (entries, certs) = get_object_by_id(&c, 10, responses).unwrap();
    let plan = plan_object_update(&c, &entries, &certs);
    assert_eq!(plan.active.len(), 1);
    assert!(plan.active[0].1.is_none());
    assert!(plan.cert_to_sync.is_none());
}

#[test]
fn sync_all_given_objects_collects_plans() {
    let c = committee_of_four();
    let parent = cert(100);
    let high = oref(10, 2, 6);
    let per_object = vec![(
        10u64,
        vec![
            object_answer(1, high, Some(parent.clone()), true),
            object_answer(3, high, Some(parent.clone()), true),
        ],
    )];
    let (active, deleted, plans) = sync_all_given_objects(&c, per_object).unwrap();
    assert_eq!(active.len(), 1);
    assert!(deleted.is_empty());
    assert_eq!(plans.len(), 1);
    assert_eq!(plans[0].1, vec![2, 4]);
}

#[test]
fn object_read_accepts_validity_stake_or_proven_mutation() {
    let c = committee_of_four();
    let parent = cert(100);
    let high = oref(10, 2, 6);
    // only one holder: below the validity threshold
    let responses = vec![object_answer(1, high, Some(parent.clone()), true)];
    let (entries, certs) = get_object_by_id(&c, 10, responses).unwrap();
    // without an execution outcome, the read walks past and finds nothing
    let nothing = get_object_info_execute(&c, 10, &entries, &certs, &vec![]);
    assert_eq!(
        nothing,
        authority_agg::messages::ObjectRead::NotExists { object_id: 10 }
    );
    // an execution outcome that mutated the reference settles the read
    let ce = authority_agg::messages::CertifiedTransactionEffects {
        epoch: 1,
        effects: TransactionEffects {
            transaction_digest: 100,
            digest: 900,
            created: vec![],
            mutated: vec![high],
            deleted: vec![],
            dependencies: vec![],
        },
        signatures: vec![],
    };
    let outcomes = vec![(parent.digest(), Some(ce))];
    let read = get_object_info_execute(&c, 10, &entries, &certs, &outcomes);
    match read {
        authority_agg::messages::ObjectRead::Exists { obj_ref, object } => {
            assert_eq!(obj_ref, high);
            assert_eq!(object.version, 2);
        },
        other => panic!("expected Exists, got {:?}", other),
    }
}

#[test]
fn fetch_takes_the_first_matching_or_shared_object() {
    let wanted = oref(10, 1, 5);
    let wrong = Object { id: 10, version: 1, digest: 99, shared: false };
    let matching = Object { id: 10, version: 1, digest: 5, shared: false };
    let wrap = |o: Object| {
        Ok(ObjectInfoResponse {
            parent_certificate: None,
            requested_object_reference: Some(wanted),
            object_and_lock: Some(ObjectAndLock { object: o, lock: None }),
        })
    };
    let r = fetch_one_object(
        wanted,
        vec![Err(ValidatorError::TimeoutError), wrap(wrong), wrap(matching)],
    );
    assert_eq!(r.unwrap(), matching);
    let none = fetch_one_object(wanted, vec![wrap(wrong)]);
    assert_eq!(none, Err(AggregateError::ObjectFetchFailed { object_id: 10 }));
}

#[test]
fn certified_checkpoints_are_the_only_acceptable_answer() {
    let summary = CheckpointSummary { sequence_number: 7, content_digest: 42 };
    let certified = CertifiedCheckpointSummary { epoch: 1, summary, signatures: vec![] };
    let good = CheckpointResponse {
        info: AuthorityCheckpointInfo::AuthenticatedCheckpoint {
            ckpt: Some(AuthenticatedCheckpoint::Certified(certified.clone())),
        },
        detail: None,
    };
    let (past, detail) = check_certified_checkpoint(good).unwrap();
    assert_eq!(past, certified);
    assert!(detail.is_none());
    let empty = CheckpointResponse {
        info: AuthorityCheckpointInfo::AuthenticatedCheckpoint { ckpt: None },
        detail: None,
    };
    assert_eq!(
        check_certified_checkpoint(empty),
        Err(ValidatorError::UnexpectedResponse)
    );
}

#[test]
fn cert_info_needs_both_certificate_and_effects() {
    let t = Transaction { data: 77, user_signature: 0 };
    let full = TransactionInfoResponse {
        signed_transaction: None,
        certified_transaction: Some(cert(77)),
        signed_effects: Some(SignedTransactionEffects {
            effects: TransactionEffects {
                transaction_digest: 77,
                digest: 700,
                created: vec![],
                mutated: vec![],
                deleted: vec![],
                dependencies: vec![],
            },
            signature: sig(1, 700),
        }),
    };
    assert!(check_cert_info_response(t.digest(), full.clone()).is_ok());
    let bare = TransactionInfoResponse {
        signed_transaction: None,
        certified_transaction: None,
        signed_effects: None,
    };
    assert_eq!(
        check_cert_info_response(t.digest(), bare.clone()),
        Err(ValidatorError::TransactionNotFound { digest: 77 })
    );
    let digests = ExecutionDigests { transaction: 77, effects: 700 };
    assert_eq!(
        check_tx_and_effects_response(4, true, digests, bare.clone()),
        Err(ValidatorError::ByzantineAuthoritySuspicion { authority: 4 })
    );
    assert_eq!(
        check_tx_and_effects_response(4, false, digests, bare),
        Err(ValidatorError::TransactionNotFound { digest: 77 })
    );
    assert!(check_tx_and_effects_response(4, true, digests, full).is_ok());
}

#[test]
fn histogram_buckets_are_contractual() {
    assert_eq!(
        positive_int_buckets(),
        vec![1, 2, 5, 10, 20, 50, 100, 200, 500, 1000, 2000, 5000, 10000, 20000, 50000]
    );
}

fn unit(package: u64, name: u64, address: u64, bytes: Vec<u8>) -> CompiledUnit {
    CompiledUnit { package, name, address, bytes, is_module: true }
}

#[test]
fn matching_dependencies_verify() {
    let compiled = CompiledPackage {
        package_name: 1,
        deps_compiled_units: vec![unit(2, 21, 500, vec![1, 2, 3]), unit(2, 22, 500, vec![4])],
    };
    let on_chain = vec![(
        500u64,
        SuiRawMovePackage { module_map: vec![(21, vec![1, 2, 3]), (22, vec![4])] },
    )];
    let res = verify_deployed_dependencies(&compiled, &on_chain).unwrap();
    assert_eq!(res.verified_dependencies.len(), 1);
    assert_eq!(res.verified_dependencies[0].0, 500);
    assert_eq!(res.verified_dependencies[0].1.symbol, 2);
}

#[test]
fn bytecode_mismatch_names_the_module() {
    let compiled = CompiledPackage {
        package_name: 1,
        deps_compiled_units: vec![unit(2, 21, 500, vec![1, 2, 3])],
    };
    let on_chain =
        vec![(500u64, SuiRawMovePackage { module_map: vec![(21, vec![9, 9])] })];
    let r = verify_deployed_dependencies(&compiled, &on_chain);
    match r {
        Err(DependencyVerificationError::ModuleBytecodeMismatch { package, module, address }) => {
            assert_eq!((package, module, address), (2, 21, 500));
        },
        other => panic!("expected ModuleBytecodeMismatch, got {:?}", other.is_ok()),
    }
}

#[test]
fn missing_on_chain_module_is_reported() {
    let compiled = CompiledPackage {
        package_name: 1,
        deps_compiled_units: vec![unit(2, 21, 500, vec![1])],
    };
    let on_chain = vec![(500u64, SuiRawMovePackage { module_map: vec![(99, vec![1])] })];
    let r = verify_deployed_dependencies(&compiled, &on_chain);
    match r {
        Err(DependencyVerificationError::LocalDependencyNotFound { package, module }) => {
            assert_eq!((package, module), (2, 21));
        },
        other => panic!("expected LocalDependencyNotFound, got {:?}", other.is_ok()),
    }
}

#[test]
fn module_count_mismatch_lists_missing_modules() {
    // the second unit sits at the zero address and is skipped, so the counts differ
    let compiled = CompiledPackage {
        package_name: 1,
        deps_compiled_units: vec![unit(2, 21, 500, vec![1]), unit(3, 31, 0, vec![2])],
    };
    let on_chain = vec![(500u64, SuiRawMovePackage { module_map: vec![(21, vec![1])] })];
    let r = verify_deployed_dependencies(&compiled, &on_chain);
    match r {
        Err(DependencyVerificationError::ModuleCountMismatch { expected, on_chain, missing }) => {
            assert_eq!(expected, 2);
            assert_eq!(on_chain, 1);
            assert_eq!(missing, vec![(3, 31)]);
        },
        other => panic!("expected ModuleCountMismatch, got {:?}", other.is_ok()),
    }
}

#[test]
fn missing_modules_respect_coverage() {
    let compiled = CompiledPackage {
        package_name: 1,
        deps_compiled_units: vec![unit(2, 21, 500, vec![1])],
    };
    let uncovered = get_missing_modules(&compiled, &vec![]);
    assert_eq!(uncovered, vec![(2, 21)]);
}
