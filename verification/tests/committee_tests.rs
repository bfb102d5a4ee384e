use authority_agg::base_types::ObjectRef;
use authority_agg::committee::Committee;
use authority_agg::error::AggregateError;
use authority_agg::messages::AuthoritySignature;

fn committee_of_four() -> Committee {
    Committee::new(1, vec![(1, 1), (2, 1), (3, 1), (4, 1)]).unwrap()
}

#[test]
fn thresholds_of_four_equal_validators() {
    let c = committee_of_four();
    assert_eq!(c.total_votes, 4);
    assert_eq!(c.quorum_threshold(), 3);
    assert_eq!(c.validity_threshold(), 2);
}

#[test]
fn thresholds_of_weighted_committee() {
    let c = Committee::new(7, vec![(10, 5), (20, 10), (30, 15)]).unwrap();
    assert_eq!(c.total_votes, 30);
    assert_eq!(c.quorum_threshold(), 21);
    assert_eq!(c.validity_threshold(), 11);
}

#[test]
fn weight_of_unknown_name_is_zero() {
    let c = committee_of_four();
    assert_eq!(c.weight(&1), 1);
    assert_eq!(c.weight(&99), 0);
}

#[test]
fn committee_rejects_unsorted_rows() {
    let r = Committee::new(1, vec![(2, 1), (1, 1)]);
    assert_eq!(r, Err(AggregateError::InvalidCommittee));
}

#[test]
fn committee_rejects_zero_stake() {
    let r = Committee::new(1, vec![(1, 0), (2, 1)]);
    assert_eq!(r, Err(AggregateError::InvalidCommittee));
}

#[test]
fn committee_rejects_empty_rows() {
    let r = Committee::new(1, vec![]);
    assert_eq!(r, Err(AggregateError::InvalidCommittee));
}

// Each name is drawn by exactly as many positions as it has stake: the
// deterministic core of stake-weighted sampling.
#[test]
fn sample_with_is_stake_weighted() {
    let c = Committee::new(3, vec![(7, 2), (8, 1), (9, 3)]).unwrap();
    let mut counts = std::collections::HashMap::new();
    for r in 0..c.total_votes {
        *counts.entry(c.sample_with(r)).or_insert(0u64) += 1;
    }
    assert_eq!(counts[&7], 2);
    assert_eq!(counts[&8], 1);
    assert_eq!(counts[&9], 3);
}

#[test]
fn sample_returns_a_member() {
    let c = committee_of_four();
    for _ in 0..32 {
        let name = c.sample();
        assert!(c.weight(&name) > 0);
    }
}

// With a single validator the random draw must be zero; a wrapper that handed
// its bound back unchanged would walk past the only stake interval.
#[test]
fn sample_on_singleton_committee() {
    let c = Committee::new(1, vec![(42, 1)]).unwrap();
    for _ in 0..8 {
        assert_eq!(c.sample(), 42);
    }
}

#[test]
fn shuffle_is_a_permutation_without_duplicates() {
    let c = committee_of_four();
    for _ in 0..8 {
        let order = c.shuffle_by_stake(None, None);
        assert_eq!(order.len(), 4);
        let mut sorted = order.clone();
        sorted.sort();
        assert_eq!(sorted, vec![1, 2, 3, 4]);
    }
}

#[test]
fn shuffle_restricts_and_prefers() {
    let c = committee_of_four();
    let restrict = vec![1, 2, 3];
    let prefer = vec![3];
    for _ in 0..8 {
        let order = c.shuffle_by_stake(Some(&prefer), Some(&restrict));
        assert_eq!(order.len(), 3);
        assert_eq!(order[0], 3);
        assert!(!order.contains(&4));
    }
}

#[test]
fn shuffle_with_entropy_is_deterministic() {
    let c = committee_of_four();
    let entropy = vec![5, 9, 2, 7];
    let a = c.shuffle_by_stake_with(None, None, &entropy);
    let b = c.shuffle_by_stake_with(None, None, &entropy);
    assert_eq!(a, b);
}

#[test]
fn authorities_from_signatures_dedups_and_rejects_unknown() {
    let c = committee_of_four();
    let sig = |signer: u64| AuthoritySignature { signer, epoch: 1, signed_digest: 5 };
    let ok = c
        .authorities_from_signatures(&vec![(1, sig(1)), (2, sig(2)), (1, sig(1))])
        .unwrap();
    assert_eq!(ok, vec![1, 2]);
    let bad = c.authorities_from_signatures(&vec![(1, sig(1)), (9, sig(9))]);
    assert_eq!(bad, Err(AggregateError::UnknownSigner { authority: 9 }));
}

#[test]
fn object_ref_order_is_lexicographic() {
    let a = ObjectRef { object_id: 1, version: 1, digest: 9 };
    let b = ObjectRef { object_id: 1, version: 2, digest: 0 };
    let c = ObjectRef { object_id: 2, version: 0, digest: 0 };
    assert!(a.lt(&b));
    assert!(b.lt(&c));
    assert!(!c.lt(&a));
}

#[test]
fn default_timeouts_match_the_contract() {
    let t = authority_agg::metrics::TimeoutConfig::default();
    assert_eq!(t.authority_request_timeout_ms, 60000);
    assert_eq!(t.pre_quorum_timeout_ms, 60000);
    assert_eq!(t.post_quorum_timeout_ms, 30000);
    assert_eq!(t.serial_authority_request_timeout_ms, 5000);
    assert_eq!(t.serial_authority_request_interval_ms, 1000);
}

#[test]
fn default_network_config_sets_both_timeouts() {
    let c = authority_agg::metrics::default_mysten_network_config();
    assert_eq!(c.connect_timeout_ms, Some(10000));
    assert_eq!(c.request_timeout_ms, Some(30000));
}
