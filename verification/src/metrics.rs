//! Aggregator metrics and timeout configuration.
//!
//! Metrics are modelled as plain counters and observation lists; an exporter
//! outside the library can publish them. The histogram bucket bounds are part
//! of the metrics contract.

use vstd::prelude::*;

verus! {

/// Upper bounds of the histogram buckets used for signature and stake counts.
pub fn positive_int_buckets() -> (out: Vec<u64>)
    ensures
        out@ == seq![
            1u64,
            2u64,
            5u64,
            10u64,
            20u64,
            50u64,
            100u64,
            200u64,
            500u64,
            1000u64,
            2000u64,
            5000u64,
            10000u64,
            20000u64,
            50000u64,
        ],
{
    let mut out: Vec<u64> = Vec::new();
    out.push(1);
    out.push(2);
    out.push(5);
    out.push(10);
    out.push(20);
    out.push(50);
    out.push(100);
    out.push(200);
    out.push(500);
    out.push(1000);
    out.push(2000);
    out.push(5000);
    out.push(10000);
    out.push(20000);
    out.push(50000);
    proof {
        assert(out@ =~= seq![
            1u64,
            2u64,
            5u64,
            10u64,
            20u64,
            50u64,
            100u64,
            200u64,
            500u64,
            1000u64,
            2000u64,
            5000u64,
            10000u64,
            20000u64,
            50000u64,
        ]);
    }
    out
}

/// Observation events of the aggregator: one counter and three histograms,
/// kept as raw observation lists.
#[derive(Clone, Debug, PartialEq, Eq)]
pub struct AuthAggMetrics {
    /// Incremented once per successful `execute_transaction`.
    pub total_tx_certificates_created: u64,
    /// Number of signatures collected per transaction.
    pub num_signatures: Vec<u64>,
    /// Good stake collected per transaction.
    pub num_good_stake: Vec<u64>,
    /// Bad stake collected per transaction.
    pub num_bad_stake: Vec<u64>,
}

impl AuthAggMetrics {
    /// Fresh metrics with nothing observed.
    pub fn new() -> (m: AuthAggMetrics)
        ensures
            m.total_tx_certificates_created == 0,
            m.num_signatures@ == Seq::<u64>::empty(),
            m.num_good_stake@ == Seq::<u64>::empty(),
            m.num_bad_stake@ == Seq::<u64>::empty(),
    {
        AuthAggMetrics {
            total_tx_certificates_created: 0,
            num_signatures: Vec::new(),
            num_good_stake: Vec::new(),
            num_bad_stake: Vec::new(),
        }
    }

    /// Fresh metrics for tests, identical to `new`.
    pub fn new_for_tests() -> (m: AuthAggMetrics)
        ensures
            m.total_tx_certificates_created == 0,
            m.num_signatures@ == Seq::<u64>::empty(),
            m.num_good_stake@ == Seq::<u64>::empty(),
            m.num_bad_stake@ == Seq::<u64>::empty(),
    {
        AuthAggMetrics::new()
    }

    /// Records one round's signature count and stake tallies.
    pub fn observe_round(&mut self, signatures: u64, good_stake: u64, bad_stake: u64)
        ensures
            final(self).num_signatures@ == old(self).num_signatures@.push(signatures),
            final(self).num_good_stake@ == old(self).num_good_stake@.push(good_stake),
            final(self).num_bad_stake@ == old(self).num_bad_stake@.push(bad_stake),
            final(self).total_tx_certificates_created == old(self).total_tx_certificates_created,
    {
        self.num_signatures.push(signatures);
        self.num_good_stake.push(good_stake);
        self.num_bad_stake.push(bad_stake);
    }

    /// Counts one certificate created by `execute_transaction`; saturates at
    /// the counter's maximum rather than wrapping.
    pub fn inc_certificates_created(&mut self)
        ensures
            final(self).total_tx_certificates_created == if old(
                self,
            ).total_tx_certificates_created < u64::MAX {
                old(self).total_tx_certificates_created + 1
            } else {
                u64::MAX as int
            },
            final(self).num_signatures@ == old(self).num_signatures@,
            final(self).num_good_stake@ == old(self).num_good_stake@,
            final(self).num_bad_stake@ == old(self).num_bad_stake@,
    {
        if self.total_tx_certificates_created < u64::MAX {
            self.total_tx_certificates_created = self.total_tx_certificates_created + 1;
        }
    }
}

/// Timeout knobs of the aggregator, in milliseconds.
#[derive(Clone, Copy, Debug, PartialEq, Eq, Structural)]
pub struct TimeoutConfig {
    /// Per-call timeout in parallel fan-outs; may be large, a slow authority
    /// does not block the others.
    pub authority_request_timeout_ms: u64,
    /// Outer timeout before a quorum is reached.
    pub pre_quorum_timeout_ms: u64,
    /// Grace period granted to stragglers after a quorum is reached.
    pub post_quorum_timeout_ms: u64,
    /// Per-call timeout in the serial, hedged path; smaller, since each call
    /// is awaited before the next.
    pub serial_authority_request_timeout_ms: u64,
    /// Interval after which the hedged path starts the next request even if
    /// the outstanding one has not finished: zero makes the path fully
    /// parallel, anything at or above the per-call timeout fully serial.
    pub serial_authority_request_interval_ms: u64,
}

impl Default for TimeoutConfig {
    /// The default knobs: 60 s per parallel call and before quorum, 30 s after
    /// quorum, 5 s per serial call, 1 s hedge interval.
    fn default() -> (c: TimeoutConfig)
        ensures
            c.authority_request_timeout_ms == 60000,
            c.pre_quorum_timeout_ms == 60000,
            c.post_quorum_timeout_ms == 30000,
            c.serial_authority_request_timeout_ms == 5000,
            c.serial_authority_request_interval_ms == 1000,
    {
        TimeoutConfig {
            authority_request_timeout_ms: 60000,
            pre_quorum_timeout_ms: 60000,
            post_quorum_timeout_ms: 30000,
            serial_authority_request_timeout_ms: 5000,
            serial_authority_request_interval_ms: 1000,
        }
    }
}

/// Network client configuration: connect and request timeouts, in milliseconds.
#[derive(Clone, Copy, Debug, PartialEq, Eq)]
pub struct NetworkConfig {
    pub connect_timeout_ms: Option<u64>,
    pub request_timeout_ms: Option<u64>,
}

impl NetworkConfig {
    /// A configuration with no timeouts set.
    pub fn new() -> (c: NetworkConfig)
        ensures
            c.connect_timeout_ms is None,
            c.request_timeout_ms is None,
    {
        NetworkConfig { connect_timeout_ms: None, request_timeout_ms: None }
    }
}

/// The default network configuration: 10 s to connect, 30 s per request.
pub fn default_mysten_network_config() -> (c: NetworkConfig)
    ensures
        c.connect_timeout_ms == Some(10000u64),
        c.request_timeout_ms == Some(30000u64),
{
    let mut net_config = NetworkConfig::new();
    net_config.connect_timeout_ms = Some(10000);
    net_config.request_timeout_ms = Some(30000);
    net_config
}

} // verus!
