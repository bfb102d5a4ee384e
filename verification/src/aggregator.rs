//! The top-level aggregator: a committee, one checking client per validator,
//! metrics and timeout knobs, and the protocols built on the reducers.

use vstd::prelude::*;

use crate::base_types::AuthorityName;
use crate::committee::Committee;
use crate::error::AggregateError;
use crate::messages::{CertifiedTransaction, CertifiedTransactionEffects, SignedTransactionEffects, Transaction};
use crate::metrics::{AuthAggMetrics, TimeoutConfig};
use crate::process_cert::{
    exec_cert_fold, exec_cert_init, pcert_fold, pcert_init, ExecCertEnd, PcertEnd, PcertOutcome,
    pcert_finish,
};
use crate::process_tx::{ptx_fold, ptx_init, resp_names, PtxEnd, TransactionResponse};
use crate::safe_client::{AuthorityApi, SafeClient};
use crate::sync::{
    select_sync_sources, sync_certificate_to_authority_with_timeout_inner,
    RemoteCertificateHandler, SyncReport,
};

verus! {

/// Default number of source validators sampled when syncing a certificate.
pub const DEFAULT_RETRIES: usize = 4;

/// After a sync, the destination's stored facade has recorded the pairwise
/// failures: its old error log is kept as a prefix, every appended entry is a
/// pairwise failure report, and everything else about the client is unchanged.
pub open spec fn dest_records_pairwise<A>(
    pre: Seq<(AuthorityName, SafeClient<A>)>,
    post: Seq<(AuthorityName, SafeClient<A>)>,
    dest: AuthorityName,
) -> bool {
    &&& pre.len() == post.len()
    &&& exists|k: int|
        0 <= k < pre.len() && (#[trigger] pre[k]).0 == dest && {
            let old_log = pre[k].1.reported_errors@;
            let new_log = post[k].1.reported_errors@;
            &&& new_log.len() >= old_log.len()
            &&& new_log.take(old_log.len() as int) == old_log
            &&& forall|j: int|
                old_log.len() <= j < new_log.len() ==> ((#[trigger] new_log[j]) matches
                AggregateError::PairwiseSyncFailed { .. })
            &&& post[k].1.authority == pre[k].1.authority
            &&& post[k].1.committee == pre[k].1.committee
            &&& post[k].1.api == pre[k].1.api
        }
}

/// The client list holds a client keyed by `name`.
pub open spec fn knows_authority<A>(
    clients: Seq<(AuthorityName, SafeClient<A>)>,
    name: AuthorityName,
) -> bool {
    exists|i: int| 0 <= i < clients.len() && (#[trigger] clients[i]).0 == name
}

/// Knowing an authority transfers to any equally keyed client list.
proof fn lemma_knows_transfer<A>(
    a: Seq<(AuthorityName, SafeClient<A>)>,
    b: Seq<(AuthorityName, SafeClient<A>)>,
    name: AuthorityName,
)
    requires
        a.len() == b.len(),
        forall|k: int| 0 <= k < a.len() ==> (#[trigger] b[k]).0 == a[k].0,
        knows_authority(a, name),
    ensures
        knows_authority(b, name),
{
    let i = choose|i: int| 0 <= i < a.len() && (#[trigger] a[i]).0 == name;
    assert(b[i].0 == name);
}

/// An untouched client list records nothing new.
proof fn lemma_dest_records_nothing<A>(
    clients: Seq<(AuthorityName, SafeClient<A>)>,
    dest: AuthorityName,
)
    requires
        exists|i: int| 0 <= i < clients.len() && (#[trigger] clients[i]).0 == dest,
    ensures
        dest_records_pairwise(clients, clients, dest),
{
    let k = choose|i: int| 0 <= i < clients.len() && (#[trigger] clients[i]).0 == dest;
    assert(clients[k].1.reported_errors@.take(clients[k].1.reported_errors@.len() as int)
        =~= clients[k].1.reported_errors@);
}

/// The authority aggregator: immutable committee, per-validator checking
/// clients, metrics, and timeout configuration.
pub struct AuthorityAggregator<A> {
    /// The committee of this epoch.
    pub committee: Committee,
    /// How to talk to the committee, one checking client per validator.
    pub authority_clients: Vec<(AuthorityName, SafeClient<A>)>,
    /// Observation events.
    pub metrics: AuthAggMetrics,
    /// Timeout knobs.
    pub timeouts: TimeoutConfig,
}

impl<A: AuthorityApi> AuthorityAggregator<A> {
    /// Internal invariant: a well-formed committee and clients keyed by the
    /// validator they talk to, each checking against a well-formed committee.
    pub open spec fn well_formed(self) -> bool {
        &&& self.committee.well_formed()
        &&& forall|i: int|
            0 <= i < self.authority_clients@.len() ==> {
                &&& (#[trigger] self.authority_clients@[i]).1.authority
                    == self.authority_clients@[i].0
                &&& self.authority_clients@[i].1.committee.well_formed()
            }
    }

    /// Builds an aggregator with the default timeouts.
    pub fn new(
        committee: Committee,
        authority_clients: Vec<(AuthorityName, A)>,
        metrics: AuthAggMetrics,
    ) -> (agg: AuthorityAggregator<A>)
        requires
            committee.well_formed(),
        ensures
            agg.well_formed(),
            agg.committee == committee,
            agg.metrics == metrics,
            agg.authority_clients@.len() == authority_clients@.len(),
            forall|i: int|
                0 <= i < authority_clients@.len() ==> (#[trigger] agg.authority_clients@[i]).0
                    == authority_clients@[i].0 && agg.authority_clients@[i].1.api
                    == authority_clients@[i].1,
            agg.timeouts.authority_request_timeout_ms == 60000,
            agg.timeouts.pre_quorum_timeout_ms == 60000,
            agg.timeouts.post_quorum_timeout_ms == 30000,
            agg.timeouts.serial_authority_request_timeout_ms == 5000,
            agg.timeouts.serial_authority_request_interval_ms == 1000,
    {
        AuthorityAggregator::new_with_timeouts(
            committee,
            authority_clients,
            metrics,
            TimeoutConfig::default(),
        )
    }

    /// Builds an aggregator, wrapping each raw client in a checking facade
    /// bound to its validator and this committee.
    pub fn new_with_timeouts(
        committee: Committee,
        authority_clients: Vec<(AuthorityName, A)>,
        metrics: AuthAggMetrics,
        timeouts: TimeoutConfig,
    ) -> (agg: AuthorityAggregator<A>)
        requires
            committee.well_formed(),
        ensures
            agg.well_formed(),
            agg.committee == committee,
            agg.metrics == metrics,
            agg.authority_clients@.len() == authority_clients@.len(),
            agg.timeouts == timeouts,
            forall|i: int|
                0 <= i < authority_clients@.len() ==> {
                    &&& (#[trigger] agg.authority_clients@[i]).0 == authority_clients@[i].0
                    &&& agg.authority_clients@[i].1.api == authority_clients@[i].1
                    &&& agg.authority_clients@[i].1.authority == authority_clients@[i].0
                    &&& agg.authority_clients@[i].1.committee.epoch == committee.epoch
                    &&& agg.authority_clients@[i].1.committee.voting_rights@
                        == committee.voting_rights@
                    &&& agg.authority_clients@[i].1.committee.total_votes == committee.total_votes
                },
    {
        let mut clients: Vec<(AuthorityName, SafeClient<A>)> = Vec::new();
        let mut rest = authority_clients;
        let ghost orig = rest@;
        while rest.len() > 0
            invariant
                clients@.len() + rest@.len() == orig.len(),
                committee.well_formed(),
                forall|i: int|
                    0 <= i < clients@.len() ==> {
                        &&& (#[trigger] clients@[i]).1.authority == clients@[i].0
                        &&& clients@[i].1.committee.well_formed()
                        &&& clients@[i].0 == orig[i].0
                        &&& clients@[i].1.api == orig[i].1
                        &&& clients@[i].1.committee.epoch == committee.epoch
                        &&& clients@[i].1.committee.voting_rights@ == committee.voting_rights@
                        &&& clients@[i].1.committee.total_votes == committee.total_votes
                    },
                rest@ == orig.skip(clients@.len() as int),
            decreases rest@.len(),
        {
            let ghost pre = rest@;
            let ghost done = clients@.len();
            let (name, api) = rest.remove(0);
            proof {
                assert(rest@ =~= pre.skip(1));
                assert(pre[0] == orig[done as int]);
                assert(orig.skip(done as int).skip(1) =~= orig.skip(done as int + 1));
            }
            let client = SafeClient::new(api, committee.duplicate(), name);
            clients.push((name, client));
        }
        proof {
            assert(rest@.len() == 0);
        }
        AuthorityAggregator { committee, authority_clients: clients, metrics, timeouts }
    }

    /// Index of the client for `name`.
    fn find_client_index(&self, name: &AuthorityName) -> (r: Option<usize>)
        ensures
            r matches Some(i) ==> i < self.authority_clients@.len()
                && self.authority_clients@[i as int].0 == *name,
            r is None ==> forall|i: int|
                0 <= i < self.authority_clients@.len() ==> (#[trigger] self.authority_clients@[
                i]).0 != *name,
    {
        let mut i: usize = 0;
        while i < self.authority_clients.len()
            invariant
                i <= self.authority_clients@.len(),
                forall|k: int|
                    0 <= k < i ==> (#[trigger] self.authority_clients@[k]).0 != *name,
            decreases self.authority_clients@.len() - i,
        {
            if self.authority_clients[i].0 == *name {
                return Some(i);
            }
            i = i + 1;
        }
        None
    }
}

impl<A: AuthorityApi + Clone> AuthorityAggregator<A> {
    /// A fresh checking client for `name`; indexing by an unknown name is a
    /// caller bug and is excluded.
    pub fn clone_client(&self, name: &AuthorityName) -> (c: SafeClient<A>)
        requires
            self.well_formed(),
            exists|i: int|
                0 <= i < self.authority_clients@.len() && (#[trigger] self.authority_clients@[
                i]).0 == *name,
        ensures
            c.authority == *name,
            c.committee.well_formed(),
            c.reported_errors@ == Seq::<AggregateError>::empty(),
    {
        match self.find_client_index(name) {
            Some(i) => {
                let source = &self.authority_clients[i].1;
                SafeClient::new(source.api.clone(), source.committee.duplicate(), *name)
            },
            None => {
                proof {
                    let i = choose|i: int|
                        0 <= i < self.authority_clients@.len() && (
                        #[trigger] self.authority_clients@[i]).0 == *name;
                    assert(false);
                }
                vstd::pervasive::unreached()
            },
        }
    }

    /// The raw clients beneath the facades, keyed as stored.
    pub fn clone_inner_clients(&self) -> (out: Vec<(AuthorityName, A)>)
        ensures
            out@.len() == self.authority_clients@.len(),
            forall|i: int|
                0 <= i < out@.len() ==> (#[trigger] out@[i]).0 == self.authority_clients@[i].0,
    {
        let mut out: Vec<(AuthorityName, A)> = Vec::new();
        let mut i: usize = 0;
        while i < self.authority_clients.len()
            invariant
                i <= self.authority_clients@.len(),
                out@.len() == i,
                forall|k: int|
                    0 <= k < i ==> (#[trigger] out@[k]).0 == self.authority_clients@[k].0,
            decreases self.authority_clients@.len() - i,
        {
            let entry = &self.authority_clients[i];
            out.push((entry.0, entry.1.api.clone()));
            i = i + 1;
        }
        out
    }

    /// Syncs `cert` to `destination_authority` with the default per-attempt
    /// budget, sampling `retries` sources from the certificate's signers.
    pub fn sync_certificate_to_authority(
        &mut self,
        cert: &CertifiedTransaction,
        destination_authority: AuthorityName,
        retries: usize,
    ) -> (r: Result<SyncReport, AggregateError>)
        requires
            old(self).well_formed(),
            exists|i: int|
                0 <= i < old(self).authority_clients@.len() && (#[trigger] old(
                    self,
                ).authority_clients@[i]).0 == destination_authority,
        ensures
            final(self).well_formed(),
            final(self).committee == old(self).committee,
            final(self).metrics == old(self).metrics,
            final(self).timeouts == old(self).timeouts,
            final(self).authority_clients@.len() == old(self).authority_clients@.len(),
            forall|k: int|
                0 <= k < old(self).authority_clients@.len() ==> (#[trigger] final(self).authority_clients@[k]).0 == old(self).authority_clients@[k].0,
            forall|k: int|
                0 <= k < old(self).authority_clients@.len() && (#[trigger] old(
                    self,
                ).authority_clients@[k]).0 != destination_authority ==> final(self).authority_clients@[k] == old(self).authority_clients@[k],
            dest_records_pairwise(
                old(self).authority_clients@,
                final(self).authority_clients@,
                destination_authority,
            ),
            r matches Ok(report) ==> {
                &&& report.applied@.no_duplicates()
                &&& report.applied@.contains(cert.transaction.digest_spec())
                &&& (report.applied@.last() == cert.transaction.digest_spec()
                    || crate::sync::deps_name_digest(
                    report.fetched_deps@,
                    cert.transaction.digest_spec(),
                ))
            },
    {
        let budget = self.timeouts.authority_request_timeout_ms;
        self.sync_certificate_to_authority_with_timeout(
            cert,
            destination_authority,
            budget,
            retries,
        )
    }

    /// Syncs `cert` to `destination_authority`: samples up to `retries`
    /// distinct sources from the signers by stake and tries each in turn under
    /// the given per-attempt work budget. Every pairwise failure is recorded
    /// on both facades: the sampled source's and the stored destination's.
    pub fn sync_certificate_to_authority_with_timeout(
        &mut self,
        cert: &CertifiedTransaction,
        destination_authority: AuthorityName,
        budget_each: u64,
        retries: usize,
    ) -> (r: Result<SyncReport, AggregateError>)
        requires
            old(self).well_formed(),
            exists|i: int|
                0 <= i < old(self).authority_clients@.len() && (#[trigger] old(
                    self,
                ).authority_clients@[i]).0 == destination_authority,
        ensures
            final(self).well_formed(),
            final(self).committee == old(self).committee,
            final(self).metrics == old(self).metrics,
            final(self).timeouts == old(self).timeouts,
            final(self).authority_clients@.len() == old(self).authority_clients@.len(),
            forall|k: int|
                0 <= k < old(self).authority_clients@.len() ==> (#[trigger] final(self).authority_clients@[k]).0 == old(self).authority_clients@[k].0,
            forall|k: int|
                0 <= k < old(self).authority_clients@.len() && (#[trigger] old(
                    self,
                ).authority_clients@[k]).0 != destination_authority ==> final(self).authority_clients@[k] == old(self).authority_clients@[k],
            dest_records_pairwise(
                old(self).authority_clients@,
                final(self).authority_clients@,
                destination_authority,
            ),
            r matches Ok(report) ==> {
                &&& report.applied@.no_duplicates()
                &&& report.applied@.contains(cert.transaction.digest_spec())
                &&& (report.applied@.last() == cert.transaction.digest_spec()
                    || crate::sync::deps_name_digest(
                    report.fetched_deps@,
                    cert.transaction.digest_spec(),
                ))
            },
    {
        let destination_client = self.clone_client(&destination_authority);
        let mut cert_handler = RemoteCertificateHandler {
            destination_authority,
            destination_client,
        };
        let source_names = match select_sync_sources(&self.committee, cert, retries) {
            Ok(s) => s,
            Err(e) => {
                proof {
                    lemma_dest_records_nothing(
                        self.authority_clients@,
                        destination_authority,
                    );
                }
                return Err(e);
            },
        };
        let mut sources: Vec<(AuthorityName, SafeClient<A>)> = Vec::new();
        let mut i: usize = 0;
        while i < source_names.len()
            invariant
                i <= source_names@.len(),
                self.well_formed(),
                self == old(self),
                forall|k: int|
                    0 <= k < source_names@.len() ==> self.committee.contains_name(
                        #[trigger] source_names@[k],
                    ),
                forall|k: int|
                    0 <= k < sources@.len() ==> (#[trigger] sources@[k]).1.committee.well_formed(),
            decreases source_names@.len() - i,
        {
            let src_name = source_names[i];
            match self.find_client_index(&src_name) {
                Some(idx) => {
                    let source = &self.authority_clients[idx].1;
                    let client = SafeClient::new(
                        source.api.clone(),
                        source.committee.duplicate(),
                        src_name,
                    );
                    sources.push((src_name, client));
                },
                None => {
                    // a signer the aggregator holds no client for is skipped
                },
            }
            i = i + 1;
        }
        let (result, _clients, pairwise) = sync_certificate_to_authority_with_timeout_inner(
            cert,
            destination_authority,
            &mut cert_handler,
            sources,
            budget_each,
        );
        // record the pairwise failures on the stored destination facade too
        let dest_idx = match self.find_client_index(&destination_authority) {
            Some(idx) => idx,
            None => {
                proof {
                    let i = choose|i: int|
                        0 <= i < self.authority_clients@.len() && (
                        #[trigger] self.authority_clients@[i]).0 == destination_authority;
                    assert(false);
                }
                vstd::pervasive::unreached()
            },
        };
        let ghost pre_clients = self.authority_clients@;
        let (dest_name, mut dest_client) = self.authority_clients.remove(dest_idx);
        let ghost base_log = dest_client.reported_errors@;
        let mut reports = pairwise;
        while reports.len() > 0
            invariant
                forall|k: int| 0 <= k < reports@.len() ==> (#[trigger] reports@[k]) matches
                    AggregateError::PairwiseSyncFailed { .. },
                dest_client.reported_errors@.len() >= base_log.len(),
                dest_client.reported_errors@.take(base_log.len() as int) == base_log,
                forall|j: int|
                    base_log.len() <= j < dest_client.reported_errors@.len() ==> (
                    #[trigger] dest_client.reported_errors@[j]) matches
                    AggregateError::PairwiseSyncFailed { .. },
                dest_idx < pre_clients.len(),
                dest_client.committee == pre_clients[dest_idx as int].1.committee,
                dest_client.authority == pre_clients[dest_idx as int].1.authority,
                dest_client.api == pre_clients[dest_idx as int].1.api,
            decreases reports@.len(),
        {
            let ghost pre_reports = reports@;
            let ghost pre_log = dest_client.reported_errors@;
            let e = reports.remove(0);
            dest_client.report_client_error(e);
            proof {
                assert(reports@ =~= pre_reports.skip(1));
                assert forall|k: int| 0 <= k < reports@.len() implies (
                #[trigger] reports@[k]) matches AggregateError::PairwiseSyncFailed { .. } by {
                    assert(reports@[k] == pre_reports[k + 1]);
                }
                assert(dest_client.reported_errors@.take(base_log.len() as int) =~= pre_log.take(
                    base_log.len() as int,
                ));
            }
        }
        self.authority_clients.insert(dest_idx, (dest_name, dest_client));
        proof {
            assert(self.authority_clients@ =~= pre_clients.update(
                dest_idx as int,
                (dest_name, dest_client),
            ));
            assert(pre_clients[dest_idx as int].0 == destination_authority);
            assert(self.authority_clients@[dest_idx as int].1 == dest_client);
            assert(dest_records_pairwise(
                pre_clients,
                self.authority_clients@,
                destination_authority,
            ));
            assert forall|k: int|
                0 <= k < self.authority_clients@.len() implies {
                &&& (#[trigger] self.authority_clients@[k]).1.authority
                    == self.authority_clients@[k].0
                &&& self.authority_clients@[k].1.committee.well_formed()
            } by {
                if k != dest_idx as int {
                    assert(self.authority_clients@[k] == pre_clients[k]);
                }
            }
        }
        result
    }
}

impl<A: AuthorityApi + Clone> AuthorityAggregator<A> {
    /// Runs the sync plans produced by an object pass: each certificate is
    /// synced to every validator scheduled for it, with `retries` sampled
    /// sources per attempt. A failed sync is recorded on the facades and
    /// otherwise discarded — a pairwise failure never fails the pass.
    pub fn sync_planned_certificates(
        &mut self,
        plans: Vec<(CertifiedTransaction, Vec<AuthorityName>)>,
        retries: usize,
    )
        requires
            old(self).well_formed(),
            forall|j: int, k: int|
                #![trigger plans@[j].1@[k]]
                0 <= j < plans@.len() && 0 <= k < plans@[j].1@.len() ==> knows_authority(
                    old(self).authority_clients@,
                    plans@[j].1@[k],
                ),
        ensures
            final(self).well_formed(),
            final(self).committee == old(self).committee,
            final(self).metrics == old(self).metrics,
            final(self).timeouts == old(self).timeouts,
            final(self).authority_clients@.len() == old(self).authority_clients@.len(),
            forall|k: int|
                0 <= k < old(self).authority_clients@.len() ==> (#[trigger] final(self).authority_clients@[k]).0 == old(self).authority_clients@[k].0,
    {
        let ghost plans0 = plans@;
        let mut remaining = plans;
        proof {
            assert forall|j: int, k: int|
                #![trigger remaining@[j].1@[k]]
                0 <= j < remaining@.len() && 0 <= k < remaining@[j].1@.len() implies
                knows_authority(old(self).authority_clients@, remaining@[j].1@[k]) by {
                assert(plans0[j].1@[k] == remaining@[j].1@[k]);
            }
        }
        while remaining.len() > 0
            invariant
                self.well_formed(),
                self.committee == old(self).committee,
                self.metrics == old(self).metrics,
                self.timeouts == old(self).timeouts,
                self.authority_clients@.len() == old(self).authority_clients@.len(),
                forall|k: int|
                    0 <= k < old(self).authority_clients@.len() ==> (
                    #[trigger] self.authority_clients@[k]).0 == old(self).authority_clients@[k].0,
                forall|j: int, k: int|
                    #![trigger remaining@[j].1@[k]]
                    0 <= j < remaining@.len() && 0 <= k < remaining@[j].1@.len()
                        ==> knows_authority(
                        old(self).authority_clients@,
                        remaining@[j].1@[k],
                    ),
            decreases remaining@.len(),
        {
            let ghost pre = remaining@;
            let (cert, to_update) = remaining.remove(0);
            proof {
                assert(remaining@ =~= pre.skip(1));
                assert forall|j: int, k: int|
                    #![trigger remaining@[j].1@[k]]
                    0 <= j < remaining@.len() && 0 <= k < remaining@[j].1@.len() implies
                    knows_authority(old(self).authority_clients@, remaining@[j].1@[k]) by {
                    assert(remaining@[j] == pre[j + 1]);
                    assert(pre[j + 1].1@[k] == remaining@[j].1@[k]);
                }
            }
            let mut names = to_update;
            proof {
                assert forall|k: int| 0 <= k < names@.len() implies knows_authority(
                    old(self).authority_clients@,
                    #[trigger] names@[k],
                ) by {
                    assert(pre[0].1@[k] == names@[k]);
                }
            }
            while names.len() > 0
                invariant
                    self.well_formed(),
                    self.committee == old(self).committee,
                    self.metrics == old(self).metrics,
                    self.timeouts == old(self).timeouts,
                    self.authority_clients@.len() == old(self).authority_clients@.len(),
                    forall|k: int|
                        0 <= k < old(self).authority_clients@.len() ==> (
                        #[trigger] self.authority_clients@[k]).0 == old(
                            self,
                        ).authority_clients@[k].0,
                    forall|k: int|
                        0 <= k < names@.len() ==> knows_authority(
                            old(self).authority_clients@,
                            #[trigger] names@[k],
                        ),
                decreases names@.len(),
            {
                let ghost pre_names = names@;
                let name = names.remove(0);
                proof {
                    assert(names@ =~= pre_names.skip(1));
                    assert forall|k: int| 0 <= k < names@.len() implies knows_authority(
                        old(self).authority_clients@,
                        #[trigger] names@[k],
                    ) by {
                        assert(names@[k] == pre_names[k + 1]);
                    }
                    lemma_knows_transfer(
                        old(self).authority_clients@,
                        self.authority_clients@,
                        name,
                    );
                }
                // a failing pairwise sync is reported and the pass moves on
                let attempt = self.sync_certificate_to_authority(&cert, name, retries);
                match attempt {
                    Ok(_) => {},
                    Err(_) => {},
                }
            }
        }
    }
}

impl<A: AuthorityApi> AuthorityAggregator<A> {
    /// Submits a transaction's responses to the vote-gathering reducer; see
    /// `process_tx::process_transaction` for the exact contract restated here.
    pub fn process_transaction(
        &mut self,
        transaction: &Transaction,
        responses: Vec<TransactionResponse>,
    ) -> (r: Result<CertifiedTransaction, AggregateError>)
        requires
            old(self).well_formed(),
            resp_names(responses@).no_duplicates(),
        ensures
            final(self).well_formed(),
            final(self).committee == old(self).committee,
            final(self).authority_clients == old(self).authority_clients,
            final(self).timeouts == old(self).timeouts,
            final(self).metrics.total_tx_certificates_created == old(
                self,
            ).metrics.total_tx_certificates_created,
            ({
                let folded = ptx_fold(
                    old(self).committee,
                    *transaction,
                    ptx_init(),
                    responses@,
                );
                let fst = folded.0;
                &&& match folded.1 {
                    PtxEnd::Formed => r matches Ok(cert) && cert.epoch == old(self).committee.epoch
                        && cert.transaction == *transaction && cert.signatures@ == fst.signatures,
                    PtxEnd::Prior(ct) => r == Ok::<CertifiedTransaction, AggregateError>(ct),
                    PtxEnd::FormationFailed => r == Err::<CertifiedTransaction, AggregateError>(
                        AggregateError::InvalidCertificate,
                    ),
                    PtxEnd::SingleError(e) => r == Err::<CertifiedTransaction, AggregateError>(
                        AggregateError::Validator(e),
                    ),
                    PtxEnd::QuorumNotReached(es) => r matches Err(
                        AggregateError::QuorumNotReached { errors },
                    ) && errors@ == es,
                    PtxEnd::Exhausted => r == Err::<CertifiedTransaction, AggregateError>(
                        AggregateError::NoCertificateFormed,
                    ),
                }
                &&& match folded.1 {
                    PtxEnd::Formed | PtxEnd::FormationFailed | PtxEnd::SingleError(_)
                        | PtxEnd::QuorumNotReached(_) => {
                        &&& final(self).metrics.num_signatures@ == old(
                            self,
                        ).metrics.num_signatures@.push(fst.signatures.len() as u64)
                        &&& final(self).metrics.num_good_stake@ == old(
                            self,
                        ).metrics.num_good_stake@.push(fst.good_stake as u64)
                        &&& final(self).metrics.num_bad_stake@ == old(
                            self,
                        ).metrics.num_bad_stake@.push(fst.bad_stake as u64)
                    },
                    PtxEnd::Prior(_) | PtxEnd::Exhausted => final(self).metrics == old(
                        self,
                    ).metrics,
                }
            }),
            r matches Ok(cert) ==> cert.valid(old(self).committee)
                && cert.transaction.digest_spec() == transaction.digest_spec(),
    {
        crate::process_tx::process_transaction(
            &self.committee,
            transaction,
            responses,
            &mut self.metrics,
        )
    }

    /// Broadcasts a certificate's responses to the effects reducer; see
    /// `process_cert::process_certificate` for the exact contract.
    pub fn process_certificate(
        &self,
        certificate: &CertifiedTransaction,
        responses: Vec<TransactionResponse>,
    ) -> (r: Result<CertifiedTransactionEffects, AggregateError>)
        requires
            self.well_formed(),
            resp_names(responses@).no_duplicates(),
        ensures
            ({
                let folded = pcert_fold(
                    self.committee,
                    certificate.transaction.digest_spec(),
                    pcert_init(),
                    responses@,
                );
                match folded.1 {
                    PcertEnd::TooManyBad(es) => r matches Err(
                        AggregateError::QuorumFailedToExecuteCertificate { errors },
                    ) && errors@ == es,
                    PcertEnd::Exhausted => match pcert_finish(
                        self.committee,
                        certificate.epoch,
                        folded.0,
                    ) {
                        PcertOutcome::Formed(i) => r matches Ok(ce) && ce.epoch
                            == certificate.epoch && ce.effects == folded.0.entries[i].1.effects
                            && ce.signatures@ == folded.0.entries[i].1.signatures,
                        PcertOutcome::FormationFailed => r == Err::<
                            CertifiedTransactionEffects,
                            AggregateError,
                        >(AggregateError::InvalidCertificate),
                        PcertOutcome::Failed(es) => r matches Err(
                            AggregateError::QuorumFailedToExecuteCertificate { errors },
                        ) && errors@ == es,
                    },
                }
            }),
            r matches Ok(ce) ==> ce.valid(self.committee),
    {
        crate::process_cert::process_certificate(&self.committee, certificate, responses)
    }

    /// Executes a certificate for an external observer; see
    /// `process_cert::execute_cert_to_true_effects` for the exact contract.
    pub fn execute_cert_to_true_effects(
        &self,
        cert: &CertifiedTransaction,
        responses: Vec<TransactionResponse>,
    ) -> (r: Result<SignedTransactionEffects, AggregateError>)
        requires
            self.well_formed(),
            resp_names(responses@).no_duplicates(),
        ensures
            ({
                let folded = exec_cert_fold(
                    self.committee,
                    cert.transaction.digest_spec(),
                    exec_cert_init(),
                    responses@,
                );
                match folded.1 {
                    ExecCertEnd::True(se) => r == Ok::<SignedTransactionEffects, AggregateError>(
                        se,
                    ),
                    ExecCertEnd::Impossible | ExecCertEnd::Exhausted => r matches Err(
                        AggregateError::TooManyIncorrectAuthorities { errors },
                    ) && errors@ == folded.0.errors,
                }
            }),
    {
        crate::process_cert::execute_cert_to_true_effects(&self.committee, cert, responses)
    }

    /// Gathering votes and then executing the certificate is one operation:
    /// `execute_transaction` behaves exactly as `process_transaction` followed
    /// by `process_certificate` on the certificate it produced, and the
    /// certificate counter is incremented exactly once, just when the vote
    /// phase succeeds.
    pub fn execute_transaction(
        &mut self,
        transaction: &Transaction,
        tx_responses: Vec<TransactionResponse>,
        cert_responses: Vec<TransactionResponse>,
    ) -> (r: Result<(CertifiedTransaction, CertifiedTransactionEffects), AggregateError>)
        requires
            old(self).well_formed(),
            resp_names(tx_responses@).no_duplicates(),
            resp_names(cert_responses@).no_duplicates(),
        ensures
            final(self).well_formed(),
            final(self).committee == old(self).committee,
            ({
                let folded = ptx_fold(
                    old(self).committee,
                    *transaction,
                    ptx_init(),
                    tx_responses@,
                );
                let tx_ok = folded.1 is Formed || folded.1 is Prior;
                &&& (!tx_ok ==> final(self).metrics.total_tx_certificates_created == old(
                    self,
                ).metrics.total_tx_certificates_created && (match folded.1 {
                    PtxEnd::FormationFailed => r matches Err(AggregateError::InvalidCertificate),
                    PtxEnd::SingleError(e) => r == Err::<
                        (CertifiedTransaction, CertifiedTransactionEffects),
                        AggregateError,
                    >(AggregateError::Validator(e)),
                    PtxEnd::QuorumNotReached(es) => r matches Err(
                        AggregateError::QuorumNotReached { errors },
                    ) && errors@ == es,
                    PtxEnd::Exhausted => r matches Err(AggregateError::NoCertificateFormed),
                    _ => false,
                }))
                &&& (r matches Ok(pair) ==> (match folded.1 {
                    PtxEnd::Formed => pair.0.epoch == old(self).committee.epoch
                        && pair.0.transaction == *transaction && pair.0.signatures@
                        == folded.0.signatures,
                    PtxEnd::Prior(ct) => pair.0 == ct,
                    _ => false,
                }))
                &&& (tx_ok ==> {
                    &&& final(self).metrics.total_tx_certificates_created == if old(
                        self,
                    ).metrics.total_tx_certificates_created < u64::MAX {
                        old(self).metrics.total_tx_certificates_created + 1
                    } else {
                        u64::MAX as int
                    }
                    &&& match pcert_fold(
                        old(self).committee,
                        transaction.digest_spec(),
                        pcert_init(),
                        cert_responses@,
                    ).1 {
                        PcertEnd::TooManyBad(es) => r matches Err(
                            AggregateError::QuorumFailedToExecuteCertificate { errors },
                        ) && errors@ == es,
                        PcertEnd::Exhausted => match pcert_finish(
                            old(self).committee,
                            old(self).committee.epoch,
                            pcert_fold(
                                old(self).committee,
                                transaction.digest_spec(),
                                pcert_init(),
                                cert_responses@,
                            ).0,
                        ) {
                            PcertOutcome::Formed(i) => r matches Ok(pair) && pair.0.valid(
                                old(self).committee,
                            ) && pair.0.transaction.digest_spec() == transaction.digest_spec()
                                && pair.1.valid(old(self).committee) && pair.1.effects
                                == pcert_fold(
                                old(self).committee,
                                transaction.digest_spec(),
                                pcert_init(),
                                cert_responses@,
                            ).0.entries[i].1.effects,
                            PcertOutcome::FormationFailed => r is Err,
                            PcertOutcome::Failed(es) => r matches Err(
                                AggregateError::QuorumFailedToExecuteCertificate { errors },
                            ) && errors@ == es,
                        },
                    }
                })
            }),
    {
        let new_certificate = match self.process_transaction(transaction, tx_responses) {
            Ok(c) => c,
            Err(e) => {
                return Err(e);
            },
        };
        self.metrics.inc_certificates_created();
        let response = match crate::process_cert::process_certificate(
            &self.committee,
            &new_certificate,
            cert_responses,
        ) {
            Ok(ce) => ce,
            Err(e) => {
                return Err(e);
            },
        };
        Ok((new_certificate, response))
    }
}


impl<A: AuthorityApi> AuthorityAggregator<A> {
    /// Runs the owned-objects query; see `objects::get_all_owned_objects`.
    pub fn get_all_owned_objects(
        &self,
        responses: Vec<crate::objects::AccountResponse>,
    ) -> (r: Result<
        (
            Vec<(crate::base_types::ObjectRef, Vec<AuthorityName>)>,
            Vec<AuthorityName>,
        ),
        AggregateError,
    >)
        requires
            self.well_formed(),
            crate::objects::account_resp_names(responses@).no_duplicates(),
        ensures
            ({
                let folded = crate::objects::owned_fold(
                    self.committee,
                    crate::objects::owned_init(),
                    responses@,
                );
                match folded.1 {
                    crate::objects::OwnedEnd::TooManyBad(es) => r matches Err(
                        AggregateError::TooManyIncorrectAuthorities { errors },
                    ) && errors@ == es,
                    crate::objects::OwnedEnd::Exhausted => r matches Ok(pair)
                        && crate::objects::object_map_view(pair.0@) == folded.0.object_map
                        && pair.1@ == folded.0.responded,
                }
            }),
    {
        crate::objects::get_all_owned_objects(&self.committee, responses)
    }

    /// Aggregates one object's responses; see `objects::get_object_by_id`.
    pub fn get_object_by_id(
        &self,
        object_id: crate::base_types::ObjectID,
        responses: Vec<crate::objects::ObjectResponse>,
    ) -> (r: Result<
        (
            Vec<crate::objects::ObjectByIdEntry>,
            Vec<(crate::base_types::TransactionDigest, CertifiedTransaction)>,
        ),
        AggregateError,
    >)
        requires
            self.well_formed(),
            crate::objects::object_resp_names(responses@).no_duplicates(),
        ensures
            ({
                let folded = crate::objects::object_by_id_fold(
                    self.committee,
                    object_id,
                    crate::objects::object_by_id_init(),
                    responses@,
                );
                match folded.1 {
                    crate::objects::ObjectByIdEnd::TooManyBad(es) => r matches Err(
                        AggregateError::TooManyIncorrectAuthorities { errors },
                    ) && errors@ == es,
                    crate::objects::ObjectByIdEnd::Exhausted => r matches Ok(pair) && {
                        &&& crate::objects::entries_sorted(pair.0@)
                        &&& crate::objects::obj_entries_view(pair.0@)
                            == crate::objects::aggregate_fold(
                            Seq::empty(),
                            Seq::empty(),
                            folded.0.oks,
                        ).0
                        &&& pair.1@ == crate::objects::aggregate_fold(
                            Seq::empty(),
                            Seq::empty(),
                            folded.0.oks,
                        ).1
                    },
                }
            }),
    {
        crate::objects::get_object_by_id(&self.committee, object_id, responses)
    }

    /// Decides every given object's fate and sync plan; see
    /// `objects::sync_all_given_objects`.
    pub fn sync_all_given_objects(
        &self,
        object_responses: Vec<(crate::base_types::ObjectID, Vec<crate::objects::ObjectResponse>)>,
    ) -> (r: Result<
        (
            Vec<(crate::messages::Object, Option<CertifiedTransaction>)>,
            Vec<(crate::base_types::ObjectRef, Option<CertifiedTransaction>)>,
            Vec<(CertifiedTransaction, Vec<AuthorityName>)>,
        ),
        AggregateError,
    >)
        requires
            self.well_formed(),
            forall|k: int|
                0 <= k < object_responses@.len() ==> crate::objects::object_resp_names(
                    (#[trigger] object_responses@[k]).1@,
                ).no_duplicates(),
        ensures
            ({
                match crate::objects::given_objects_fold(self.committee, object_responses@) {
                    Ok(t) => r matches Ok(out) && crate::objects::actives_view(out.0@) == t.0
                        && crate::objects::deleted_view(out.1@) == t.1
                        && crate::objects::plans_view(out.2@) == t.2,
                    Err(es) => r matches Err(
                        AggregateError::TooManyIncorrectAuthorities { errors },
                    ) && errors@ == es,
                }
            }),
            r matches Ok(out) ==> forall|k: int|
                0 <= k < out.2@.len() ==> (#[trigger] out.2@[k]).0.valid(self.committee),
    {
        crate::objects::sync_all_given_objects(&self.committee, object_responses)
    }

    /// Queries owned objects and decides their fates and sync plans; see
    /// `objects::sync_all_owned_objects`.
    pub fn sync_all_owned_objects(
        &self,
        account_responses: Vec<crate::objects::AccountResponse>,
        object_responses: Vec<(crate::base_types::ObjectID, Vec<crate::objects::ObjectResponse>)>,
    ) -> (r: Result<
        (
            Vec<(crate::messages::Object, Option<CertifiedTransaction>)>,
            Vec<(crate::base_types::ObjectRef, Option<CertifiedTransaction>)>,
            Vec<(CertifiedTransaction, Vec<AuthorityName>)>,
        ),
        AggregateError,
    >)
        requires
            self.well_formed(),
            crate::objects::account_resp_names(account_responses@).no_duplicates(),
            forall|k: int|
                0 <= k < object_responses@.len() ==> crate::objects::object_resp_names(
                    (#[trigger] object_responses@[k]).1@,
                ).no_duplicates(),
            object_responses@.map_values(
                |p: (crate::base_types::ObjectID, Vec<crate::objects::ObjectResponse>)| p.0,
            ).no_duplicates(),
            ({
                let owned = crate::objects::owned_fold(
                    self.committee,
                    crate::objects::owned_init(),
                    account_responses@,
                );
                owned.1 is Exhausted ==> forall|id: crate::base_types::ObjectID|
                    #[trigger] crate::objects::given_ids_has(object_responses@, id)
                        <==> crate::objects::owned_map_has_id(owned.0.object_map, id)
            }),
        ensures
            ({
                let owned = crate::objects::owned_fold(
                    self.committee,
                    crate::objects::owned_init(),
                    account_responses@,
                );
                match owned.1 {
                    crate::objects::OwnedEnd::TooManyBad(es) => r matches Err(
                        AggregateError::TooManyIncorrectAuthorities { errors },
                    ) && errors@ == es,
                    crate::objects::OwnedEnd::Exhausted => match crate::objects::given_objects_fold(
                        self.committee,
                        object_responses@,
                    ) {
                        Ok(t) => r matches Ok(out) && crate::objects::actives_view(out.0@) == t.0
                            && crate::objects::deleted_view(out.1@) == t.1
                            && crate::objects::plans_view(out.2@) == t.2,
                        Err(es) => r matches Err(
                            AggregateError::TooManyIncorrectAuthorities { errors },
                        ) && errors@ == es,
                    },
                }
            }),
    {
        crate::objects::sync_all_owned_objects(&self.committee, account_responses, object_responses)
    }

    /// Reads an object's final state from its aggregate; see
    /// `objects::get_object_info_execute`.
    pub fn get_object_info_execute(
        &self,
        object_id: crate::base_types::ObjectID,
        entries: &Vec<crate::objects::ObjectByIdEntry>,
        certs: &Vec<(crate::base_types::TransactionDigest, CertifiedTransaction)>,
        outcomes: &Vec<(crate::base_types::TransactionDigest, Option<CertifiedTransactionEffects>)>,
    ) -> (r: crate::messages::ObjectRead)
        requires
            self.well_formed(),
        ensures
            r == crate::objects::read_walk(
                self.committee,
                object_id,
                crate::objects::obj_entries_view(entries@),
                certs@,
                outcomes@,
            ),
    {
        crate::objects::get_object_info_execute(&self.committee, object_id, entries, certs, outcomes)
    }
}

} // verus!
