//! Broadcasting a certificate and folding the validators' signed effects, in
//! arrival order, into certified effects.
//!
//! Responses are grouped by effects digest and stake is counted per digest;
//! the first digest to gather a quorum of stake wins and its signatures form
//! the certified effects atomically. Different answers for the same digest
//! cannot both win: two quorums always intersect.

use vstd::prelude::*;

use crate::base_types::{AuthorityName, StakeUnit, TransactionEffectsDigest};
use crate::certs::{
    lemma_distinct_stake_bound, names_stake, sig_names, signatures_form_quorum,
};
use crate::committee::Committee;
use crate::error::{AggregateError, ValidatorError};
use crate::messages::{
    AuthoritySignature, CertifiedTransaction, CertifiedTransactionEffects,
    SignedTransactionEffects, TransactionEffects, TransactionInfoResponse,
};
use crate::process_tx::{ptx_classify, resp_names, TransactionResponse};

verus! {

/// Stake and signatures gathered for one effects digest.
pub struct EffectsStakeInfo {
    pub stake: StakeUnit,
    pub effects: TransactionEffects,
    pub signatures: Vec<(AuthorityName, AuthoritySignature)>,
}

/// Mathematical counterpart of `EffectsStakeInfo`.
pub struct EffectsEntry {
    pub stake: int,
    pub effects: TransactionEffects,
    pub signatures: Seq<(AuthorityName, AuthoritySignature)>,
}

/// Reducer state while executing a certificate: per-digest stake tallies, the
/// bad stake and the errors seen.
pub struct PcertState {
    pub entries: Seq<(TransactionEffectsDigest, EffectsEntry)>,
    pub bad_stake: int,
    pub errors: Seq<ValidatorError>,
}

/// How the certificate round ended: aborted because bad stake exceeded the
/// validity threshold, or with the response stream exhausted.
pub enum PcertEnd {
    TooManyBad(Seq<ValidatorError>),
    Exhausted,
}

/// The verdict drawn from an exhausted round: the first digest with a quorum
/// wins, a winning bag that fails aggregate verification is rejected, and
/// without a winner the collected errors are returned.
pub enum PcertOutcome {
    Formed(int),
    FormationFailed,
    Failed(Seq<ValidatorError>),
}

/// The view of the executable entry list.
pub open spec fn entries_view(
    v: Seq<(TransactionEffectsDigest, EffectsStakeInfo)>,
) -> Seq<(TransactionEffectsDigest, EffectsEntry)> {
    v.map_values(
        |p: (TransactionEffectsDigest, EffectsStakeInfo)|
            (
                p.0,
                EffectsEntry {
                    stake: p.1.stake as int,
                    effects: p.1.effects,
                    signatures: p.1.signatures@,
                },
            ),
    )
}

/// The empty reducer state.
pub open spec fn pcert_init() -> PcertState {
    PcertState { entries: Seq::empty(), bad_stake: 0, errors: Seq::empty() }
}

/// Index of the entry keyed by `d`, or the length when absent.
pub open spec fn entry_index(
    entries: Seq<(TransactionEffectsDigest, EffectsEntry)>,
    d: TransactionEffectsDigest,
) -> int
    decreases entries.len(),
{
    if entries.len() == 0 {
        0
    } else if entries[0].0 == d {
        0
    } else {
        1 + entry_index(entries.skip(1), d)
    }
}

/// `entry_index` finds the first entry with the key, or reports its absence.
pub proof fn lemma_entry_index(
    entries: Seq<(TransactionEffectsDigest, EffectsEntry)>,
    d: TransactionEffectsDigest,
)
    ensures
        0 <= entry_index(entries, d) <= entries.len(),
        entry_index(entries, d) < entries.len() ==> entries[entry_index(entries, d)].0 == d,
        forall|k: int| 0 <= k < entry_index(entries, d) ==> entries[k].0 != d,
    decreases entries.len(),
{
    if entries.len() > 0 && entries[0].0 != d {
        lemma_entry_index(entries.skip(1), d);
        assert forall|k: int| 0 <= k < entry_index(entries, d) implies entries[k].0 != d by {
            if k > 0 {
                assert(entries.skip(1)[k - 1] == entries[k]);
            }
        }
    }
}

/// Absorbing one failure, as in vote gathering but without de-duplication:
/// once bad stake exceeds the validity threshold the round is aborted with all
/// errors collected.
pub open spec fn pcert_fail_step(c: Committee, st: PcertState, w: int, e: ValidatorError) -> (
    PcertState,
    Option<PcertEnd>,
) {
    let st1 = PcertState {
        entries: st.entries,
        bad_stake: st.bad_stake + w,
        errors: st.errors.push(e),
    };
    if st1.bad_stake > c.validity_threshold_spec() {
        (st1, Some(PcertEnd::TooManyBad(st1.errors)))
    } else {
        (st1, None)
    }
}

/// One reducer step: signed effects are credited to their digest's entry (a
/// new entry starts at zero stake); any other answer is a failure, an `Ok`
/// without effects being a Byzantine claim.
pub open spec fn pcert_step(
    c: Committee,
    expected_digest: u64,
    st: PcertState,
    name: AuthorityName,
    raw: Result<TransactionInfoResponse, ValidatorError>,
) -> (PcertState, Option<PcertEnd>) {
    let w = c.stake_of(name);
    match ptx_classify(c, name, expected_digest, raw) {
        Ok(resp) => match resp.signed_effects {
            Some(se) => {
                let d = se.effects.digest;
                let i = entry_index(st.entries, d);
                let base = if i == st.entries.len() {
                    st.entries.push(
                        (d, EffectsEntry { stake: 0, effects: se.effects, signatures: Seq::empty() }),
                    )
                } else {
                    st.entries
                };
                let entry = base[i].1;
                let updated = base.update(
                    i,
                    (
                        d,
                        EffectsEntry {
                            stake: entry.stake + w,
                            effects: entry.effects,
                            signatures: entry.signatures.push((name, se.signature)),
                        },
                    ),
                );
                (PcertState { entries: updated, bad_stake: st.bad_stake, errors: st.errors }, None)
            },
            None => pcert_fail_step(
                c,
                st,
                w,
                ValidatorError::ByzantineAuthoritySuspicion { authority: name },
            ),
        },
        Err(e) => pcert_fail_step(c, st, w, e),
    }
}

/// Folding a whole response sequence, in arrival order; a straggler arriving
/// after some digest has reached a quorum is still credited.
pub open spec fn pcert_fold(
    c: Committee,
    expected_digest: u64,
    st: PcertState,
    responses: Seq<TransactionResponse>,
) -> (PcertState, PcertEnd)
    decreases responses.len(),
{
    if responses.len() == 0 {
        (st, PcertEnd::Exhausted)
    } else {
        let stepped = pcert_step(c, expected_digest, st, responses[0].0, responses[0].1);
        match stepped.1 {
            Some(end) => (stepped.0, end),
            None => pcert_fold(c, expected_digest, stepped.0, responses.skip(1)),
        }
    }
}

/// Index of the first entry whose stake reaches the quorum threshold, or the
/// length when none does.
pub open spec fn first_quorum_index(
    c: Committee,
    entries: Seq<(TransactionEffectsDigest, EffectsEntry)>,
) -> int
    decreases entries.len(),
{
    if entries.len() == 0 {
        0
    } else if entries[0].1.stake >= c.quorum_threshold_spec() {
        0
    } else {
        1 + first_quorum_index(c, entries.skip(1))
    }
}

/// `first_quorum_index` finds the first winning entry, or reports its absence.
pub proof fn lemma_first_quorum_index(
    c: Committee,
    entries: Seq<(TransactionEffectsDigest, EffectsEntry)>,
)
    ensures
        0 <= first_quorum_index(c, entries) <= entries.len(),
        first_quorum_index(c, entries) < entries.len() ==> entries[first_quorum_index(
            c,
            entries,
        )].1.stake >= c.quorum_threshold_spec(),
        forall|k: int|
            0 <= k < first_quorum_index(c, entries) ==> entries[k].1.stake
                < c.quorum_threshold_spec(),
    decreases entries.len(),
{
    if entries.len() > 0 && !(entries[0].1.stake >= c.quorum_threshold_spec()) {
        lemma_first_quorum_index(c, entries.skip(1));
        assert forall|k: int| 0 <= k < first_quorum_index(c, entries) implies entries[k].1.stake
            < c.quorum_threshold_spec() by {
            if k > 0 {
                assert(entries.skip(1)[k - 1] == entries[k]);
            }
        }
    }
}

/// The verdict from an exhausted round.
pub open spec fn pcert_finish(c: Committee, epoch: u64, st: PcertState) -> PcertOutcome {
    let i = first_quorum_index(c, st.entries);
    if i < st.entries.len() {
        if signatures_form_quorum(c, epoch, st.entries[i].1.effects.digest, st.entries[i].1.signatures) {
            PcertOutcome::Formed(i)
        } else {
            PcertOutcome::FormationFailed
        }
    } else {
        PcertOutcome::Failed(st.errors)
    }
}

/// A state whose entries carry distinct signers drawn from `processed`, with
/// stake equal to their summed weight; this is what bounds every tally by the
/// total stake.
pub open spec fn pcert_entries_wf(
    c: Committee,
    entries: Seq<(TransactionEffectsDigest, EffectsEntry)>,
    processed: Seq<AuthorityName>,
) -> bool {
    forall|j: int|
        0 <= j < entries.len() ==> {
            &&& sig_names(#[trigger] entries[j].1.signatures).no_duplicates()
            &&& entries[j].1.stake == names_stake(c, sig_names(entries[j].1.signatures))
            &&& forall|n: AuthorityName|
                sig_names(entries[j].1.signatures).contains(n) ==> processed.contains(n)
        }
}

/// Broadcasts a certificate's responses, in arrival order, to the effects
/// reducer: returns exactly what `pcert_fold` and `pcert_finish` say. Stake is
/// grouped by effects digest; the first digest with a quorum of stake wins and
/// its signature bag forms the certified effects atomically; more than a
/// validity threshold of bad stake fails the round with the collected errors.
/// Any certified effects returned are valid for the committee.
pub fn process_certificate(
    committee: &Committee,
    certificate: &CertifiedTransaction,
    responses: Vec<TransactionResponse>,
) -> (r: Result<CertifiedTransactionEffects, AggregateError>)
    requires
        committee.well_formed(),
        resp_names(responses@).no_duplicates(),
    ensures
        ({
            let folded = pcert_fold(
                *committee,
                certificate.transaction.digest_spec(),
                pcert_init(),
                responses@,
            );
            match folded.1 {
                PcertEnd::TooManyBad(es) => r matches Err(
                    AggregateError::QuorumFailedToExecuteCertificate { errors },
                ) && errors@ == es,
                PcertEnd::Exhausted => match pcert_finish(
                    *committee,
                    certificate.epoch,
                    folded.0,
                ) {
                    PcertOutcome::Formed(i) => r matches Ok(ce) && ce.epoch == certificate.epoch
                        && ce.effects == folded.0.entries[i].1.effects && ce.signatures@
                        == folded.0.entries[i].1.signatures,
                    PcertOutcome::FormationFailed => r == Err::<
                        CertifiedTransactionEffects,
                        AggregateError,
                    >(AggregateError::InvalidCertificate),
                    PcertOutcome::Failed(es) => r matches Err(
                        AggregateError::QuorumFailedToExecuteCertificate { errors },
                    ) && errors@ == es,
                },
            }
        }),
        r matches Ok(ce) ==> ce.valid(*committee),
{
    let ghost responses_view = responses@;
    let ghost expected = certificate.transaction.digest_spec();
    let q = committee.quorum_threshold();
    let v = committee.validity_threshold();
    let mut remaining = responses;
    let mut entries: Vec<(TransactionEffectsDigest, EffectsStakeInfo)> = Vec::new();
    let mut errors: Vec<ValidatorError> = Vec::new();
    let mut bad_stake: u64 = 0;
    let ghost mut processed: Seq<AuthorityName> = Seq::empty();
    let ghost mut failed: Seq<AuthorityName> = Seq::empty();
    proof {
        assert(resp_names(responses_view) =~= processed + resp_names(remaining@));
        assert(entries_view(entries@) =~= Seq::<(TransactionEffectsDigest, EffectsEntry)>::empty());
    }
    while remaining.len() > 0
        invariant
            committee.well_formed(),
            responses_view == responses@,
            expected == certificate.transaction.digest_spec(),
            resp_names(responses_view).no_duplicates(),
            resp_names(responses_view) == processed + resp_names(remaining@),
            pcert_fold(*committee, expected, pcert_init(), responses_view) == pcert_fold(
                *committee,
                expected,
                PcertState {
                    entries: entries_view(entries@),
                    bad_stake: bad_stake as int,
                    errors: errors@,
                },
                remaining@,
            ),
            pcert_entries_wf(*committee, entries_view(entries@), processed),
            failed.no_duplicates(),
            bad_stake == names_stake(*committee, failed),
            forall|n: AuthorityName| #[trigger] failed.contains(n) ==> processed.contains(n),
            q == committee.quorum_threshold_spec(),
            v == committee.validity_threshold_spec(),
        decreases remaining@.len(),
    {
        let ghost pre_remaining = remaining@;
        let ghost pre_state = PcertState {
            entries: entries_view(entries@),
            bad_stake: bad_stake as int,
            errors: errors@,
        };
        let (name, raw) = remaining.remove(0);
        let ghost raw_view = raw;
        proof {
            assert(remaining@ =~= pre_remaining.skip(1));
            assert(pre_remaining[0] == (name, raw_view));
            let whole = resp_names(responses_view);
            assert(whole =~= processed + resp_names(pre_remaining));
            assert(resp_names(pre_remaining)[0] == name);
            assert(whole[processed.len() as int] == name);
            assert(!processed.contains(name)) by {
                if processed.contains(name) {
                    let k = choose|k: int| 0 <= k < processed.len() && processed[k] == name;
                    assert(whole[k] == name);
                }
            };
            assert(!failed.contains(name));
            assert(processed.push(name) + resp_names(remaining@) =~= resp_names(responses_view));
        }
        let w = committee.weight(&name);
        let checked: Result<TransactionInfoResponse, ValidatorError> = match raw {
            Ok(resp) => crate::safe_client::check_transaction_info(
                committee,
                name,
                certificate.digest(),
                resp,
            ),
            Err(e) => Err(e),
        };
        let ghost stepped = pcert_step(*committee, expected, pre_state, name, raw_view);
        proof {
            assert(checked == ptx_classify(*committee, name, expected, raw_view));
            match stepped.1 {
                Some(end) => {
                    assert(pcert_fold(*committee, expected, pre_state, pre_remaining) == (
                    stepped.0,
                    end,
                    ));
                },
                None => {
                    assert(pcert_fold(*committee, expected, pre_state, pre_remaining)
                        == pcert_fold(*committee, expected, stepped.0, pre_remaining.skip(1)));
                },
            }
        }
        let mut absorbed_error: Option<ValidatorError> = None;
        match checked {
            Ok(resp) => {
                match resp.signed_effects {
                    Some(se) => {
                        // find the entry for this digest, creating it at zero stake
                        let ghost se_view = se;
                        let d = se.effects.digest;
                        let ghost pre_entries = entries_view(entries@);
                        let mut idx: usize = 0;
                        let mut found = false;
                        while !found && idx < entries.len()
                            invariant
                                idx <= entries@.len(),
                                forall|k: int| 0 <= k < idx ==> entries@[k].0 != d,
                                found ==> idx < entries@.len() && entries@[idx as int].0 == d,
                            decreases entries@.len() - idx + if found { 0int } else { 1int },
                        {
                            if entries[idx].0 == d {
                                found = true;
                            } else {
                                idx = idx + 1;
                            }
                        }
                        proof {
                            lemma_entry_index(pre_entries, d);
                            assert(idx as int == entry_index(pre_entries, d)) by {
                                if idx < entries@.len() {
                                    assert(pre_entries[idx as int].0 == d);
                                    if entry_index(pre_entries, d) < idx {
                                        assert(entries@[entry_index(pre_entries, d)].0 == d);
                                    }
                                } else {
                                    assert(forall|k: int|
                                        0 <= k < pre_entries.len() ==> pre_entries[k].0 != d);
                                    if entry_index(pre_entries, d) < pre_entries.len() {
                                        assert(pre_entries[entry_index(pre_entries, d)].0 == d);
                                    }
                                }
                            };
                        }
                        if idx == entries.len() {
                            entries.push(
                                (
                                    d,
                                    EffectsStakeInfo {
                                        stake: 0,
                                        effects: se.effects,
                                        signatures: Vec::new(),
                                    },
                                ),
                            );
                            proof {
                                assert(entries_view(entries@) =~= pre_entries.push(
                                    (
                                        d,
                                        EffectsEntry {
                                            stake: 0,
                                            effects: se_view.effects,
                                            signatures: Seq::empty(),
                                        },
                                    ),
                                ));
                            }
                        }
                        let ghost base = entries_view(entries@);
                        proof {
                            assert forall|j: int|
                                0 <= j < base.len() implies {
                                &&& sig_names(#[trigger] base[j].1.signatures).no_duplicates()
                                &&& base[j].1.stake == names_stake(
                                    *committee,
                                    sig_names(base[j].1.signatures),
                                )
                                &&& forall|n: AuthorityName|
                                    sig_names(base[j].1.signatures).contains(n)
                                        ==> processed.contains(n)
                            } by {
                                if j < pre_entries.len() {
                                    assert(base[j] == pre_entries[j]);
                                }
                            }
                            assert(!sig_names(base[idx as int].1.signatures).contains(name));
                            crate::process_tx::lemma_names_stake_push(
                                *committee,
                                base[idx as int].1.signatures,
                                (name, se.signature),
                            );
                            crate::process_tx::lemma_push_fresh_distinct(
                                sig_names(base[idx as int].1.signatures),
                                name,
                            );
                            lemma_distinct_stake_bound(
                                *committee,
                                sig_names(base[idx as int].1.signatures).push(name),
                            );
                            crate::committee::lemma_stake_in_nonneg(
                                committee.voting_rights@,
                                name,
                            );
                            crate::process_tx::lemma_push_contains(
                                sig_names(base[idx as int].1.signatures),
                                name,
                            );
                            crate::process_tx::lemma_push_contains(processed, name);
                            assert(processed.push(name).drop_last() =~= processed);
                        }
                        let (dk, info) = entries.remove(idx);
                        let new_info = EffectsStakeInfo {
                            stake: info.stake + w,
                            effects: info.effects,
                            signatures: {
                                let mut sigs = info.signatures;
                                sigs.push((name, se.signature));
                                sigs
                            },
                        };
                        entries.insert(idx, (dk, new_info));
                        proof {
                            processed = processed.push(name);
                            assert(entries_view(entries@) =~= base.update(
                                idx as int,
                                (
                                    d,
                                    EffectsEntry {
                                        stake: base[idx as int].1.stake + committee.stake_of(name),
                                        effects: base[idx as int].1.effects,
                                        signatures: base[idx as int].1.signatures.push(
                                            (name, se.signature),
                                        ),
                                    },
                                ),
                            ));
                            assert(entries_view(entries@) == stepped.0.entries);
                            assert forall|j: int|
                                0 <= j < entries_view(entries@).len() implies {
                                &&& sig_names(
                                    #[trigger] entries_view(entries@)[j].1.signatures,
                                ).no_duplicates()
                                &&& entries_view(entries@)[j].1.stake == names_stake(
                                    *committee,
                                    sig_names(entries_view(entries@)[j].1.signatures),
                                )
                                &&& forall|n: AuthorityName|
                                    sig_names(entries_view(entries@)[j].1.signatures).contains(n)
                                        ==> processed.contains(n)
                            } by {
                                if j != idx as int {
                                    assert(entries_view(entries@)[j] == base[j]);
                                }
                                assert forall|n: AuthorityName|
                                    sig_names(
                                        entries_view(entries@)[j].1.signatures,
                                    ).contains(n) implies processed.contains(n) by {
                                    if j == idx as int {
                                        if n != name {
                                            assert(sig_names(base[j].1.signatures).contains(n));
                                            assert(processed.drop_last().contains(n));
                                            let t = choose|t: int|
                                                0 <= t < processed.drop_last().len()
                                                    && processed.drop_last()[t] == n;
                                            assert(processed[t] == n);
                                        } else {
                                            assert(processed[processed.len() - 1] == name);
                                        }
                                    } else {
                                        assert(processed.drop_last().contains(n));
                                        let t = choose|t: int|
                                            0 <= t < processed.drop_last().len()
                                                && processed.drop_last()[t] == n;
                                        assert(processed[t] == n);
                                    }
                                }
                            }
                            assert forall|n: AuthorityName| #[trigger] failed.contains(n) implies
                                processed.contains(n) by {
                                assert(processed.drop_last().contains(n));
                                let t = choose|t: int|
                                    0 <= t < processed.drop_last().len() && processed.drop_last()[t]
                                        == n;
                                assert(processed[t] == n);
                            }
                        }
                    },
                    None => {
                        absorbed_error = Some(
                            ValidatorError::ByzantineAuthoritySuspicion { authority: name },
                        );
                    },
                }
            },
            Err(e) => {
                absorbed_error = Some(e);
            },
        }
        match absorbed_error {
            Some(e) => {
                proof {
                    crate::process_tx::lemma_push_fresh_distinct(failed, name);
                    assert(failed.push(name).drop_last() =~= failed);
                    lemma_distinct_stake_bound(*committee, failed.push(name));
                    crate::committee::lemma_stake_in_nonneg(committee.voting_rights@, name);
                    crate::process_tx::lemma_push_contains(failed, name);
                    crate::process_tx::lemma_push_contains(processed, name);
                    assert(processed.push(name).drop_last() =~= processed);
                    failed = failed.push(name);
                    processed = processed.push(name);
                }
                errors.push(e);
                bad_stake = bad_stake + w;
                proof {
                    assert(errors@ == pre_state.errors.push(e));
                    assert forall|j: int|
                        0 <= j < entries_view(entries@).len() implies {
                        &&& sig_names(
                            #[trigger] entries_view(entries@)[j].1.signatures,
                        ).no_duplicates()
                        &&& entries_view(entries@)[j].1.stake == names_stake(
                            *committee,
                            sig_names(entries_view(entries@)[j].1.signatures),
                        )
                        &&& forall|n: AuthorityName|
                            sig_names(entries_view(entries@)[j].1.signatures).contains(n)
                                ==> processed.contains(n)
                    } by {
                        assert(entries_view(entries@)[j] == pre_state.entries[j]);
                        assert forall|n: AuthorityName|
                            sig_names(entries_view(entries@)[j].1.signatures).contains(n) implies
                            processed.contains(n) by {
                            assert(processed.drop_last().contains(n));
                            let t = choose|t: int|
                                0 <= t < processed.drop_last().len() && processed.drop_last()[t]
                                    == n;
                            assert(processed[t] == n);
                        }
                    }
                }
                if bad_stake > v {
                    proof {
                        assert(stepped.1 == Some(PcertEnd::TooManyBad(errors@)));
                    }
                    return Err(AggregateError::QuorumFailedToExecuteCertificate { errors });
                }
                proof {
                    assert(stepped.1 is None);
                }
            },
            None => {
                proof {
                    assert(stepped.1 is None);
                }
            },
        }
    }
    // the stream is exhausted: the first digest with a quorum of stake wins
    proof {
        assert(remaining@.len() == 0);
        lemma_first_quorum_index(*committee, entries_view(entries@));
    }
    let ghost final_state = PcertState {
        entries: entries_view(entries@),
        bad_stake: bad_stake as int,
        errors: errors@,
    };
    let mut idx: usize = 0;
    let mut found = false;
    while !found && idx < entries.len()
        invariant
            idx <= entries@.len(),
            committee.well_formed(),
            q == committee.quorum_threshold_spec(),
            final_state.entries == entries_view(entries@),
            forall|k: int| 0 <= k < idx ==> entries_view(entries@)[k].1.stake
                < committee.quorum_threshold_spec(),
            found ==> idx < entries@.len() && entries_view(entries@)[idx as int].1.stake
                >= committee.quorum_threshold_spec(),
        decreases entries@.len() - idx + if found { 0int } else { 1int },
    {
        if entries[idx].1.stake >= q {
            found = true;
        } else {
            idx = idx + 1;
        }
    }
    proof {
        lemma_first_quorum_index(*committee, final_state.entries);
        assert(idx as int == first_quorum_index(*committee, final_state.entries)) by {
            let fi = first_quorum_index(*committee, final_state.entries);
            if idx < entries@.len() {
                assert(final_state.entries[idx as int].1.stake
                    >= committee.quorum_threshold_spec());
                if fi < idx {
                    assert(final_state.entries[fi].1.stake >= committee.quorum_threshold_spec());
                }
            } else {
                if fi < final_state.entries.len() {
                    assert(final_state.entries[fi].1.stake >= committee.quorum_threshold_spec());
                }
            }
        };
    }
    if idx < entries.len() {
        let (_d, info) = entries.remove(idx);
        let formed = CertifiedTransactionEffects::new(
            certificate.epoch,
            info.effects,
            info.signatures,
            committee,
        );
        match formed {
            Ok(ce) => Ok(ce),
            Err(_) => Err(AggregateError::InvalidCertificate),
        }
    } else {
        Err(AggregateError::QuorumFailedToExecuteCertificate { errors })
    }
}


// ---------------------------------------------------------------------------
// Executing a certificate to its true effects.
// ---------------------------------------------------------------------------
/// Reducer state while executing a certificate for an external observer:
/// stake seen so far, stake that returned effects, per-digest tallies, the
/// first effects to reach the validity threshold, and the errors seen.
pub struct ExecCertState {
    pub cumulative_weight: int,
    pub good_weight: int,
    pub digests: Seq<(TransactionEffectsDigest, int)>,
    pub true_effects: Option<SignedTransactionEffects>,
    pub errors: Seq<(AuthorityName, ValidatorError)>,
}

/// How the round ended: some effects reached the validity threshold (with at
/// least one honest signer among them, they are the true outcome), the
/// threshold became unreachable, or the stream ended first.
pub enum ExecCertEnd {
    True(SignedTransactionEffects),
    Impossible,
    Exhausted,
}

/// The empty reducer state.
pub open spec fn exec_cert_init() -> ExecCertState {
    ExecCertState {
        cumulative_weight: 0,
        good_weight: 0,
        digests: Seq::empty(),
        true_effects: None,
        errors: Seq::empty(),
    }
}

/// Sum of the per-digest tallies.
pub open spec fn digests_sum(ds: Seq<(TransactionEffectsDigest, int)>) -> int
    decreases ds.len(),
{
    if ds.len() == 0 {
        0
    } else {
        digests_sum(ds.drop_last()) + ds.last().1
    }
}

/// Index of the tally keyed by `d`, or the length when absent.
pub open spec fn digest_index(ds: Seq<(TransactionEffectsDigest, int)>, d: TransactionEffectsDigest) -> int
    decreases ds.len(),
{
    if ds.len() == 0 {
        0
    } else if ds[0].0 == d {
        0
    } else {
        1 + digest_index(ds.skip(1), d)
    }
}

/// `digest_index` finds the first tally with the key, or reports its absence.
pub proof fn lemma_digest_index(ds: Seq<(TransactionEffectsDigest, int)>, d: TransactionEffectsDigest)
    ensures
        0 <= digest_index(ds, d) <= ds.len(),
        digest_index(ds, d) < ds.len() ==> ds[digest_index(ds, d)].0 == d,
        forall|k: int| 0 <= k < digest_index(ds, d) ==> ds[k].0 != d,
    decreases ds.len(),
{
    if ds.len() > 0 && ds[0].0 != d {
        lemma_digest_index(ds.skip(1), d);
        assert forall|k: int| 0 <= k < digest_index(ds, d) implies ds[k].0 != d by {
            if k > 0 {
                assert(ds.skip(1)[k - 1] == ds[k]);
            }
        }
    }
}

/// Tallies are non-negative, so their sum is too.
proof fn lemma_digests_sum_nonneg(ds: Seq<(TransactionEffectsDigest, int)>)
    requires
        forall|k: int| 0 <= k < ds.len() ==> ds[k].1 >= 0,
    ensures
        digests_sum(ds) >= 0,
    decreases ds.len(),
{
    if ds.len() > 0 {
        lemma_digests_sum_nonneg(ds.drop_last());
    }
}

/// Each non-negative tally is bounded by the sum of all of them.
proof fn lemma_digest_le_sum(ds: Seq<(TransactionEffectsDigest, int)>, j: int)
    requires
        forall|k: int| 0 <= k < ds.len() ==> ds[k].1 >= 0,
        0 <= j < ds.len(),
    ensures
        ds[j].1 <= digests_sum(ds),
    decreases ds.len(),
{
    if j == ds.len() - 1 {
        lemma_digests_sum_nonneg(ds.drop_last());
    } else {
        assert(ds.drop_last()[j] == ds[j]);
        lemma_digest_le_sum(ds.drop_last(), j);
    }
}

/// Raising one tally raises the sum by the same amount.
proof fn lemma_digests_sum_update(ds: Seq<(TransactionEffectsDigest, int)>, j: int, p: (TransactionEffectsDigest, int))
    requires
        0 <= j < ds.len(),
    ensures
        digests_sum(ds.update(j, p)) == digests_sum(ds) - ds[j].1 + p.1,
    decreases ds.len(),
{
    if j == ds.len() - 1 {
        assert(ds.update(j, p).drop_last() =~= ds.drop_last());
        assert(ds.update(j, p).last() == p);
    } else {
        assert(ds.update(j, p).drop_last() =~= ds.drop_last().update(j, p));
        assert(ds.update(j, p).last() == ds.last());
        lemma_digests_sum_update(ds.drop_last(), j, p);
        assert(ds.drop_last()[j] == ds[j]);
    }
}

/// The continuation check after every response: once the stake still unheard
/// plus the good stake cannot reach the validity threshold, the round ends.
pub open spec fn exec_cert_continue(c: Committee, st: ExecCertState) -> (ExecCertState, Option<
    ExecCertEnd,
>) {
    if c.total_votes - st.cumulative_weight + st.good_weight < c.validity_threshold_spec() {
        (st, Some(ExecCertEnd::Impossible))
    } else {
        (st, None)
    }
}

/// One reducer step: every response is counted against the total; signed
/// effects are credited to their digest, and the first digest to reach the
/// validity threshold settles the true effects.
pub open spec fn exec_cert_step(
    c: Committee,
    expected_digest: u64,
    st: ExecCertState,
    name: AuthorityName,
    raw: Result<TransactionInfoResponse, ValidatorError>,
) -> (ExecCertState, Option<ExecCertEnd>) {
    let w = c.stake_of(name);
    match ptx_classify(c, name, expected_digest, raw) {
        Ok(resp) => match resp.signed_effects {
            Some(se) => {
                let d = se.effects.digest;
                let i = digest_index(st.digests, d);
                let base = if i == st.digests.len() {
                    st.digests.push((d, 0))
                } else {
                    st.digests
                };
                let updated = base.update(i, (d, base[i].1 + w));
                let st1 = ExecCertState {
                    cumulative_weight: st.cumulative_weight + w,
                    good_weight: st.good_weight + w,
                    digests: updated,
                    true_effects: st.true_effects,
                    errors: st.errors,
                };
                if updated[i].1 >= c.validity_threshold_spec() {
                    (
                        ExecCertState { true_effects: Some(se), ..st1 },
                        Some(ExecCertEnd::True(se)),
                    )
                } else {
                    exec_cert_continue(c, st1)
                }
            },
            None => exec_cert_continue(
                c,
                ExecCertState {
                    cumulative_weight: st.cumulative_weight + w,
                    good_weight: st.good_weight,
                    digests: st.digests,
                    true_effects: st.true_effects,
                    errors: st.errors.push(
                        (name, ValidatorError::ByzantineAuthoritySuspicion { authority: name }),
                    ),
                },
            ),
        },
        Err(e) => exec_cert_continue(
            c,
            ExecCertState {
                cumulative_weight: st.cumulative_weight + w,
                good_weight: st.good_weight,
                digests: st.digests,
                true_effects: st.true_effects,
                errors: st.errors.push((name, e)),
            },
        ),
    }
}

/// Folding a whole response sequence, in arrival order.
pub open spec fn exec_cert_fold(
    c: Committee,
    expected_digest: u64,
    st: ExecCertState,
    responses: Seq<TransactionResponse>,
) -> (ExecCertState, ExecCertEnd)
    decreases responses.len(),
{
    if responses.len() == 0 {
        (st, ExecCertEnd::Exhausted)
    } else {
        let stepped = exec_cert_step(c, expected_digest, st, responses[0].0, responses[0].1);
        match stepped.1 {
            Some(end) => (stepped.0, end),
            None => exec_cert_fold(c, expected_digest, stepped.0, responses.skip(1)),
        }
    }
}

/// Executes a certificate on remote validators for an external observer,
/// folding the responses in arrival order: the first effects digest to gather
/// a validity threshold of stake is the true outcome, because any such set
/// contains an honest validator. The round also ends, unsuccessfully, as soon
/// as the threshold can no longer be reached by the stake still unheard. Any
/// effects returned are signed by their responder over the certificate's
/// transaction digest.
pub fn execute_cert_to_true_effects(
    committee: &Committee,
    cert: &CertifiedTransaction,
    responses: Vec<TransactionResponse>,
) -> (r: Result<SignedTransactionEffects, AggregateError>)
    requires
        committee.well_formed(),
        resp_names(responses@).no_duplicates(),
    ensures
        ({
            let folded = exec_cert_fold(
                *committee,
                cert.transaction.digest_spec(),
                exec_cert_init(),
                responses@,
            );
            match folded.1 {
                ExecCertEnd::True(se) => r == Ok::<SignedTransactionEffects, AggregateError>(se),
                ExecCertEnd::Impossible | ExecCertEnd::Exhausted => r matches Err(
                    AggregateError::TooManyIncorrectAuthorities { errors },
                ) && errors@ == folded.0.errors,
            }
        }),
        r matches Ok(se) ==> se.effects.transaction_digest == cert.transaction.digest_spec(),
{
    let ghost responses_view = responses@;
    let ghost expected = cert.transaction.digest_spec();
    let v = committee.validity_threshold();
    let total = committee.total_votes;
    let mut remaining = responses;
    let mut cumulative_weight: u64 = 0;
    let mut good_weight: u64 = 0;
    let mut digests: Vec<(TransactionEffectsDigest, u64)> = Vec::new();
    let mut errors: Vec<(AuthorityName, ValidatorError)> = Vec::new();
    let ghost mut processed: Seq<AuthorityName> = Seq::empty();
    let ghost mut good_names: Seq<AuthorityName> = Seq::empty();
    proof {
        assert(resp_names(responses_view) =~= processed + resp_names(remaining@));
        assert(digests_view(digests@) =~= Seq::<(TransactionEffectsDigest, int)>::empty());
    }
    while remaining.len() > 0
        invariant
            committee.well_formed(),
            responses_view == responses@,
            expected == cert.transaction.digest_spec(),
            resp_names(responses_view).no_duplicates(),
            resp_names(responses_view) == processed + resp_names(remaining@),
            exec_cert_fold(*committee, expected, exec_cert_init(), responses_view)
                == exec_cert_fold(
                *committee,
                expected,
                ExecCertState {
                    cumulative_weight: cumulative_weight as int,
                    good_weight: good_weight as int,
                    digests: digests_view(digests@),
                    true_effects: None,
                    errors: errors@,
                },
                remaining@,
            ),
            processed.no_duplicates(),
            cumulative_weight == names_stake(*committee, processed),
            good_names.no_duplicates(),
            good_weight == names_stake(*committee, good_names),
            forall|n: AuthorityName| #[trigger] good_names.contains(n) ==> processed.contains(n),
            digests_sum(digests_view(digests@)) == good_weight as int,
            forall|k: int| 0 <= k < digests@.len() ==> digests_view(digests@)[k].1 >= 0,
            v == committee.validity_threshold_spec(),
            total == committee.total_votes,
        decreases remaining@.len(),
    {
        let ghost pre_remaining = remaining@;
        let ghost pre_state = ExecCertState {
            cumulative_weight: cumulative_weight as int,
            good_weight: good_weight as int,
            digests: digests_view(digests@),
            true_effects: None,
            errors: errors@,
        };
        let (name, raw) = remaining.remove(0);
        let ghost raw_view = raw;
        proof {
            assert(remaining@ =~= pre_remaining.skip(1));
            assert(pre_remaining[0] == (name, raw_view));
            let whole = resp_names(responses_view);
            assert(whole =~= processed + resp_names(pre_remaining));
            assert(resp_names(pre_remaining)[0] == name);
            assert(whole[processed.len() as int] == name);
            assert(!processed.contains(name)) by {
                if processed.contains(name) {
                    let k = choose|k: int| 0 <= k < processed.len() && processed[k] == name;
                    assert(whole[k] == name);
                }
            };
            assert(!good_names.contains(name));
            assert(processed.push(name) + resp_names(remaining@) =~= resp_names(responses_view));
            crate::process_tx::lemma_push_fresh_distinct(processed, name);
            crate::process_tx::lemma_push_contains(processed, name);
            assert(processed.push(name).drop_last() =~= processed);
            crate::committee::lemma_stake_in_nonneg(committee.voting_rights@, name);
            lemma_distinct_stake_bound(*committee, processed.push(name));
        }
        let w = committee.weight(&name);
        let checked: Result<TransactionInfoResponse, ValidatorError> = match raw {
            Ok(resp) => crate::safe_client::check_transaction_info(
                committee,
                name,
                cert.digest(),
                resp,
            ),
            Err(e) => Err(e),
        };
        let ghost stepped = exec_cert_step(*committee, expected, pre_state, name, raw_view);
        proof {
            assert(checked == ptx_classify(*committee, name, expected, raw_view));
            match stepped.1 {
                Some(end) => {
                    assert(exec_cert_fold(*committee, expected, pre_state, pre_remaining) == (
                    stepped.0,
                    end,
                    ));
                },
                None => {
                    assert(exec_cert_fold(*committee, expected, pre_state, pre_remaining)
                        == exec_cert_fold(*committee, expected, stepped.0, pre_remaining.skip(1)));
                },
            }
        }
        match checked {
            Ok(resp) => {
                match resp.signed_effects {
                    Some(se) => {
                        let ghost se_view = se;
                        let d = se.effects.digest;
                        let ghost pre_digests = digests_view(digests@);
                        let mut idx: usize = 0;
                        let mut found = false;
                        while !found && idx < digests.len()
                            invariant
                                idx <= digests@.len(),
                                forall|k: int| 0 <= k < idx ==> digests@[k].0 != d,
                                found ==> idx < digests@.len() && digests@[idx as int].0 == d,
                            decreases digests@.len() - idx + if found { 0int } else { 1int },
                        {
                            if digests[idx].0 == d {
                                found = true;
                            } else {
                                idx = idx + 1;
                            }
                        }
                        proof {
                            lemma_digest_index(pre_digests, d);
                            assert(idx as int == digest_index(pre_digests, d)) by {
                                if idx < digests@.len() {
                                    assert(pre_digests[idx as int].0 == d);
                                    if digest_index(pre_digests, d) < idx {
                                        assert(pre_digests[digest_index(pre_digests, d)].0 == d);
                                    }
                                } else {
                                    assert(forall|k: int|
                                        0 <= k < pre_digests.len() ==> pre_digests[k].0 != d);
                                    if digest_index(pre_digests, d) < pre_digests.len() {
                                        assert(pre_digests[digest_index(pre_digests, d)].0 == d);
                                    }
                                }
                            };
                        }
                        if idx == digests.len() {
                            digests.push((d, 0));
                            proof {
                                assert(digests_view(digests@) =~= pre_digests.push((d, 0int)));
                            }
                        }
                        let ghost base = digests_view(digests@);
                        proof {
                            if idx as int == pre_digests.len() {
                                assert(base.drop_last() =~= pre_digests);
                                assert(digests_sum(base) == digests_sum(pre_digests));
                            }
                            assert forall|k: int| 0 <= k < base.len() implies base[k].1 >= 0 by {
                                if k < pre_digests.len() {
                                    assert(base[k] == pre_digests[k]);
                                }
                            }
                            lemma_digest_le_sum(base, idx as int);
                            crate::process_tx::lemma_push_fresh_distinct(good_names, name);
                            crate::process_tx::lemma_push_contains(good_names, name);
                            assert(good_names.push(name).drop_last() =~= good_names);
                            lemma_distinct_stake_bound(*committee, good_names.push(name));
                            lemma_digests_sum_update(
                                base,
                                idx as int,
                                (d, base[idx as int].1 + committee.stake_of(name)),
                            );
                        }
                        let entry_stake = digests[idx].1;
                        let new_stake = entry_stake + w;
                        digests.set(idx, (d, new_stake));
                        cumulative_weight = cumulative_weight + w;
                        good_weight = good_weight + w;
                        proof {
                            processed = processed.push(name);
                            good_names = good_names.push(name);
                            assert(digests_view(digests@) =~= base.update(
                                idx as int,
                                (d, base[idx as int].1 + committee.stake_of(name)),
                            ));
                            assert(digests_view(digests@) == stepped.0.digests);
                        }
                        if new_stake >= v {
                            proof {
                                assert(stepped.1 == Some(ExecCertEnd::True(se_view)));
                            }
                            return Ok(se);
                        }
                        proof {
                            assert forall|k: int|
                                0 <= k < digests@.len() implies digests_view(digests@)[k].1
                                >= 0 by {
                                if k != idx as int {
                                    assert(digests_view(digests@)[k] == base[k]);
                                }
                            }
                        }
                    },
                    None => {
                        errors.push((name, ValidatorError::ByzantineAuthoritySuspicion {
                            authority: name,
                        }));
                        cumulative_weight = cumulative_weight + w;
                        proof {
                            processed = processed.push(name);
                            assert(errors@ == pre_state.errors.push(
                                (name, ValidatorError::ByzantineAuthoritySuspicion {
                                    authority: name,
                                }),
                            ));
                        }
                    },
                }
            },
            Err(e) => {
                errors.push((name, e));
                cumulative_weight = cumulative_weight + w;
                proof {
                    processed = processed.push(name);
                    assert(errors@ == pre_state.errors.push((name, e)));
                }
            },
        }
        // the threshold may now be unreachable by the stake still unheard
        proof {
            lemma_distinct_stake_bound(*committee, processed);
        }
        let remaining_weight = total - cumulative_weight;
        if ((remaining_weight as u128) + (good_weight as u128)) < (v as u128) {
            proof {
                assert(stepped.1 == Some(ExecCertEnd::Impossible));
            }
            return Err(AggregateError::TooManyIncorrectAuthorities { errors });
        }
        proof {
            assert(stepped.1 is None);
        }
    }
    proof {
        assert(remaining@.len() == 0);
    }
    Err(AggregateError::TooManyIncorrectAuthorities { errors })
}

/// The view of the executable tally list.
pub open spec fn digests_view(v: Seq<(TransactionEffectsDigest, u64)>) -> Seq<(
    TransactionEffectsDigest,
    int,
)> {
    v.map_values(|p: (TransactionEffectsDigest, u64)| (p.0, p.1 as int))
}


// ---------------------------------------------------------------------------
// Agreement: two runs over the same committee settle on the same digest.
// ---------------------------------------------------------------------------
/// Validator `n` answered the certificate with signed effects carrying digest
/// `d` somewhere in the response sequence.
pub open spec fn responded_with_digest(
    c: Committee,
    expected: u64,
    responses: Seq<TransactionResponse>,
    n: AuthorityName,
    d: TransactionEffectsDigest,
) -> bool {
    exists|i: int|
        0 <= i < responses.len() && (#[trigger] responses[i]).0 == n && (ptx_classify(
            c,
            n,
            expected,
            responses[i].1,
        ) matches Ok(resp) && resp.signed_effects matches Some(se) && se.effects.digest == d)
}

/// Reducer-state sanity relative to a pool of responses: every tally counts
/// distinct signers who answered with that digest somewhere in the pool, and
/// the stake is exactly their summed weight.
pub open spec fn pcert_inv(
    c: Committee,
    expected: u64,
    st: PcertState,
    pool: Seq<TransactionResponse>,
) -> bool {
    forall|j: int|
        0 <= j < st.entries.len() ==> {
            &&& sig_names((#[trigger] st.entries[j]).1.signatures).no_duplicates()
            &&& st.entries[j].1.stake == names_stake(c, sig_names(st.entries[j].1.signatures))
            &&& forall|k: int|
                0 <= k < st.entries[j].1.signatures.len() ==> responded_with_digest(
                    c,
                    expected,
                    pool,
                    (#[trigger] st.entries[j].1.signatures[k]).0,
                    st.entries[j].0,
                )
        }
}

/// No signer recorded in the state still has a response waiting in `rest`.
pub open spec fn pcert_signers_fresh(st: PcertState, rest: Seq<TransactionResponse>) -> bool {
    forall|j: int, k: int|
        0 <= j < st.entries.len() && 0 <= k < (#[trigger] st.entries[j]).1.signatures.len()
            ==> !resp_names(rest).contains(#[trigger] st.entries[j].1.signatures[k].0)
}

/// Folding preserves the tally sanity: whatever state the fold reaches, every
/// tally still counts distinct signers who answered with its digest in the pool.
pub proof fn lemma_pcert_fold_inv(
    c: Committee,
    expected: u64,
    st: PcertState,
    rest: Seq<TransactionResponse>,
    pool: Seq<TransactionResponse>,
)
    requires
        resp_names(rest).no_duplicates(),
        forall|i: int| 0 <= i < rest.len() ==> pool.contains(#[trigger] rest[i]),
        pcert_inv(c, expected, st, pool),
        pcert_signers_fresh(st, rest),
    ensures
        pcert_inv(c, expected, pcert_fold(c, expected, st, rest).0, pool),
    decreases rest.len(), 1int,
{
    if rest.len() > 0 {
        let name = rest[0].0;
        let raw = rest[0].1;
        let stepped = pcert_step(c, expected, st, name, raw);
        assert(resp_names(rest)[0] == name);
        assert forall|i: int| 0 <= i < rest.skip(1).len() implies pool.contains(
            #[trigger] rest.skip(1)[i],
        ) by {
            assert(rest.skip(1)[i] == rest[i + 1]);
        }
        assert(resp_names(rest.skip(1)) =~= resp_names(rest).skip(1));
        assert forall|k: int| 0 <= k < resp_names(rest.skip(1)).len() implies resp_names(
            rest.skip(1),
        )[k] != name by {
            assert(resp_names(rest)[k + 1] == resp_names(rest.skip(1))[k]);
        }
        assert(!resp_names(rest.skip(1)).contains(name)) by {
            if resp_names(rest.skip(1)).contains(name) {
                let k = choose|k: int|
                    0 <= k < resp_names(rest.skip(1)).len() && resp_names(rest.skip(1))[k] == name;
            }
        };
        let checked = ptx_classify(c, name, expected, raw);
        match checked {
            Ok(resp) => match resp.signed_effects {
                Some(se) => {
                    let d = se.effects.digest;
                    let i = entry_index(st.entries, d);
                    lemma_entry_index(st.entries, d);
                    let base = if i == st.entries.len() {
                        st.entries.push(
                            (
                                d,
                                EffectsEntry {
                                    stake: 0,
                                    effects: se.effects,
                                    signatures: Seq::empty(),
                                },
                            ),
                        )
                    } else {
                        st.entries
                    };
                    // the stepped state's tallies stay sane: the touched entry
                    // gains one fresh signer who answered with its digest
                    assert(pool.contains(rest[0]));
                    assert(responded_with_digest(c, expected, pool, name, d)) by {
                        let w = choose|w: int| 0 <= w < pool.len() && pool[w] == rest[0];
                        assert(pool[w].0 == name);
                    };
                    assert forall|j: int|
                        0 <= j < stepped.0.entries.len() implies {
                        &&& sig_names(
                            (#[trigger] stepped.0.entries[j]).1.signatures,
                        ).no_duplicates()
                        &&& stepped.0.entries[j].1.stake == names_stake(
                            c,
                            sig_names(stepped.0.entries[j].1.signatures),
                        )
                        &&& forall|k: int|
                            0 <= k < stepped.0.entries[j].1.signatures.len()
                                ==> responded_with_digest(
                                c,
                                expected,
                                pool,
                                (#[trigger] stepped.0.entries[j].1.signatures[k]).0,
                                stepped.0.entries[j].0,
                            )
                    } by {
                        if j != i {
                            assert(stepped.0.entries[j] == base[j]);
                            if i == st.entries.len() || j < st.entries.len() {
                                assert(base[j] == st.entries[j]);
                            }
                        } else {
                            let old_sigs = base[i].1.signatures;
                            let new_sigs = old_sigs.push((name, se.signature));
                            assert(stepped.0.entries[j].1.signatures == new_sigs);
                            assert(stepped.0.entries[j].0 == d);
                            if i < st.entries.len() {
                                assert(base[i] == st.entries[i]);
                                assert(!sig_names(old_sigs).contains(name)) by {
                                    if sig_names(old_sigs).contains(name) {
                                        let k = choose|k: int|
                                            0 <= k < sig_names(old_sigs).len() && sig_names(
                                                old_sigs,
                                            )[k] == name;
                                        assert(st.entries[i].1.signatures[k].0 == name);
                                        assert(!resp_names(rest).contains(name));
                                    }
                                };
                            } else {
                                assert(old_sigs =~= Seq::<(
                                    AuthorityName,
                                    crate::messages::AuthoritySignature,
                                )>::empty());
                                assert(sig_names(old_sigs).len() == 0);
                            }
                            crate::process_tx::lemma_push_fresh_distinct(
                                sig_names(old_sigs),
                                name,
                            );
                            crate::process_tx::lemma_names_stake_push(
                                c,
                                old_sigs,
                                (name, se.signature),
                            );
                            assert forall|k: int|
                                0 <= k < new_sigs.len() implies responded_with_digest(
                                c,
                                expected,
                                pool,
                                (#[trigger] new_sigs[k]).0,
                                d,
                            ) by {
                                if k < old_sigs.len() {
                                    assert(new_sigs[k] == old_sigs[k]);
                                    if i < st.entries.len() {
                                        assert(responded_with_digest(
                                            c,
                                            expected,
                                            pool,
                                            st.entries[i].1.signatures[k].0,
                                            st.entries[i].0,
                                        ));
                                    }
                                }
                            }
                        }
                    }
                    assert(pcert_inv(c, expected, stepped.0, pool));
                    // freshness carries to the remaining responses
                    assert forall|j: int, k: int|
                        0 <= j < stepped.0.entries.len() && 0 <= k < (
                        #[trigger] stepped.0.entries[j]).1.signatures.len() implies !resp_names(
                        rest.skip(1),
                    ).contains(#[trigger] stepped.0.entries[j].1.signatures[k].0) by {
                        if j == i && k == stepped.0.entries[j].1.signatures.len() - 1 {
                            assert(stepped.0.entries[j].1.signatures[k].0 == name);
                        } else {
                            if j != i {
                                assert(stepped.0.entries[j] == base[j]);
                                if i == st.entries.len() || j < st.entries.len() {
                                    assert(base[j] == st.entries[j]);
                                    assert(!resp_names(rest).contains(
                                        st.entries[j].1.signatures[k].0,
                                    ));
                                    lemma_names_subrange_contains(
                                        resp_names(rest),
                                        st.entries[j].1.signatures[k].0,
                                    );
                                }
                            } else {
                                assert(i < st.entries.len());
                                assert(stepped.0.entries[j].1.signatures[k]
                                    == st.entries[i].1.signatures[k]);
                                assert(!resp_names(rest).contains(
                                    st.entries[i].1.signatures[k].0,
                                ));
                                lemma_names_subrange_contains(
                                    resp_names(rest),
                                    st.entries[i].1.signatures[k].0,
                                );
                            }
                        }
                    }
                    lemma_pcert_fold_inv(c, expected, stepped.0, rest.skip(1), pool);
                },
                None => {
                    lemma_pcert_fail_case(c, expected, st, rest, pool);
                },
            },
            Err(_) => {
                lemma_pcert_fail_case(c, expected, st, rest, pool);
            },
        }
    }
}

/// A digest not in the response names of a sequence is not in its tail either.
proof fn lemma_names_subrange_contains(names: Seq<AuthorityName>, n: AuthorityName)
    requires
        !names.contains(n),
        names.len() > 0,
    ensures
        !names.skip(1).contains(n),
{
    if names.skip(1).contains(n) {
        let k = choose|k: int| 0 <= k < names.skip(1).len() && names.skip(1)[k] == n;
        assert(names[k + 1] == n);
    }
}

/// The failure step leaves every tally untouched.
proof fn lemma_pcert_fail_case(
    c: Committee,
    expected: u64,
    st: PcertState,
    rest: Seq<TransactionResponse>,
    pool: Seq<TransactionResponse>,
)
    requires
        rest.len() > 0,
        resp_names(rest).no_duplicates(),
        forall|i: int| 0 <= i < rest.len() ==> pool.contains(#[trigger] rest[i]),
        pcert_inv(c, expected, st, pool),
        pcert_signers_fresh(st, rest),
        !(ptx_classify(c, rest[0].0, expected, rest[0].1) matches Ok(resp)
            && resp.signed_effects is Some),
    ensures
        pcert_inv(c, expected, pcert_fold(c, expected, st, rest).0, pool),
    decreases rest.len(), 0int,
{
    let stepped = pcert_step(c, expected, st, rest[0].0, rest[0].1);
    assert(stepped.0.entries == st.entries);
    match stepped.1 {
        Some(_) => {
            assert(pcert_fold(c, expected, st, rest).0 == stepped.0);
        },
        None => {
            assert forall|i: int| 0 <= i < rest.skip(1).len() implies pool.contains(
                #[trigger] rest.skip(1)[i],
            ) by {
                assert(rest.skip(1)[i] == rest[i + 1]);
            }
            assert(resp_names(rest.skip(1)) =~= resp_names(rest).skip(1));
            assert forall|j: int, k: int|
                0 <= j < stepped.0.entries.len() && 0 <= k < (
                #[trigger] stepped.0.entries[j]).1.signatures.len() implies !resp_names(
                rest.skip(1),
            ).contains(#[trigger] stepped.0.entries[j].1.signatures[k].0) by {
                assert(!resp_names(rest).contains(st.entries[j].1.signatures[k].0));
                lemma_names_subrange_contains(
                    resp_names(rest),
                    st.entries[j].1.signatures[k].0,
                );
            }
            lemma_pcert_fold_inv(c, expected, stepped.0, rest.skip(1), pool);
        },
    }
}

/// Re-running a certificate settles on the same effects digest: when two
/// response sequences from one committee are consistent — no validator answers
/// with two different digests across the runs — and both runs end with a
/// winning tally, the winning digests are equal, because the two quorums share
/// a signer.
pub proof fn lemma_process_certificate_agreement(
    c: Committee,
    expected: u64,
    r1: Seq<TransactionResponse>,
    r2: Seq<TransactionResponse>,
) -> (d: TransactionEffectsDigest)
    requires
        c.well_formed(),
        resp_names(r1).no_duplicates(),
        resp_names(r2).no_duplicates(),
        forall|n: AuthorityName, d1: TransactionEffectsDigest, d2: TransactionEffectsDigest|
            responded_with_digest(c, expected, r1, n, d1) && responded_with_digest(
                c,
                expected,
                r2,
                n,
                d2,
            ) ==> d1 == d2,
        ({
            let f1 = pcert_fold(c, expected, pcert_init(), r1);
            f1.1 is Exhausted && pcert_finish(c, c.epoch, f1.0) is Formed
        }),
        ({
            let f2 = pcert_fold(c, expected, pcert_init(), r2);
            f2.1 is Exhausted && pcert_finish(c, c.epoch, f2.0) is Formed
        }),
    ensures
        ({
            let f1 = pcert_fold(c, expected, pcert_init(), r1);
            let f2 = pcert_fold(c, expected, pcert_init(), r2);
            let i1 = first_quorum_index(c, f1.0.entries);
            let i2 = first_quorum_index(c, f2.0.entries);
            f1.0.entries[i1].0 == d && f2.0.entries[i2].0 == d
        }),
{
    let f1 = pcert_fold(c, expected, pcert_init(), r1);
    let f2 = pcert_fold(c, expected, pcert_init(), r2);
    lemma_pcert_fold_inv(c, expected, pcert_init(), r1, r1);
    lemma_pcert_fold_inv(c, expected, pcert_init(), r2, r2);
    let i1 = first_quorum_index(c, f1.0.entries);
    let i2 = first_quorum_index(c, f2.0.entries);
    lemma_first_quorum_index(c, f1.0.entries);
    lemma_first_quorum_index(c, f2.0.entries);
    let e1 = f1.0.entries[i1];
    let e2 = f2.0.entries[i2];
    let x = crate::certs::lemma_quorum_intersection(
        c,
        sig_names(e1.1.signatures),
        sig_names(e2.1.signatures),
    );
    let k1 = choose|k: int|
        0 <= k < sig_names(e1.1.signatures).len() && sig_names(e1.1.signatures)[k] == x;
    let k2 = choose|k: int|
        0 <= k < sig_names(e2.1.signatures).len() && sig_names(e2.1.signatures)[k] == x;
    assert(e1.1.signatures[k1].0 == x);
    assert(e2.1.signatures[k2].0 == x);
    assert(responded_with_digest(c, expected, r1, x, e1.0));
    assert(responded_with_digest(c, expected, r2, x, e2.0));
    e1.0
}


// ---------------------------------------------------------------------------
// Liveness of certificate execution: with bounded bad stake and a quorum of
// matching effects, the round certifies.
// ---------------------------------------------------------------------------
/// The response is a clean effects answer carrying digest `d`.
pub open spec fn pcert_is_vote(
    c: Committee,
    expected: u64,
    d: TransactionEffectsDigest,
    r: TransactionResponse,
) -> bool {
    ptx_classify(c, r.0, expected, r.1) matches Ok(resp) && resp.signed_effects matches Some(se)
        && se.effects.digest == d
}

/// The response carries signed effects at all (of whatever digest).
pub open spec fn pcert_is_effects(c: Committee, expected: u64, r: TransactionResponse) -> bool {
    ptx_classify(c, r.0, expected, r.1) matches Ok(resp) && resp.signed_effects is Some
}

/// Stake of the clean effects answers carrying digest `d`.
pub open spec fn pcert_vote_stake(
    c: Committee,
    expected: u64,
    d: TransactionEffectsDigest,
    responses: Seq<TransactionResponse>,
) -> int
    decreases responses.len(),
{
    if responses.len() == 0 {
        0
    } else {
        (if pcert_is_vote(c, expected, d, responses[0]) {
            c.stake_of(responses[0].0)
        } else {
            0
        }) + pcert_vote_stake(c, expected, d, responses.skip(1))
    }
}

/// Stake of the responses that carry no signed effects.
pub open spec fn pcert_bad_total(
    c: Committee,
    expected: u64,
    responses: Seq<TransactionResponse>,
) -> int
    decreases responses.len(),
{
    if responses.len() == 0 {
        0
    } else {
        (if !pcert_is_effects(c, expected, responses[0]) {
            c.stake_of(responses[0].0)
        } else {
            0
        }) + pcert_bad_total(c, expected, responses.skip(1))
    }
}

/// Both tallies are non-negative.
proof fn lemma_pcert_tallies_nonneg(
    c: Committee,
    expected: u64,
    d: TransactionEffectsDigest,
    responses: Seq<TransactionResponse>,
)
    ensures
        pcert_vote_stake(c, expected, d, responses) >= 0,
        pcert_bad_total(c, expected, responses) >= 0,
    decreases responses.len(),
{
    if responses.len() > 0 {
        crate::committee::lemma_stake_in_nonneg(c.voting_rights@, responses[0].0);
        lemma_pcert_tallies_nonneg(c, expected, d, responses.skip(1));
    }
}

/// The entry's stake, zero when no tally has started.
pub open spec fn sole_entry_stake(st: PcertState) -> int {
    if st.entries.len() == 1 {
        st.entries[0].1.stake
    } else {
        0
    }
}

/// The single-entry sanity carried through the liveness induction.
pub open spec fn pcert_live_inv(
    c: Committee,
    d: TransactionEffectsDigest,
    st: PcertState,
    rest: Seq<TransactionResponse>,
) -> bool {
    &&& st.entries.len() <= 1
    &&& st.entries.len() == 1 ==> {
        &&& st.entries[0].0 == d
        &&& st.entries[0].1.effects.digest == d
        &&& sig_names(st.entries[0].1.signatures).no_duplicates()
        &&& st.entries[0].1.stake == names_stake(c, sig_names(st.entries[0].1.signatures))
        &&& forall|k: int|
            0 <= k < st.entries[0].1.signatures.len() ==> {
                &&& c.contains_name((#[trigger] st.entries[0].1.signatures[k]).0)
                &&& st.entries[0].1.signatures[k].1.valid_for(
                    st.entries[0].1.signatures[k].0,
                    c.epoch,
                    d,
                )
            }
        &&& forall|k: int|
            0 <= k < st.entries[0].1.signatures.len() ==> !resp_names(rest).contains(
                (#[trigger] st.entries[0].1.signatures[k]).0,
            )
    }
}

/// The inductive liveness argument for certificate execution: when every
/// remaining clean answer carries the one digest, the remaining bad stake
/// stays under the validity threshold, and enough matching stake is left to
/// cross the quorum, the fold runs to exhaustion with a single winning tally.
proof fn lemma_pcert_fold_live(
    c: Committee,
    expected: u64,
    d: TransactionEffectsDigest,
    st: PcertState,
    rest: Seq<TransactionResponse>,
)
    requires
        c.well_formed(),
        resp_names(rest).no_duplicates(),
        forall|i: int| 0 <= i < rest.len() ==> c.contains_name((#[trigger] rest[i]).0),
        forall|i: int|
            0 <= i < rest.len() && pcert_is_effects(c, expected, #[trigger] rest[i])
                ==> pcert_is_vote(c, expected, d, rest[i]),
        pcert_live_inv(c, d, st, rest),
        st.bad_stake + pcert_bad_total(c, expected, rest) <= c.validity_threshold_spec(),
        sole_entry_stake(st) + pcert_vote_stake(c, expected, d, rest)
            >= c.quorum_threshold_spec(),
    ensures
        ({
            let folded = pcert_fold(c, expected, st, rest);
            &&& folded.1 is Exhausted
            &&& folded.0.entries.len() == 1
            &&& folded.0.entries[0].0 == d
            &&& folded.0.entries[0].1.effects.digest == d
            &&& folded.0.entries[0].1.stake >= c.quorum_threshold_spec()
            &&& signatures_form_quorum(c, c.epoch, d, folded.0.entries[0].1.signatures)
        }),
    decreases rest.len(),
{
    lemma_pcert_tallies_nonneg(c, expected, d, rest);
    crate::committee::lemma_thresholds(c);
    if rest.len() == 0 {
        assert(st.entries.len() == 1);
        assert(signatures_form_quorum(c, c.epoch, d, st.entries[0].1.signatures));
    } else {
        let name = rest[0].0;
        let raw = rest[0].1;
        let stepped = pcert_step(c, expected, st, name, raw);
        lemma_pcert_tallies_nonneg(c, expected, d, rest.skip(1));
        crate::committee::lemma_stake_in_nonneg(c.voting_rights@, name);
        assert(resp_names(rest)[0] == name);
        assert(resp_names(rest.skip(1)) =~= resp_names(rest).skip(1));
        assert forall|k: int| 0 <= k < resp_names(rest).skip(1).len() implies #[trigger] resp_names(
            rest,
        ).skip(1)[k] == resp_names(rest)[k + 1] by {}
        assert forall|i: int| 0 <= i < rest.skip(1).len() implies c.contains_name(
            (#[trigger] rest.skip(1)[i]).0,
        ) && (pcert_is_effects(c, expected, rest.skip(1)[i]) ==> pcert_is_vote(
            c,
            expected,
            d,
            rest.skip(1)[i],
        )) by {
            assert(rest.skip(1)[i] == rest[i + 1]);
        }
        if pcert_is_effects(c, expected, rest[0]) {
            assert(pcert_is_vote(c, expected, d, rest[0]));
            let resp = ptx_classify(c, name, expected, raw)->Ok_0;
            let se = resp.signed_effects->0;
            let st1 = stepped.0;
            if st.entries.len() == 0 {
                assert(entry_index(st.entries, d) == 0);
                let base = st.entries.push(
                    (d, EffectsEntry { stake: 0, effects: se.effects, signatures: Seq::empty() }),
                );
                assert(st1.entries == base.update(
                    0,
                    (
                        d,
                        EffectsEntry {
                            stake: 0 + c.stake_of(name),
                            effects: se.effects,
                            signatures: Seq::empty().push((name, se.signature)),
                        },
                    ),
                ));
                assert(sig_names(st1.entries[0].1.signatures) =~= seq![name]);
                assert(sig_names(st1.entries[0].1.signatures).drop_last()
                    =~= Seq::<AuthorityName>::empty());
                assert(names_stake(c, Seq::<AuthorityName>::empty()) == 0);
                assert(sig_names(st1.entries[0].1.signatures).last() == name);
                assert(names_stake(c, sig_names(st1.entries[0].1.signatures)) == names_stake(
                    c,
                    sig_names(st1.entries[0].1.signatures).drop_last(),
                ) + crate::committee::stake_in(c.voting_rights@, name));
                assert(names_stake(c, sig_names(st1.entries[0].1.signatures)) == c.stake_of(
                    name,
                ));
            } else {
                assert(entry_index(st.entries, d) == 0);
                let old_sigs = st.entries[0].1.signatures;
                assert(st1.entries[0].1.signatures == old_sigs.push((name, se.signature)));
                assert(!sig_names(old_sigs).contains(name)) by {
                    if sig_names(old_sigs).contains(name) {
                        let k = choose|k: int|
                            0 <= k < sig_names(old_sigs).len() && sig_names(old_sigs)[k] == name;
                        assert(old_sigs[k].0 == name);
                        assert(!resp_names(rest).contains(name));
                    }
                };
                crate::process_tx::lemma_push_fresh_distinct(sig_names(old_sigs), name);
                crate::process_tx::lemma_names_stake_push(c, old_sigs, (name, se.signature));
            }
            assert(se.signature.valid_for(name, c.epoch, d));
            assert forall|k: int|
                0 <= k < st1.entries[0].1.signatures.len() implies !resp_names(
                rest.skip(1),
            ).contains((#[trigger] st1.entries[0].1.signatures[k]).0) by {
                let n = st1.entries[0].1.signatures[k].0;
                if k < st1.entries[0].1.signatures.len() - 1 {
                    assert(st1.entries[0].1.signatures[k] == st.entries[0].1.signatures[k]);
                    assert(!resp_names(rest).contains(n));
                } else {
                    assert(n == name);
                }
                if resp_names(rest.skip(1)).contains(n) {
                    let t = choose|t: int|
                        0 <= t < resp_names(rest.skip(1)).len() && resp_names(rest.skip(1))[t]
                            == n;
                    assert(resp_names(rest)[t + 1] == n);
                }
            }
            assert(stepped.1 is None);
            lemma_pcert_fold_live(c, expected, d, st1, rest.skip(1));
        } else {
            // a failure: the bad tally stays at or under the validity threshold
            let st1 = stepped.0;
            assert(st1.entries == st.entries);
            assert(st1.bad_stake == st.bad_stake + c.stake_of(name));
            assert(st1.bad_stake <= c.validity_threshold_spec());
            assert(stepped.1 is None);
            assert(st.entries.len() == 1 ==> forall|k: int|
                0 <= k < st1.entries[0].1.signatures.len() ==> !resp_names(rest.skip(1)).contains(
                    (#[trigger] st1.entries[0].1.signatures[k]).0,
                )) by {
                if st.entries.len() == 1 {
                    assert forall|k: int|
                        0 <= k < st1.entries[0].1.signatures.len() implies !resp_names(
                        rest.skip(1),
                    ).contains((#[trigger] st1.entries[0].1.signatures[k]).0) by {
                        let n = st1.entries[0].1.signatures[k].0;
                        assert(!resp_names(rest).contains(n));
                        if resp_names(rest.skip(1)).contains(n) {
                            let t = choose|t: int|
                                0 <= t < resp_names(rest.skip(1)).len() && resp_names(
                                    rest.skip(1),
                                )[t] == n;
                            assert(resp_names(rest)[t + 1] == n);
                        }
                    }
                }
            };
            lemma_pcert_fold_live(c, expected, d, st1, rest.skip(1));
        }
    }
}

/// Liveness of certificate execution under bounded faults: when every
/// responder is a committee member, no two responses share a name, every
/// clean effects answer carries the one digest `d`, the stake of the useless
/// answers stays at or under the validity threshold, and the matching answers
/// carry at least a quorum of stake, the round runs to exhaustion and the
/// verdict certifies the effects under digest `d`.
pub proof fn lemma_process_certificate_liveness(
    c: Committee,
    expected: u64,
    d: TransactionEffectsDigest,
    responses: Seq<TransactionResponse>,
)
    requires
        c.well_formed(),
        resp_names(responses).no_duplicates(),
        forall|i: int| 0 <= i < responses.len() ==> c.contains_name((#[trigger] responses[i]).0),
        forall|i: int|
            0 <= i < responses.len() && pcert_is_effects(c, expected, #[trigger] responses[i])
                ==> pcert_is_vote(c, expected, d, responses[i]),
        pcert_bad_total(c, expected, responses) <= c.validity_threshold_spec(),
        pcert_vote_stake(c, expected, d, responses) >= c.quorum_threshold_spec(),
    ensures
        ({
            let folded = pcert_fold(c, expected, pcert_init(), responses);
            &&& folded.1 is Exhausted
            &&& pcert_finish(c, c.epoch, folded.0) matches PcertOutcome::Formed(i) && i == 0
                && folded.0.entries[0].0 == d
        }),
{
    lemma_pcert_fold_live(c, expected, d, pcert_init(), responses);
    let folded = pcert_fold(c, expected, pcert_init(), responses);
    lemma_first_quorum_index(c, folded.0.entries);
    assert(first_quorum_index(c, folded.0.entries) == 0);
}

} // verus!
