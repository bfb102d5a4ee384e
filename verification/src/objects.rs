//! Object and account queries across the committee: gathering the owned
//! object references reported by a quorum, aggregating per-object state keyed
//! by reference and parent certificate, and deciding object reads and sync
//! plans from the aggregate.

use vstd::prelude::*;

use crate::base_types::{AuthorityName, ObjectID, ObjectRef, TransactionDigest};
use crate::certs::{lemma_distinct_stake_bound, names_stake};
use crate::committee::Committee;
use crate::error::{AggregateError, ValidatorError};
use crate::messages::{
    AccountInfoResponse, CertifiedTransaction, Object, ObjectInfoResponse, ObjectRead,
    SignedTransaction,
};
use crate::safe_client::{check_object_info, object_info_ok};

verus! {

/// The digest standing for "no parent certificate": the object is a genesis
/// object.
pub const GENESIS_DIGEST: TransactionDigest = 0;

/// One validator's answer to an account info request.
pub type AccountResponse = (AuthorityName, Result<AccountInfoResponse, ValidatorError>);

/// One validator's answer to an object info request.
pub type ObjectResponse = (AuthorityName, Result<ObjectInfoResponse, ValidatorError>);

/// The names in an account response sequence.
pub open spec fn account_resp_names(responses: Seq<AccountResponse>) -> Seq<AuthorityName> {
    responses.map_values(|p: AccountResponse| p.0)
}

/// The names in an object response sequence.
pub open spec fn object_resp_names(responses: Seq<ObjectResponse>) -> Seq<AuthorityName> {
    responses.map_values(|p: ObjectResponse| p.0)
}

// ---------------------------------------------------------------------------
// Owned-object query: map each owned reference to the validators holding it.
// ---------------------------------------------------------------------------
/// Reducer state of the owned-objects query.
pub struct OwnedObjectsState {
    pub good_weight: int,
    pub bad_weight: int,
    pub object_map: Seq<(ObjectRef, Seq<AuthorityName>)>,
    pub responded: Seq<AuthorityName>,
    pub errors: Seq<(AuthorityName, ValidatorError)>,
}

/// The empty state.
pub open spec fn owned_init() -> OwnedObjectsState {
    OwnedObjectsState {
        good_weight: 0,
        bad_weight: 0,
        object_map: Seq::empty(),
        responded: Seq::empty(),
        errors: Seq::empty(),
    }
}

/// Index of the entry for `r`, or the length when absent.
pub open spec fn ref_index(m: Seq<(ObjectRef, Seq<AuthorityName>)>, r: ObjectRef) -> int
    decreases m.len(),
{
    if m.len() == 0 {
        0
    } else if m[0].0 == r {
        0
    } else {
        1 + ref_index(m.skip(1), r)
    }
}

/// `ref_index` finds the first entry with the key, or reports its absence.
pub proof fn lemma_ref_index(m: Seq<(ObjectRef, Seq<AuthorityName>)>, r: ObjectRef)
    ensures
        0 <= ref_index(m, r) <= m.len(),
        ref_index(m, r) < m.len() ==> m[ref_index(m, r)].0 == r,
        forall|k: int| 0 <= k < ref_index(m, r) ==> m[k].0 != r,
    decreases m.len(),
{
    if m.len() > 0 && m[0].0 != r {
        lemma_ref_index(m.skip(1), r);
        assert forall|k: int| 0 <= k < ref_index(m, r) implies m[k].0 != r by {
            if k > 0 {
                assert(m.skip(1)[k - 1] == m[k]);
            }
        }
    }
}

/// Appends `name` under key `r`, creating the entry when absent.
pub open spec fn add_ref(
    m: Seq<(ObjectRef, Seq<AuthorityName>)>,
    r: ObjectRef,
    name: AuthorityName,
) -> Seq<(ObjectRef, Seq<AuthorityName>)> {
    let i = ref_index(m, r);
    let base = if i == m.len() {
        m.push((r, Seq::empty()))
    } else {
        m
    };
    base.update(i, (r, base[i].1.push(name)))
}

/// Appends `name` under every key in `refs`, in order.
pub open spec fn add_refs(
    m: Seq<(ObjectRef, Seq<AuthorityName>)>,
    refs: Seq<ObjectRef>,
    name: AuthorityName,
) -> Seq<(ObjectRef, Seq<AuthorityName>)>
    decreases refs.len(),
{
    if refs.len() == 0 {
        m
    } else {
        add_ref(add_refs(m, refs.drop_last(), name), refs.last(), name)
    }
}

/// How the owned-objects query ended.
pub enum OwnedEnd {
    TooManyBad(Seq<(AuthorityName, ValidatorError)>),
    Exhausted,
}

/// One reducer step: the responder's stake counts toward the quorum whether or
/// not it answered correctly — any quorum of stake must include the latest
/// version of every owned object — while errors also count toward the bad
/// tally, and too much bad stake fails the query.
pub open spec fn owned_step(
    c: Committee,
    st: OwnedObjectsState,
    name: AuthorityName,
    raw: Result<AccountInfoResponse, ValidatorError>,
) -> (OwnedObjectsState, Option<OwnedEnd>) {
    let w = c.stake_of(name);
    match raw {
        Ok(resp) => (
            OwnedObjectsState {
                good_weight: st.good_weight + w,
                bad_weight: st.bad_weight,
                object_map: add_refs(st.object_map, resp.object_ids@, name),
                responded: st.responded.push(name),
                errors: st.errors,
            },
            None,
        ),
        Err(e) => {
            let st1 = OwnedObjectsState {
                good_weight: st.good_weight + w,
                bad_weight: st.bad_weight + w,
                object_map: st.object_map,
                responded: st.responded,
                errors: st.errors.push((name, e)),
            };
            if st1.bad_weight > c.validity_threshold_spec() {
                (st1, Some(OwnedEnd::TooManyBad(st1.errors)))
            } else {
                (st1, None)
            }
        },
    }
}

/// Folding a whole response sequence, in arrival order.
pub open spec fn owned_fold(
    c: Committee,
    st: OwnedObjectsState,
    responses: Seq<AccountResponse>,
) -> (OwnedObjectsState, OwnedEnd)
    decreases responses.len(),
{
    if responses.len() == 0 {
        (st, OwnedEnd::Exhausted)
    } else {
        let stepped = owned_step(c, st, responses[0].0, responses[0].1);
        match stepped.1 {
            Some(end) => (stepped.0, end),
            None => owned_fold(c, stepped.0, responses.skip(1)),
        }
    }
}

/// The view of the executable object map.
pub open spec fn object_map_view(v: Seq<(ObjectRef, Vec<AuthorityName>)>) -> Seq<(
    ObjectRef,
    Seq<AuthorityName>,
)> {
    v.map_values(|p: (ObjectRef, Vec<AuthorityName>)| (p.0, p.1@))
}

/// Runs the owned-objects query over the responses, in arrival order: returns
/// exactly what `owned_fold` says — the map from each owned object reference
/// to the validators holding it plus the list of responders, or the collected
/// errors once bad stake exceeds the validity threshold.
pub fn get_all_owned_objects(
    committee: &Committee,
    responses: Vec<AccountResponse>,
) -> (r: Result<(Vec<(ObjectRef, Vec<AuthorityName>)>, Vec<AuthorityName>), AggregateError>)
    requires
        committee.well_formed(),
        account_resp_names(responses@).no_duplicates(),
    ensures
        ({
            let folded = owned_fold(*committee, owned_init(), responses@);
            match folded.1 {
                OwnedEnd::TooManyBad(es) => r matches Err(
                    AggregateError::TooManyIncorrectAuthorities { errors },
                ) && errors@ == es,
                OwnedEnd::Exhausted => r matches Ok(pair) && object_map_view(pair.0@)
                    == folded.0.object_map && pair.1@ == folded.0.responded,
            }
        }),
{
    let ghost responses_view = responses@;
    let v = committee.validity_threshold();
    let mut remaining = responses;
    let mut object_map: Vec<(ObjectRef, Vec<AuthorityName>)> = Vec::new();
    let mut responded: Vec<AuthorityName> = Vec::new();
    let mut errors: Vec<(AuthorityName, ValidatorError)> = Vec::new();
    let mut good_weight: u64 = 0;
    let mut bad_weight: u64 = 0;
    let ghost mut processed: Seq<AuthorityName> = Seq::empty();
    let ghost mut failed: Seq<AuthorityName> = Seq::empty();
    proof {
        assert(account_resp_names(responses_view) =~= processed + account_resp_names(remaining@));
        assert(object_map_view(object_map@) =~= Seq::<(ObjectRef, Seq<AuthorityName>)>::empty());
    }
    while remaining.len() > 0
        invariant
            committee.well_formed(),
            responses_view == responses@,
            account_resp_names(responses_view).no_duplicates(),
            account_resp_names(responses_view) == processed + account_resp_names(remaining@),
            owned_fold(*committee, owned_init(), responses_view) == owned_fold(
                *committee,
                OwnedObjectsState {
                    good_weight: good_weight as int,
                    bad_weight: bad_weight as int,
                    object_map: object_map_view(object_map@),
                    responded: responded@,
                    errors: errors@,
                },
                remaining@,
            ),
            processed.no_duplicates(),
            good_weight == names_stake(*committee, processed),
            failed.no_duplicates(),
            bad_weight == names_stake(*committee, failed),
            forall|n: AuthorityName| #[trigger] failed.contains(n) ==> processed.contains(n),
            v == committee.validity_threshold_spec(),
        decreases remaining@.len(),
    {
        let ghost pre_remaining = remaining@;
        let ghost pre_state = OwnedObjectsState {
            good_weight: good_weight as int,
            bad_weight: bad_weight as int,
            object_map: object_map_view(object_map@),
            responded: responded@,
            errors: errors@,
        };
        let (name, raw) = remaining.remove(0);
        let ghost raw_view = raw;
        proof {
            assert(remaining@ =~= pre_remaining.skip(1));
            assert(pre_remaining[0] == (name, raw_view));
            let whole = account_resp_names(responses_view);
            assert(whole =~= processed + account_resp_names(pre_remaining));
            assert(account_resp_names(pre_remaining)[0] == name);
            assert(whole[processed.len() as int] == name);
            assert(!processed.contains(name)) by {
                if processed.contains(name) {
                    let k = choose|k: int| 0 <= k < processed.len() && processed[k] == name;
                    assert(whole[k] == name);
                }
            };
            assert(!failed.contains(name));
            assert(processed.push(name) + account_resp_names(remaining@) =~= account_resp_names(
                responses_view,
            ));
            crate::process_tx::lemma_push_fresh_distinct(processed, name);
            crate::process_tx::lemma_push_contains(processed, name);
            assert(processed.push(name).drop_last() =~= processed);
            crate::committee::lemma_stake_in_nonneg(committee.voting_rights@, name);
            lemma_distinct_stake_bound(*committee, processed.push(name));
        }
        let w = committee.weight(&name);
        let ghost stepped = owned_step(*committee, pre_state, name, raw_view);
        proof {
            match stepped.1 {
                Some(end) => {
                    assert(owned_fold(*committee, pre_state, pre_remaining) == (stepped.0, end));
                },
                None => {
                    assert(owned_fold(*committee, pre_state, pre_remaining) == owned_fold(
                        *committee,
                        stepped.0,
                        pre_remaining.skip(1),
                    ));
                },
            }
        }
        match raw {
            Ok(resp) => {
                good_weight = good_weight + w;
                responded.push(name);
                proof {
                    processed = processed.push(name);
                    assert forall|n: AuthorityName| #[trigger] failed.contains(n) implies
                        processed.contains(n) by {
                        assert(processed.drop_last().contains(n));
                        let t = choose|t: int|
                            0 <= t < processed.drop_last().len() && processed.drop_last()[t] == n;
                        assert(processed[t] == n);
                    }
                }
                // append this responder under every reference it reported
                let refs = resp.object_ids;
                let ghost m0 = object_map_view(object_map@);
                let mut k: usize = 0;
                while k < refs.len()
                    invariant
                        k <= refs@.len(),
                        object_map_view(object_map@) == add_refs(m0, refs@.take(k as int), name),
                    decreases refs@.len() - k,
                {
                    let ghost mk = object_map_view(object_map@);
                    let obj_ref = refs[k];
                    let mut idx: usize = 0;
                    let mut found = false;
                    while !found && idx < object_map.len()
                        invariant
                            idx <= object_map@.len(),
                            forall|t: int| 0 <= t < idx ==> object_map@[t].0 != obj_ref,
                            found ==> idx < object_map@.len() && object_map@[idx as int].0
                                == obj_ref,
                        decreases object_map@.len() - idx + if found { 0int } else { 1int },
                    {
                        if object_map[idx].0 == obj_ref {
                            found = true;
                        } else {
                            idx = idx + 1;
                        }
                    }
                    proof {
                        lemma_ref_index(mk, obj_ref);
                        assert(idx as int == ref_index(mk, obj_ref)) by {
                            if idx < object_map@.len() {
                                assert(mk[idx as int].0 == obj_ref);
                                if ref_index(mk, obj_ref) < idx {
                                    assert(mk[ref_index(mk, obj_ref)].0 == obj_ref);
                                }
                            } else {
                                assert(forall|t: int| 0 <= t < mk.len() ==> mk[t].0 != obj_ref);
                                if ref_index(mk, obj_ref) < mk.len() {
                                    assert(mk[ref_index(mk, obj_ref)].0 == obj_ref);
                                }
                            }
                        };
                    }
                    if idx == object_map.len() {
                        object_map.push((obj_ref, Vec::new()));
                        proof {
                            assert(object_map_view(object_map@) =~= mk.push(
                                (obj_ref, Seq::<AuthorityName>::empty()),
                            ));
                        }
                    }
                    let ghost base = object_map_view(object_map@);
                    let (key, holders) = object_map.remove(idx);
                    let new_entry = {
                        let mut h = holders;
                        h.push(name);
                        (key, h)
                    };
                    object_map.insert(idx, new_entry);
                    proof {
                        assert(object_map_view(object_map@) =~= base.update(
                            idx as int,
                            (obj_ref, base[idx as int].1.push(name)),
                        ));
                        assert(refs@.take(k + 1).drop_last() =~= refs@.take(k as int));
                        assert(refs@.take(k + 1).last() == refs@[k as int]);
                        assert(object_map_view(object_map@) == add_refs(
                            m0,
                            refs@.take(k + 1),
                            name,
                        ));
                    }
                    k = k + 1;
                }
                proof {
                    assert(refs@.take(refs@.len() as int) =~= refs@);
                    assert(object_map_view(object_map@) == stepped.0.object_map);
                    assert(stepped.1 is None);
                }
            },
            Err(e) => {
                errors.push((name, e));
                proof {
                    crate::process_tx::lemma_push_fresh_distinct(failed, name);
                    assert(failed.push(name).drop_last() =~= failed);
                    lemma_distinct_stake_bound(*committee, failed.push(name));
                    crate::process_tx::lemma_push_contains(failed, name);
                }
                good_weight = good_weight + w;
                bad_weight = bad_weight + w;
                proof {
                    failed = failed.push(name);
                    processed = processed.push(name);
                    assert forall|n: AuthorityName| #[trigger] failed.contains(n) implies
                        processed.contains(n) by {
                        let t = choose|t: int| 0 <= t < failed.len() && failed[t] == n;
                        if t < failed.len() - 1 {
                            assert(failed.drop_last()[t] == n);
                            assert(failed.drop_last().contains(n));
                        }
                        if processed.drop_last().contains(n) {
                            let u = choose|u: int|
                                0 <= u < processed.drop_last().len() && processed.drop_last()[u]
                                    == n;
                            assert(processed[u] == n);
                        }
                    }
                }
                if bad_weight > v {
                    proof {
                        assert(stepped.1 == Some(OwnedEnd::TooManyBad(errors@)));
                    }
                    return Err(AggregateError::TooManyIncorrectAuthorities { errors });
                }
                proof {
                    assert(stepped.1 is None);
                }
            },
        }
    }
    proof {
        assert(remaining@.len() == 0);
    }
    Ok((object_map, responded))
}

// ---------------------------------------------------------------------------
// Fetching one object: the first answer that pins the requested reference.
// ---------------------------------------------------------------------------
/// A response settles the fetch of `obj_ref` when it carries an object that is
/// shared (shared objects are never pinned by digest) or whose digest matches.
pub open spec fn fetch_hit(
    raw: Result<ObjectInfoResponse, ValidatorError>,
    obj_ref: ObjectRef,
) -> bool {
    raw matches Ok(resp) && resp.object_and_lock matches Some(ol) && (ol.object.shared
        || ol.object.digest == obj_ref.digest)
}

/// Index of the first response that settles the fetch.
pub open spec fn first_hit(
    responses: Seq<Result<ObjectInfoResponse, ValidatorError>>,
    obj_ref: ObjectRef,
) -> int
    decreases responses.len(),
{
    if responses.len() == 0 {
        0
    } else if fetch_hit(responses[0], obj_ref) {
        0
    } else {
        1 + first_hit(responses.skip(1), obj_ref)
    }
}

/// `first_hit` finds the first settling response, or reports its absence.
pub proof fn lemma_first_hit(
    responses: Seq<Result<ObjectInfoResponse, ValidatorError>>,
    obj_ref: ObjectRef,
)
    ensures
        0 <= first_hit(responses, obj_ref) <= responses.len(),
        first_hit(responses, obj_ref) < responses.len() ==> fetch_hit(
            responses[first_hit(responses, obj_ref)],
            obj_ref,
        ),
        forall|k: int| 0 <= k < first_hit(responses, obj_ref) ==> !fetch_hit(
            responses[k],
            obj_ref,
        ),
    decreases responses.len(),
{
    if responses.len() > 0 && !fetch_hit(responses[0], obj_ref) {
        lemma_first_hit(responses.skip(1), obj_ref);
        assert forall|k: int| 0 <= k < first_hit(responses, obj_ref) implies !fetch_hit(
            responses[k],
            obj_ref,
        ) by {
            if k > 0 {
                assert(responses.skip(1)[k - 1] == responses[k]);
            }
        }
    }
}

/// Picks the object from the first response that settles the fetch of
/// `obj_ref`; when no response does, the fetch has failed. All authorities are
/// assumed honest here, as the answers carry no signatures to check.
pub fn fetch_one_object(
    obj_ref: ObjectRef,
    responses: Vec<Result<ObjectInfoResponse, ValidatorError>>,
) -> (r: Result<Object, AggregateError>)
    ensures
        first_hit(responses@, obj_ref) < responses@.len() ==> (r matches Ok(o) && Some(o) == (
        match responses@[first_hit(responses@, obj_ref)] {
            Ok(resp) => match resp.object_and_lock {
                Some(ol) => Some(ol.object),
                None => None::<Object>,
            },
            Err(_) => None::<Object>,
        })),
        first_hit(responses@, obj_ref) == responses@.len() ==> r == Err::<Object, AggregateError>(
            AggregateError::ObjectFetchFailed { object_id: obj_ref.object_id },
        ),
{
    proof {
        lemma_first_hit(responses@, obj_ref);
    }
    let mut i: usize = 0;
    let n = responses.len();
    let mut remaining = responses;
    while remaining.len() > 0
        invariant
            i + remaining@.len() == n,
            remaining@ =~= responses@.skip(i as int),
            n == responses@.len(),
            forall|k: int| 0 <= k < i ==> !fetch_hit(responses@[k], obj_ref),
        decreases remaining@.len(),
    {
        let ghost pre = remaining@;
        let raw = remaining.remove(0);
        proof {
            assert(remaining@ =~= pre.skip(1));
            assert(pre[0] == responses@[i as int]);
            assert(responses@.skip(i as int).skip(1) =~= responses@.skip(i as int + 1));
        }
        match raw {
            Ok(resp) => {
                match resp.object_and_lock {
                    Some(ol) => {
                        if ol.object.is_shared() || ol.object.digest == obj_ref.digest {
                            proof {
                                lemma_first_hit(responses@, obj_ref);
                                assert(fetch_hit(responses@[i as int], obj_ref));
                                assert(first_hit(responses@, obj_ref) == i) by {
                                    lemma_first_hit(responses@, obj_ref);
                                    if first_hit(responses@, obj_ref) < i {
                                        assert(fetch_hit(
                                            responses@[first_hit(responses@, obj_ref)],
                                            obj_ref,
                                        ));
                                    }
                                };
                            }
                            return Ok(ol.object);
                        }
                    },
                    None => {},
                }
            },
            Err(_) => {},
        }
        i = i + 1;
    }
    proof {
        lemma_first_hit(responses@, obj_ref);
        assert(first_hit(responses@, obj_ref) == responses@.len()) by {
            if first_hit(responses@, obj_ref) < responses@.len() {
                assert(fetch_hit(responses@[first_hit(responses@, obj_ref)], obj_ref));
            }
        };
    }
    Err(AggregateError::ObjectFetchFailed { object_id: obj_ref.object_id })
}


// ---------------------------------------------------------------------------
// Object-by-id query: aggregate per (reference, parent digest) across the
// committee, with the highest version last.
// ---------------------------------------------------------------------------
/// One row of the aggregate: an object pinned at a version under the
/// transaction that produced it, with the validators that reported it.
pub struct ObjectByIdEntry {
    pub obj_ref: ObjectRef,
    pub parent_digest: TransactionDigest,
    pub object: Option<Object>,
    pub holders: Vec<(AuthorityName, Option<SignedTransaction>)>,
}

/// Strict order on aggregate keys: by reference, then by parent digest, so
/// that the highest version of an object comes last.
pub open spec fn key_lt(
    a: (ObjectRef, TransactionDigest),
    b: (ObjectRef, TransactionDigest),
) -> bool {
    a.0.lt_spec(b.0) || (a.0 == b.0 && a.1 < b.1)
}

/// The aggregate is strictly sorted by key.
pub open spec fn entries_sorted(s: Seq<ObjectByIdEntry>) -> bool {
    forall|i: int, j: int|
        0 <= i < j < s.len() ==> key_lt(
            (#[trigger] s[i]).obj_ref_key(),
            (#[trigger] s[j]).obj_ref_key(),
        )
}

impl ObjectByIdEntry {
    /// The entry's key.
    pub open spec fn obj_ref_key(self) -> (ObjectRef, TransactionDigest) {
        (self.obj_ref, self.parent_digest)
    }
}

/// Mathematical counterpart of `ObjectByIdEntry`.
pub struct ObjEntryModel {
    pub obj_ref: ObjectRef,
    pub parent_digest: TransactionDigest,
    pub object: Option<Object>,
    pub holders: Seq<(AuthorityName, Option<SignedTransaction>)>,
}

impl ObjEntryModel {
    /// The row's key.
    pub open spec fn entry_key(self) -> (ObjectRef, TransactionDigest) {
        (self.obj_ref, self.parent_digest)
    }
}

/// The view of the executable aggregate.
pub open spec fn obj_entries_view(v: Seq<ObjectByIdEntry>) -> Seq<ObjEntryModel> {
    v.map_values(
        |e: ObjectByIdEntry|
            ObjEntryModel {
                obj_ref: e.obj_ref,
                parent_digest: e.parent_digest,
                object: e.object,
                holders: e.holders@,
            },
    )
}

/// The model aggregate is strictly sorted by key.
pub open spec fn model_entries_sorted(s: Seq<ObjEntryModel>) -> bool {
    forall|i: int, j: int|
        0 <= i < j < s.len() ==> key_lt(
            (#[trigger] s[i]).entry_key(),
            (#[trigger] s[j]).entry_key(),
        )
}

/// Where a key goes in the aggregate: the number of leading rows that are
/// strictly below it.
pub open spec fn insertion_point(
    entries: Seq<ObjEntryModel>,
    key: (ObjectRef, TransactionDigest),
) -> int
    decreases entries.len(),
{
    if entries.len() == 0 {
        0
    } else if key_lt(entries[0].entry_key(), key) {
        1 + insertion_point(entries.skip(1), key)
    } else {
        0
    }
}

/// `insertion_point` counts exactly the leading rows below the key.
pub proof fn lemma_insertion_point(entries: Seq<ObjEntryModel>, key: (ObjectRef, TransactionDigest))
    ensures
        0 <= insertion_point(entries, key) <= entries.len(),
        forall|t: int|
            0 <= t < insertion_point(entries, key) ==> key_lt(
                (#[trigger] entries[t]).entry_key(),
                key,
            ),
        insertion_point(entries, key) < entries.len() ==> !key_lt(
            entries[insertion_point(entries, key)].entry_key(),
            key,
        ),
    decreases entries.len(),
{
    if entries.len() > 0 && key_lt(entries[0].entry_key(), key) {
        lemma_insertion_point(entries.skip(1), key);
        assert forall|t: int|
            0 <= t < insertion_point(entries, key) implies key_lt(
            (#[trigger] entries[t]).entry_key(),
            key,
        ) by {
            if t > 0 {
                assert(entries.skip(1)[t - 1] == entries[t]);
            }
        }
        if insertion_point(entries, key) < entries.len() {
            assert(entries.skip(1)[insertion_point(entries, key) - 1]
                == entries[insertion_point(entries, key)]);
        }
    }
}

/// One checked answer folded into the aggregate: the row for its key gains the
/// holder (keeping the first object seen), or a fresh row is inserted at its
/// sorted position.
pub open spec fn entries_upsert(
    entries: Seq<ObjEntryModel>,
    obj_ref: ObjectRef,
    parent_digest: TransactionDigest,
    object: Option<Object>,
    holder: (AuthorityName, Option<SignedTransaction>),
) -> Seq<ObjEntryModel> {
    let key = (obj_ref, parent_digest);
    let p = insertion_point(entries, key);
    if p < entries.len() && entries[p].entry_key() == key {
        entries.update(
            p,
            ObjEntryModel {
                obj_ref: entries[p].obj_ref,
                parent_digest: entries[p].parent_digest,
                object: entries[p].object,
                holders: entries[p].holders.push(holder),
            },
        )
    } else {
        entries.insert(
            p,
            ObjEntryModel { obj_ref, parent_digest, object, holders: seq![holder] },
        )
    }
}

/// The certificate map folded with one parent certificate: the first
/// certificate seen for a digest is kept.
pub open spec fn certs_upsert(
    certs: Seq<(TransactionDigest, CertifiedTransaction)>,
    cert: CertifiedTransaction,
) -> Seq<(TransactionDigest, CertifiedTransaction)> {
    if cert_for(certs, cert.transaction.digest_spec()) is Some {
        certs
    } else {
        certs.push((cert.transaction.digest_spec(), cert))
    }
}

/// A digest is stored exactly when some key equals it.
pub proof fn lemma_cert_for_present(
    certs: Seq<(TransactionDigest, CertifiedTransaction)>,
    d: TransactionDigest,
)
    ensures
        cert_for(certs, d) is Some <==> exists|k: int| 0 <= k < certs.len() && (
        #[trigger] certs[k]).0 == d,
    decreases certs.len(),
{
    if certs.len() > 0 && certs[0].0 != d {
        lemma_cert_for_present(certs.skip(1), d);
        if cert_for(certs, d) is Some {
            let k = choose|k: int|
                0 <= k < certs.skip(1).len() && (#[trigger] certs.skip(1)[k]).0 == d;
            assert(certs[k + 1].0 == d);
        }
        if exists|k: int| 0 <= k < certs.len() && (#[trigger] certs[k]).0 == d {
            let k = choose|k: int| 0 <= k < certs.len() && (#[trigger] certs[k]).0 == d;
            assert(certs.skip(1)[k - 1].0 == d);
        }
    }
}

/// One checked answer folded into both halves of the aggregate: an answer that
/// never saw the object is skipped; otherwise its (reference, parent digest)
/// row gains this authority, and a parent certificate is stored under its
/// digest, first one kept.
pub open spec fn aggregate_step(
    entries: Seq<ObjEntryModel>,
    certs: Seq<(TransactionDigest, CertifiedTransaction)>,
    name: AuthorityName,
    resp: ObjectInfoResponse,
) -> (Seq<ObjEntryModel>, Seq<(TransactionDigest, CertifiedTransaction)>) {
    match resp.requested_object_reference {
        None => (entries, certs),
        Some(oref) => {
            let parent_digest = match resp.parent_certificate {
                Some(c) => c.transaction.digest_spec(),
                None => GENESIS_DIGEST,
            };
            let object = match resp.object_and_lock {
                Some(ol) => Some(ol.object),
                None => None,
            };
            let lock = match resp.object_and_lock {
                Some(ol) => ol.lock,
                None => None,
            };
            let e2 = entries_upsert(entries, oref, parent_digest, object, (name, lock));
            let c2 = match resp.parent_certificate {
                Some(c) => certs_upsert(certs, c),
                None => certs,
            };
            (e2, c2)
        },
    }
}

/// The whole aggregation of the checked answers, in arrival order.
pub open spec fn aggregate_fold(
    entries: Seq<ObjEntryModel>,
    certs: Seq<(TransactionDigest, CertifiedTransaction)>,
    oks: Seq<(AuthorityName, ObjectInfoResponse)>,
) -> (Seq<ObjEntryModel>, Seq<(TransactionDigest, CertifiedTransaction)>)
    decreases oks.len(),
{
    if oks.len() == 0 {
        (entries, certs)
    } else {
        let stepped = aggregate_step(entries, certs, oks[0].0, oks[0].1);
        aggregate_fold(stepped.0, stepped.1, oks.skip(1))
    }
}

/// Decides `key_lt`.
fn key_lt_exec(a: (ObjectRef, TransactionDigest), b: (ObjectRef, TransactionDigest)) -> (r: bool)
    ensures
        r == key_lt(a, b),
{
    if a.0.lt(&b.0) {
        true
    } else if a.0 == b.0 {
        a.1 < b.1
    } else {
        false
    }
}

/// Reducer state of the object-by-id query.
pub struct ObjectByIdState {
    pub good_weight: int,
    pub bad_weight: int,
    pub oks: Seq<(AuthorityName, ObjectInfoResponse)>,
    pub errors: Seq<(AuthorityName, ValidatorError)>,
}

/// The empty state.
pub open spec fn object_by_id_init() -> ObjectByIdState {
    ObjectByIdState { good_weight: 0, bad_weight: 0, oks: Seq::empty(), errors: Seq::empty() }
}

/// How the object-by-id query ended.
pub enum ObjectByIdEnd {
    TooManyBad(Seq<(AuthorityName, ValidatorError)>),
    Exhausted,
}

/// One reducer step: responses are checked against the committee, every
/// responder's stake counts toward the quorum, and failing stake beyond the
/// validity threshold fails the query.
pub open spec fn object_by_id_step(
    c: Committee,
    object_id: ObjectID,
    st: ObjectByIdState,
    name: AuthorityName,
    raw: Result<ObjectInfoResponse, ValidatorError>,
) -> (ObjectByIdState, Option<ObjectByIdEnd>) {
    let w = c.stake_of(name);
    let checked: Result<ObjectInfoResponse, ValidatorError> = match raw {
        Ok(resp) => if object_info_ok(c, name, object_id, resp) {
            Ok(resp)
        } else {
            Err(ValidatorError::ByzantineAuthoritySuspicion { authority: name })
        },
        Err(e) => Err(e),
    };
    match checked {
        Ok(resp) => (
            ObjectByIdState {
                good_weight: st.good_weight + w,
                bad_weight: st.bad_weight,
                oks: st.oks.push((name, resp)),
                errors: st.errors,
            },
            None,
        ),
        Err(e) => {
            let st1 = ObjectByIdState {
                good_weight: st.good_weight + w,
                bad_weight: st.bad_weight + w,
                oks: st.oks,
                errors: st.errors.push((name, e)),
            };
            if st1.bad_weight > c.validity_threshold_spec() {
                (st1, Some(ObjectByIdEnd::TooManyBad(st1.errors)))
            } else {
                (st1, None)
            }
        },
    }
}

/// Folding a whole response sequence, in arrival order.
pub open spec fn object_by_id_fold(
    c: Committee,
    object_id: ObjectID,
    st: ObjectByIdState,
    responses: Seq<ObjectResponse>,
) -> (ObjectByIdState, ObjectByIdEnd)
    decreases responses.len(),
{
    if responses.len() == 0 {
        (st, ObjectByIdEnd::Exhausted)
    } else {
        let stepped = object_by_id_step(c, object_id, st, responses[0].0, responses[0].1);
        match stepped.1 {
            Some(end) => (stepped.0, end),
            None => object_by_id_fold(c, object_id, stepped.0, responses.skip(1)),
        }
    }
}

/// Inserts one checked answer into the sorted aggregate, creating or extending
/// the row for its (reference, parent digest) key exactly as `entries_upsert`
/// says: rows keep the first object seen and collect every holder.
fn upsert_entry(
    entries: &mut Vec<ObjectByIdEntry>,
    object_id: ObjectID,
    obj_ref: ObjectRef,
    parent_digest: TransactionDigest,
    object: Option<Object>,
    holder: (AuthorityName, Option<SignedTransaction>),
)
    requires
        entries_sorted(old(entries)@),
        forall|k: int|
            0 <= k < old(entries)@.len() ==> (#[trigger] old(entries)@[k]).obj_ref.object_id
                == object_id,
        obj_ref.object_id == object_id,
    ensures
        entries_sorted(final(entries)@),
        forall|k: int|
            0 <= k < final(entries)@.len() ==> (#[trigger] final(entries)@[k]).obj_ref.object_id
                == object_id,
        obj_entries_view(final(entries)@) == entries_upsert(
            obj_entries_view(old(entries)@),
            obj_ref,
            parent_digest,
            object,
            holder,
        ),
{
    let key = (obj_ref, parent_digest);
    let ghost pre = entries@;
    let ghost pre_model = obj_entries_view(entries@);
    let mut p: usize = 0;
    while p < entries.len() && key_lt_exec(
        (entries[p].obj_ref, entries[p].parent_digest),
        key,
    )
        invariant
            p <= entries@.len(),
            entries@ == pre,
            forall|t: int| 0 <= t < p ==> key_lt((#[trigger] pre[t]).obj_ref_key(), key),
        decreases entries@.len() - p,
    {
        p = p + 1;
    }
    proof {
        lemma_insertion_point(pre_model, key);
        assert(p as int == insertion_point(pre_model, key)) by {
            let ip = insertion_point(pre_model, key);
            if ip < p as int {
                assert(key_lt(pre[ip].obj_ref_key(), key));
                assert(pre_model[ip].entry_key() == pre[ip].obj_ref_key());
            } else if ip > p as int {
                assert(key_lt(pre_model[p as int].entry_key(), key));
                assert(pre_model[p as int].entry_key() == pre[p as int].obj_ref_key());
            }
        };
    }
    if p < entries.len() && entries[p].obj_ref == obj_ref && entries[p].parent_digest
        == parent_digest {
        // extend the existing row with this holder
        let mut row = entries.remove(p);
        row.holders.push(holder);
        entries.insert(p, row);
        proof {
            assert(entries@ =~= pre.update(p as int, entries@[p as int]));
            assert(entries@[p as int].obj_ref_key() == pre[p as int].obj_ref_key());
            assert forall|i: int, j: int|
                0 <= i < j < entries@.len() implies key_lt(
                (#[trigger] entries@[i]).obj_ref_key(),
                (#[trigger] entries@[j]).obj_ref_key(),
            ) by {
                assert(entries@[i].obj_ref_key() == pre[i].obj_ref_key());
                assert(entries@[j].obj_ref_key() == pre[j].obj_ref_key());
            }
            assert(pre_model[p as int].entry_key() == key);
            assert(obj_entries_view(entries@) =~= entries_upsert(
                pre_model,
                obj_ref,
                parent_digest,
                object,
                holder,
            ));
        }
    } else {
        proof {
            if p < pre.len() {
                crate::base_types::lemma_object_ref_order_total(pre[p as int].obj_ref, obj_ref);
                assert(key_lt(key, pre[p as int].obj_ref_key()));
            }
            pre.insert_ensures(
                p as int,
                ObjectByIdEntry {
                    obj_ref,
                    parent_digest,
                    object: arbitrary(),
                    holders: arbitrary(),
                },
            );
            pre_model.insert_ensures(
                p as int,
                ObjEntryModel { obj_ref, parent_digest, object, holders: seq![holder] },
            );
        }
        let mut holders: Vec<(AuthorityName, Option<SignedTransaction>)> = Vec::new();
        holders.push(holder);
        let row = ObjectByIdEntry { obj_ref, parent_digest, object, holders };
        entries.insert(p, row);
        proof {
            assert forall|i: int, j: int|
                0 <= i < j < entries@.len() implies key_lt(
                (#[trigger] entries@[i]).obj_ref_key(),
                (#[trigger] entries@[j]).obj_ref_key(),
            ) by {
                if i < p as int && j < p as int {
                    assert(entries@[i] == pre[i] && entries@[j] == pre[j]);
                } else if i < p as int && j == p as int {
                    assert(entries@[i] == pre[i]);
                    assert(entries@[j].obj_ref_key() == key);
                } else if i < p as int {
                    assert(entries@[i] == pre[i] && entries@[j] == pre[j - 1]);
                    assert(key_lt(pre[i].obj_ref_key(), pre[j - 1].obj_ref_key())
                        || i == j - 1) by {
                        if i < j - 1 {
                        }
                    };
                    if i == j - 1 {
                        assert(key_lt(pre[i].obj_ref_key(), key));
                        crate::base_types::lemma_object_ref_order_total(
                            pre[j - 1].obj_ref,
                            obj_ref,
                        );
                    }
                } else if i == p as int {
                    assert(entries@[j] == pre[j - 1]);
                    assert(!key_lt(pre[j - 1].obj_ref_key(), key));
                    crate::base_types::lemma_object_ref_order_total(pre[j - 1].obj_ref, obj_ref);
                } else {
                    assert(entries@[i] == pre[i - 1] && entries@[j] == pre[j - 1]);
                }
            }
            assert forall|k: int|
                0 <= k < entries@.len() implies (#[trigger] entries@[k]).obj_ref.object_id
                == object_id by {
                if k < p as int {
                    assert(entries@[k] == pre[k]);
                } else if k > p as int {
                    assert(entries@[k] == pre[k - 1]);
                }
            }
            // the fresh row carries exactly this holder
            assert(entries@[p as int].holders@ =~= seq![holder]);
            assert(!(insertion_point(pre_model, key) < pre_model.len()
                && pre_model[p as int].entry_key() == key)) by {
                if p < pre.len() {
                    assert(pre[p as int].obj_ref_key() != key);
                }
            };
            assert forall|k: int|
                0 <= k < entries@.len() implies obj_entries_view(entries@)[k] == entries_upsert(
                pre_model,
                obj_ref,
                parent_digest,
                object,
                holder,
            )[k] by {
                if k < p as int {
                    assert(entries@[k] == pre[k]);
                } else if k > p as int {
                    assert(entries@[k] == pre[k - 1]);
                }
            }
            assert(obj_entries_view(entries@) =~= entries_upsert(
                pre_model,
                obj_ref,
                parent_digest,
                object,
                holder,
            ));
        }
    }
}

/// Runs the object-by-id query over the responses, in arrival order: the
/// accounting follows `object_by_id_fold` exactly, and on success the checked
/// answers are aggregated into a map keyed by (reference, parent digest) —
/// strictly sorted, so the highest version of the object comes last — plus the
/// parent certificates seen, keyed by digest, each valid for the committee.
pub fn get_object_by_id(
    committee: &Committee,
    object_id: ObjectID,
    responses: Vec<ObjectResponse>,
) -> (r: Result<
    (Vec<ObjectByIdEntry>, Vec<(TransactionDigest, CertifiedTransaction)>),
    AggregateError,
>)
    requires
        committee.well_formed(),
        object_resp_names(responses@).no_duplicates(),
    ensures
        ({
            let folded = object_by_id_fold(*committee, object_id, object_by_id_init(), responses@);
            match folded.1 {
                ObjectByIdEnd::TooManyBad(es) => r matches Err(
                    AggregateError::TooManyIncorrectAuthorities { errors },
                ) && errors@ == es,
                ObjectByIdEnd::Exhausted => r matches Ok(pair) && {
                    &&& entries_sorted(pair.0@)
                    &&& forall|k: int|
                        0 <= k < pair.0@.len() ==> (#[trigger] pair.0@[k]).obj_ref.object_id
                            == object_id
                    &&& forall|k: int|
                        0 <= k < pair.1@.len() ==> (#[trigger] pair.1@[k]).1.valid(*committee)
                            && pair.1@[k].1.transaction.digest_spec() == pair.1@[k].0
                    &&& obj_entries_view(pair.0@) == aggregate_fold(
                        Seq::empty(),
                        Seq::empty(),
                        folded.0.oks,
                    ).0
                    &&& pair.1@ == aggregate_fold(Seq::empty(), Seq::empty(), folded.0.oks).1
                },
            }
        }),
{
    let ghost responses_view = responses@;
    let v = committee.validity_threshold();
    let mut remaining = responses;
    let mut oks: Vec<(AuthorityName, ObjectInfoResponse)> = Vec::new();
    let mut errors: Vec<(AuthorityName, ValidatorError)> = Vec::new();
    let mut good_weight: u64 = 0;
    let mut bad_weight: u64 = 0;
    let ghost mut processed: Seq<AuthorityName> = Seq::empty();
    let ghost mut failed: Seq<AuthorityName> = Seq::empty();
    proof {
        assert(object_resp_names(responses_view) =~= processed + object_resp_names(remaining@));
    }
    while remaining.len() > 0
        invariant
            committee.well_formed(),
            responses_view == responses@,
            object_resp_names(responses_view).no_duplicates(),
            object_resp_names(responses_view) == processed + object_resp_names(remaining@),
            object_by_id_fold(*committee, object_id, object_by_id_init(), responses_view)
                == object_by_id_fold(
                *committee,
                object_id,
                ObjectByIdState {
                    good_weight: good_weight as int,
                    bad_weight: bad_weight as int,
                    oks: oks@,
                    errors: errors@,
                },
                remaining@,
            ),
            processed.no_duplicates(),
            good_weight == names_stake(*committee, processed),
            failed.no_duplicates(),
            bad_weight == names_stake(*committee, failed),
            forall|n: AuthorityName| #[trigger] failed.contains(n) ==> processed.contains(n),
            forall|k: int|
                0 <= k < oks@.len() ==> object_info_ok(
                    *committee,
                    (#[trigger] oks@[k]).0,
                    object_id,
                    oks@[k].1,
                ),
            v == committee.validity_threshold_spec(),
        decreases remaining@.len(),
    {
        let ghost pre_remaining = remaining@;
        let ghost pre_state = ObjectByIdState {
            good_weight: good_weight as int,
            bad_weight: bad_weight as int,
            oks: oks@,
            errors: errors@,
        };
        let (name, raw) = remaining.remove(0);
        let ghost raw_view = raw;
        proof {
            assert(remaining@ =~= pre_remaining.skip(1));
            assert(pre_remaining[0] == (name, raw_view));
            let whole = object_resp_names(responses_view);
            assert(whole =~= processed + object_resp_names(pre_remaining));
            assert(object_resp_names(pre_remaining)[0] == name);
            assert(whole[processed.len() as int] == name);
            assert(!processed.contains(name)) by {
                if processed.contains(name) {
                    let k = choose|k: int| 0 <= k < processed.len() && processed[k] == name;
                    assert(whole[k] == name);
                }
            };
            assert(!failed.contains(name));
            assert(processed.push(name) + object_resp_names(remaining@) =~= object_resp_names(
                responses_view,
            ));
            crate::process_tx::lemma_push_fresh_distinct(processed, name);
            crate::process_tx::lemma_push_contains(processed, name);
            assert(processed.push(name).drop_last() =~= processed);
            crate::committee::lemma_stake_in_nonneg(committee.voting_rights@, name);
            lemma_distinct_stake_bound(*committee, processed.push(name));
        }
        let w = committee.weight(&name);
        let checked: Result<ObjectInfoResponse, ValidatorError> = match raw {
            Ok(resp) => check_object_info(committee, name, object_id, resp),
            Err(e) => Err(e),
        };
        let ghost stepped = object_by_id_step(*committee, object_id, pre_state, name, raw_view);
        proof {
            match stepped.1 {
                Some(end) => {
                    assert(object_by_id_fold(*committee, object_id, pre_state, pre_remaining) == (
                    stepped.0,
                    end,
                    ));
                },
                None => {
                    assert(object_by_id_fold(*committee, object_id, pre_state, pre_remaining)
                        == object_by_id_fold(
                        *committee,
                        object_id,
                        stepped.0,
                        pre_remaining.skip(1),
                    ));
                },
            }
        }
        match checked {
            Ok(resp) => {
                oks.push((name, resp));
                good_weight = good_weight + w;
                proof {
                    processed = processed.push(name);
                    assert(oks@ == pre_state.oks.push((name, resp)));
                    assert forall|n: AuthorityName| #[trigger] failed.contains(n) implies
                        processed.contains(n) by {
                        assert(processed.drop_last().contains(n));
                        let t = choose|t: int|
                            0 <= t < processed.drop_last().len() && processed.drop_last()[t] == n;
                        assert(processed[t] == n);
                    }
                    assert forall|k: int|
                        0 <= k < oks@.len() implies object_info_ok(
                        *committee,
                        (#[trigger] oks@[k]).0,
                        object_id,
                        oks@[k].1,
                    ) by {
                        if k < oks@.len() - 1 {
                            assert(oks@[k] == pre_state.oks[k]);
                        }
                    }
                    assert(stepped.1 is None);
                }
            },
            Err(e) => {
                errors.push((name, e));
                proof {
                    crate::process_tx::lemma_push_fresh_distinct(failed, name);
                    assert(failed.push(name).drop_last() =~= failed);
                    lemma_distinct_stake_bound(*committee, failed.push(name));
                    crate::process_tx::lemma_push_contains(failed, name);
                }
                good_weight = good_weight + w;
                bad_weight = bad_weight + w;
                proof {
                    failed = failed.push(name);
                    processed = processed.push(name);
                    assert forall|n: AuthorityName| #[trigger] failed.contains(n) implies
                        processed.contains(n) by {
                        let t = choose|t: int| 0 <= t < failed.len() && failed[t] == n;
                        if t < failed.len() - 1 {
                            assert(failed.drop_last()[t] == n);
                            assert(failed.drop_last().contains(n));
                        }
                        if processed.drop_last().contains(n) {
                            let u = choose|u: int|
                                0 <= u < processed.drop_last().len() && processed.drop_last()[u]
                                    == n;
                            assert(processed[u] == n);
                        }
                    }
                }
                if bad_weight > v {
                    proof {
                        assert(stepped.1 == Some(ObjectByIdEnd::TooManyBad(errors@)));
                    }
                    return Err(AggregateError::TooManyIncorrectAuthorities { errors });
                }
                proof {
                    assert(stepped.1 is None);
                }
            },
        }
    }
    // aggregate the checked answers into the sorted per-version map
    proof {
        assert(remaining@.len() == 0);
    }
    let mut entries: Vec<ObjectByIdEntry> = Vec::new();
    let mut certificates: Vec<(TransactionDigest, CertifiedTransaction)> = Vec::new();
    let mut rest = oks;
    let ghost oks_view = rest@;
    proof {
        assert(object_by_id_fold(*committee, object_id, object_by_id_init(), responses_view).0.oks
            == oks_view);
        assert(obj_entries_view(entries@) =~= Seq::<ObjEntryModel>::empty());
    }
    while rest.len() > 0
        invariant
            committee.well_formed(),
            entries_sorted(entries@),
            forall|k: int|
                0 <= k < entries@.len() ==> (#[trigger] entries@[k]).obj_ref.object_id
                    == object_id,
            forall|k: int|
                0 <= k < certificates@.len() ==> (#[trigger] certificates@[k]).1.valid(*committee)
                    && certificates@[k].1.transaction.digest_spec() == certificates@[k].0,
            forall|k: int|
                0 <= k < rest@.len() ==> object_info_ok(
                    *committee,
                    (#[trigger] rest@[k]).0,
                    object_id,
                    rest@[k].1,
                ),
            aggregate_fold(obj_entries_view(entries@), certificates@, rest@) == aggregate_fold(
                Seq::empty(),
                Seq::empty(),
                oks_view,
            ),
        decreases rest@.len(),
    {
        let ghost pre = rest@;
        let ghost pre_entries = obj_entries_view(entries@);
        let ghost pre_certs = certificates@;
        let (name, resp) = rest.remove(0);
        let ghost resp_view = resp;
        proof {
            assert(rest@ =~= pre.skip(1));
            assert(pre[0] == (name, resp_view));
            assert(object_info_ok(*committee, name, object_id, resp_view));
            assert forall|k: int|
                0 <= k < rest@.len() implies object_info_ok(
                *committee,
                (#[trigger] rest@[k]).0,
                object_id,
                rest@[k].1,
            ) by {
                assert(rest@[k] == pre[k + 1]);
            }
            assert(aggregate_fold(pre_entries, pre_certs, pre) == aggregate_fold(
                aggregate_step(pre_entries, pre_certs, name, resp_view).0,
                aggregate_step(pre_entries, pre_certs, name, resp_view).1,
                pre.skip(1),
            ));
        }
        let ghost stepped = aggregate_step(pre_entries, pre_certs, name, resp_view);
        let obj_ref = match resp.requested_object_reference {
            Some(oref) => oref,
            None => {
                // the object has never been seen at this authority
                proof {
                    assert(stepped.0 == pre_entries && stepped.1 == pre_certs);
                }
                continue;
            },
        };
        let (parent_digest, cert_option) = match resp.parent_certificate {
            Some(cert) => {
                let d = cert.digest();
                (d, Some(cert))
            },
            None => (GENESIS_DIGEST, None),
        };
        let (object_option, lock_option) = match resp.object_and_lock {
            Some(ol) => (Some(ol.object), ol.lock),
            None => (None, None),
        };
        upsert_entry(
            &mut entries,
            object_id,
            obj_ref,
            parent_digest,
            object_option,
            (name, lock_option),
        );
        proof {
            assert(obj_entries_view(entries@) == stepped.0);
        }
        match cert_option {
            Some(cert) => {
                let d = cert.digest();
                // keep one certificate per digest
                let mut exists_already = false;
                let mut t: usize = 0;
                while !exists_already && t < certificates.len()
                    invariant
                        t <= certificates@.len(),
                        certificates@ == pre_certs,
                        forall|k: int| 0 <= k < t ==> (#[trigger] certificates@[k]).0 != d,
                        exists_already ==> t < certificates@.len()
                            && certificates@[t as int].0 == d,
                    decreases certificates@.len() - t + if exists_already { 0int } else { 1int },
                {
                    if certificates[t].0 == d {
                        exists_already = true;
                    } else {
                        t = t + 1;
                    }
                }
                proof {
                    lemma_cert_for_present(pre_certs, d);
                }
                if !exists_already {
                    certificates.push((d, cert));
                    proof {
                        assert forall|k: int|
                            0 <= k < certificates@.len() implies (
                        #[trigger] certificates@[k]).1.valid(*committee)
                            && certificates@[k].1.transaction.digest_spec() == certificates@[k].0
                            by {
                            if k < certificates@.len() - 1 {
                            }
                        }
                        assert(cert_for(pre_certs, d) is None);
                        assert(certificates@ == stepped.1);
                    }
                } else {
                    proof {
                        assert(cert_for(pre_certs, d) is Some);
                        assert(certificates@ == stepped.1);
                    }
                }
            },
            None => {
                proof {
                    assert(certificates@ == stepped.1);
                }
            },
        }
    }
    proof {
        assert(rest@.len() == 0);
    }
    Ok((entries, certificates))
}



// ---------------------------------------------------------------------------
// Deciding object updates and reads from the aggregate.
// ---------------------------------------------------------------------------
/// The fields of a certificate, for stating what a copied certificate carries.
pub type CertModel = (u64, crate::messages::Transaction, Seq<(
    AuthorityName,
    crate::messages::AuthoritySignature,
)>);

/// The fields of a certificate.
pub open spec fn cert_model(c: CertifiedTransaction) -> CertModel {
    (c.epoch, c.transaction, c.signatures@)
}

/// The fields of an optional certificate.
pub open spec fn opt_cert_model(c: Option<CertifiedTransaction>) -> Option<CertModel> {
    match c {
        Some(cert) => Some(cert_model(cert)),
        None => None,
    }
}

/// The certificate stored under digest `d`, if any.
pub open spec fn cert_for(
    certs: Seq<(TransactionDigest, CertifiedTransaction)>,
    d: TransactionDigest,
) -> Option<CertifiedTransaction>
    decreases certs.len(),
{
    if certs.len() == 0 {
        None
    } else if certs[0].0 == d {
        Some(certs[0].1)
    } else {
        cert_for(certs.skip(1), d)
    }
}

/// The names holding an entry.
pub open spec fn holder_names(
    holders: Seq<(AuthorityName, Option<SignedTransaction>)>,
) -> Seq<AuthorityName> {
    holders.map_values(|p: (AuthorityName, Option<SignedTransaction>)| p.0)
}

/// The committee names that do not hold the entry: the validators that must be
/// brought forward with the responsible certificate.
pub open spec fn names_to_update(
    committee_names: Seq<AuthorityName>,
    holders: Seq<(AuthorityName, Option<SignedTransaction>)>,
) -> Seq<AuthorityName>
    decreases committee_names.len(),
{
    if committee_names.len() == 0 {
        Seq::empty()
    } else {
        let rest = names_to_update(committee_names.drop_last(), holders);
        if holder_names(holders).contains(committee_names.last()) {
            rest
        } else {
            rest.push(committee_names.last())
        }
    }
}

/// The decision walk, from the highest version down: a version without a
/// parent certificate is a genesis object, reported live without sync, and the
/// walk continues; the first version backed by a certificate settles the
/// object — live or deleted — and schedules every validator not holding it to
/// be updated with that certificate.
pub open spec fn plan_walk(
    committee_names: Seq<AuthorityName>,
    entries: Seq<ObjEntryModel>,
    certs: Seq<(TransactionDigest, CertifiedTransaction)>,
) -> (
    Seq<(Object, Option<CertModel>)>,
    Seq<(ObjectRef, Option<CertModel>)>,
    Option<(CertModel, Seq<AuthorityName>)>,
)
    decreases entries.len(),
{
    if entries.len() == 0 {
        (Seq::empty(), Seq::empty(), None)
    } else {
        let e = entries.last();
        match cert_for(certs, e.parent_digest) {
            None => {
                let rec = plan_walk(committee_names, entries.drop_last(), certs);
                match e.object {
                    Some(obj) => (seq![(obj, None::<CertModel>)] + rec.0, rec.1, rec.2),
                    None => rec,
                }
            },
            Some(cert) => {
                let to_update = names_to_update(committee_names, e.holders);
                match e.object {
                    Some(obj) => (
                        seq![(obj, Some(cert_model(cert)))],
                        Seq::empty(),
                        Some((cert_model(cert), to_update)),
                    ),
                    None => (
                        Seq::empty(),
                        seq![(e.obj_ref, Some(cert_model(cert)))],
                        Some((cert_model(cert), to_update)),
                    ),
                }
            },
        }
    }
}

/// What `plan_object_update` decides for one object.
pub struct ObjectUpdatePlan {
    pub active: Vec<(Object, Option<CertifiedTransaction>)>,
    pub deleted: Vec<(ObjectRef, Option<CertifiedTransaction>)>,
    pub cert_to_sync: Option<(CertifiedTransaction, Vec<AuthorityName>)>,
}

/// The fields carried by the live-object list.
pub open spec fn actives_view(v: Seq<(Object, Option<CertifiedTransaction>)>) -> Seq<(
    Object,
    Option<CertModel>,
)> {
    v.map_values(|p: (Object, Option<CertifiedTransaction>)| (p.0, opt_cert_model(p.1)))
}

/// The fields carried by the deleted-object list.
pub open spec fn deleted_view(v: Seq<(ObjectRef, Option<CertifiedTransaction>)>) -> Seq<(
    ObjectRef,
    Option<CertModel>,
)> {
    v.map_values(|p: (ObjectRef, Option<CertifiedTransaction>)| (p.0, opt_cert_model(p.1)))
}

/// Looks up a certificate by digest.
fn find_cert<'a>(
    certs: &'a Vec<(TransactionDigest, CertifiedTransaction)>,
    d: TransactionDigest,
) -> (r: Option<&'a CertifiedTransaction>)
    ensures
        match r {
            Some(c) => cert_for(certs@, d) == Some(*c),
            None => cert_for(certs@, d) is None,
        },
{
    proof {
        assert(certs@.skip(0) =~= certs@);
    }
    let mut i: usize = 0;
    while i < certs.len()
        invariant
            i <= certs@.len(),
            cert_for(certs@, d) == cert_for(certs@.skip(i as int), d),
        decreases certs@.len() - i,
    {
        proof {
            assert(certs@.skip(i as int)[0] == certs@[i as int]);
            assert(certs@.skip(i as int).skip(1) =~= certs@.skip(i as int + 1));
        }
        if certs[i].0 == d {
            return Some(&certs[i].1);
        }
        i = i + 1;
    }
    None
}

/// The names held by an entry, for membership tests.
fn holder_name_list(holders: &Vec<(AuthorityName, Option<SignedTransaction>)>) -> (out: Vec<
    AuthorityName,
>)
    ensures
        out@ == holder_names(holders@),
{
    let mut out: Vec<AuthorityName> = Vec::new();
    let mut i: usize = 0;
    while i < holders.len()
        invariant
            i <= holders@.len(),
            out@ == holder_names(holders@.take(i as int)),
        decreases holders@.len() - i,
    {
        out.push(holders[i].0);
        proof {
            assert(holder_names(holders@.take(i + 1)) =~= holder_names(
                holders@.take(i as int),
            ).push(holders@[i as int].0));
        }
        i = i + 1;
    }
    proof {
        assert(holders@.take(holders@.len() as int) =~= holders@);
    }
    out
}

/// Decides the update plan for one object from its aggregated versions,
/// exactly as `plan_walk` says, walking from the highest version down.
pub fn plan_object_update(
    committee: &Committee,
    entries: &Vec<ObjectByIdEntry>,
    certs: &Vec<(TransactionDigest, CertifiedTransaction)>,
) -> (r: ObjectUpdatePlan)
    ensures
        ({
            let walked = plan_walk(committee.names_spec(), obj_entries_view(entries@), certs@);
            &&& actives_view(r.active@) == walked.0
            &&& deleted_view(r.deleted@) == walked.1
            &&& match (r.cert_to_sync, walked.2) {
                (Some(p), Some(q)) => cert_model(p.0) == q.0 && p.1@ == q.1,
                (None, None) => true,
                _ => false,
            }
        }),
{
    let ghost names_view = committee.names_spec();
    let committee_names = committee.names();
    let mut active: Vec<(Object, Option<CertifiedTransaction>)> = Vec::new();
    let ghost model = obj_entries_view(entries@);
    let mut i: usize = entries.len();
    proof {
        assert(model.take(model.len() as int) =~= model);
        assert(actives_view(active@) =~= Seq::<(Object, Option<CertModel>)>::empty());
    }
    while i > 0
        invariant
            i <= entries@.len(),
            model == obj_entries_view(entries@),
            model.len() == entries@.len(),
            committee_names@ == names_view,
            names_view == committee.names_spec(),
            ({
                let walked = plan_walk(names_view, model, certs@);
                let rec = plan_walk(names_view, model.take(i as int), certs@);
                walked == (actives_view(active@) + rec.0, rec.1, rec.2)
            }),
        decreases i,
    {
        let ghost pre_active = active@;
        let e = &entries[i - 1];
        proof {
            assert(model.take(i as int).last() == model[i - 1]);
            assert(model.take(i as int).drop_last() =~= model.take(i - 1));
            assert(model[i - 1].parent_digest == entries@[i - 1].parent_digest);
            assert(model[i - 1].object == entries@[i - 1].object);
            assert(model[i - 1].obj_ref == entries@[i - 1].obj_ref);
            assert(model[i - 1].holders == entries@[i - 1].holders@);
        }
        match find_cert(certs, e.parent_digest) {
            None => {
                match &e.object {
                    Some(obj) => {
                        active.push((*obj, None));
                        proof {
                            assert(actives_view(active@) =~= actives_view(pre_active).push(
                                (*obj, None::<CertModel>),
                            ));
                            let rec_prev = plan_walk(names_view, model.take(i - 1), certs@);
                            assert(actives_view(pre_active) + (seq![(*obj, None::<CertModel>)]
                                + rec_prev.0) =~= actives_view(active@) + rec_prev.0);
                        }
                    },
                    None => {},
                }
            },
            Some(cert) => {
                let holders = holder_name_list(&e.holders);
                let mut to_update: Vec<AuthorityName> = Vec::new();
                let mut k: usize = 0;
                while k < committee_names.len()
                    invariant
                        k <= committee_names@.len(),
                        to_update@ == names_to_update(
                            committee_names@.take(k as int),
                            e.holders@,
                        ),
                        holders@ == holder_names(e.holders@),
                        committee_names@ == names_view,
                    decreases committee_names@.len() - k,
                {
                    proof {
                        assert(committee_names@.take(k + 1).drop_last() =~= committee_names@.take(
                            k as int,
                        ));
                        assert(committee_names@.take(k + 1).last() == committee_names@[k as int]);
                    }
                    let name = committee_names[k];
                    if !crate::committee::vec_contains(&holders, &name) {
                        to_update.push(name);
                    }
                    k = k + 1;
                }
                proof {
                    assert(committee_names@.take(committee_names@.len() as int)
                        =~= committee_names@);
                    assert(to_update@ == names_to_update(names_view, model[i - 1].holders));
                }
                match &e.object {
                    Some(obj) => {
                        active.push((*obj, Some(cert.duplicate())));
                        proof {
                            assert(actives_view(active@) =~= actives_view(pre_active) + seq![
                                (*obj, Some(cert_model(*cert))),
                            ]);
                        }
                        let empty_deleted: Vec<(ObjectRef, Option<CertifiedTransaction>)> =
                            Vec::new();
                        proof {
                            assert(deleted_view(empty_deleted@) =~= Seq::<(
                                ObjectRef,
                                Option<CertModel>,
                            )>::empty());
                        }
                        return ObjectUpdatePlan {
                            active,
                            deleted: empty_deleted,
                            cert_to_sync: Some((cert.duplicate(), to_update)),
                        };
                    },
                    None => {
                        let mut deleted: Vec<(ObjectRef, Option<CertifiedTransaction>)> =
                            Vec::new();
                        deleted.push((e.obj_ref, Some(cert.duplicate())));
                        proof {
                            assert(deleted_view(deleted@) =~= seq![
                                (e.obj_ref, Some(cert_model(*cert))),
                            ]);
                            assert(actives_view(active@) + Seq::<(
                                Object,
                                Option<CertModel>,
                            )>::empty() =~= actives_view(active@));
                        }
                        return ObjectUpdatePlan {
                            active,
                            deleted,
                            cert_to_sync: Some((cert.duplicate(), to_update)),
                        };
                    },
                }
            },
        }
        i = i - 1;
    }
    proof {
        assert(model.take(0) =~= Seq::<ObjEntryModel>::empty());
        assert(actives_view(active@) + Seq::<(Object, Option<CertModel>)>::empty()
            =~= actives_view(active@));
        assert(deleted_view(Seq::<(ObjectRef, Option<CertifiedTransaction>)>::empty())
            =~= Seq::<(ObjectRef, Option<CertModel>)>::empty());
    }
    ObjectUpdatePlan { active, deleted: Vec::new(), cert_to_sync: None }
}


// ---------------------------------------------------------------------------
// Reading an object's final state, and syncing whole object sets.
// ---------------------------------------------------------------------------
/// The recorded outcome of executing the certificate with digest `d`, when one
/// was computed: `None` when no outcome is recorded, `Some(None)` when the
/// execution failed, `Some(Some(ce))` when it produced certified effects.
pub open spec fn outcome_for(
    outcomes: Seq<(TransactionDigest, Option<crate::messages::CertifiedTransactionEffects>)>,
    d: TransactionDigest,
) -> Option<Option<crate::messages::CertifiedTransactionEffects>>
    decreases outcomes.len(),
{
    if outcomes.len() == 0 {
        None
    } else if outcomes[0].0 == d {
        Some(outcomes[0].1)
    } else {
        outcome_for(outcomes.skip(1), d)
    }
}

/// Stake held by an entry's holders.
pub open spec fn holders_stake(
    c: Committee,
    holders: Seq<(AuthorityName, Option<SignedTransaction>)>,
) -> int {
    names_stake(c, holder_names(holders))
}

/// The object-read decision, from the highest version down: a version vouched
/// for by a validity threshold of stake is accepted as is; a version below the
/// threshold is accepted only when re-running its parent certificate yielded
/// effects that created or mutated the reference; everything else is walked
/// past, and an exhausted walk means the object does not exist.
pub open spec fn read_walk(
    c: Committee,
    object_id: ObjectID,
    entries: Seq<ObjEntryModel>,
    certs: Seq<(TransactionDigest, CertifiedTransaction)>,
    outcomes: Seq<(TransactionDigest, Option<crate::messages::CertifiedTransactionEffects>)>,
) -> ObjectRead
    decreases entries.len(),
{
    if entries.len() == 0 {
        ObjectRead::NotExists { object_id }
    } else {
        let e = entries.last();
        let accepted = holders_stake(c, e.holders) >= c.validity_threshold_spec() || (cert_for(
            certs,
            e.parent_digest,
        ) is Some && (outcome_for(outcomes, e.parent_digest) matches Some(Some(ce))
            && ce.effects.is_object_mutated_here_spec(e.obj_ref)));
        if accepted {
            match e.object {
                Some(obj) => ObjectRead::Exists { obj_ref: e.obj_ref, object: obj },
                None => ObjectRead::Deleted { obj_ref: e.obj_ref },
            }
        } else {
            read_walk(c, object_id, entries.drop_last(), certs, outcomes)
        }
    }
}

/// Sums the holders' stakes without overflowing.
fn holders_stake_exec(
    c: &Committee,
    holders: &Vec<(AuthorityName, Option<SignedTransaction>)>,
) -> (r: u128)
    requires
        c.well_formed(),
    ensures
        r as int == holders_stake(*c, holders@),
{
    let mut acc: u128 = 0;
    let mut i: usize = 0;
    proof {
        assert(holder_names(holders@.take(0)) =~= Seq::<AuthorityName>::empty());
    }
    while i < holders.len()
        invariant
            i <= holders@.len(),
            c.well_formed(),
            acc as int == names_stake(*c, holder_names(holders@.take(i as int))),
            acc <= i * (u64::MAX as int),
        decreases holders@.len() - i,
    {
        let w = c.weight(&holders[i].0);
        proof {
            assert(holder_names(holders@.take(i + 1)) =~= holder_names(
                holders@.take(i as int),
            ).push(holders@[i as int].0));
            assert(holder_names(holders@.take(i + 1)).drop_last() =~= holder_names(
                holders@.take(i as int),
            ));
            crate::committee::lemma_stake_in_nonneg(c.voting_rights@, holders@[i as int].0);
        }
        acc = acc + (w as u128);
        i = i + 1;
    }
    proof {
        assert(holders@.take(holders@.len() as int) =~= holders@);
    }
    acc
}

/// Reads an object's final state from the aggregate, deciding exactly as
/// `read_walk` does with the supplied per-digest execution outcomes.
pub fn get_object_info_execute(
    committee: &Committee,
    object_id: ObjectID,
    entries: &Vec<ObjectByIdEntry>,
    certs: &Vec<(TransactionDigest, CertifiedTransaction)>,
    outcomes: &Vec<(TransactionDigest, Option<crate::messages::CertifiedTransactionEffects>)>,
) -> (r: ObjectRead)
    requires
        committee.well_formed(),
    ensures
        r == read_walk(*committee, object_id, obj_entries_view(entries@), certs@, outcomes@),
{
    let v = committee.validity_threshold();
    let ghost model = obj_entries_view(entries@);
    let mut i: usize = entries.len();
    proof {
        assert(model.take(model.len() as int) =~= model);
    }
    while i > 0
        invariant
            i <= entries@.len(),
            model == obj_entries_view(entries@),
            model.len() == entries@.len(),
            committee.well_formed(),
            v == committee.validity_threshold_spec(),
            read_walk(*committee, object_id, model, certs@, outcomes@) == read_walk(
                *committee,
                object_id,
                model.take(i as int),
                certs@,
                outcomes@,
            ),
        decreases i,
    {
        let e = &entries[i - 1];
        proof {
            assert(model.take(i as int).last() == model[i - 1]);
            assert(model.take(i as int).drop_last() =~= model.take(i - 1));
            assert(model[i - 1].holders == entries@[i - 1].holders@);
            assert(model[i - 1].parent_digest == entries@[i - 1].parent_digest);
            assert(model[i - 1].object == entries@[i - 1].object);
            assert(model[i - 1].obj_ref == entries@[i - 1].obj_ref);
        }
        let stake = holders_stake_exec(committee, &e.holders);
        let mut accepted = stake >= (v as u128);
        if !accepted {
            match find_cert(certs, e.parent_digest) {
                Some(_) => {
                    match find_outcome(outcomes, e.parent_digest) {
                        Some(outcome) => match outcome {
                            Some(ce) => {
                                if ce.effects.is_object_mutated_here(&e.obj_ref) {
                                    accepted = true;
                                }
                            },
                            None => {},
                        },
                        None => {},
                    }
                },
                None => {},
            }
        }
        if accepted {
            match &e.object {
                Some(obj) => {
                    return ObjectRead::Exists { obj_ref: e.obj_ref, object: *obj };
                },
                None => {
                    return ObjectRead::Deleted { obj_ref: e.obj_ref };
                },
            }
        }
        i = i - 1;
    }
    proof {
        assert(model.take(0) =~= Seq::<ObjEntryModel>::empty());
    }
    ObjectRead::NotExists { object_id }
}

/// Looks an execution outcome up by digest.
fn find_outcome<'a>(
    outcomes: &'a Vec<(TransactionDigest, Option<crate::messages::CertifiedTransactionEffects>)>,
    d: TransactionDigest,
) -> (r: Option<&'a Option<crate::messages::CertifiedTransactionEffects>>)
    ensures
        match r {
            Some(o) => outcome_for(outcomes@, d) == Some(*o),
            None => outcome_for(outcomes@, d) is None,
        },
{
    proof {
        assert(outcomes@.skip(0) =~= outcomes@);
    }
    let mut i: usize = 0;
    while i < outcomes.len()
        invariant
            i <= outcomes@.len(),
            outcome_for(outcomes@, d) == outcome_for(outcomes@.skip(i as int), d),
        decreases outcomes@.len() - i,
    {
        proof {
            assert(outcomes@.skip(i as int)[0] == outcomes@[i as int]);
            assert(outcomes@.skip(i as int).skip(1) =~= outcomes@.skip(i as int + 1));
        }
        if outcomes[i].0 == d {
            return Some(&outcomes[i].1);
        }
        i = i + 1;
    }
    None
}

/// Some per-object input carries this object id.
pub open spec fn given_ids_has(
    inputs: Seq<(ObjectID, Vec<ObjectResponse>)>,
    id: ObjectID,
) -> bool {
    exists|k: int| 0 <= k < inputs.len() && (#[trigger] inputs[k]).0 == id
}

/// Some owned reference carries this object id.
pub open spec fn owned_map_has_id(m: Seq<(ObjectRef, Seq<AuthorityName>)>, id: ObjectID) -> bool {
    exists|j: int| 0 <= j < m.len() && (#[trigger] m[j]).0.object_id == id
}

/// The fields carried by the sync-plan list.
pub open spec fn plans_view(v: Seq<(CertifiedTransaction, Vec<AuthorityName>)>) -> Seq<(
    CertModel,
    Seq<AuthorityName>,
)> {
    v.map_values(|p: (CertifiedTransaction, Vec<AuthorityName>)| (cert_model(p.0), p.1@))
}

/// The whole pass over every given object, in order: each object's responses
/// are folded and aggregated, the decision walk settles its fate, and the live
/// objects, tombstones and sync plans are concatenated; the first object whose
/// query fails fails the pass with that query's errors.
pub open spec fn given_objects_fold(
    c: Committee,
    inputs: Seq<(ObjectID, Vec<ObjectResponse>)>,
) -> Result<
    (
        Seq<(Object, Option<CertModel>)>,
        Seq<(ObjectRef, Option<CertModel>)>,
        Seq<(CertModel, Seq<AuthorityName>)>,
    ),
    Seq<(AuthorityName, ValidatorError)>,
>
    decreases inputs.len(),
{
    if inputs.len() == 0 {
        Ok((Seq::empty(), Seq::empty(), Seq::empty()))
    } else {
        let folded = object_by_id_fold(c, inputs[0].0, object_by_id_init(), inputs[0].1@);
        match folded.1 {
            ObjectByIdEnd::TooManyBad(es) => Err(es),
            ObjectByIdEnd::Exhausted => {
                let agg = aggregate_fold(Seq::empty(), Seq::empty(), folded.0.oks);
                let walked = plan_walk(c.names_spec(), agg.0, agg.1);
                match given_objects_fold(c, inputs.skip(1)) {
                    Ok(rest) => Ok(
                        (
                            walked.0 + rest.0,
                            walked.1 + rest.1,
                            (match walked.2 {
                                Some(p) => seq![p],
                                None => Seq::empty(),
                            }) + rest.2,
                        ),
                    ),
                    Err(es) => Err(es),
                }
            },
        }
    }
}

/// Moves every live-object row of `src` to the end of `dst`.
fn append_actives(
    dst: &mut Vec<(Object, Option<CertifiedTransaction>)>,
    src: Vec<(Object, Option<CertifiedTransaction>)>,
)
    ensures
        actives_view(final(dst)@) == actives_view(old(dst)@) + actives_view(src@),
{
    let ghost d0 = dst@;
    let ghost s0 = src@;
    let mut rest = src;
    proof {
        assert(actives_view(dst@) + actives_view(rest@) =~= actives_view(d0) + actives_view(s0));
    }
    while rest.len() > 0
        invariant
            actives_view(dst@) + actives_view(rest@) == actives_view(d0) + actives_view(s0),
        decreases rest@.len(),
    {
        let ghost pre_dst = dst@;
        let ghost pre_rest = rest@;
        let item = rest.remove(0);
        dst.push(item);
        proof {
            assert(rest@ =~= pre_rest.skip(1));
            assert(actives_view(pre_rest) =~= seq![
                (pre_rest[0].0, opt_cert_model(pre_rest[0].1)),
            ] + actives_view(rest@));
            assert(actives_view(dst@) =~= actives_view(pre_dst).push(
                (pre_rest[0].0, opt_cert_model(pre_rest[0].1)),
            ));
            assert(actives_view(dst@) + actives_view(rest@) =~= actives_view(pre_dst)
                + actives_view(pre_rest));
        }
    }
    proof {
        assert(actives_view(rest@) =~= Seq::<(Object, Option<CertModel>)>::empty());
        assert(actives_view(dst@) + actives_view(rest@) =~= actives_view(dst@));
    }
}

/// Moves every tombstone row of `src` to the end of `dst`.
fn append_deleted(
    dst: &mut Vec<(ObjectRef, Option<CertifiedTransaction>)>,
    src: Vec<(ObjectRef, Option<CertifiedTransaction>)>,
)
    ensures
        deleted_view(final(dst)@) == deleted_view(old(dst)@) + deleted_view(src@),
{
    let ghost d0 = dst@;
    let ghost s0 = src@;
    let mut rest = src;
    proof {
        assert(deleted_view(dst@) + deleted_view(rest@) =~= deleted_view(d0) + deleted_view(s0));
    }
    while rest.len() > 0
        invariant
            deleted_view(dst@) + deleted_view(rest@) == deleted_view(d0) + deleted_view(s0),
        decreases rest@.len(),
    {
        let ghost pre_dst = dst@;
        let ghost pre_rest = rest@;
        let item = rest.remove(0);
        dst.push(item);
        proof {
            assert(rest@ =~= pre_rest.skip(1));
            assert(deleted_view(pre_rest) =~= seq![
                (pre_rest[0].0, opt_cert_model(pre_rest[0].1)),
            ] + deleted_view(rest@));
            assert(deleted_view(dst@) =~= deleted_view(pre_dst).push(
                (pre_rest[0].0, opt_cert_model(pre_rest[0].1)),
            ));
            assert(deleted_view(dst@) + deleted_view(rest@) =~= deleted_view(pre_dst)
                + deleted_view(pre_rest));
        }
    }
    proof {
        assert(deleted_view(rest@) =~= Seq::<(ObjectRef, Option<CertModel>)>::empty());
        assert(deleted_view(dst@) + deleted_view(rest@) =~= deleted_view(dst@));
    }
}

/// Takes each object's responses to the aggregate-and-plan pipeline, exactly
/// as `given_objects_fold` says: the responses are checked and aggregated per
/// object, the highest version decides each object's fate, and every validator
/// lagging behind a certificate-backed version is scheduled for a sync with
/// that certificate. The first object whose query fails fails the whole pass.
pub fn sync_all_given_objects(
    committee: &Committee,
    object_responses: Vec<(ObjectID, Vec<ObjectResponse>)>,
) -> (r: Result<
    (
        Vec<(Object, Option<CertifiedTransaction>)>,
        Vec<(ObjectRef, Option<CertifiedTransaction>)>,
        Vec<(CertifiedTransaction, Vec<AuthorityName>)>,
    ),
    AggregateError,
>)
    requires
        committee.well_formed(),
        forall|k: int|
            0 <= k < object_responses@.len() ==> object_resp_names(
                (#[trigger] object_responses@[k]).1@,
            ).no_duplicates(),
    ensures
        ({
            match given_objects_fold(*committee, object_responses@) {
                Ok(t) => r matches Ok(out) && actives_view(out.0@) == t.0 && deleted_view(out.1@)
                    == t.1 && plans_view(out.2@) == t.2,
                Err(es) => r matches Err(AggregateError::TooManyIncorrectAuthorities { errors })
                    && errors@ == es,
            }
        }),
        r matches Ok(out) ==> forall|k: int|
            0 <= k < out.2@.len() ==> (#[trigger] out.2@[k]).0.valid(*committee),
{
    let ghost inputs_view = object_responses@;
    let mut active: Vec<(Object, Option<CertifiedTransaction>)> = Vec::new();
    let mut deleted: Vec<(ObjectRef, Option<CertifiedTransaction>)> = Vec::new();
    let mut plans: Vec<(CertifiedTransaction, Vec<AuthorityName>)> = Vec::new();
    let mut remaining = object_responses;
    proof {
        assert(actives_view(active@) =~= Seq::<(Object, Option<CertModel>)>::empty());
        assert(deleted_view(deleted@) =~= Seq::<(ObjectRef, Option<CertModel>)>::empty());
        assert(plans_view(plans@) =~= Seq::<(CertModel, Seq<AuthorityName>)>::empty());
        match given_objects_fold(*committee, remaining@) {
            Ok(t) => {
                assert(actives_view(active@) + t.0 =~= t.0);
                assert(deleted_view(deleted@) + t.1 =~= t.1);
                assert(plans_view(plans@) + t.2 =~= t.2);
            },
            Err(_) => {},
        }
    }
    while remaining.len() > 0
        invariant
            committee.well_formed(),
            inputs_view == object_responses@,
            forall|k: int|
                0 <= k < remaining@.len() ==> object_resp_names(
                    (#[trigger] remaining@[k]).1@,
                ).no_duplicates(),
            forall|k: int| 0 <= k < plans@.len() ==> (#[trigger] plans@[k]).0.valid(*committee),
            ({
                match given_objects_fold(*committee, remaining@) {
                    Ok(t) => given_objects_fold(*committee, inputs_view) == Ok::<
                        (
                            Seq<(Object, Option<CertModel>)>,
                            Seq<(ObjectRef, Option<CertModel>)>,
                            Seq<(CertModel, Seq<AuthorityName>)>,
                        ),
                        Seq<(AuthorityName, ValidatorError)>,
                    >(
                        (
                            actives_view(active@) + t.0,
                            deleted_view(deleted@) + t.1,
                            plans_view(plans@) + t.2,
                        ),
                    ),
                    Err(es) => given_objects_fold(*committee, inputs_view) == Err::<
                        (
                            Seq<(Object, Option<CertModel>)>,
                            Seq<(ObjectRef, Option<CertModel>)>,
                            Seq<(CertModel, Seq<AuthorityName>)>,
                        ),
                        Seq<(AuthorityName, ValidatorError)>,
                    >(es),
                }
            }),
        decreases remaining@.len(),
    {
        let ghost pre = remaining@;
        let (object_id, responses) = remaining.remove(0);
        let ghost responses_view = responses@;
        proof {
            assert(remaining@ =~= pre.skip(1));
            assert(pre[0] == (object_id, responses));
            assert forall|k: int| 0 <= k < remaining@.len() implies object_resp_names(
                (#[trigger] remaining@[k]).1@,
            ).no_duplicates() by {
                assert(remaining@[k] == pre[k + 1]);
            }
        }
        let ghost folded0 = object_by_id_fold(
            *committee,
            object_id,
            object_by_id_init(),
            responses_view,
        );
        let (entries, certs) = match get_object_by_id(committee, object_id, responses) {
            Ok(pair) => pair,
            Err(e) => {
                proof {
                    assert(folded0.1 matches ObjectByIdEnd::TooManyBad(_));
                }
                return Err(e);
            },
        };
        proof {
            assert(folded0.1 is Exhausted);
        }
        let ghost agg = aggregate_fold(
            Seq::empty(),
            Seq::empty(),
            folded0.0.oks,
        );
        let ghost walked = plan_walk(committee.names_spec(), agg.0, agg.1);
        proof {
            assert(obj_entries_view(entries@) == agg.0);
            assert(certs@ == agg.1);
        }
        let plan = plan_object_update(committee, &entries, &certs);
        let ghost pre_active_view = actives_view(active@);
        let ghost pre_deleted_view = deleted_view(deleted@);
        let ghost pre_plans_view = plans_view(plans@);
        let ghost pre_plans = plans@;
        append_actives(&mut active, plan.active);
        append_deleted(&mut deleted, plan.deleted);
        match plan.cert_to_sync {
            Some((cert, to_update)) => {
                proof {
                    lemma_plan_cert_valid(
                        *committee,
                        committee.names_spec(),
                        obj_entries_view(entries@),
                        certs@,
                    );
                }
                plans.push((cert, to_update));
                proof {
                    assert forall|k: int| 0 <= k < plans@.len() implies (
                    #[trigger] plans@[k]).0.valid(*committee) by {
                        if k < pre_plans.len() {
                            assert(plans@[k] == pre_plans[k]);
                        }
                    }
                    let q = walked.2->0;
                    assert(plans_view(plans@) =~= pre_plans_view + seq![q]);
                }
            },
            None => {
                proof {
                    assert(plans_view(plans@) + Seq::<(CertModel, Seq<AuthorityName>)>::empty()
                        =~= plans_view(plans@));
                }
            },
        }
        proof {
            match given_objects_fold(*committee, remaining@) {
                Ok(t) => {
                    assert(actives_view(active@) + t.0 =~= pre_active_view + (walked.0 + t.0));
                    assert(deleted_view(deleted@) + t.1 =~= pre_deleted_view + (walked.1 + t.1));
                    assert(plans_view(plans@) + t.2 =~= pre_plans_view + ((match walked.2 {
                        Some(p) => seq![p],
                        None => Seq::<(CertModel, Seq<AuthorityName>)>::empty(),
                    }) + t.2));
                },
                Err(_) => {},
            }
        }
    }
    proof {
        assert(remaining@.len() == 0);
        match given_objects_fold(*committee, remaining@) {
            Ok(t) => {
                assert(actives_view(active@) + t.0 =~= actives_view(active@));
                assert(deleted_view(deleted@) + t.1 =~= deleted_view(deleted@));
                assert(plans_view(plans@) + t.2 =~= plans_view(plans@));
            },
            Err(_) => {},
        }
    }
    Ok((active, deleted, plans))
}

/// Every certificate scheduled by the decision walk is one of the aggregated
/// parent certificates, so it is valid for the committee whenever they all are.
proof fn lemma_plan_cert_valid(
    c: Committee,
    names: Seq<AuthorityName>,
    entries: Seq<ObjEntryModel>,
    certs: Seq<(TransactionDigest, CertifiedTransaction)>,
)
    requires
        forall|k: int|
            0 <= k < certs.len() ==> (#[trigger] certs[k]).1.valid(c),
    ensures
        plan_walk(names, entries, certs).2 matches Some(p) ==> exists|k: int|
            0 <= k < certs.len() && crate::certs::signatures_form_quorum(
                c,
                p.0.0,
                (#[trigger] certs[k]).1.transaction.digest_spec(),
                p.0.2,
            ) && certs[k].1.epoch == p.0.0 && certs[k].1.transaction == p.0.1
                && certs[k].1.signatures@ == p.0.2,
    decreases entries.len(),
{
    if entries.len() > 0 {
        let e = entries.last();
        match cert_for(certs, e.parent_digest) {
            None => {
                lemma_plan_cert_valid(c, names, entries.drop_last(), certs);
            },
            Some(cert) => {
                lemma_cert_for_member(certs, e.parent_digest);
            },
        }
    }
}

/// A stored certificate found by digest is one of the stored certificates.
proof fn lemma_cert_for_member(
    certs: Seq<(TransactionDigest, CertifiedTransaction)>,
    d: TransactionDigest,
)
    requires
        cert_for(certs, d) is Some,
    ensures
        exists|k: int| 0 <= k < certs.len() && (#[trigger] certs[k]).1 == cert_for(certs, d)->0,
    decreases certs.len(),
{
    if certs.len() > 0 && certs[0].0 != d {
        lemma_cert_for_member(certs.skip(1), d);
        let k = choose|k: int|
            0 <= k < certs.skip(1).len() && (#[trigger] certs.skip(1)[k]).1 == cert_for(
                certs.skip(1),
                d,
            )->0;
        assert(certs[k + 1].1 == cert_for(certs, d)->0);
    }
}


/// Asks a quorum which objects an address owns, then takes each owned object's
/// responses through the aggregate-and-plan pipeline: all objects the address
/// was seen to own come back live or deleted, with the sync plans for lagging
/// validators. The caller runs one object query per reference reported by the
/// owned-objects quorum and hands the per-object responses in.
pub fn sync_all_owned_objects(
    committee: &Committee,
    account_responses: Vec<AccountResponse>,
    object_responses: Vec<(ObjectID, Vec<ObjectResponse>)>,
) -> (r: Result<
    (
        Vec<(Object, Option<CertifiedTransaction>)>,
        Vec<(ObjectRef, Option<CertifiedTransaction>)>,
        Vec<(CertifiedTransaction, Vec<AuthorityName>)>,
    ),
    AggregateError,
>)
    requires
        committee.well_formed(),
        account_resp_names(account_responses@).no_duplicates(),
        forall|k: int|
            0 <= k < object_responses@.len() ==> object_resp_names(
                (#[trigger] object_responses@[k]).1@,
            ).no_duplicates(),
        object_responses@.map_values(
            |p: (ObjectID, Vec<ObjectResponse>)| p.0,
        ).no_duplicates(),
        // one object query per distinct owned reference id, as the owned-objects
        // protocol runs them
        ({
            let owned = owned_fold(*committee, owned_init(), account_responses@);
            owned.1 is Exhausted ==> forall|id: ObjectID|
                #[trigger] given_ids_has(object_responses@, id) <==> owned_map_has_id(
                    owned.0.object_map,
                    id,
                )
        }),
    ensures
        ({
            let owned = owned_fold(*committee, owned_init(), account_responses@);
            match owned.1 {
                OwnedEnd::TooManyBad(es) => r matches Err(
                    AggregateError::TooManyIncorrectAuthorities { errors },
                ) && errors@ == es,
                OwnedEnd::Exhausted => match given_objects_fold(*committee, object_responses@) {
                    Ok(t) => r matches Ok(out) && actives_view(out.0@) == t.0 && deleted_view(
                        out.1@,
                    ) == t.1 && plans_view(out.2@) == t.2,
                    Err(es) => r matches Err(
                        AggregateError::TooManyIncorrectAuthorities { errors },
                    ) && errors@ == es,
                },
            }
        }),
        r matches Ok(out) ==> forall|k: int|
            0 <= k < out.2@.len() ==> (#[trigger] out.2@[k]).0.valid(*committee),
{
    let quorum_view = get_all_owned_objects(committee, account_responses);
    match quorum_view {
        Ok(_) => {},
        Err(e) => {
            return Err(e);
        },
    }
    sync_all_given_objects(committee, object_responses)
}

} // verus!
